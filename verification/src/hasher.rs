//! Content digests of files and the store that remembers them between builds.
//!
//! A file counts as changed when the store holds no digest for its path, or
//! holds another one than the digest of what the file holds now. Nothing here
//! looks at modification times.

use crate::text::{copy_range, find_char, from_chars, push_all, split_lines, str_eq, to_chars};
use crate::text::{index_of, lines_of, rows, texts};
use vstd::prelude::*;
use vstd::slice::slice_subrange;

verus! {

/// The SHA-1 digest of `data`: the 20 bytes that the `sha1` crate computes
/// for a message made of these bytes.
pub uninterp spec fn sha1_digest(data: Seq<u8>) -> Seq<u8>;

/// A running SHA-1 computation of the `sha1` crate.
#[verifier::external_body]
pub struct Sha1State {
    inner: sha1::Sha1,
}

/// The bytes that a running computation has taken in so far, in order.
pub uninterp spec fn absorbed(state: Sha1State) -> Seq<u8>;

/// Starts a SHA-1 computation.
///
/// Wraps `Sha1::new` of the `sha1` crate: the new state has taken in nothing.
#[verifier::external_body]
fn sha1_start() -> (state: Sha1State)
    ensures
        absorbed(state) == Seq::<u8>::empty(),
{
    Sha1State { inner: <sha1::Sha1 as sha1::Digest>::new() }
}

/// Feeds `chunk` to a SHA-1 computation.
///
/// Wraps `Digest::update` of the `sha1` crate: the state has then taken in
/// what it had taken in before, followed by the bytes of `chunk`.
#[verifier::external_body]
fn sha1_absorb(state: &mut Sha1State, chunk: &[u8])
    ensures
        absorbed(*final(state)) == absorbed(*old(state)) + chunk@,
{
    sha1::Digest::update(&mut state.inner, chunk)
}

/// Ends a SHA-1 computation.
///
/// Wraps `Digest::finalize` of the `sha1` crate: the result is the digest of
/// all the bytes that the state has taken in, and SHA-1 digests have 20 bytes.
#[verifier::external_body]
fn sha1_finish(state: Sha1State) -> (digest: Vec<u8>)
    ensures
        digest@ == sha1_digest(absorbed(state)),
        digest@.len() == 20,
{
    sha1::Digest::finalize(state.inner).to_vec()
}

/// The lower-case hexadecimal digit for `n`, which is below 16.
pub open spec fn hex_digit_of(n: u8) -> char {
    if n == 0 {
        '0'
    } else if n == 1 {
        '1'
    } else if n == 2 {
        '2'
    } else if n == 3 {
        '3'
    } else if n == 4 {
        '4'
    } else if n == 5 {
        '5'
    } else if n == 6 {
        '6'
    } else if n == 7 {
        '7'
    } else if n == 8 {
        '8'
    } else if n == 9 {
        '9'
    } else if n == 10 {
        'a'
    } else if n == 11 {
        'b'
    } else if n == 12 {
        'c'
    } else if n == 13 {
        'd'
    } else if n == 14 {
        'e'
    } else {
        'f'
    }
}

/// `bytes` written as text: two lower-case hexadecimal digits for each byte,
/// the high four bits first.
pub open spec fn hex_of(bytes: Seq<u8>) -> Seq<char>
    decreases bytes.len(),
{
    if bytes.len() == 0 {
        Seq::empty()
    } else {
        hex_of(bytes.drop_last()).push(hex_digit_of(bytes.last() / 16)).push(
            hex_digit_of(bytes.last() % 16),
        )
    }
}

/// Hexadecimal text has two characters for each byte.
pub proof fn lemma_hex_len(bytes: Seq<u8>)
    ensures
        hex_of(bytes).len() == 2 * bytes.len(),
    decreases bytes.len(),
{
    if bytes.len() > 0 {
        lemma_hex_len(bytes.drop_last());
    }
}

/// The digest of `data` as the store writes it: 40 hexadecimal digits.
pub open spec fn digest_text(data: Seq<u8>) -> Seq<char> {
    hex_of(sha1_digest(data))
}

/// The lower-case hexadecimal digit for `n`.
pub fn hex_digit(n: u8) -> (c: char)
    requires
        n < 16,
    ensures
        c == hex_digit_of(n),
{
    if n == 0 {
        '0'
    } else if n == 1 {
        '1'
    } else if n == 2 {
        '2'
    } else if n == 3 {
        '3'
    } else if n == 4 {
        '4'
    } else if n == 5 {
        '5'
    } else if n == 6 {
        '6'
    } else if n == 7 {
        '7'
    } else if n == 8 {
        '8'
    } else if n == 9 {
        '9'
    } else if n == 10 {
        'a'
    } else if n == 11 {
        'b'
    } else if n == 12 {
        'c'
    } else if n == 13 {
        'd'
    } else if n == 14 {
        'e'
    } else {
        'f'
    }
}

/// Writes `bytes` as lower-case hexadecimal text.
pub fn to_hex(bytes: &Vec<u8>) -> (out: String)
    ensures
        out@ == hex_of(bytes@),
        out@.len() == 2 * bytes@.len(),
{
    proof {
        lemma_hex_len(bytes@);
    }
    let mut out: Vec<char> = Vec::new();
    let mut i: usize = 0;
    while i < bytes.len()
        invariant
            i <= bytes.len(),
            out@ == hex_of(bytes@.take(i as int)),
        decreases bytes.len() - i,
    {
        let b = bytes[i];
        out.push(hex_digit(b / 16));
        out.push(hex_digit(b % 16));
        proof {
            assert(bytes@.take(i + 1).drop_last() =~= bytes@.take(i as int));
        }
        i += 1;
    }
    assert(bytes@.take(i as int) =~= bytes@);
    from_chars(&out)
}

/// The most bytes that a file is asked for at a time.
pub const CHUNK_SIZE: usize = 1048576;

/// The digest of a file that is read piece by piece.
///
/// The hasher is made for a file of a known length, says how many bytes it
/// wants next, takes what was read, and gives the digest at the end. It never
/// wants more than `CHUNK_SIZE` bytes at a time, so the buffer that the file
/// is read into stays that small however large the file is.
pub struct FileHasher {
    state: Sha1State,
    remaining: u64,
}

impl FileHasher {
    /// The bytes fed so far.
    pub closed spec fn fed(&self) -> Seq<u8> {
        absorbed(self.state)
    }

    /// How many bytes of the file are still to come.
    pub closed spec fn left(&self) -> nat {
        self.remaining as nat
    }

    /// How many bytes the hasher wants next.
    pub open spec fn wanted_len(&self) -> nat {
        if self.left() < CHUNK_SIZE {
            self.left()
        } else {
            CHUNK_SIZE as nat
        }
    }

    /// A hasher for a file of `len` bytes.
    pub fn new(len: u64) -> (hasher: Self)
        ensures
            hasher.fed() == Seq::<u8>::empty(),
            hasher.left() == len,
    {
        FileHasher { state: sha1_start(), remaining: len }
    }

    /// How many bytes to read next; zero when the whole file was fed.
    pub fn wanted(&self) -> (n: usize)
        ensures
            n == self.wanted_len(),
    {
        if self.remaining < CHUNK_SIZE as u64 {
            self.remaining as usize
        } else {
            CHUNK_SIZE
        }
    }

    /// Takes the bytes that were read. An empty chunk says that the file has
    /// ended early: nothing more is wanted after it.
    pub fn feed(&mut self, chunk: &[u8])
        requires
            chunk@.len() <= old(self).wanted_len(),
        ensures
            final(self).fed() == old(self).fed() + chunk@,
            final(self).left() == if chunk@.len() == 0 {
                0
            } else {
                old(self).left() - chunk@.len()
            },
    {
        if chunk.len() == 0 {
            self.remaining = 0;
            assert(self.fed() + chunk@ =~= self.fed());
        } else {
            self.remaining = self.remaining - chunk.len() as u64;
            sha1_absorb(&mut self.state, chunk);
        }
    }

    /// The digest of the bytes that were fed, as hexadecimal text.
    pub fn finish(self) -> (digest: String)
        ensures
            digest@ == digest_text(self.fed()),
            digest@.len() == 40,
    {
        let bytes = sha1_finish(self.state);
        to_hex(&bytes)
    }
}

/// The digest of `content` as hexadecimal text.
pub fn hash_bytes(content: &[u8]) -> (digest: String)
    ensures
        digest@ == digest_text(content@),
        digest@.len() == 40,
{
    let mut hasher = FileHasher::new(content.len() as u64);
    let mut done: usize = 0;
    loop
        invariant_except_break
            done <= content.len(),
            hasher.fed() == content@.take(done as int),
            hasher.left() == content.len() - done,
        ensures
            hasher.fed() == content@,
        decreases content.len() - done,
    {
        let n = hasher.wanted();
        if n == 0 {
            assert(content@.take(done as int) =~= content@);
            break;
        }
        let chunk = slice_subrange(content, done, done + n);
        hasher.feed(chunk);
        proof {
            assert(content@.take(done as int) + chunk@ =~= content@.take(done + n));
        }
        done = done + n;
    }
    hasher.finish()
}

/// The entries of a store in the order in which they were first recorded:
/// each a path with its digest.
pub type Pairs = Seq<(Seq<char>, Seq<char>)>;

/// The place of the first entry for `path`, or the number of entries where
/// there is none.
pub open spec fn position(pairs: Pairs, path: Seq<char>) -> int
    decreases pairs.len(),
{
    if pairs.len() == 0 || pairs[0].0 == path {
        0
    } else {
        1 + position(pairs.drop_first(), path)
    }
}

/// `position` is a place of `pairs` or its length, holds an entry for `path`
/// where it is a place, and no earlier entry is for `path`.
pub proof fn lemma_position(pairs: Pairs, path: Seq<char>)
    ensures
        0 <= position(pairs, path) <= pairs.len(),
        position(pairs, path) < pairs.len() ==> pairs[position(pairs, path)].0 == path,
        forall|j: int| 0 <= j < position(pairs, path) ==> pairs[j].0 != path,
    decreases pairs.len(),
{
    if pairs.len() > 0 && pairs[0].0 != path {
        let rest = pairs.drop_first();
        lemma_position(rest, path);
        assert forall|j: int| 0 <= j < position(pairs, path) implies pairs[j].0 != path by {
            if j > 0 {
                assert(pairs[j] == rest[j - 1]);
            }
        }
    }
}

/// No two entries are for the same path.
pub open spec fn distinct_paths(pairs: Pairs) -> bool {
    forall|i: int, j: int| 0 <= i < j < pairs.len() ==> pairs[i].0 != pairs[j].0
}

/// The mapping from path to digest that the entries stand for.
pub open spec fn map_of(pairs: Pairs) -> Map<Seq<char>, Seq<char>> {
    Map::new(
        |path: Seq<char>| position(pairs, path) < pairs.len(),
        |path: Seq<char>| pairs[position(pairs, path)].1,
    )
}

/// The entries after `digest` was recorded for `path`: an entry for `path`
/// keeps its place and gets the digest, a new path goes to the end.
pub open spec fn upsert(pairs: Pairs, path: Seq<char>, digest: Seq<char>) -> Pairs {
    let at = position(pairs, path);
    if 0 <= at < pairs.len() {
        pairs.update(at, (path, digest))
    } else {
        pairs.push((path, digest))
    }
}

/// A place that holds an entry for `path`, with none before it, is
/// `position`; so is the number of entries where none is for `path`.
pub proof fn lemma_position_is(pairs: Pairs, path: Seq<char>, k: int)
    requires
        0 <= k <= pairs.len(),
        k < pairs.len() ==> pairs[k].0 == path,
        forall|j: int| 0 <= j < k ==> pairs[j].0 != path,
    ensures
        position(pairs, path) == k,
{
    lemma_position(pairs, path);
}

/// Where each path stands after a digest was recorded.
pub open spec fn position_after(pairs: Pairs, path: Seq<char>, other: Seq<char>) -> int {
    if other == path || position(pairs, other) < pairs.len() {
        position(pairs, other)
    } else if position(pairs, path) < pairs.len() {
        pairs.len() as int
    } else {
        (pairs.len() + 1) as int
    }
}

/// Recording a digest leaves every path at its place, and puts a new path at
/// the end.
pub proof fn lemma_upsert_position(
    pairs: Pairs,
    path: Seq<char>,
    digest: Seq<char>,
    other: Seq<char>,
)
    ensures
        position(upsert(pairs, path, digest), other) == position_after(pairs, path, other),
{
    let after = upsert(pairs, path, digest);
    lemma_position(pairs, path);
    lemma_position(pairs, other);
    let at = position(pairs, path);
    let old_at = position(pairs, other);
    if other == path {
        lemma_position_is(after, other, at);
    } else if old_at < pairs.len() {
        lemma_position_is(after, other, old_at);
    } else {
        lemma_position_is(after, other, after.len() as int);
    }
}

/// Recording a digest maps the path to it and changes nothing else, and
/// keeps the paths distinct.
pub proof fn lemma_upsert(pairs: Pairs, path: Seq<char>, digest: Seq<char>)
    ensures
        map_of(upsert(pairs, path, digest)) == map_of(pairs).insert(path, digest),
        distinct_paths(pairs) ==> distinct_paths(upsert(pairs, path, digest)),
{
    let after = upsert(pairs, path, digest);
    lemma_position(pairs, path);
    assert forall|other: Seq<char>|
        map_of(after).dom().contains(other) == map_of(pairs).insert(path, digest).dom().contains(
            other,
        ) by {
        lemma_upsert_position(pairs, path, digest, other);
    }
    assert forall|other: Seq<char>| #[trigger]
        map_of(after).dom().contains(other) implies map_of(after)[other] == map_of(pairs).insert(
        path,
        digest,
    )[other] by {
        lemma_upsert_position(pairs, path, digest, other);
        lemma_position(pairs, other);
    }
    assert(map_of(after) =~= map_of(pairs).insert(path, digest));
}

/// One path with the digest recorded for it.
pub struct HashEntry {
    path: String,
    digest: String,
}

/// The digests recorded for a target's files, by path.
pub struct PathHash {
    entries: Vec<HashEntry>,
}

impl View for PathHash {
    type V = Map<Seq<char>, Seq<char>>;

    open spec fn view(&self) -> Map<Seq<char>, Seq<char>> {
        map_of(self.pairs())
    }
}

impl PathHash {
    /// The entries, in the order in which their paths were first recorded.
    pub closed spec fn pairs(&self) -> Pairs {
        Seq::new(self.entries@.len(), |i: int| (self.entries@[i].path@, self.entries@[i].digest@))
    }

    /// No path has two entries.
    pub open spec fn wf(&self) -> bool {
        distinct_paths(self.pairs())
    }

    /// A store without entries.
    pub fn new() -> (store: Self)
        ensures
            store.pairs() == Seq::<(Seq<char>, Seq<char>)>::empty(),
            store.wf(),
    {
        let store = PathHash { entries: Vec::new() };
        assert(store.pairs() =~= Seq::<(Seq<char>, Seq<char>)>::empty());
        store
    }

    /// The number of entries.
    pub fn len(&self) -> (n: usize)
        ensures
            n == self.pairs().len(),
    {
        self.entries.len()
    }

    /// The path of the entry at place `i`.
    pub fn path_at(&self, i: usize) -> (path: &String)
        requires
            i < self.pairs().len(),
        ensures
            path@ == self.pairs()[i as int].0,
    {
        &self.entries[i].path
    }

    /// The digest of the entry at place `i`.
    pub fn digest_at(&self, i: usize) -> (digest: &String)
        requires
            i < self.pairs().len(),
        ensures
            digest@ == self.pairs()[i as int].1,
    {
        &self.entries[i].digest
    }

    /// The place of the entry for `path`, or the number of entries where there
    /// is none.
    pub fn find(&self, path: &str) -> (at: usize)
        ensures
            at == position(self.pairs(), path@),
            at <= self.pairs().len(),
    {
        let mut at: usize = 0;
        while at < self.entries.len() && !str_eq(self.entries[at].path.as_str(), path)
            invariant
                at <= self.entries@.len(),
                forall|j: int| 0 <= j < at ==> self.pairs()[j].0 != path@,
            decreases self.entries.len() - at,
        {
            at += 1;
        }
        proof {
            lemma_position(self.pairs(), path@);
            let p = position(self.pairs(), path@);
            if p < at {
                assert(self.pairs()[p].0 == path@);
            }
            if at < p {
                assert(self.pairs()[at as int].0 == path@);
            }
        }
        at
    }

    /// Records `digest` for `path`.
    pub fn set(&mut self, path: &str, digest: &str)
        ensures
            final(self).pairs() == upsert(old(self).pairs(), path@, digest@),
            final(self)@ == old(self)@.insert(path@, digest@),
            old(self).wf() ==> final(self).wf(),
    {
        let at = self.find(path);
        let entry = HashEntry { path: path.to_owned(), digest: digest.to_owned() };
        if at < self.entries.len() {
            self.entries.set(at, entry);
        } else {
            self.entries.push(entry);
        }
        proof {
            lemma_upsert(old(self).pairs(), path@, digest@);
            assert(self.pairs() =~= upsert(old(self).pairs(), path@, digest@));
        }
    }
}

/// The digest recorded for `path`, if there is one.
pub fn get_hash(path: &str, path_hash: &PathHash) -> (found: Option<String>)
    ensures
        found is Some <==> path_hash@.contains_key(path@),
        found matches Some(digest) ==> digest@ == path_hash@[path@],
{
    let at = path_hash.find(path);
    if at < path_hash.len() {
        Some(path_hash.digest_at(at).clone())
    } else {
        None
    }
}

/// Whether `path` maps to something else than `new_hash` in `stored`, or to
/// nothing.
pub open spec fn differs(
    stored: Map<Seq<char>, Seq<char>>,
    path: Seq<char>,
    new_hash: Seq<char>,
) -> bool {
    !stored.contains_key(path) || stored[path] != new_hash
}

/// Tells whether the file at `path` has changed since its digest was
/// recorded: `new_hash` is the digest of what the file holds now.
pub fn is_file_changed(path: &str, path_hash: &PathHash, new_hash: &str) -> (changed: bool)
    ensures
        changed == differs(path_hash@, path@, new_hash@),
{
    let at = path_hash.find(path);
    if at < path_hash.len() {
        !str_eq(path_hash.digest_at(at).as_str(), new_hash)
    } else {
        true
    }
}

/// Records `new_hash`, the digest of what the file at `path` holds now. The
/// store is left as it is where it holds that digest for the path already.
pub fn save_hash(path: &str, path_hash: &mut PathHash, new_hash: &str)
    ensures
        final(path_hash)@ == old(path_hash)@.insert(path@, new_hash@),
        final(path_hash).pairs() == upsert(old(path_hash).pairs(), path@, new_hash@),
        !differs(final(path_hash)@, path@, new_hash@),
        old(path_hash).wf() ==> final(path_hash).wf(),
{
    if is_file_changed(path, path_hash, new_hash) {
        path_hash.set(path, new_hash);
    } else {
        proof {
            let pairs = path_hash.pairs();
            lemma_position(pairs, path@);
            lemma_upsert(pairs, path@, new_hash@);
            assert(upsert(pairs, path@, new_hash@) =~= pairs);
        }
    }
}

/// The entries after the digest that `current` holds for `path` was recorded;
/// nothing is recorded for a path that `current` holds no digest for.
pub open spec fn record_one(pairs: Pairs, current: Map<Seq<char>, Seq<char>>, path: Seq<char>) -> Pairs {
    if current.contains_key(path) {
        upsert(pairs, path, current[path])
    } else {
        pairs
    }
}

/// The entries after the digests that `current` holds for the paths `paths`
/// were recorded, one after the other.
pub open spec fn record_all(
    pairs: Pairs,
    current: Map<Seq<char>, Seq<char>>,
    paths: Seq<Seq<char>>,
) -> Pairs
    decreases paths.len(),
{
    if paths.len() == 0 {
        pairs
    } else {
        record_all(record_one(pairs, current, paths[0]), current, paths.drop_first())
    }
}

/// Recording for two lists of paths in turn is recording for the two lists
/// joined.
pub proof fn lemma_record_all_joined(
    pairs: Pairs,
    current: Map<Seq<char>, Seq<char>>,
    first: Seq<Seq<char>>,
    second: Seq<Seq<char>>,
)
    ensures
        record_all(pairs, current, first + second) == record_all(
            record_all(pairs, current, first),
            current,
            second,
        ),
    decreases first.len(),
{
    if first.len() == 0 {
        assert(first + second =~= second);
    } else {
        assert((first + second).drop_first() =~= first.drop_first() + second);
        lemma_record_all_joined(
            record_one(pairs, current, first[0]),
            current,
            first.drop_first(),
            second,
        );
    }
}

/// After recording, a path of the list for which `current` holds a digest
/// maps to that digest, and every other path maps to what it mapped to
/// before. Distinct paths stay distinct.
pub proof fn lemma_record_all(
    pairs: Pairs,
    current: Map<Seq<char>, Seq<char>>,
    paths: Seq<Seq<char>>,
    path: Seq<char>,
)
    ensures
        paths.contains(path) && current.contains_key(path) ==> map_of(
            record_all(pairs, current, paths),
        ).contains_key(path) && map_of(record_all(pairs, current, paths))[path] == current[path],
        !(paths.contains(path) && current.contains_key(path)) ==> (map_of(
            record_all(pairs, current, paths),
        ).contains_key(path) <==> map_of(pairs).contains_key(path)) && (map_of(
            pairs,
        ).contains_key(path) ==> map_of(record_all(pairs, current, paths))[path] == map_of(
            pairs,
        )[path]),
        distinct_paths(pairs) ==> distinct_paths(record_all(pairs, current, paths)),
    decreases paths.len(),
{
    if paths.len() > 0 {
        let next = record_one(pairs, current, paths[0]);
        let rest = paths.drop_first();
        if current.contains_key(paths[0]) {
            lemma_upsert(pairs, paths[0], current[paths[0]]);
        }
        lemma_record_all(next, current, rest, path);
        if paths.contains(path) {
            let i = choose|i: int| 0 <= i < paths.len() && paths[i] == path;
            if i > 0 {
                assert(rest[i - 1] == path);
            }
        }
        if rest.contains(path) {
            let i = choose|i: int| 0 <= i < rest.len() && rest[i] == path;
            assert(paths[i + 1] == path);
        }
    }
}

/// Records, for each path of `paths`, the digest that `current` holds for it.
pub fn record_paths(path_hash: &mut PathHash, current: &PathHash, paths: &Vec<String>)
    ensures
        final(path_hash).pairs() == record_all(
            old(path_hash).pairs(),
            current@,
            texts(paths@),
        ),
        old(path_hash).wf() ==> final(path_hash).wf(),
{
    let ghost list = texts(paths@);
    let mut i: usize = 0;
    assert(list.skip(0) =~= list);
    while i < paths.len()
        invariant
            i <= paths.len(),
            list == texts(paths@),
            record_all(path_hash.pairs(), current@, list.skip(i as int)) == record_all(
                old(path_hash).pairs(),
                current@,
                list,
            ),
            old(path_hash).wf() ==> path_hash.wf(),
        decreases paths.len() - i,
    {
        let path = paths[i].as_str();
        proof {
            let tail = list.skip(i as int);
            assert(tail[0] == path@);
            assert(tail.drop_first() =~= list.skip(i + 1));
        }
        let at = current.find(path);
        if at < current.len() {
            proof {
                lemma_position(current.pairs(), path@);
            }
            save_hash(path, path_hash, current.digest_at(at).as_str());
        } else {
            proof {
                lemma_position(current.pairs(), path@);
            }
        }
        i += 1;
    }
}

/// The store after the line `line` of a hash file was read. A line holds a
/// path, a space and a digest, the digest ending at the next space or at the
/// end of the line. An empty line, or one without a space, records nothing.
pub open spec fn put_line(pairs: Pairs, line: Seq<char>) -> Pairs {
    let cut = index_of(line, ' ');
    let rest = line.skip(cut + 1);
    if 0 <= cut < line.len() {
        upsert(pairs, line.take(cut), rest.take(index_of(rest, ' ')))
    } else {
        pairs
    }
}

/// The store after the lines of a hash file were read in order.
pub open spec fn put_lines(pairs: Pairs, lines: Seq<Seq<char>>) -> Pairs
    decreases lines.len(),
{
    if lines.len() == 0 {
        pairs
    } else {
        put_lines(put_line(pairs, lines[0]), lines.drop_first())
    }
}

/// The entries that a hash file with the text `contents` holds.
pub open spec fn parsed_store(contents: Seq<char>) -> Pairs {
    put_lines(Seq::empty(), lines_of(contents))
}

/// Reading lines keeps the paths distinct.
pub proof fn lemma_put_lines_distinct(pairs: Pairs, lines: Seq<Seq<char>>)
    requires
        distinct_paths(pairs),
    ensures
        distinct_paths(put_lines(pairs, lines)),
    decreases lines.len(),
{
    if lines.len() > 0 {
        let line = lines[0];
        let cut = index_of(line, ' ');
        let rest = line.skip(cut + 1);
        lemma_upsert(pairs, line.take(cut), rest.take(index_of(rest, ' ')));
        lemma_put_lines_distinct(put_line(pairs, line), lines.drop_first());
    }
}

/// Reads the text of a hash file. A file that does not exist is read as the
/// empty text and gives the empty store.
pub fn load_hashes_from_file(contents: &str) -> (path_hash: PathHash)
    ensures
        path_hash.pairs() == parsed_store(contents@),
        path_hash.wf(),
{
    let chars = to_chars(contents);
    let lines = split_lines(&chars);
    let mut path_hash = PathHash::new();
    let mut i: usize = 0;
    assert(rows(lines@).skip(0) =~= rows(lines@));
    while i < lines.len()
        invariant
            i <= lines.len(),
            put_lines(path_hash.pairs(), rows(lines@).skip(i as int)) == parsed_store(contents@),
            rows(lines@) == lines_of(contents@),
            path_hash.wf(),
        decreases lines.len() - i,
    {
        let line = &lines[i];
        let ghost before = path_hash.pairs();
        let cut = find_char(line, 0, ' ');
        proof {
            assert(line@.skip(0) =~= line@);
            assert(rows(lines@).skip(i as int)[0] == line@);
            assert(rows(lines@).skip(i as int).drop_first() =~= rows(lines@).skip(i + 1));
        }
        if cut < line.len() {
            let end = find_char(line, cut + 1, ' ');
            let path = from_chars(&copy_range(line, 0, cut));
            let digest = from_chars(&copy_range(line, cut + 1, end));
            proof {
                let rest = line@.skip(cut + 1);
                assert(line@.subrange(0, cut as int) =~= line@.take(cut as int));
                assert(line@.subrange(cut + 1, end as int) =~= rest.take(index_of(rest, ' ')));
            }
            path_hash.set(path.as_str(), digest.as_str());
        }
        i += 1;
    }
    path_hash
}

/// The line of a hash file for one entry.
pub open spec fn entry_line(entry: (Seq<char>, Seq<char>)) -> Seq<char> {
    entry.0 + seq![' '] + entry.1 + seq!['\n']
}

/// The text of the hash file for the given entries: one line for each, in
/// order.
pub open spec fn store_text(pairs: Pairs) -> Seq<char>
    decreases pairs.len(),
{
    if pairs.len() == 0 {
        Seq::empty()
    } else {
        entry_line(pairs[0]) + store_text(pairs.drop_first())
    }
}

/// Writes the store as the text of its hash file.
pub fn save_hashes_to_file(path_hash: &PathHash) -> (contents: String)
    ensures
        contents@ == store_text(path_hash.pairs()),
{
    let ghost pairs = path_hash.pairs();
    let mut out: Vec<char> = Vec::new();
    let mut i: usize = 0;
    assert(pairs.skip(0) =~= pairs);
    while i < path_hash.len()
        invariant
            i <= path_hash.pairs().len(),
            pairs == path_hash.pairs(),
            out@ + store_text(pairs.skip(i as int)) == store_text(pairs),
        decreases path_hash.pairs().len() - i,
    {
        let ghost before = out@;
        let path = to_chars(path_hash.path_at(i).as_str());
        let digest = to_chars(path_hash.digest_at(i).as_str());
        push_all(&mut out, &path);
        out.push(' ');
        push_all(&mut out, &digest);
        out.push('\n');
        proof {
            let tail = pairs.skip(i as int);
            assert(tail[0] == pairs[i as int]);
            assert(tail.drop_first() =~= pairs.skip(i + 1));
            assert(out@ =~= before + entry_line(pairs[i as int]));
            assert(out@ + store_text(pairs.skip(i + 1)) =~= before + (entry_line(tail[0])
                + store_text(tail.drop_first())));
        }
        i += 1;
    }
    assert(out@ + Seq::<char>::empty() =~= out@);
    from_chars(&out)
}

/// A path that a line of a hash file can hold: without space and without
/// line feed.
pub open spec fn plain_path(path: Seq<char>) -> bool {
    forall|i: int| 0 <= i < path.len() ==> path[i] != ' ' && path[i] != '\n'
}

/// A digest that a line of a hash file can hold: without space, line feed and
/// carriage return.
pub open spec fn plain_digest(digest: Seq<char>) -> bool {
    forall|i: int|
        0 <= i < digest.len() ==> digest[i] != ' ' && digest[i] != '\n' && digest[i] != '\r'
}

/// Entries that a hash file can hold: no two for one path, and every path
/// and digest such that a line can hold it.
pub open spec fn writable(pairs: Pairs) -> bool {
    &&& distinct_paths(pairs)
    &&& forall|i: int|
        0 <= i < pairs.len() ==> plain_path((#[trigger] pairs[i]).0) && plain_digest(pairs[i].1)
}

/// The line of an entry without the line feed at its end.
pub open spec fn bare_line(entry: (Seq<char>, Seq<char>)) -> Seq<char> {
    entry.0 + seq![' '] + entry.1
}

/// The lines of the hash file for the given entries.
pub open spec fn store_lines(pairs: Pairs) -> Seq<Seq<char>> {
    Seq::new(pairs.len(), |i: int| bare_line(pairs[i]))
}

/// A text that begins with the line of an entry has that line as its first
/// line.
proof fn lemma_first_line(entry: (Seq<char>, Seq<char>), rest: Seq<char>)
    requires
        plain_path(entry.0),
        plain_digest(entry.1),
    ensures
        lines_of(entry_line(entry) + rest) == seq![bare_line(entry)] + lines_of(rest),
{
    let text = entry_line(entry) + rest;
    let line = bare_line(entry);
    let k = line.len() as int;
    assert(text[k] == '\n');
    assert forall|j: int| 0 <= j < k implies text[j] != '\n' by {
        if j < entry.0.len() {
            assert(text[j] == entry.0[j]);
        } else if j == entry.0.len() {
            assert(text[j] == ' ');
        } else {
            assert(text[j] == entry.1[j - entry.0.len() - 1]);
        }
    }
    crate::text::lemma_index_of_is(text, '\n', k);
    assert(text.take(k) =~= line);
    assert(text.skip(k + 1) =~= rest);
    if entry.1.len() > 0 {
        assert(line.last() == entry.1[entry.1.len() - 1]);
    } else {
        assert(line.last() == ' ');
    }
    assert(crate::text::without_cr(line) == line);
}

/// The lines of a written hash file are the lines of its entries.
proof fn lemma_store_lines(pairs: Pairs)
    requires
        writable(pairs),
    ensures
        lines_of(store_text(pairs)) == store_lines(pairs),
    decreases pairs.len(),
{
    if pairs.len() == 0 {
        assert(store_lines(pairs) =~= Seq::<Seq<char>>::empty());
    } else {
        let rest = pairs.drop_first();
        assert(writable(rest)) by {
            assert forall|i: int| 0 <= i < rest.len() implies plain_path((#[trigger] rest[i]).0)
                && plain_digest(rest[i].1) by {
                assert(rest[i] == pairs[i + 1]);
            }
            assert forall|i: int, j: int| 0 <= i < j < rest.len() implies rest[i].0 != rest[j].0 by {
                assert(rest[i] == pairs[i + 1]);
                assert(rest[j] == pairs[j + 1]);
            }
        }
        lemma_store_lines(rest);
        lemma_first_line(pairs[0], store_text(rest));
        assert(store_lines(pairs) =~= seq![bare_line(pairs[0])] + store_lines(rest));
    }
}

/// Reading the line of an entry records the entry.
proof fn lemma_put_bare_line(pairs: Pairs, entry: (Seq<char>, Seq<char>))
    requires
        plain_path(entry.0),
        plain_digest(entry.1),
    ensures
        put_line(pairs, bare_line(entry)) == upsert(pairs, entry.0, entry.1),
{
    let line = bare_line(entry);
    let cut = entry.0.len() as int;
    assert(line[cut] == ' ');
    assert forall|j: int| 0 <= j < cut implies line[j] != ' ' by {
        assert(line[j] == entry.0[j]);
    }
    crate::text::lemma_index_of_is(line, ' ', cut);
    let rest = line.skip(cut + 1);
    assert(rest =~= entry.1);
    crate::text::lemma_index_of_is(rest, ' ', rest.len() as int);
    assert(rest.take(rest.len() as int) =~= entry.1);
    assert(line.take(cut) =~= entry.0);
}

/// Reading the lines of entries whose paths are new, and differ from each
/// other, appends the entries.
proof fn lemma_put_store_lines(before: Pairs, pairs: Pairs)
    requires
        writable(before + pairs),
    ensures
        put_lines(before, store_lines(pairs)) == before + pairs,
    decreases pairs.len(),
{
    let all = before + pairs;
    if pairs.len() == 0 {
        assert(before + pairs =~= before);
    } else {
        let entry = pairs[0];
        let rest = pairs.drop_first();
        assert(all[before.len() as int] == entry);
        lemma_put_bare_line(before, entry);
        assert forall|j: int| 0 <= j < before.len() implies before[j].0 != entry.0 by {
            assert(all[j] == before[j]);
        }
        lemma_position_is(before, entry.0, before.len() as int);
        let next = before.push(entry);
        assert(upsert(before, entry.0, entry.1) == next);
        assert(next + rest =~= all);
        lemma_put_store_lines(next, rest);
        assert(store_lines(pairs)[0] == bare_line(entry));
        assert(store_lines(pairs).drop_first() =~= store_lines(rest));
    }
}

/// What is written to a hash file is what is read from it again, for entries
/// that a hash file can hold.
pub proof fn lemma_store_round_trip(pairs: Pairs)
    requires
        writable(pairs),
    ensures
        parsed_store(store_text(pairs)) == pairs,
{
    lemma_store_lines(pairs);
    let empty = Seq::<(Seq<char>, Seq<char>)>::empty();
    assert(empty + pairs =~= pairs);
    lemma_put_store_lines(empty, pairs);
}

/// A digest as this library computes it has only hexadecimal digits, so a
/// line of a hash file can hold it.
pub proof fn lemma_hex_is_plain(bytes: Seq<u8>)
    ensures
        plain_digest(hex_of(bytes)),
    decreases bytes.len(),
{
    if bytes.len() > 0 {
        lemma_hex_is_plain(bytes.drop_last());
    }
}

/// A file whose content is what it was when its digest was recorded has not
/// changed, whatever else about the file is different.
pub proof fn lemma_same_content_unchanged(
    stored: Map<Seq<char>, Seq<char>>,
    path: Seq<char>,
    content: Seq<u8>,
)
    requires
        stored.contains_key(path),
        stored[path] == digest_text(content),
    ensures
        !differs(stored, path, digest_text(content)),
{
}

} // verus!
