//! Character-level helpers shared by the rest of the crate.
//!
//! Text is handled as sequences of characters: the functions here work on
//! `Vec<char>` and say what they return over `Seq<char>`.

use vstd::prelude::*;

verus! {

/// Whether `c` counts as white space when text is cut into words: whether it
/// is one of the characters with the Unicode property `White_Space`. These
/// are the code points 9 to 13, 32, 133, 160, 5760, 8192 to 8202, 8232,
/// 8233, 8239, 8287 and 12288.
pub open spec fn is_space(c: char) -> bool {
    let code = c as u32;
    ||| 9 <= code <= 13
    ||| code == 32
    ||| code == 133
    ||| code == 160
    ||| code == 5760
    ||| 8192 <= code <= 8202
    ||| code == 8232
    ||| code == 8233
    ||| code == 8239
    ||| code == 8287
    ||| code == 12288
}

/// Tells whether `c` is white space.
///
/// Wraps `char::is_whitespace` of the standard library, which answers by the
/// Unicode property `White_Space`; the contract lists the characters that
/// have that property.
#[verifier::external_body]
pub(crate) fn char_is_space(c: char) -> (yes: bool)
    ensures
        yes == is_space(c),
{
    c.is_whitespace()
}

/// Appends one character to `s`.
///
/// Wraps `String::push` of the standard library: afterwards the string holds
/// the characters it held before, followed by `c`.
#[verifier::external_body]
pub(crate) fn push_char(s: &mut String, c: char)
    ensures
        final(s)@ == old(s)@.push(c),
{
    s.push(c)
}

/// Tells whether two string slices hold the same characters.
///
/// Wraps `==` on `str` of the standard library, which compares the two
/// slices character by character.
#[verifier::external_body]
pub(crate) fn str_eq(a: &str, b: &str) -> (same: bool)
    ensures
        same == (a@ == b@),
{
    a == b
}

/// The texts that a vector of strings holds.
pub open spec fn texts(v: Seq<String>) -> Seq<Seq<char>> {
    Seq::new(v.len(), |i: int| v[i]@)
}

/// The texts that a vector of character vectors holds.
pub open spec fn rows(v: Seq<Vec<char>>) -> Seq<Seq<char>> {
    Seq::new(v.len(), |i: int| v[i]@)
}

/// The characters of `s`, in order.
pub fn to_chars(s: &str) -> (out: Vec<char>)
    ensures
        out@ == s@,
{
    let mut out: Vec<char> = Vec::new();
    for c in it: s.chars()
        invariant
            out@ == it.seq().take(it.index() as int),
            it.seq() == s@,
    {
        out.push(c);
    }
    out
}

/// The string made of the characters of `chars`, in order.
pub fn from_chars(chars: &Vec<char>) -> (out: String)
    ensures
        out@ == chars@,
{
    let mut out = String::new();
    let mut i: usize = 0;
    while i < chars.len()
        invariant
            i <= chars.len(),
            out@ == chars@.take(i as int),
        decreases chars.len() - i,
    {
        push_char(&mut out, chars[i]);
        i += 1;
    }
    out
}

/// The characters of `s` from place `from` up to, not including, place `to`.
pub fn copy_range(s: &Vec<char>, from: usize, to: usize) -> (out: Vec<char>)
    requires
        from <= to <= s.len(),
    ensures
        out@ == s@.subrange(from as int, to as int),
{
    let mut out: Vec<char> = Vec::new();
    let mut i: usize = from;
    while i < to
        invariant
            from <= i <= to <= s.len(),
            out@ == s@.subrange(from as int, i as int),
        decreases to - i,
    {
        out.push(s[i]);
        i += 1;
    }
    out
}

/// Appends the characters of `more` to `out`.
pub fn push_all(out: &mut Vec<char>, more: &Vec<char>)
    ensures
        final(out)@ == old(out)@ + more@,
{
    let mut i: usize = 0;
    while i < more.len()
        invariant
            i <= more.len(),
            out@ == old(out)@ + more@.take(i as int),
        decreases more.len() - i,
    {
        out.push(more[i]);
        i += 1;
    }
}

/// The place of the first `c` in `s`, or the length of `s` where `s` holds no
/// `c`.
pub open spec fn index_of(s: Seq<char>, c: char) -> int
    decreases s.len(),
{
    if s.len() == 0 || s[0] == c {
        0
    } else {
        1 + index_of(s.drop_first(), c)
    }
}

/// `index_of` is a place of `s` or its length, holds `c` where it is a place,
/// and no earlier place holds `c`.
pub proof fn lemma_index_of(s: Seq<char>, c: char)
    ensures
        0 <= index_of(s, c) <= s.len(),
        index_of(s, c) < s.len() ==> s[index_of(s, c)] == c,
        forall|j: int| 0 <= j < index_of(s, c) ==> s[j] != c,
    decreases s.len(),
{
    if s.len() > 0 && s[0] != c {
        let rest = s.drop_first();
        lemma_index_of(rest, c);
        assert forall|j: int| 0 <= j < index_of(s, c) implies s[j] != c by {
            if j > 0 {
                assert(s[j] == rest[j - 1]);
            }
        }
    }
}

/// A place that holds `c`, with no `c` before it, is `index_of`; so is the
/// length of a text without `c`.
pub proof fn lemma_index_of_is(s: Seq<char>, c: char, k: int)
    requires
        0 <= k <= s.len(),
        k < s.len() ==> s[k] == c,
        forall|j: int| 0 <= j < k ==> s[j] != c,
    ensures
        index_of(s, c) == k,
{
    lemma_index_of(s, c);
}

/// The place of the first `c` at or after `from`, or the length of `s`.
pub fn find_char(s: &Vec<char>, from: usize, c: char) -> (at: usize)
    requires
        from <= s.len(),
    ensures
        at == from + index_of(s@.skip(from as int), c),
        from <= at <= s.len(),
{
    let mut at: usize = from;
    while at < s.len() && s[at] != c
        invariant
            from <= at <= s.len(),
            forall|j: int| from <= j < at ==> s@[j] != c,
        decreases s.len() - at,
    {
        at += 1;
    }
    proof {
        let tail = s@.skip(from as int);
        lemma_index_of_is(tail, c, at - from);
    }
    at
}

/// Tells whether `s` begins with `prefix`.
pub fn starts_with(s: &Vec<char>, prefix: &Vec<char>) -> (yes: bool)
    ensures
        yes == prefix@.is_prefix_of(s@),
{
    if prefix.len() > s.len() {
        return false;
    }
    let mut i: usize = 0;
    while i < prefix.len()
        invariant
            i <= prefix.len() <= s.len(),
            forall|j: int| 0 <= j < i ==> s@[j] == prefix@[j],
        decreases prefix.len() - i,
    {
        if s[i] != prefix[i] {
            assert(s@.subrange(0, prefix@.len() as int)[i as int] != prefix@[i as int]);
            return false;
        }
        i += 1;
    }
    assert(s@.subrange(0, prefix@.len() as int) =~= prefix@);
    true
}

/// Tells whether `s` ends with `suffix`.
pub fn ends_with(s: &Vec<char>, suffix: &Vec<char>) -> (yes: bool)
    ensures
        yes == suffix@.is_suffix_of(s@),
{
    if suffix.len() > s.len() {
        return false;
    }
    let shift: usize = s.len() - suffix.len();
    let mut i: usize = 0;
    while i < suffix.len()
        invariant
            i <= suffix.len() <= s.len(),
            shift == s.len() - suffix.len(),
            forall|j: int| 0 <= j < i ==> s@[shift + j] == suffix@[j],
        decreases suffix.len() - i,
    {
        if s[shift + i] != suffix[i] {
            assert(s@.subrange(shift as int, s@.len() as int)[i as int] != suffix@[i as int]);
            return false;
        }
        i += 1;
    }
    assert(s@.subrange(shift as int, s@.len() as int) =~= suffix@);
    true
}

/// The pieces of `s` between the occurrences of `sep`: one piece more than
/// `s` holds separators, each possibly empty.
pub open spec fn split_on(s: Seq<char>, sep: char) -> Seq<Seq<char>>
    decreases s.len(),
{
    let k = index_of(s, sep);
    if 0 <= k < s.len() {
        seq![s.take(k)] + split_on(s.skip(k + 1), sep)
    } else {
        seq![s]
    }
}

/// Cutting a text gives at least one piece.
pub proof fn lemma_split_on_len(s: Seq<char>, sep: char)
    ensures
        split_on(s, sep).len() >= 1,
    decreases s.len(),
{
    let k = index_of(s, sep);
    if 0 <= k < s.len() {
        lemma_split_on_len(s.skip(k + 1), sep);
    }
}

/// Cuts `s` at every `sep`.
pub fn split_chars(s: &Vec<char>, sep: char) -> (out: Vec<Vec<char>>)
    ensures
        rows(out@) == split_on(s@, sep),
{
    let mut out: Vec<Vec<char>> = Vec::new();
    let mut start: usize = 0;
    assert(s@.skip(0) =~= s@);
    loop
        invariant_except_break
            start <= s.len(),
            split_on(s@, sep) == rows(out@) + split_on(s@.skip(start as int), sep),
        ensures
            rows(out@) == split_on(s@, sep),
        decreases s.len() - start,
    {
        let ghost tail = s@.skip(start as int);
        let ghost before = rows(out@);
        let at = find_char(s, start, sep);
        let piece = copy_range(s, start, at);
        out.push(piece);
        proof {
            assert(tail.take(at - start) =~= s@.subrange(start as int, at as int));
            assert(rows(out@) =~= before + seq![piece@]);
        }
        if at == s.len() {
            proof {
                assert(tail.take(at - start) =~= tail);
            }
            break;
        }
        proof {
            assert(tail.skip(at - start + 1) =~= s@.skip(at + 1));
        }
        start = at + 1;
    }
    out
}

/// `line` without the carriage return that it may end with.
pub open spec fn without_cr(line: Seq<char>) -> Seq<char> {
    if line.len() > 0 && line.last() == '\r' {
        line.drop_last()
    } else {
        line
    }
}

/// The lines of `s`. A line ends at a line feed, which is not part of it, nor
/// is a carriage return that stands just before the line feed. What follows
/// the last line feed is a line too, unless it is empty.
pub open spec fn lines_of(s: Seq<char>) -> Seq<Seq<char>>
    decreases s.len(),
{
    let k = index_of(s, '\n');
    if s.len() == 0 {
        Seq::empty()
    } else if 0 <= k < s.len() {
        seq![without_cr(s.take(k))] + lines_of(s.skip(k + 1))
    } else {
        seq![s]
    }
}

/// Cuts `s` into its lines.
pub fn split_lines(s: &Vec<char>) -> (out: Vec<Vec<char>>)
    ensures
        rows(out@) == lines_of(s@),
{
    let mut out: Vec<Vec<char>> = Vec::new();
    let mut start: usize = 0;
    assert(s@.skip(0) =~= s@);
    while start < s.len()
        invariant
            start <= s.len(),
            lines_of(s@) == rows(out@) + lines_of(s@.skip(start as int)),
        decreases s.len() - start,
    {
        let ghost tail = s@.skip(start as int);
        let ghost before = rows(out@);
        let at = find_char(s, start, '\n');
        if at == s.len() {
            let piece = copy_range(s, start, at);
            out.push(piece);
            proof {
                assert(s@.subrange(start as int, at as int) =~= tail);
                assert(rows(out@) =~= before + seq![piece@]);
                assert(s@.skip(at as int).len() == 0);
            }
            start = at;
        } else {
            let end = if at > start && s[at - 1] == '\r' {
                at - 1
            } else {
                at
            };
            let piece = copy_range(s, start, end);
            out.push(piece);
            proof {
                let line = tail.take(at - start);
                assert(line =~= s@.subrange(start as int, at as int));
                assert(piece@ =~= without_cr(line));
                assert(rows(out@) =~= before + seq![piece@]);
                assert(tail.skip(at - start + 1) =~= s@.skip(at + 1));
            }
            start = at + 1;
        }
    }
    assert(rows(out@) + Seq::<Seq<char>>::empty() =~= rows(out@));
    out
}

/// How many characters stand at the start of `s` before white space or the
/// end.
pub open spec fn word_len(s: Seq<char>) -> nat
    decreases s.len(),
{
    if s.len() == 0 || is_space(s[0]) {
        0
    } else {
        1 + word_len(s.drop_first())
    }
}

/// A word is no longer than its text.
pub proof fn lemma_word_len(s: Seq<char>)
    ensures
        word_len(s) <= s.len(),
        forall|j: int| 0 <= j < word_len(s) ==> !is_space(s[j]),
        word_len(s) < s.len() ==> is_space(s[word_len(s) as int]),
    decreases s.len(),
{
    if s.len() > 0 && !is_space(s[0]) {
        let rest = s.drop_first();
        lemma_word_len(rest);
        assert forall|j: int| 0 <= j < word_len(s) implies !is_space(s[j]) by {
            if j > 0 {
                assert(s[j] == rest[j - 1]);
            }
        }
    }
}

/// The words of `s`: the longest runs of characters that are not white space,
/// in order.
pub open spec fn words_of(s: Seq<char>) -> Seq<Seq<char>>
    decreases s.len(),
{
    let n = word_len(s) as int;
    if s.len() == 0 {
        Seq::empty()
    } else if is_space(s[0]) {
        words_of(s.drop_first())
    } else if 0 < n <= s.len() {
        seq![s.take(n)] + words_of(s.skip(n))
    } else {
        Seq::empty()
    }
}

/// Cuts `s` into its words.
pub fn split_words(s: &Vec<char>) -> (out: Vec<Vec<char>>)
    ensures
        rows(out@) == words_of(s@),
{
    let mut out: Vec<Vec<char>> = Vec::new();
    let mut start: usize = 0;
    assert(s@.skip(0) =~= s@);
    while start < s.len()
        invariant
            start <= s.len(),
            words_of(s@) == rows(out@) + words_of(s@.skip(start as int)),
        decreases s.len() - start,
    {
        let ghost tail = s@.skip(start as int);
        let ghost before = rows(out@);
        if char_is_space(s[start]) {
            proof {
                assert(tail.drop_first() =~= s@.skip(start + 1));
            }
            start += 1;
        } else {
            let mut end: usize = start + 1;
            proof {
                lemma_word_len(tail);
            }
            while end < s.len() && !char_is_space(s[end])
                invariant
                    start < end <= s.len(),
                    tail == s@.skip(start as int),
                    forall|j: int| start <= j < end ==> !is_space(s@[j]),
                decreases s.len() - end,
            {
                end += 1;
            }
            proof {
                lemma_word_len_is(tail, end - start);
            }
            let piece = copy_range(s, start, end);
            out.push(piece);
            proof {
                assert(tail.take(end - start) =~= s@.subrange(start as int, end as int));
                assert(rows(out@) =~= before + seq![piece@]);
                assert(tail.skip(end - start) =~= s@.skip(end as int));
            }
            start = end;
        }
    }
    assert(rows(out@) + Seq::<Seq<char>>::empty() =~= rows(out@));
    out
}

/// A run of `n` characters without white space, followed by white space or by
/// the end, is the first word.
pub proof fn lemma_word_len_is(s: Seq<char>, n: int)
    requires
        0 <= n <= s.len(),
        forall|j: int| 0 <= j < n ==> !is_space(s[j]),
        n < s.len() ==> is_space(s[n]),
    ensures
        word_len(s) == n,
    decreases s.len(),
{
    if n > 0 {
        let rest = s.drop_first();
        assert forall|j: int| 0 <= j < n - 1 implies !is_space(rest[j]) by {
            assert(rest[j] == s[j + 1]);
        }
        lemma_word_len_is(rest, n - 1);
    }
}

/// `s` with every occurrence of `pattern` replaced by `with`, reading from the
/// left and going on behind each occurrence. An empty pattern occurs nowhere.
pub open spec fn replaced(s: Seq<char>, pattern: Seq<char>, with: Seq<char>) -> Seq<char>
    decreases s.len(),
{
    if pattern.len() == 0 || s.len() < pattern.len() {
        s
    } else if pattern.is_prefix_of(s) {
        with + replaced(s.skip(pattern.len() as int), pattern, with)
    } else {
        seq![s[0]] + replaced(s.drop_first(), pattern, with)
    }
}

/// Replaces every occurrence of `pattern` in `s` by `with`.
pub fn replace_chars(s: &Vec<char>, pattern: &Vec<char>, with: &Vec<char>) -> (out: Vec<char>)
    ensures
        out@ == replaced(s@, pattern@, with@),
{
    let mut out: Vec<char> = Vec::new();
    if pattern.len() == 0 {
        push_all(&mut out, s);
        return out;
    }
    let mut start: usize = 0;
    assert(s@.skip(0) =~= s@);
    while s.len() - start >= pattern.len()
        invariant
            start <= s.len(),
            pattern.len() > 0,
            replaced(s@, pattern@, with@) == out@ + replaced(s@.skip(start as int), pattern@, with@),
        decreases s.len() - start,
    {
        let ghost tail = s@.skip(start as int);
        let ghost before = out@;
        let mut k: usize = 0;
        let mut same = true;
        while k < pattern.len()
            invariant
                k <= pattern.len() <= s.len() - start,
                same ==> forall|j: int| 0 <= j < k ==> s@[start + j] == pattern@[j],
                !same ==> exists|j: int| 0 <= j < pattern.len() && s@[start + j] != pattern@[j],
            decreases pattern.len() - k,
        {
            if s[start + k] != pattern[k] {
                same = false;
            }
            k += 1;
        }
        if same {
            push_all(&mut out, with);
            proof {
                assert(tail.subrange(0, pattern@.len() as int) =~= pattern@);
                assert(tail.skip(pattern@.len() as int) =~= s@.skip(start + pattern@.len()));
                assert(out@ + replaced(s@.skip(start + pattern@.len()), pattern@, with@) =~= before
                    + (with@ + replaced(tail.skip(pattern@.len() as int), pattern@, with@)));
            }
            start += pattern.len();
        } else {
            out.push(s[start]);
            proof {
                let j = choose|j: int| 0 <= j < pattern.len() && s@[start + j] != pattern@[j];
                assert(tail.subrange(0, pattern@.len() as int)[j] != pattern@[j]);
                assert(tail.drop_first() =~= s@.skip(start + 1));
                assert(out@ + replaced(s@.skip(start + 1), pattern@, with@) =~= before + (seq![
                    tail[0],
                ] + replaced(tail.drop_first(), pattern@, with@)));
            }
            start += 1;
        }
    }
    let rest = copy_range(s, start, s.len());
    push_all(&mut out, &rest);
    proof {
        assert(rest@ =~= s@.skip(start as int));
    }
    out
}

/// The place of the first `item` in `list`, or the length of `list` where it
/// does not hold `item`.
pub open spec fn place_of(list: Seq<Seq<char>>, item: Seq<char>) -> int
    decreases list.len(),
{
    if list.len() == 0 || list[0] == item {
        0
    } else {
        1 + place_of(list.drop_first(), item)
    }
}

/// `place_of` is a place of `list` or its length, holds `item` where it is a
/// place, and no earlier place holds `item`.
pub proof fn lemma_place_of(list: Seq<Seq<char>>, item: Seq<char>)
    ensures
        0 <= place_of(list, item) <= list.len(),
        place_of(list, item) < list.len() ==> list[place_of(list, item)] == item,
        forall|j: int| 0 <= j < place_of(list, item) ==> list[j] != item,
    decreases list.len(),
{
    if list.len() > 0 && list[0] != item {
        let rest = list.drop_first();
        lemma_place_of(rest, item);
        assert forall|j: int| 0 <= j < place_of(list, item) implies list[j] != item by {
            if j > 0 {
                assert(list[j] == rest[j - 1]);
            }
        }
    }
}

/// A place that holds `item`, with no `item` before it, is `place_of`; so is
/// the length of a list without `item`.
pub proof fn lemma_place_of_is(list: Seq<Seq<char>>, item: Seq<char>, k: int)
    requires
        0 <= k <= list.len(),
        k < list.len() ==> list[k] == item,
        forall|j: int| 0 <= j < k ==> list[j] != item,
    ensures
        place_of(list, item) == k,
{
    lemma_place_of(list, item);
}

/// The place of the first string of `list` that reads `item`, or the length
/// of `list`.
pub fn find_text(list: &Vec<String>, item: &str) -> (at: usize)
    ensures
        at == place_of(texts(list@), item@),
        at <= list.len(),
{
    let mut at: usize = 0;
    while at < list.len() && !str_eq(list[at].as_str(), item)
        invariant
            at <= list.len(),
            forall|j: int| 0 <= j < at ==> texts(list@)[j] != item@,
        decreases list.len() - at,
    {
        at += 1;
    }
    proof {
        lemma_place_of_is(texts(list@), item@, at as int);
    }
    at
}

/// The place of the first string of `list`, at or after place `from`, that
/// reads `item`, or the length of `list`.
pub fn find_text_from(list: &Vec<String>, from: usize, item: &str) -> (at: usize)
    requires
        from <= list.len(),
    ensures
        at == from + place_of(texts(list@).skip(from as int), item@),
        from <= at <= list.len(),
{
    let mut at: usize = from;
    while at < list.len() && !str_eq(list[at].as_str(), item)
        invariant
            from <= at <= list.len(),
            forall|j: int| from <= j < at ==> texts(list@)[j] != item@,
        decreases list.len() - at,
    {
        at += 1;
    }
    proof {
        lemma_place_of_is(texts(list@).skip(from as int), item@, at - from);
    }
    at
}

/// The place of the first text of `list` that occurs again later in `list`,
/// or the length of `list` where no text occurs twice.
pub open spec fn first_repeated(list: Seq<Seq<char>>) -> int
    decreases list.len(),
{
    if list.len() == 0 || place_of(list.drop_first(), list[0]) < list.len() - 1 {
        0
    } else {
        1 + first_repeated(list.drop_first())
    }
}

/// `first_repeated` is a place of `list` or its length; the text there occurs
/// again later; no earlier text does.
pub proof fn lemma_first_repeated(list: Seq<Seq<char>>)
    ensures
        0 <= first_repeated(list) <= list.len(),
        first_repeated(list) < list.len() ==> exists|j: int|
            first_repeated(list) < j < list.len() && #[trigger] list[j] == list[first_repeated(
                list,
            )],
        forall|i: int, j: int| 0 <= i < first_repeated(list) && i < j < list.len() ==> list[i] != list[j],
    decreases list.len(),
{
    if list.len() > 0 {
        let rest = list.drop_first();
        lemma_place_of(rest, list[0]);
        let at = place_of(rest, list[0]);
        if at < rest.len() {
            assert(list[at + 1] == list[0]);
        } else {
            lemma_first_repeated(rest);
            let found = first_repeated(rest);
            if found < rest.len() {
                let j = choose|j: int| found < j < rest.len() && #[trigger] rest[j] == rest[found];
                assert(list[j + 1] == list[found + 1]);
            }
            assert forall|i: int, j: int|
                0 <= i < first_repeated(list) && i < j < list.len() implies list[i] != list[j] by {
                if i == 0 {
                    assert(rest[j - 1] == list[j]);
                } else {
                    assert(rest[i - 1] == list[i]);
                    assert(rest[j - 1] == list[j]);
                }
            }
        }
    }
}

/// The place of the first string of `list` that occurs again later in it, or
/// the length of `list`.
pub fn find_repeated(list: &Vec<String>) -> (at: usize)
    ensures
        at == first_repeated(texts(list@)),
        at <= list.len(),
{
    let ghost all = texts(list@);
    let mut at: usize = 0;
    assert(all.skip(0) =~= all);
    while at < list.len()
        invariant
            at <= list.len(),
            all == texts(list@),
            first_repeated(all) == at + first_repeated(all.skip(at as int)),
        decreases list.len() - at,
    {
        let again = find_text_from(list, at + 1, list[at].as_str());
        proof {
            let tail = all.skip(at as int);
            assert(tail[0] == list@[at as int]@);
            assert(tail.drop_first() =~= all.skip(at + 1));
        }
        if again < list.len() {
            return at;
        }
        at += 1;
    }
    at
}

/// `a` comes before `b` in the order of strings: at the first place where
/// the two differ `a` has the character with the lower code point, or `a`
/// ends there and `b` does not.
pub open spec fn text_lt(a: Seq<char>, b: Seq<char>) -> bool
    decreases a.len(),
{
    if b.len() == 0 {
        false
    } else if a.len() == 0 {
        true
    } else if a[0] != b[0] {
        (a[0] as u32) < (b[0] as u32)
    } else {
        text_lt(a.drop_first(), b.drop_first())
    }
}

/// Different characters have different code points.
pub proof fn lemma_codes_differ(c: char, d: char)
    requires
        c != d,
    ensures
        c as u32 != d as u32,
{
}

/// No text comes before itself.
pub proof fn lemma_text_lt_self(a: Seq<char>)
    ensures
        !text_lt(a, a),
    decreases a.len(),
{
    if a.len() > 0 {
        lemma_text_lt_self(a.drop_first());
    }
}

/// Of two different texts one comes before the other, and never both.
pub proof fn lemma_text_order(a: Seq<char>, b: Seq<char>)
    ensures
        a != b ==> text_lt(a, b) || text_lt(b, a),
        !(text_lt(a, b) && text_lt(b, a)),
    decreases a.len(),
{
    if a.len() > 0 && b.len() > 0 {
        let x = a.drop_first();
        let y = b.drop_first();
        lemma_text_order(x, y);
        if a[0] == b[0] {
            if x == y {
                assert(a =~= seq![a[0]] + x);
                assert(b =~= seq![b[0]] + y);
            }
        } else {
            lemma_codes_differ(a[0], b[0]);
        }
    } else if a.len() == 0 && b.len() == 0 {
        assert(a =~= b);
    }
}

/// What comes before a text comes before everything behind that text.
pub proof fn lemma_text_lt_chain(a: Seq<char>, b: Seq<char>, c: Seq<char>)
    requires
        text_lt(a, b),
        text_lt(b, c),
    ensures
        text_lt(a, c),
    decreases a.len(),
{
    if a.len() > 0 && b.len() > 0 && c.len() > 0 {
        if a[0] == b[0] && b[0] == c[0] {
            lemma_text_lt_chain(a.drop_first(), b.drop_first(), c.drop_first());
        }
    }
}

/// Tells whether `a` comes before `b` in the order of strings.
pub fn text_less(a: &Vec<char>, b: &Vec<char>) -> (yes: bool)
    ensures
        yes == text_lt(a@, b@),
{
    let mut i: usize = 0;
    assert(a@.skip(0) =~= a@ && b@.skip(0) =~= b@);
    while i < a.len() && i < b.len()
        invariant
            i <= a.len(),
            i <= b.len(),
            text_lt(a@, b@) == text_lt(a@.skip(i as int), b@.skip(i as int)),
        decreases a.len() - i,
    {
        proof {
            assert(a@.skip(i as int).drop_first() =~= a@.skip(i + 1));
            assert(b@.skip(i as int).drop_first() =~= b@.skip(i + 1));
        }
        if a[i] != b[i] {
            return (a[i] as u32) < (b[i] as u32);
        }
        i += 1;
    }
    i < b.len()
}

} // verus!
