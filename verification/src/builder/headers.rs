//! The headers that a source file depends on.
//!
//! A line that begins with `#include "` names a header, by a path that is
//! taken from the target's directory of headers. A file depends on the headers
//! it names, on those that these name, and so on. The table below holds, for
//! one target, every header that was named so far and the headers that each
//! of them names; it is filled file by file, and answers with the headers that
//! a file depends on once every header in it was read.

use crate::graph::{
    all_nodes, edge, finish_order, graph_of, in_bounds, lemma_finish_order,
    reaches, reaches_from_any, walk_order, Graph,
};
use crate::text::{
    copy_range, find_char, find_text, from_chars, index_of, lemma_place_of, lemma_place_of_is,
    lines_of, place_of, rows, split_lines, starts_with, texts, to_chars,
};
use vstd::prelude::*;

verus! {

/// What a line that names a header begins with.
pub open spec fn marker() -> Seq<char> {
    "#include \""@
}

/// The header that `line` names: what stands between the first double quote
/// and the next one, or the end of the line.
pub open spec fn quoted(line: Seq<char>) -> Seq<char> {
    let rest = line.skip(index_of(line, '"') + 1);
    rest.take(index_of(rest, '"'))
}

/// The headers that the lines name, in order.
pub open spec fn named_in(lines: Seq<Seq<char>>) -> Seq<Seq<char>>
    decreases lines.len(),
{
    if lines.len() == 0 {
        Seq::empty()
    } else if marker().is_prefix_of(lines[0]) {
        seq![quoted(lines[0])] + named_in(lines.drop_first())
    } else {
        named_in(lines.drop_first())
    }
}

/// The headers that a file with the text `text` names, in order.
pub open spec fn include_substrings(text: Seq<char>) -> Seq<Seq<char>> {
    named_in(lines_of(text))
}

/// The headers that a file with the text `text` names, in order.
pub fn get_include_substrings(text: &str) -> (names: Vec<String>)
    ensures
        texts(names@) == include_substrings(text@),
{
    let chars = to_chars(text);
    let lines = split_lines(&chars);
    let prefix = to_chars("#include \"");
    let mut names: Vec<String> = Vec::new();
    let mut i: usize = 0;
    assert(rows(lines@).skip(0) =~= rows(lines@));
    while i < lines.len()
        invariant
            i <= lines.len(),
            prefix@ == marker(),
            texts(names@) + named_in(rows(lines@).skip(i as int)) == named_in(rows(lines@)),
        decreases lines.len() - i,
    {
        let line = &lines[i];
        let ghost before = texts(names@);
        proof {
            let tail = rows(lines@).skip(i as int);
            assert(tail[0] == line@);
            assert(tail.drop_first() =~= rows(lines@).skip(i + 1));
        }
        if starts_with(line, &prefix) {
            proof {
                reveal_strlit("#include \"");
                assert(line@.subrange(0, marker().len() as int)[9] == marker()[9]);
                assert(line@[9] == '"');
                assert(line@.skip(0) =~= line@);
                crate::text::lemma_index_of(line@, '"');
            }
            let open = find_char(line, 0, '"');
            let close = find_char(line, open + 1, '"');
            let name = from_chars(&copy_range(line, open + 1, close));
            proof {
                assert(line@.skip(0) =~= line@);
                let rest = line@.skip(open + 1);
                assert(line@.subrange(open + 1, close as int) =~= rest.take(index_of(rest, '"')));
            }
            names.push(name);
            proof {
                assert(texts(names@) =~= before + seq![quoted(line@)]);
                assert(texts(names@) + named_in(rows(lines@).skip(i + 1)) =~= before + (seq![
                    quoted(line@),
                ] + named_in(rows(lines@).skip(i + 1))));
            }
        }
        i += 1;
    }
    assert(texts(names@) + Seq::<Seq<char>>::empty() =~= texts(names@));
    names
}

/// The path of the header that is named `name`, for a target whose headers
/// lie in `dir`.
pub open spec fn header_path(dir: Seq<char>, name: Seq<char>) -> Seq<char> {
    dir + seq!['/'] + name
}

/// The list `names` with `name` entered: unchanged where it holds the name,
/// else with the name at its end.
pub open spec fn entered(names: Seq<Seq<char>>, name: Seq<char>) -> Seq<Seq<char>> {
    if 0 <= place_of(names, name) < names.len() {
        names
    } else {
        names.push(name)
    }
}

/// The list `names` with the names of `more` entered one after the other.
pub open spec fn entered_all(names: Seq<Seq<char>>, more: Seq<Seq<char>>) -> Seq<Seq<char>>
    decreases more.len(),
{
    if more.len() == 0 {
        names
    } else {
        entered_all(entered(names, more[0]), more.drop_first())
    }
}

/// The places in `names` of the names of `wanted`, in order.
pub open spec fn places_in(names: Seq<Seq<char>>, wanted: Seq<Seq<char>>) -> Seq<usize> {
    Seq::new(wanted.len(), |k: int| place_of(names, wanted[k]) as usize)
}

/// The graph `g` with nodes without successors added up to `n` nodes.
pub open spec fn widened(g: Graph, n: nat) -> Graph {
    Seq::new(
        n,
        |u: int|
            if u < g.len() {
                g[u]
            } else {
                Seq::empty()
            },
    )
}

/// The marks `marks` with unset marks added up to `n` marks.
pub open spec fn lengthened(marks: Seq<bool>, n: nat) -> Seq<bool> {
    Seq::new(n, |u: int| u < marks.len() && marks[u])
}

/// The files that first named the headers, for a table that has grown to
/// `n` headers since it had the files `users`: the headers that are new were
/// first named by the file `from`.
pub open spec fn credited(users: Seq<Seq<char>>, n: nat, from: Seq<char>) -> Seq<Seq<char>> {
    Seq::new(
        n,
        |u: int|
            if u < users.len() {
                users[u]
            } else {
                from
            },
    )
}

/// No name occurs twice in `names`.
pub open spec fn distinct_names(names: Seq<Seq<char>>) -> bool {
    forall|i: int, j: int| 0 <= i < j < names.len() ==> names[i] != names[j]
}

/// Entering a name keeps the names that were there at their places, keeps the
/// names distinct, and puts the name where `place_of` finds it.
pub proof fn lemma_entered(names: Seq<Seq<char>>, name: Seq<char>)
    ensures
        names.len() <= entered(names, name).len() <= names.len() + 1,
        entered(names, name).take(names.len() as int) == names,
        place_of(entered(names, name), name) == place_of(names, name),
        place_of(names, name) < entered(names, name).len(),
        distinct_names(names) ==> distinct_names(entered(names, name)),
        forall|other: Seq<char>|
            place_of(names, other) < names.len() ==> #[trigger] place_of(
                entered(names, name),
                other,
            ) == place_of(names, other),
{
    let after = entered(names, name);
    lemma_place_of(names, name);
    assert(after.take(names.len() as int) =~= names);
    lemma_place_of_is(after, name, place_of(names, name));
    assert forall|other: Seq<char>| place_of(names, other) < names.len() implies #[trigger] place_of(
        after,
        other,
    ) == place_of(names, other) by {
        lemma_place_of(names, other);
        lemma_place_of_is(after, other, place_of(names, other));
    }
}

/// Entering names keeps the names that were there at their places and keeps
/// the names distinct; afterwards each entered name has a place.
pub proof fn lemma_entered_all(names: Seq<Seq<char>>, more: Seq<Seq<char>>)
    ensures
        names.len() <= entered_all(names, more).len(),
        entered_all(names, more).take(names.len() as int) == names,
        distinct_names(names) ==> distinct_names(entered_all(names, more)),
        forall|other: Seq<char>|
            place_of(names, other) < names.len() ==> #[trigger] place_of(
                entered_all(names, more),
                other,
            ) == place_of(names, other),
        forall|k: int|
            0 <= k < more.len() ==> place_of(entered_all(names, more), #[trigger] more[k])
                < entered_all(names, more).len(),
    decreases more.len(),
{
    if more.len() == 0 {
        assert(names.take(names.len() as int) =~= names);
    } else {
        let next = entered(names, more[0]);
        let rest = more.drop_first();
        let last = entered_all(names, more);
        lemma_entered(names, more[0]);
        lemma_entered_all(next, rest);
        assert(last.take(names.len() as int) =~= last.take(next.len() as int).take(
            names.len() as int,
        ));
        assert forall|other: Seq<char>| place_of(names, other) < names.len() implies #[trigger] place_of(
            last,
            other,
        ) == place_of(names, other) by {
            assert(place_of(next, other) == place_of(names, other));
        }
        assert forall|k: int| 0 <= k < more.len() implies place_of(last, #[trigger] more[k])
            < last.len() by {
            if k == 0 {
                assert(place_of(next, more[0]) < next.len());
                assert(place_of(last, more[0]) == place_of(next, more[0]));
            } else {
                assert(rest[k - 1] == more[k]);
            }
        }
    }
}

/// The headers of one target: the names under which files ask for them, and
/// for each header that was read the headers that it names.
pub struct HeaderTable {
    include_dir: String,
    names: Vec<String>,
    users: Vec<String>,
    lists: Vec<Vec<usize>>,
    scanned: Vec<bool>,
}

impl HeaderTable {
    /// The directory in which the target's headers lie.
    pub closed spec fn dir(&self) -> Seq<char> {
        self.include_dir@
    }

    /// The names of the headers, in the order in which they were first named.
    pub closed spec fn names(&self) -> Seq<Seq<char>> {
        texts(self.names@)
    }

    /// For each header, the path of the file that named it first.
    pub closed spec fn users(&self) -> Seq<Seq<char>> {
        texts(self.users@)
    }

    /// The graph of the headers: an edge from each header that was read to
    /// each header that it names.
    pub closed spec fn graph(&self) -> Graph {
        graph_of(&self.lists)
    }

    /// Which headers were read.
    pub closed spec fn scanned(&self) -> Seq<bool> {
        self.scanned@
    }

    /// The table is in order: it holds each name once, and a list of named
    /// headers and a mark for each name.
    pub open spec fn wf(&self) -> bool {
        &&& self.graph().len() == self.names().len()
        &&& self.scanned().len() == self.names().len()
        &&& self.users().len() == self.names().len()
        &&& in_bounds(self.graph())
        &&& distinct_names(self.names())
    }

    /// Every header of the table was read.
    pub open spec fn complete(&self) -> bool {
        forall|u: int| 0 <= u < self.scanned().len() ==> self.scanned()[u]
    }

    /// The header at place `u` is the first that was not read yet.
    pub open spec fn is_next(&self, u: int) -> bool {
        &&& 0 <= u < self.scanned().len()
        &&& !self.scanned()[u]
        &&& forall|j: int| 0 <= j < u ==> self.scanned()[j]
    }

    /// The path of the header at place `u`.
    pub open spec fn path_of(&self, u: int) -> Seq<char> {
        header_path(self.dir(), self.names()[u])
    }

    /// The paths of the headers at the places `order`.
    pub open spec fn paths_of(&self, order: Seq<usize>) -> Seq<Seq<char>> {
        Seq::new(order.len(), |k: int| self.path_of(order[k] as int))
    }

    /// The table after the file `from` named the headers `more`: the names
    /// that were there stay, those that are new have no list of named headers,
    /// were not read, and were first named by `from`.
    pub open spec fn grown_by(
        &self,
        before: &HeaderTable,
        from: Seq<char>,
        more: Seq<Seq<char>>,
    ) -> bool {
        &&& self.dir() == before.dir()
        &&& self.names() == entered_all(before.names(), more)
        &&& self.users() == credited(before.users(), self.names().len(), from)
        &&& self.graph() == widened(before.graph(), self.names().len())
        &&& self.scanned() == lengthened(before.scanned(), self.names().len())
    }

    /// An empty table for a target whose headers lie in `include_dir`.
    pub fn new(include_dir: &str) -> (table: Self)
        ensures
            table.wf(),
            table.dir() == include_dir@,
            table.names().len() == 0,
    {
        HeaderTable {
            include_dir: include_dir.to_owned(),
            names: Vec::new(),
            users: Vec::new(),
            lists: Vec::new(),
            scanned: Vec::new(),
        }
    }

    /// The number of headers in the table.
    pub fn len(&self) -> (n: usize)
        ensures
            n == self.names().len(),
    {
        self.names.len()
    }

    /// Enters the headers that the file at `from`, which holds `text`, names,
    /// and returns their places in the table, in the order in which the file
    /// names them.
    pub fn add_file(&mut self, from: &str, text: &str) -> (direct: Vec<usize>)
        requires
            old(self).wf(),
        ensures
            final(self).wf(),
            final(self).grown_by(old(self), from@, include_substrings(text@)),
            direct@ == places_in(final(self).names(), include_substrings(text@)),
            all_nodes(final(self).graph(), direct@),
    {
        let wanted = get_include_substrings(text);
        let ghost more = texts(wanted@);
        let mut direct: Vec<usize> = Vec::new();
        let mut k: usize = 0;
        assert(more.skip(0) =~= more);
        proof {
            assert(self.graph() =~= widened(self.graph(), self.names().len()));
            assert(self.scanned() =~= lengthened(self.scanned(), self.names().len()));
            assert(self.users() =~= credited(self.users(), self.names().len(), from@));
        }
        while k < wanted.len()
            invariant
                k <= wanted.len(),
                more == texts(wanted@),
                self.wf(),
                self.dir() == old(self).dir(),
                old(self).graph().len() == old(self).names().len(),
                old(self).scanned().len() == old(self).names().len(),
                old(self).names().len() <= self.names().len(),
                entered_all(self.names(), more.skip(k as int)) == entered_all(
                    old(self).names(),
                    more,
                ),
                self.graph() == widened(old(self).graph(), self.names().len()),
                self.scanned() == lengthened(old(self).scanned(), self.names().len()),
                old(self).users().len() == old(self).names().len(),
                self.users() == credited(old(self).users(), self.names().len(), from@),
                direct@.len() == k,
                forall|j: int|
                    0 <= j < k ==> direct@[j] == place_of(self.names(), #[trigger] more[j])
                        && direct@[j] < self.names().len(),
            decreases wanted.len() - k,
        {
            let ghost before = self.names();
            let name = &wanted[k];
            proof {
                let tail = more.skip(k as int);
                assert(tail[0] == name@);
                assert(tail.drop_first() =~= more.skip(k + 1));
                lemma_entered(before, name@);
            }
            let at = find_text(&self.names, name.as_str());
            let ghost lists_before = self.graph();
            let ghost marks_before = self.scanned();
            let ghost users_before = self.users();
            if at == self.names.len() {
                self.names.push(name.clone());
                self.users.push(from.to_owned());
                self.lists.push(Vec::new());
                self.scanned.push(false);
                proof {
                    assert(self.names() =~= before.push(name@));
                    assert(self.graph() =~= lists_before.push(Seq::empty()));
                    assert(self.scanned() =~= marks_before.push(false));
                    assert(self.users() =~= users_before.push(from@));
                    assert(self.users() =~= credited(
                        old(self).users(),
                        self.names().len(),
                        from@,
                    ));
                    assert(self.graph() =~= widened(old(self).graph(), self.names().len()));
                    assert(self.scanned() =~= lengthened(old(self).scanned(), self.names().len()));
                    assert forall|u: int, j: int|
                        0 <= u < self.graph().len() && 0 <= j < self.graph()[u].len() implies (
                    #[trigger] self.graph()[u][j]) < self.graph().len() by {
                        if u < lists_before.len() {
                            assert(lists_before[u][j] < lists_before.len());
                        }
                    }
                }
            }
            direct.push(at);
            proof {
                assert forall|j: int| 0 <= j < k + 1 implies direct@[j] == place_of(
                    self.names(),
                    #[trigger] more[j],
                ) && direct@[j] < self.names().len() by {
                    if j < k {
                        assert(place_of(before, more[j]) < before.len());
                        assert(place_of(entered(before, name@), more[j]) == place_of(
                            before,
                            more[j],
                        ));
                    }
                }
            }
            k += 1;
        }
        proof {
            assert(direct@ =~= places_in(self.names(), more));
        }
        direct
    }

    /// The place of the first header that was not read yet.
    pub fn next_unscanned(&self) -> (next: Option<usize>)
        requires
            self.wf(),
        ensures
            next is None <==> self.complete(),
            next matches Some(u) ==> {
                &&& u < self.names().len()
                &&& !self.scanned()[u as int]
                &&& forall|j: int| 0 <= j < u ==> self.scanned()[j]
            },
    {
        let mut u: usize = 0;
        while u < self.scanned.len()
            invariant
                self.wf(),
                u <= self.scanned@.len(),
                forall|j: int| 0 <= j < u ==> self.scanned@[j],
            decreases self.scanned.len() - u,
        {
            if !self.scanned[u] {
                return Some(u);
            }
            u += 1;
        }
        None
    }

    /// The path of the header at place `u`: the directory of headers, a slash
    /// and the name under which the header is asked for.
    pub fn header_file(&self, u: usize) -> (path: String)
        requires
            u < self.names().len(),
        ensures
            path@ == self.path_of(u as int),
    {
        let mut path = self.include_dir.clone();
        path.append("/");
        path.append(self.names[u].as_str());
        proof {
            reveal_strlit("/");
            assert("/"@ =~= seq!['/']);
        }
        path
    }

    /// The path of the file that first named the header at place `u`.
    pub fn first_user(&self, u: usize) -> (path: &String)
        requires
            self.wf(),
            u < self.names().len(),
        ensures
            path@ == self.users()[u as int],
    {
        &self.users[u]
    }

    /// Records what the header at place `u` holds: the headers that `text`
    /// names are entered, and become the headers that this header names.
    pub fn scan(&mut self, u: usize, text: &str)
        requires
            old(self).wf(),
            u < old(self).names().len(),
        ensures
            final(self).wf(),
            final(self).dir() == old(self).dir(),
            final(self).names() == entered_all(old(self).names(), include_substrings(text@)),
            final(self).users() == credited(
                old(self).users(),
                final(self).names().len(),
                old(self).path_of(u as int),
            ),
            final(self).graph() == widened(old(self).graph(), final(self).names().len()).update(
                u as int,
                places_in(final(self).names(), include_substrings(text@)),
            ),
            final(self).scanned() == lengthened(
                old(self).scanned(),
                final(self).names().len(),
            ).update(u as int, true),
    {
        let path = self.header_file(u);
        let direct = self.add_file(path.as_str(), text);
        proof {
            lemma_entered_all(old(self).names(), include_substrings(text@));
        }
        let ghost mid = self.graph();
        self.lists.set(u, direct);
        self.scanned.set(u, true);
        proof {
            assert(self.graph() =~= mid.update(u as int, direct@));
            assert forall|a: int, j: int|
                0 <= a < self.graph().len() && 0 <= j < self.graph()[a].len() implies (
            #[trigger] self.graph()[a][j]) < self.graph().len() by {
                if a != u {
                    assert(mid[a][j] < mid.len());
                }
            }
        }
    }

    /// The paths of the headers that a file depends on which names the
    /// headers at the places `direct`: each header that these reach, once,
    /// behind the headers that it names itself where those do not lead back
    /// to it.
    pub fn dependant_includes(&self, direct: &Vec<usize>) -> (paths: Vec<String>)
        requires
            self.wf(),
            all_nodes(self.graph(), direct@),
        ensures
            texts(paths@) == self.paths_of(finish_order(self.graph(), direct@)),
    {
        let order = walk_order(&self.lists, direct);
        proof {
            lemma_finish_order(self.graph(), direct@);
        }
        let mut paths: Vec<String> = Vec::new();
        let mut k: usize = 0;
        while k < order.len()
            invariant
                k <= order.len(),
                self.wf(),
                all_nodes(self.graph(), order@),
                paths@.len() == k,
                forall|j: int| 0 <= j < k ==> (#[trigger] paths@[j])@ == self.path_of(order@[j] as int),
            decreases order.len() - k,
        {
            paths.push(self.header_file(order[k]));
            k += 1;
        }
        assert(texts(paths@) =~= self.paths_of(order@));
        paths
    }
}

/// Two headers of different names have different paths.
pub proof fn lemma_paths_differ(dir: Seq<char>, a: Seq<char>, b: Seq<char>)
    requires
        a != b,
    ensures
        header_path(dir, a) != header_path(dir, b),
{
    let pa = header_path(dir, a);
    let pb = header_path(dir, b);
    if pa == pb {
        assert(pa.skip(dir.len() as int + 1) =~= a);
        assert(pb.skip(dir.len() as int + 1) =~= b);
    }
}

/// The headers that a file depends on are listed once each, and are exactly
/// the headers that are reached from the headers the file names.
pub proof fn lemma_dependant_includes(table: HeaderTable, direct: Seq<usize>)
    requires
        table.wf(),
        all_nodes(table.graph(), direct),
    ensures
        forall|i: int, j: int|
            0 <= i < j < finish_order(table.graph(), direct).len() ==> table.paths_of(
                finish_order(table.graph(), direct),
            )[i] != table.paths_of(finish_order(table.graph(), direct))[j],
        forall|u: usize|
            u < table.names().len() ==> (table.paths_of(
                finish_order(table.graph(), direct),
            ).contains(#[trigger] table.path_of(u as int)) <==> reaches_from_any(
                table.graph(),
                direct,
                u,
            )),
{
    let g = table.graph();
    let order = finish_order(g, direct);
    let paths = table.paths_of(order);
    lemma_finish_order(g, direct);
    assert forall|i: int, j: int| 0 <= i < j < order.len() implies paths[i] != paths[j] by {
        assert(order[i] < g.len() && order[j] < g.len());
        assert(order[i] != order[j]);
        lemma_paths_differ(table.dir(), table.names()[order[i] as int], table.names()[order[j] as int]);
    }
    assert forall|u: usize| u < table.names().len() implies (paths.contains(
        #[trigger] table.path_of(u as int),
    ) <==> reaches_from_any(g, direct, u)) by {
        if paths.contains(table.path_of(u as int)) {
            let k = choose|k: int| 0 <= k < paths.len() && paths[k] == table.path_of(u as int);
            assert(order[k] < g.len());
            if order[k] != u {
                lemma_paths_differ(table.dir(), table.names()[order[k] as int], table.names()[u as int]);
            }
            assert(order.contains(order[k]));
        }
        if reaches_from_any(g, direct, u) {
            assert(order.contains(u));
            let k = choose|k: int| 0 <= k < order.len() && order[k] == u;
            assert(paths[k] == table.path_of(u as int));
        }
    }
}

/// A file depends on each header that is reached from a header it names: if
/// the file names the header at place `first`, and a chain of headers that
/// each name the next leads from there to the header at place `last`, then
/// the path of that header is among the paths the file depends on.
pub proof fn lemma_reached_header_listed(
    table: HeaderTable,
    direct: Seq<usize>,
    first: usize,
    last: usize,
)
    requires
        table.wf(),
        all_nodes(table.graph(), direct),
        direct.contains(first),
        reaches(table.graph(), first, last),
    ensures
        table.paths_of(finish_order(table.graph(), direct)).contains(table.path_of(last as int)),
{
    let g = table.graph();
    let order = finish_order(g, direct);
    lemma_finish_order(g, direct);
    let k = choose|k: int| 0 <= k < direct.len() && direct[k] == first;
    assert(reaches(g, direct[k], last));
    assert(reaches_from_any(g, direct, last));
    assert(order.contains(last));
    let at = choose|at: int| 0 <= at < order.len() && order[at] == last;
    assert(table.paths_of(order)[at] == table.path_of(last as int));
}

} // verus!
