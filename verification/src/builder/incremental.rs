//! What makes the build incremental: a build records the digests of the
//! files it has seen, and the next build compiles a source file only if the
//! file, or a header it depends on, holds something else than was recorded.

use crate::builder::headers::HeaderTable;
use crate::builder::src::{
    changed, first_changed, lemma_first_changed, needs_rebuild, SrcSpec,
};
use crate::builder::target::{
    all_paths, header_paths, lemma_stale_upto, source_paths, stale, BuildAction, BuildState,
    CompileResult, Target,
};
use crate::graph::{all_nodes, edge, finish_order, path_between, reaches};
use crate::hasher::{
    lemma_record_all, lemma_store_round_trip, map_of, parsed_store, record_all, store_text,
    writable, Pairs,
};
use vstd::prelude::*;

verus! {

/// `current` holds a digest for every file of the source files `units`.
pub open spec fn covered(units: Seq<SrcSpec>, current: Map<Seq<char>, Seq<char>>) -> bool {
    forall|k: int|
        0 <= k < all_paths(units).len() ==> current.contains_key(#[trigger] all_paths(units)[k])
}

/// `path` is the path of the source file `unit` or of a header that it
/// depends on.
pub open spec fn is_file_of(unit: SrcSpec, path: Seq<char>) -> bool {
    unit.path == path || unit.dependant_includes.contains(path)
}

/// The headers of each source file are among the headers of all of them.
pub proof fn lemma_header_listed(units: Seq<SrcSpec>, i: int, path: Seq<char>)
    requires
        0 <= i < units.len(),
        units[i].dependant_includes.contains(path),
    ensures
        header_paths(units).contains(path),
    decreases units.len(),
{
    let rest = units.drop_first();
    let own = units[0].dependant_includes;
    if i == 0 {
        let j = choose|j: int| 0 <= j < own.len() && own[j] == path;
        assert(header_paths(units)[j] == path);
    } else {
        assert(rest[i - 1] == units[i]);
        lemma_header_listed(rest, i - 1, path);
        let j = choose|j: int| 0 <= j < header_paths(rest).len() && header_paths(rest)[j] == path;
        assert(header_paths(units)[own.len() + j] == path);
    }
}

/// Every file of a source file is among the files of the target.
pub proof fn lemma_file_listed(units: Seq<SrcSpec>, i: int, path: Seq<char>)
    requires
        0 <= i < units.len(),
        is_file_of(units[i], path),
    ensures
        all_paths(units).contains(path),
{
    if units[i].path == path {
        assert(all_paths(units)[i] == path);
    } else {
        lemma_header_listed(units, i, path);
        let j = choose|j: int|
            0 <= j < header_paths(units).len() && header_paths(units)[j] == path;
        assert(all_paths(units)[source_paths(units).len() + j] == path);
    }
}

/// A source file has to be compiled, with the binary there, exactly if one
/// of its files has changed.
pub proof fn lemma_rebuilt_for_a_file(
    unit: SrcSpec,
    stored: Map<Seq<char>, Seq<char>>,
    current: Map<Seq<char>, Seq<char>>,
)
    ensures
        needs_rebuild(unit, true, stored, current) <==> exists|path: Seq<char>|
            is_file_of(unit, path) && changed(stored, current, path),
{
    let headers = unit.dependant_includes;
    lemma_first_changed(stored, current, headers);
    let at = first_changed(stored, current, headers);
    if needs_rebuild(unit, true, stored, current) {
        if changed(stored, current, unit.path) {
            assert(is_file_of(unit, unit.path));
        } else {
            assert(headers.contains(headers[at]));
            assert(is_file_of(unit, headers[at]) && changed(stored, current, headers[at]));
        }
    }
    if exists|path: Seq<char>| is_file_of(unit, path) && changed(stored, current, path) {
        let path = choose|path: Seq<char>| is_file_of(unit, path) && changed(stored, current, path);
        if unit.path != path {
            let j = choose|j: int| 0 <= j < headers.len() && headers[j] == path;
            if at > j {
                assert(!changed(stored, current, headers[j]));
            }
        }
    }
}

/// Once the digests of the target's files were recorded, no source file has
/// to be compiled as long as the files hold what they held.
pub proof fn lemma_recorded_is_fresh(
    units: Seq<SrcSpec>,
    stored: Pairs,
    current: Map<Seq<char>, Seq<char>>,
    i: int,
)
    requires
        covered(units, current),
        0 <= i < units.len(),
    ensures
        !needs_rebuild(
            units[i],
            true,
            map_of(record_all(stored, current, all_paths(units))),
            current,
        ),
{
    let after = map_of(record_all(stored, current, all_paths(units)));
    lemma_rebuilt_for_a_file(units[i], after, current);
    assert forall|path: Seq<char>| is_file_of(units[i], path) implies !changed(
        after,
        current,
        path,
    ) by {
        lemma_file_listed(units, i, path);
        let k = choose|k: int| 0 <= k < all_paths(units).len() && all_paths(units)[k] == path;
        assert(current.contains_key(all_paths(units)[k]));
        lemma_record_all(stored, current, all_paths(units), path);
    }
}

/// A build that follows a build, with every file holding what it held and
/// the binary there, finds no source file to compile.
pub proof fn lemma_second_build_is_idle(
    units: Seq<SrcSpec>,
    stored: Pairs,
    current: Map<Seq<char>, Seq<char>>,
)
    requires
        covered(units, current),
        units.len() <= usize::MAX,
    ensures
        stale(units, true, map_of(record_all(stored, current, all_paths(units))), current).len()
            == 0,
{
    let after = map_of(record_all(stored, current, all_paths(units)));
    let found = stale(units, true, after, current);
    lemma_stale_upto(units, units.len() as int, true, after, current);
    if found.len() > 0 {
        assert(found.contains(found[0]));
        lemma_recorded_is_fresh(units, stored, current, found[0] as int);
    }
}

/// Building twice does the work once. Take a build that compiled what it
/// had to and came to linking, and write its digests to the hash file as a
/// successful link does. A second build of the same source files that reads
/// that file, and finds the binary there and every file holding what it held,
/// has nothing to compile and is up to date: it neither compiles nor links.
/// This holds for paths and digests that a hash file can hold, and where a
/// digest was taken of every file.
pub proof fn lemma_build_is_idempotent(
    compiling: Target,
    results: Seq<CompileResult>,
    linking: Target,
    link: BuildAction,
    second: Target,
    judged: Target,
    verdict: BuildAction,
    last: Target,
    outcome: BuildAction,
)
    requires
        compiling.state() == BuildState::Compiling,
        linking.was_compiled(&compiling, results, link),
        linking.state() == BuildState::LinkNeeded,
        covered(compiling.srcs(), compiling.snapshot()),
        writable(linking.hashes()),
        second.state() == BuildState::NotStarted,
        second.srcs() == compiling.srcs(),
        second.hashes() == parsed_store(store_text(linking.hashes())),
        judged.evaluated(&second, true, compiling.snapshot(), verdict),
        last.proceeded(&judged, outcome),
    ensures
        judged.needed().len() == 0,
        last.state() == BuildState::UpToDate,
        outcome is UpToDate,
{
    lemma_store_round_trip(linking.hashes());
    compiling.lemma_src_count();
    lemma_second_build_is_idle(compiling.srcs(), compiling.hashes(), compiling.snapshot());
}

/// Only what depends on a changed file is compiled again. Let a build record
/// the digests `before`, and let the files then hold what gives the digests
/// `after`, which differ from `before` at the one path `touched`. Then, with
/// the binary there, a source file has to be compiled exactly if `touched` is
/// its own path or the path of a header it depends on.
pub proof fn lemma_only_dependants_rebuild(
    units: Seq<SrcSpec>,
    stored: Pairs,
    before: Map<Seq<char>, Seq<char>>,
    after: Map<Seq<char>, Seq<char>>,
    touched: Seq<char>,
    i: int,
)
    requires
        covered(units, before),
        covered(units, after),
        forall|path: Seq<char>|
            path != touched && before.contains_key(path) ==> #[trigger] after[path] == before[path],
        before.contains_key(touched) ==> after[touched] != before[touched],
        0 <= i < units.len(),
    ensures
        needs_rebuild(
            units[i],
            true,
            map_of(record_all(stored, before, all_paths(units))),
            after,
        ) <==> is_file_of(units[i], touched),
{
    let recorded = map_of(record_all(stored, before, all_paths(units)));
    lemma_rebuilt_for_a_file(units[i], recorded, after);
    assert forall|path: Seq<char>| is_file_of(units[i], path) implies (changed(
        recorded,
        after,
        path,
    ) <==> path == touched) by {
        lemma_file_listed(units, i, path);
        let k = choose|k: int| 0 <= k < all_paths(units).len() && all_paths(units)[k] == path;
        assert(before.contains_key(all_paths(units)[k]));
        assert(after.contains_key(all_paths(units)[k]));
        lemma_record_all(stored, before, all_paths(units), path);
        if path != touched {
            assert(after[path] == before[path]);
        }
    }
    if is_file_of(units[i], touched) {
        assert(changed(recorded, after, touched));
    }
}

/// A change of a header reaches every source file that depends on it, however
/// long the chain of headers between them. Let a source file name the header
/// at place `first` of the table, and let a chain of headers that each name
/// the next lead from there to the header at place `last`. If that header has
/// changed, the source file has to be compiled.
pub proof fn lemma_header_change_rebuilds(
    table: HeaderTable,
    direct: Seq<usize>,
    first: usize,
    last: usize,
    unit: SrcSpec,
    binary_exists: bool,
    stored: Map<Seq<char>, Seq<char>>,
    current: Map<Seq<char>, Seq<char>>,
)
    requires
        table.wf(),
        all_nodes(table.graph(), direct),
        direct.contains(first),
        reaches(table.graph(), first, last),
        unit.dependant_includes == table.paths_of(finish_order(table.graph(), direct)),
        changed(stored, current, table.path_of(last as int)),
    ensures
        needs_rebuild(unit, binary_exists, stored, current),
{
    crate::builder::headers::lemma_reached_header_listed(table, direct, first, last);
    if binary_exists {
        lemma_rebuilt_for_a_file(unit, stored, current);
        assert(is_file_of(unit, table.path_of(last as int)));
    }
}

/// A header that is named by a header which a source file names is reached
/// from it: the chain has two links.
pub proof fn lemma_named_by_named_is_reached(table: HeaderTable, first: usize, last: usize)
    requires
        table.wf(),
        edge(table.graph(), first, last),
    ensures
        reaches(table.graph(), first, last),
{
    let g = table.graph();
    let k = choose|k: int| 0 <= k < g[first as int].len() && g[first as int][k] == last;
    assert(g[first as int][k] < g.len());
    let p = seq![first, last];
    assert(path_between(g, p, first, last));
}

} // verus!
