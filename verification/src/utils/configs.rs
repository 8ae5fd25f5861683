//! The build and target configuration of a project, and the order in which
//! its targets are built.

use crate::graph::{
    all_nodes, edge, finish_order, first_misplaced, graph_of, has_cycle, in_bounds,
    is_topological, lemma_finish_order, lemma_reaches_self, lemma_topological_acyclic, misplaced,
    reaches, reaches_from_any, walk_order, Graph,
};
use crate::text::{
    ends_with, find_repeated, first_repeated, str_eq, texts, to_chars,
};
use vstd::prelude::*;

verus! {

/// The system that the build runs on; it decides where object files go and
/// how binaries and hash files are named.
#[derive(Clone, Copy, Debug, PartialEq, Eq, Structural)]
pub enum Platform {
    Linux,
    Android,
    Windows,
}

/// How a project is built: the compiler, the packages it asks for, and the
/// commands to run before and after the build.
#[derive(Debug)]
pub struct BuildConfig {
    pub compiler: String,
    pub packages: Vec<String>,
    pub pre_build: Option<String>,
    pub post_build: Option<String>,
}

/// One target of a project: an executable (`typ` is `exe`) or a shared
/// library (`typ` is `dll`), with its sources, flags and the names of the
/// targets it depends on.
#[derive(Debug)]
pub struct TargetConfig {
    pub name: String,
    pub src: String,
    pub include_dir: String,
    pub typ: String,
    pub cflags: String,
    pub libs: String,
    pub deps: Vec<String>,
}

/// What a target configuration holds, as plain text.
pub struct TargetSpec {
    pub name: Seq<char>,
    pub src: Seq<char>,
    pub include_dir: Seq<char>,
    pub typ: Seq<char>,
    pub cflags: Seq<char>,
    pub libs: Seq<char>,
    pub deps: Seq<Seq<char>>,
}

impl View for TargetConfig {
    type V = TargetSpec;

    open spec fn view(&self) -> TargetSpec {
        TargetSpec {
            name: self.name@,
            src: self.src@,
            include_dir: self.include_dir@,
            typ: self.typ@,
            cflags: self.cflags@,
            libs: self.libs@,
            deps: texts(self.deps@),
        }
    }
}

/// What a build configuration holds, as plain text.
pub struct BuildSpec {
    pub compiler: Seq<char>,
    pub packages: Seq<Seq<char>>,
    pub pre_build: Option<Seq<char>>,
    pub post_build: Option<Seq<char>>,
}

/// The text of an optional string.
pub open spec fn text_of(s: Option<String>) -> Option<Seq<char>> {
    match s {
        Some(s) => Some(s@),
        None => None,
    }
}

impl View for BuildConfig {
    type V = BuildSpec;

    open spec fn view(&self) -> BuildSpec {
        BuildSpec {
            compiler: self.compiler@,
            packages: texts(self.packages@),
            pre_build: text_of(self.pre_build),
            post_build: text_of(self.post_build),
        }
    }
}

/// What a list of target configurations holds.
pub open spec fn specs(targets: Seq<TargetConfig>) -> Seq<TargetSpec> {
    Seq::new(targets.len(), |i: int| targets[i]@)
}

/// A copy of a list of strings.
pub fn copy_strings(v: &Vec<String>) -> (out: Vec<String>)
    ensures
        texts(out@) == texts(v@),
{
    let mut out: Vec<String> = Vec::new();
    let mut i: usize = 0;
    while i < v.len()
        invariant
            i <= v.len(),
            out@.len() == i,
            forall|j: int| 0 <= j < i ==> (#[trigger] out@[j])@ == v@[j]@,
        decreases v.len() - i,
    {
        out.push(v[i].clone());
        i += 1;
    }
    assert(texts(out@) =~= texts(v@));
    out
}

/// A copy of an optional string.
pub fn copy_option(s: &Option<String>) -> (out: Option<String>)
    ensures
        text_of(out) == text_of(*s),
{
    match s {
        Some(s) => Some(s.clone()),
        None => None,
    }
}

impl BuildConfig {
    /// A copy of this configuration.
    pub fn duplicate(&self) -> (out: Self)
        ensures
            out@ == self@,
    {
        BuildConfig {
            compiler: self.compiler.clone(),
            packages: copy_strings(&self.packages),
            pre_build: copy_option(&self.pre_build),
            post_build: copy_option(&self.post_build),
        }
    }
}

/// The name of the first target with the name `name`, as a place in `targets`,
/// or the number of targets where none has that name.
pub open spec fn named(targets: Seq<TargetSpec>, name: Seq<char>) -> int
    decreases targets.len(),
{
    if targets.len() == 0 || targets[0].name == name {
        0
    } else {
        1 + named(targets.drop_first(), name)
    }
}

/// `named` is a place of `targets` or their number, the target there has the
/// name, and no earlier target has it.
pub proof fn lemma_named(targets: Seq<TargetSpec>, name: Seq<char>)
    ensures
        0 <= named(targets, name) <= targets.len(),
        named(targets, name) < targets.len() ==> targets[named(targets, name)].name == name,
        forall|j: int| 0 <= j < named(targets, name) ==> targets[j].name != name,
    decreases targets.len(),
{
    if targets.len() > 0 && targets[0].name != name {
        let rest = targets.drop_first();
        lemma_named(rest, name);
        assert forall|j: int| 0 <= j < named(targets, name) implies targets[j].name != name by {
            if j > 0 {
                assert(targets[j] == rest[j - 1]);
            }
        }
    }
}

/// The dependencies `deps` as places in `targets`, in order; a name that no
/// target has is left out.
pub open spec fn resolved(targets: Seq<TargetSpec>, deps: Seq<Seq<char>>) -> Seq<usize>
    decreases deps.len(),
{
    if deps.len() == 0 {
        Seq::empty()
    } else {
        let at = named(targets, deps[0]);
        let rest = resolved(targets, deps.drop_first());
        if 0 <= at < targets.len() {
            seq![at as usize] + rest
        } else {
            rest
        }
    }
}

/// Every resolved dependency is a place of `targets`.
pub proof fn lemma_resolved(targets: Seq<TargetSpec>, deps: Seq<Seq<char>>)
    ensures
        forall|k: int|
            0 <= k < resolved(targets, deps).len() ==> (#[trigger] resolved(targets, deps)[k])
                < targets.len(),
        resolved(targets, deps).len() <= deps.len(),
    decreases deps.len(),
{
    if deps.len() > 0 {
        lemma_resolved(targets, deps.drop_first());
    }
}

/// The graph of the targets' dependencies: an edge from each target to each
/// target that it names in `deps`.
pub open spec fn dep_graph(targets: Seq<TargetSpec>) -> Graph {
    Seq::new(targets.len(), |i: int| resolved(targets, targets[i].deps))
}

/// The places `0`, `1`, ... below `n`.
pub open spec fn places(n: nat) -> Seq<usize> {
    Seq::new(n, |i: int| i as usize)
}

/// The order in which the targets are built: a walk through the dependency
/// graph that takes the targets as they are listed, and puts each behind the
/// targets it depends on.
pub open spec fn build_order(targets: Seq<TargetSpec>) -> Seq<usize> {
    finish_order(dep_graph(targets), places(targets.len()))
}

/// The targets at the places `order`.
pub open spec fn picked(targets: Seq<TargetSpec>, order: Seq<usize>) -> Seq<TargetSpec> {
    Seq::new(order.len(), |i: int| targets[order[i] as int])
}

/// What is wrong with a project's configuration.
#[derive(Debug)]
pub enum ConfigError {
    /// The manifest is no TOML document; `message` is what the parser says.
    Syntax { message: String },
    /// A part of the manifest is missing or of the wrong kind.
    Manifest { fault: crate::utils::manifest::ManifestFault },
    /// The project lists no target.
    NoTargets,
    /// The target `target` has a type other than `exe` and `dll`.
    InvalidType { target: String, typ: String },
    /// Two targets have the name `name`.
    DuplicateTarget { name: String },
    /// The number of executable targets is not one.
    ExecutableCount { found: usize },
    /// The target `target` has no source file.
    NoSources { target: String },
    /// Two source files of the target `target` have the same name; `file` is
    /// the first of them.
    DuplicateSource { target: String, file: String },
    /// The target `target` depends on `dependency`, which depends on `target`
    /// again, directly or through other targets.
    CyclicDependency { target: String, dependency: String },
}

impl TargetConfig {
    /// A copy of this configuration.
    pub fn duplicate(&self) -> (out: Self)
        ensures
            out@ == self@,
    {
        TargetConfig {
            name: self.name.clone(),
            src: self.src.clone(),
            include_dir: self.include_dir.clone(),
            typ: self.typ.clone(),
            cflags: self.cflags.clone(),
            libs: self.libs.clone(),
            deps: copy_strings(&self.deps),
        }
    }

    /// The place of the first target named `name`, or the number of targets.
    pub fn find_named(targets: &Vec<TargetConfig>, name: &str) -> (at: usize)
        ensures
            at == named(specs(targets@), name@),
            at <= targets.len(),
    {
        let mut at: usize = 0;
        while at < targets.len() && !str_eq(targets[at].name.as_str(), name)
            invariant
                at <= targets.len(),
                forall|j: int| 0 <= j < at ==> specs(targets@)[j].name != name@,
            decreases targets.len() - at,
        {
            at += 1;
        }
        proof {
            let all = specs(targets@);
            lemma_named(all, name@);
            let p = named(all, name@);
            if p < at {
                assert(all[p].name == name@);
            }
            if at < p {
                assert(all[at as int].name == name@);
            }
        }
        at
    }

    /// The dependencies of the target at place `i`, as places in `targets`.
    pub fn resolve_deps(targets: &Vec<TargetConfig>, deps: &Vec<String>) -> (out: Vec<usize>)
        ensures
            out@ == resolved(specs(targets@), texts(deps@)),
    {
        let ghost all = specs(targets@);
        let ghost names = texts(deps@);
        let mut out: Vec<usize> = Vec::new();
        let mut k: usize = 0;
        assert(names.skip(0) =~= names);
        while k < deps.len()
            invariant
                k <= deps.len(),
                all == specs(targets@),
                names == texts(deps@),
                out@ + resolved(all, names.skip(k as int)) == resolved(all, names),
            decreases deps.len() - k,
        {
            let ghost before = out@;
            let at = TargetConfig::find_named(targets, deps[k].as_str());
            proof {
                let tail = names.skip(k as int);
                assert(tail[0] == deps@[k as int]@);
                assert(tail.drop_first() =~= names.skip(k + 1));
            }
            if at < targets.len() {
                out.push(at);
                proof {
                    assert(out@ + resolved(all, names.skip(k + 1)) =~= before + (seq![at]
                        + resolved(all, names.skip(k + 1))));
                }
            }
            k += 1;
        }
        assert(out@ + Seq::<usize>::empty() =~= out@);
        out
    }

    /// The dependency graph of `targets`, as successor lists.
    pub fn dependency_lists(targets: &Vec<TargetConfig>) -> (adj: Vec<Vec<usize>>)
        ensures
            graph_of(&adj) == dep_graph(specs(targets@)),
            in_bounds(graph_of(&adj)),
    {
        let ghost all = specs(targets@);
        let mut adj: Vec<Vec<usize>> = Vec::new();
        let mut i: usize = 0;
        while i < targets.len()
            invariant
                i <= targets.len(),
                all == specs(targets@),
                adj@.len() == i,
                forall|j: int| 0 <= j < i ==> (#[trigger] adj@[j])@ == resolved(all, all[j].deps),
            decreases targets.len() - i,
        {
            let row = TargetConfig::resolve_deps(targets, &targets[i].deps);
            adj.push(row);
            i += 1;
        }
        proof {
            assert(graph_of(&adj) =~= dep_graph(all));
            assert forall|u: int, k: int|
                0 <= u < graph_of(&adj).len() && 0 <= k < graph_of(&adj)[u].len() implies (
            #[trigger] graph_of(&adj)[u][k]) < graph_of(&adj).len() by {
                lemma_resolved(all, all[u].deps);
            }
        }
        adj
    }

    /// Puts the targets in the order in which they are built, each behind the
    /// targets it depends on. Dependencies that go in a circle are refused:
    /// the error names the first target of the walk that depends, directly or
    /// not, on itself, and the first of its dependencies that leads back to it.
    pub fn arrange_targets(targets: Vec<TargetConfig>) -> (arranged: Result<
        Vec<TargetConfig>,
        ConfigError,
    >)
        ensures
            arranged is Ok <==> !has_cycle(dep_graph(specs(targets@))),
            arranged matches Ok(list) ==> {
                &&& specs(list@) == picked(specs(targets@), build_order(specs(targets@)))
                &&& is_topological(dep_graph(specs(targets@)), build_order(specs(targets@)))
            },
            arranged matches Err(e) ==> e matches ConfigError::CyclicDependency {
                target,
                dependency,
            } && names_cycle_edge(specs(targets@), target@, dependency@),
    {
        let ghost all = specs(targets@);
        let ghost g = dep_graph(all);
        let adj = TargetConfig::dependency_lists(&targets);
        let mut roots: Vec<usize> = Vec::new();
        let mut n: usize = 0;
        while n < targets.len()
            invariant
                n <= targets.len(),
                roots@ =~= places(n as nat),
            decreases targets.len() - n,
        {
            roots.push(n);
            n += 1;
        }
        let order = walk_order(&adj, &roots);
        proof {
            assert(all_nodes(g, roots@));
            lemma_finish_order(g, roots@);
            assert forall|u: usize| u < g.len() implies order@.contains(u) by {
                lemma_reaches_self(g, u);
                assert(roots@[u as int] == u);
                assert(reaches_from_any(g, roots@, u));
            }
        }
        match first_misplaced(&adj, &order) {
            Some((i, k)) => {
                let from = order[i];
                let to = adj[from][k];
                proof {
                    assert(g[from as int][k as int] < g.len());
                    assert(first_cycle_edge(all, i as int, k as int));
                }
                Err(
                    ConfigError::CyclicDependency {
                        target: targets[from].name.clone(),
                        dependency: targets[to].name.clone(),
                    },
                )
            },
            None => {
                proof {
                    lemma_topological_acyclic(g, order@);
                }
                let mut list: Vec<TargetConfig> = Vec::new();
                let mut i: usize = 0;
                while i < order.len()
                    invariant
                        i <= order.len(),
                        all == specs(targets@),
                        all_nodes(dep_graph(all), order@),
                        list@.len() == i,
                        forall|j: int|
                            0 <= j < i ==> (#[trigger] list@[j])@ == all[order@[j] as int],
                    decreases order.len() - i,
                {
                    list.push(targets[order[i]].duplicate());
                    i += 1;
                }
                assert(specs(list@) =~= picked(all, order@));
                Ok(list)
            },
        }
    }
}

/// `user` and `dependency` are the names of the two ends of the first
/// dependency, in the build order, that does not stand before its target.
pub open spec fn names_cycle_edge(
    targets: Seq<TargetSpec>,
    user: Seq<char>,
    dependency: Seq<char>,
) -> bool {
    exists|i: int, k: int|
        #![trigger first_cycle_edge(targets, i, k)]
        first_cycle_edge(targets, i, k) && user == targets[build_order(targets)[i] as int].name
            && dependency == targets[dep_graph(targets)[build_order(
            targets,
        )[i] as int][k] as int].name
}

/// The successor at place `k` of the node at place `i` of the build order is
/// the first that does not stand before its node: no target before place `i`
/// has such a dependency, and no dependency of this target before place `k`
/// is one.
pub open spec fn first_cycle_edge(targets: Seq<TargetSpec>, i: int, k: int) -> bool {
    &&& misplaced(dep_graph(targets), build_order(targets), i, k)
    &&& forall|a: int, b: int|
        misplaced(dep_graph(targets), build_order(targets), a, b) ==> i < a || (i == a && k <= b)
}

/// A dependency that names a target is among the resolved dependencies.
pub proof fn lemma_resolved_holds(targets: Seq<TargetSpec>, deps: Seq<Seq<char>>, name: Seq<char>)
    requires
        deps.contains(name),
        named(targets, name) < targets.len(),
    ensures
        resolved(targets, deps).contains(named(targets, name) as usize),
    decreases deps.len(),
{
    lemma_named(targets, name);
    let at = named(targets, name) as usize;
    let rest = resolved(targets, deps.drop_first());
    let first = named(targets, deps[0]);
    lemma_named(targets, deps[0]);
    if deps[0] == name {
        assert(resolved(targets, deps)[0] == at);
    } else {
        let j = choose|j: int| 0 <= j < deps.len() && deps[j] == name;
        assert(deps.drop_first()[j - 1] == name);
        lemma_resolved_holds(targets, deps.drop_first(), name);
        let k = choose|k: int| 0 <= k < rest.len() && rest[k] == at;
        if 0 <= first < targets.len() {
            assert(resolved(targets, deps)[k + 1] == at);
        } else {
            assert(resolved(targets, deps)[k] == at);
        }
    }
}

/// The dependency graph is a graph: its edges lead to targets.
pub proof fn lemma_dep_graph(targets: Seq<TargetSpec>)
    ensures
        dep_graph(targets).len() == targets.len(),
        in_bounds(dep_graph(targets)),
{
    let g = dep_graph(targets);
    assert forall|u: int, k: int| 0 <= u < g.len() && 0 <= k < g[u].len() implies (#[trigger] g[u][k])
        < g.len() by {
        lemma_resolved(targets, targets[u].deps);
    }
}

/// A target that names another target as a dependency has an edge to it in
/// the dependency graph.
pub proof fn lemma_dependency_is_edge(targets: Seq<TargetSpec>, user: usize, name: Seq<char>)
    requires
        user < targets.len(),
        targets[user as int].deps.contains(name),
        named(targets, name) < targets.len(),
    ensures
        edge(dep_graph(targets), user, named(targets, name) as usize),
{
    lemma_resolved_holds(targets, targets[user as int].deps, name);
}

/// Two targets that depend on each other make a cycle, so that arranging the
/// targets fails: where the target at place `a` names the target at place
/// `b` among its dependencies, and that one names the first, the dependency
/// graph has a cycle.
pub proof fn lemma_mutual_dependency_is_cycle(targets: Seq<TargetSpec>, a: usize, b: usize)
    requires
        a < targets.len(),
        b < targets.len(),
        named(targets, targets[a as int].name) == a,
        named(targets, targets[b as int].name) == b,
        targets[a as int].deps.contains(targets[b as int].name),
        targets[b as int].deps.contains(targets[a as int].name),
    ensures
        has_cycle(dep_graph(targets)),
{
    let g = dep_graph(targets);
    lemma_dependency_is_edge(targets, a, targets[b as int].name);
    lemma_dependency_is_edge(targets, b, targets[a as int].name);
    let p = seq![b, a];
    assert(crate::graph::path_between(g, p, b, a));
    assert(edge(g, a, b) && reaches(g, b, a));
}

/// The build order holds every target once.
pub proof fn lemma_build_order_complete(targets: Seq<TargetSpec>)
    requires
        targets.len() <= usize::MAX,
    ensures
        crate::graph::distinct(build_order(targets)),
        forall|u: usize| u < targets.len() <==> build_order(targets).contains(u),
        !has_cycle(dep_graph(targets)) ==> is_topological(dep_graph(targets), build_order(targets)),
{
    let g = dep_graph(targets);
    let roots = places(targets.len());
    lemma_dep_graph(targets);
    assert(all_nodes(g, roots));
    lemma_finish_order(g, roots);
    assert forall|u: usize| u < targets.len() implies build_order(targets).contains(u) by {
        lemma_reaches_self(g, u);
        assert(roots[u as int] == u);
        assert(reaches_from_any(g, roots, u));
    }
    assert forall|u: usize| build_order(targets).contains(u) implies u < targets.len() by {
        let k = choose|k: int| 0 <= k < build_order(targets).len() && build_order(targets)[k] == u;
        assert(build_order(targets)[k] < g.len());
    }
}

/// `first` stands before `second` in `order`.
pub open spec fn built_before(order: Seq<usize>, first: usize, second: usize) -> bool {
    exists|i: int, j: int| 0 <= i < j < order.len() && order[i] == first && order[j] == second
}

/// A target is built after the targets it depends on: where the dependencies
/// have no cycle, a target that is named as a dependency stands before the
/// target that names it.
pub proof fn lemma_dependency_built_first(targets: Seq<TargetSpec>, user: usize, name: Seq<char>)
    requires
        targets.len() <= usize::MAX,
        !has_cycle(dep_graph(targets)),
        user < targets.len(),
        targets[user as int].deps.contains(name),
        named(targets, name) < targets.len(),
    ensures
        built_before(build_order(targets), named(targets, name) as usize, user),
{
    let g = dep_graph(targets);
    let order = build_order(targets);
    let dep = named(targets, name) as usize;
    lemma_build_order_complete(targets);
    lemma_dependency_is_edge(targets, user, name);
    assert(order.contains(user));
    let j = choose|j: int| 0 <= j < order.len() && order[j] == user;
    let k = choose|k: int| 0 <= k < g[user as int].len() && g[user as int][k] == dep;
    assert(order.take(j).contains(g[order[j] as int][k]));
    let i = choose|i: int| 0 <= i < order.take(j).len() && order.take(j)[i] == dep;
    assert(order[i] == dep);
}

/// A chain of dependencies is built from its end: where the target at place
/// `a` depends on the target at place `b`, and that one on the target at
/// place `c`, the build order has `c` before `b` and `b` before `a`.
pub proof fn lemma_chain_built_in_order(targets: Seq<TargetSpec>, a: usize, b: usize, c: usize)
    requires
        targets.len() <= usize::MAX,
        !has_cycle(dep_graph(targets)),
        a < targets.len(),
        b < targets.len(),
        c < targets.len(),
        named(targets, targets[b as int].name) == b,
        named(targets, targets[c as int].name) == c,
        targets[a as int].deps.contains(targets[b as int].name),
        targets[b as int].deps.contains(targets[c as int].name),
    ensures
        exists|i: int, j: int, k: int|
            0 <= i < j < k < build_order(targets).len() && build_order(targets)[i] == c
                && build_order(targets)[j] == b && build_order(targets)[k] == a,
{
    let order = build_order(targets);
    lemma_build_order_complete(targets);
    lemma_dependency_built_first(targets, a, targets[b as int].name);
    lemma_dependency_built_first(targets, b, targets[c as int].name);
    let (j, k) = choose|j: int, k: int| 0 <= j < k < order.len() && order[j] == b && order[k] == a;
    let (i, j2) = choose|i: int, j2: int|
        0 <= i < j2 < order.len() && order[i] == c && order[j2] == b;
    if j < j2 {
        assert(order[j] != order[j2]);
    }
    if j2 < j {
        assert(order[j2] != order[j]);
    }
    assert(0 <= i < j < k < order.len() && order[i] == c && order[j] == b && order[k] == a);
}

/// The names of the targets.
pub open spec fn names_of(targets: Seq<TargetSpec>) -> Seq<Seq<char>> {
    Seq::new(targets.len(), |i: int| targets[i].name)
}

/// The type of a target is one of the two that there are.
pub open spec fn valid_type(typ: Seq<char>) -> bool {
    typ == "exe"@ || typ == "dll"@
}

/// The place of the first target whose type is not valid, or the number of
/// targets.
pub open spec fn first_invalid(targets: Seq<TargetSpec>) -> int
    decreases targets.len(),
{
    if targets.len() == 0 || !valid_type(targets[0].typ) {
        0
    } else {
        1 + first_invalid(targets.drop_first())
    }
}

/// How many of the targets are executables.
pub open spec fn executables(targets: Seq<TargetSpec>) -> nat
    decreases targets.len(),
{
    if targets.len() == 0 {
        0
    } else if targets[0].typ == "exe"@ {
        1 + executables(targets.drop_first())
    } else {
        executables(targets.drop_first())
    }
}

/// Checks the targets of a project: there has to be one at least, each has
/// to be an executable or a library, and no two may have the same name. The
/// first of these that fails is reported, with the first target that it
/// fails for.
pub fn check_targets(targets: &Vec<TargetConfig>) -> (checked: Result<(), ConfigError>)
    ensures
        checked is Ok <==> targets@.len() > 0 && first_invalid(specs(targets@)) == targets@.len()
            && first_repeated(names_of(specs(targets@))) == targets@.len(),
        checked matches Err(e) ==> {
            let all = specs(targets@);
            let bad = first_invalid(all);
            let twice = first_repeated(names_of(all));
            if all.len() == 0 {
                e is NoTargets
            } else if 0 <= bad < all.len() {
                e matches ConfigError::InvalidType { target, typ } && target@ == all[bad].name
                    && typ@ == all[bad].typ
            } else {
                &&& 0 <= twice < all.len()
                &&& e matches ConfigError::DuplicateTarget { name }
                &&& name@ == all[twice].name
            }
        },
{
    let ghost all = specs(targets@);
    if targets.len() == 0 {
        return Err(ConfigError::NoTargets);
    }
    let mut i: usize = 0;
    let mut names: Vec<String> = Vec::new();
    assert(all.skip(0) =~= all);
    while i < targets.len()
        invariant
            i <= targets.len(),
            all == specs(targets@),
            all.len() > 0,
            first_invalid(all) == i + first_invalid(all.skip(i as int)),
            names@.len() == i,
            forall|j: int| 0 <= j < i ==> (#[trigger] names@[j])@ == all[j].name,
        decreases targets.len() - i,
    {
        proof {
            let tail = all.skip(i as int);
            assert(tail[0] == targets@[i as int]@);
            assert(tail.drop_first() =~= all.skip(i + 1));
        }
        let typ = targets[i].typ.as_str();
        if !str_eq(typ, "exe") && !str_eq(typ, "dll") {
            return Err(
                ConfigError::InvalidType {
                    target: targets[i].name.clone(),
                    typ: targets[i].typ.clone(),
                },
            );
        }
        names.push(targets[i].name.clone());
        i += 1;
    }
    assert(texts(names@) =~= names_of(all));
    let twice = find_repeated(&names);
    if twice < names.len() {
        return Err(ConfigError::DuplicateTarget { name: names[twice].clone() });
    }
    Ok(())
}

/// Finds the executable of a project, which has to have exactly one: its
/// place among the targets, or else the number of executables found.
pub fn check_executables(targets: &Vec<TargetConfig>) -> (checked: Result<usize, ConfigError>)
    ensures
        checked is Ok <==> executables(specs(targets@)) == 1,
        checked matches Ok(at) ==> at < targets@.len() && specs(targets@)[at as int].typ == "exe"@,
        checked matches Err(e) ==> e matches ConfigError::ExecutableCount { found } && found
            == executables(specs(targets@)),
{
    let ghost all = specs(targets@);
    let mut found: usize = 0;
    let mut at: usize = 0;
    let mut i: usize = 0;
    assert(all.skip(0) =~= all);
    while i < targets.len()
        invariant
            i <= targets.len(),
            all == specs(targets@),
            found <= i,
            found + executables(all.skip(i as int)) == executables(all),
            found > 0 ==> at < i && all[at as int].typ == "exe"@,
        decreases targets.len() - i,
    {
        proof {
            let tail = all.skip(i as int);
            assert(tail[0] == targets@[i as int]@);
            assert(tail.drop_first() =~= all.skip(i + 1));
        }
        if str_eq(targets[i].typ.as_str(), "exe") {
            found += 1;
            at = i;
        }
        i += 1;
    }
    if found == 1 {
        Ok(at)
    } else {
        Err(ConfigError::ExecutableCount { found })
    }
}

/// A file with this name is compiled: its name ends in `.cpp` or `.c`, or,
/// where files for CUDA are asked for, in `.cu`.
pub open spec fn compilable(name: Seq<char>, cuda: bool) -> bool {
    ".cpp"@.is_suffix_of(name) || ".c"@.is_suffix_of(name) || (cuda && ".cu"@.is_suffix_of(name))
}

/// Tells whether the file named `name` is a source file.
pub fn is_source_file(name: &str, cuda: bool) -> (yes: bool)
    ensures
        yes == compilable(name@, cuda),
{
    let chars = to_chars(name);
    if ends_with(&chars, &to_chars(".cpp")) {
        return true;
    }
    if ends_with(&chars, &to_chars(".c")) {
        return true;
    }
    cuda && ends_with(&chars, &to_chars(".cu"))
}

/// The names of the source files at `paths`, each without directory and
/// extension.
pub open spec fn logical_names(paths: Seq<Seq<char>>) -> Seq<Seq<char>> {
    Seq::new(paths.len(), |k: int| crate::builder::target::src_name_of(paths[k]))
}

/// The source files at `paths` can make a target: there is one at least, and
/// no two have the same name once directory and extension are taken off.
pub open spec fn sources_ok(paths: Seq<Seq<char>>) -> bool {
    paths.len() > 0 && first_repeated(logical_names(paths)) == paths.len()
}

/// The error `e` says what is wrong with the source files at `paths` of the
/// target named `target`: that there is none, or else the first file whose
/// name, without directory and extension, a later file has too.
pub open spec fn tells_sources(e: ConfigError, target: Seq<char>, paths: Seq<Seq<char>>) -> bool {
    if paths.len() == 0 {
        e matches ConfigError::NoSources { target: name } && name@ == target
    } else {
        &&& 0 <= first_repeated(logical_names(paths)) < paths.len()
        &&& e matches ConfigError::DuplicateSource { target: name, file }
        &&& name@ == target
        &&& file@ == paths[first_repeated(logical_names(paths))]
    }
}

/// Checks the source files of the target `target`, given by their paths:
/// there has to be one at least, and no two may have the same name once
/// directory and extension are taken off, since each is compiled to an object
/// file of that name.
pub fn check_source_paths(target: &str, paths: &Vec<String>) -> (checked: Result<(), ConfigError>)
    ensures
        checked is Ok <==> sources_ok(texts(paths@)),
        checked matches Err(e) ==> tells_sources(e, target@, texts(paths@)),
{
    if paths.len() == 0 {
        return Err(ConfigError::NoSources { target: target.to_owned() });
    }
    let mut names: Vec<String> = Vec::new();
    let mut i: usize = 0;
    while i < paths.len()
        invariant
            i <= paths.len(),
            names@.len() == i,
            forall|j: int|
                0 <= j < i ==> (#[trigger] names@[j])@ == crate::builder::target::src_name_of(
                    paths@[j]@,
                ),
        decreases paths.len() - i,
    {
        names.push(crate::builder::target::get_src_name(paths[i].as_str()));
        i += 1;
    }
    assert(texts(names@) =~= logical_names(texts(paths@)));
    let twice = find_repeated(&names);
    if twice < names.len() {
        return Err(
            ConfigError::DuplicateSource { target: target.to_owned(), file: paths[twice].clone() },
        );
    }
    Ok(())
}

} // verus!
