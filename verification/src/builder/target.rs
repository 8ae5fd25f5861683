//! One target of a build: the libraries it depends on, its source files and
//! the steps that bring its binary up to date.

use crate::builder::headers::HeaderTable;
use crate::builder::src::{Src, SrcSpec};
use crate::graph::{all_nodes, finish_order, lemma_finish_order, walk_order};
use crate::hasher::PathHash;
use crate::text::{
    copy_range, find_char, from_chars, index_of, rows, split_chars, split_on,
    starts_with, str_eq, texts, to_chars,
};
use crate::utils::configs::{
    dep_graph, lemma_resolved, named, resolved, specs, BuildConfig, BuildSpec, Platform,
    TargetConfig, TargetSpec,
};
use crate::utils::package::{Package, PackageSpec};
use vstd::prelude::*;

verus! {

/// What a list of packages holds.
pub open spec fn package_specs(packages: Seq<Package>) -> Seq<PackageSpec> {
    Seq::new(packages.len(), |i: int| packages[i]@)
}

/// The directory that binaries are written to.
pub open spec fn build_dir() -> Seq<char> {
    ".bld_cpp/bin"@
}

/// The directory that the object files of a project are written to.
pub open spec fn obj_dir(platform: Platform) -> Seq<char> {
    match platform {
        Platform::Windows => ".bld_cpp/obj_win32"@,
        _ => ".bld_cpp/obj_linux"@,
    }
}

/// What the name of a binary ends with.
pub open spec fn bin_suffix(platform: Platform, typ: Seq<char>) -> Seq<char> {
    match platform {
        Platform::Windows => if typ == "exe"@ {
            ".exe"@
        } else if typ == "dll"@ {
            ".dll"@
        } else {
            Seq::empty()
        },
        _ => if typ == "dll"@ {
            ".so"@
        } else {
            Seq::empty()
        },
    }
}

/// The path of the binary of a target.
pub open spec fn bin_path_of(platform: Platform, name: Seq<char>, typ: Seq<char>) -> Seq<char> {
    build_dir() + "/"@ + name + bin_suffix(platform, typ)
}

/// What the name of a hash file ends with.
pub open spec fn hash_suffix(platform: Platform) -> Seq<char> {
    match platform {
        Platform::Windows => ".win32.hash"@,
        _ => ".linux.hash"@,
    }
}

/// The path of the file that keeps the digests of a target's files.
pub open spec fn hash_path_of(platform: Platform, name: Seq<char>) -> Seq<char> {
    ".bld_cpp/"@ + name + hash_suffix(platform)
}

/// The name of a source file: what follows the last slash of its path, up to
/// the first dot.
pub open spec fn src_name_of(path: Seq<char>) -> Seq<char> {
    let file = split_on(path, '/').last();
    file.take(index_of(file, '.'))
}

/// The path of the object file for the source file named `src_name` of the
/// target named `target`.
pub open spec fn obj_name_of(platform: Platform, target: Seq<char>, src_name: Seq<char>) -> Seq<
    char,
> {
    obj_dir(platform) + "/"@ + target + src_name + ".o"@
}

/// The path of the binary of the target named `name`.
pub fn bin_path(platform: Platform, name: &str, typ: &str) -> (path: String)
    ensures
        path@ == bin_path_of(platform, name@, typ@),
{
    let mut path = String::from_str(".bld_cpp/bin");
    path.append("/");
    path.append(name);
    match platform {
        Platform::Windows => {
            if str_eq(typ, "exe") {
                path.append(".exe");
            } else if str_eq(typ, "dll") {
                path.append(".dll");
            } else {
                assert(path@ + Seq::<char>::empty() =~= path@);
            }
        },
        _ => {
            if str_eq(typ, "dll") {
                path.append(".so");
            } else {
                assert(path@ + Seq::<char>::empty() =~= path@);
            }
        },
    }
    path
}

/// The path of the file that keeps the digests of the target named `name`.
pub fn hash_file_path(platform: Platform, name: &str) -> (path: String)
    ensures
        path@ == hash_path_of(platform, name@),
{
    let mut path = String::from_str(".bld_cpp/");
    path.append(name);
    match platform {
        Platform::Windows => {
            path.append(".win32.hash");
        },
        _ => {
            path.append(".linux.hash");
        },
    }
    path
}

/// The name of the source file at `path`, without directory and extension.
pub fn get_src_name(path: &str) -> (name: String)
    ensures
        name@ == src_name_of(path@),
{
    let chars = to_chars(path);
    let pieces = split_chars(&chars, '/');
    proof {
        crate::text::lemma_split_on_len(path@, '/');
        assert(rows(pieces@).last() == pieces@[pieces@.len() - 1]@);
    }
    let file = &pieces[pieces.len() - 1];
    let dot = find_char(file, 0, '.');
    proof {
        assert(file@.skip(0) =~= file@);
        assert(file@.subrange(0, dot as int) =~= file@.take(dot as int));
    }
    from_chars(&copy_range(file, 0, dot))
}

/// The path of the object file for the source file named `src_name` of the
/// target named `target`.
pub fn get_src_obj_name(platform: Platform, target: &str, src_name: &str) -> (path: String)
    ensures
        path@ == obj_name_of(platform, target@, src_name@),
{
    let mut path = match platform {
        Platform::Windows => String::from_str(".bld_cpp/obj_win32"),
        _ => String::from_str(".bld_cpp/obj_linux"),
    };
    path.append("/");
    path.append(target);
    path.append(src_name);
    path.append(".o");
    path
}

/// The name under which the linker is given the library `name`: a name that
/// begins with `lib` has that beginning rewritten to `-l`, any other name is
/// passed as it is.
pub open spec fn linker_name_of(name: Seq<char>) -> Seq<char> {
    if "lib"@.is_prefix_of(name) {
        "-l"@ + name.skip(3)
    } else {
        name
    }
}

/// The name under which the linker is given the library `name`.
pub fn linker_name(name: &str) -> (flag: String)
    ensures
        flag@ == linker_name_of(name@),
{
    let chars = to_chars(name);
    let prefix = to_chars("lib");
    proof {
        reveal_strlit("lib");
    }
    if starts_with(&chars, &prefix) {
        let mut flag = String::from_str("-l");
        let rest = from_chars(&copy_range(&chars, 3, chars.len()));
        flag.append(rest.as_str());
        flag
    } else {
        String::from_str(name)
    }
}

/// Whether the name of a library target follows the convention that library
/// names begin with `lib`.
pub fn follows_naming(name: &str) -> (yes: bool)
    ensures
        yes == "lib"@.is_prefix_of(name@),
{
    let chars = to_chars(name);
    let prefix = to_chars("lib");
    starts_with(&chars, &prefix)
}

/// The object files, each behind a space.
pub open spec fn obj_args(objs: Seq<Seq<char>>) -> Seq<char>
    decreases objs.len(),
{
    if objs.len() == 0 {
        Seq::empty()
    } else {
        " "@ + objs[0] + obj_args(objs.drop_first())
    }
}

/// The arguments for the libraries `libs`: for each its header directory and
/// its linker name.
pub open spec fn lib_args(libs: Seq<TargetSpec>) -> Seq<char>
    decreases libs.len(),
{
    if libs.len() == 0 {
        Seq::empty()
    } else {
        " -I"@ + libs[0].include_dir + " "@ + linker_name_of(libs[0].name) + " "@ + lib_args(
            libs.drop_first(),
        )
    }
}

/// The arguments for the targets of the packages, package by package.
pub open spec fn package_lib_args(packages: Seq<PackageSpec>) -> Seq<char>
    decreases packages.len(),
{
    if packages.len() == 0 {
        Seq::empty()
    } else {
        lib_args(packages[0].target_configs) + package_lib_args(packages.drop_first())
    }
}

/// How the binary finds its libraries when it runs.
pub open spec fn rpath_arg(platform: Platform) -> Seq<char> {
    match platform {
        Platform::Windows => Seq::empty(),
        _ => " -Wl,-rpath,\'$ORIGIN\' "@,
    }
}

/// Where the linker looks for libraries, given where there are any.
pub open spec fn search_args(platform: Platform, count: nat) -> Seq<char> {
    if count > 0 {
        "-L"@ + build_dir() + rpath_arg(platform) + " "@
    } else {
        Seq::empty()
    }
}

/// The flag that makes the linker write a shared library.
pub open spec fn shared_flag(typ: Seq<char>) -> Seq<char> {
    if typ == "dll"@ {
        " -shared "@
    } else {
        Seq::empty()
    }
}

/// The command that links a target: the compiler, `-o` and the binary,
/// `-shared` for a library, the object files, the target's flags, the header
/// directories and names of the libraries and package targets it is linked
/// with, the directory to find them in, and the target's own libraries.
pub open spec fn link_command(
    platform: Platform,
    build: BuildSpec,
    target: TargetSpec,
    bin_path: Seq<char>,
    objs: Seq<Seq<char>>,
    libs: Seq<TargetSpec>,
    packages: Seq<PackageSpec>,
) -> Seq<char> {
    build.compiler + " -o "@ + bin_path + shared_flag(target.typ) + obj_args(objs) + " "@
        + target.cflags + " "@ + lib_args(libs) + package_lib_args(packages) + search_args(
        platform,
        packages.len() + libs.len(),
    ) + target.libs
}

/// Appends the arguments for the libraries `libs` to `cmd`.
pub fn push_lib_args(cmd: &mut String, libs: &Vec<TargetConfig>)
    ensures
        final(cmd)@ == old(cmd)@ + lib_args(specs(libs@)),
{
    let ghost all = specs(libs@);
    let mut i: usize = 0;
    assert(all.skip(0) =~= all);
    while i < libs.len()
        invariant
            i <= libs.len(),
            all == specs(libs@),
            cmd@ + lib_args(all.skip(i as int)) == old(cmd)@ + lib_args(all),
        decreases libs.len() - i,
    {
        let ghost before = cmd@;
        let flag = linker_name(libs[i].name.as_str());
        cmd.append(" -I");
        cmd.append(libs[i].include_dir.as_str());
        cmd.append(" ");
        cmd.append(flag.as_str());
        cmd.append(" ");
        proof {
            let tail = all.skip(i as int);
            assert(tail[0] == libs@[i as int]@);
            assert(tail.drop_first() =~= all.skip(i + 1));
            assert(cmd@ + lib_args(all.skip(i + 1)) =~= before + (" -I"@ + tail[0].include_dir
                + " "@ + linker_name_of(tail[0].name) + " "@ + lib_args(tail.drop_first())));
        }
        i += 1;
    }
    assert(cmd@ + Seq::<char>::empty() =~= cmd@);
}

/// The command that links the target `target_config` from the object files
/// `objs`.
pub fn link_command_for(
    platform: Platform,
    build_config: &BuildConfig,
    target_config: &TargetConfig,
    bin_path: &str,
    objs: &Vec<String>,
    libs: &Vec<TargetConfig>,
    packages: &Vec<Package>,
) -> (cmd: String)
    ensures
        cmd@ == link_command(
            platform,
            build_config@,
            target_config@,
            bin_path@,
            texts(objs@),
            specs(libs@),
            package_specs(packages@),
        ),
{
    let ghost names = texts(objs@);
    let ghost packs = package_specs(packages@);
    let mut cmd = build_config.compiler.clone();
    cmd.append(" -o ");
    cmd.append(bin_path);
    if str_eq(target_config.typ.as_str(), "dll") {
        cmd.append(" -shared ");
    } else {
        assert(cmd@ + Seq::<char>::empty() =~= cmd@);
    }
    let ghost head = cmd@;
    let mut i: usize = 0;
    assert(names.skip(0) =~= names);
    while i < objs.len()
        invariant
            i <= objs.len(),
            names == texts(objs@),
            cmd@ + obj_args(names.skip(i as int)) == head + obj_args(names),
        decreases objs.len() - i,
    {
        let ghost before = cmd@;
        cmd.append(" ");
        cmd.append(objs[i].as_str());
        proof {
            let tail = names.skip(i as int);
            assert(tail[0] == objs@[i as int]@);
            assert(tail.drop_first() =~= names.skip(i + 1));
            assert(cmd@ + obj_args(names.skip(i + 1)) =~= before + (" "@ + tail[0] + obj_args(
                tail.drop_first(),
            )));
        }
        i += 1;
    }
    assert(cmd@ + Seq::<char>::empty() =~= cmd@);
    cmd.append(" ");
    cmd.append(target_config.cflags.as_str());
    cmd.append(" ");
    push_lib_args(&mut cmd, libs);
    let ghost middle = cmd@;
    let mut k: usize = 0;
    assert(packs.skip(0) =~= packs);
    while k < packages.len()
        invariant
            k <= packages.len(),
            packs == package_specs(packages@),
            cmd@ + package_lib_args(packs.skip(k as int)) == middle + package_lib_args(packs),
        decreases packages.len() - k,
    {
        let ghost before = cmd@;
        push_lib_args(&mut cmd, &packages[k].target_configs);
        proof {
            let tail = packs.skip(k as int);
            assert(tail[0] == packages@[k as int]@);
            assert(tail.drop_first() =~= packs.skip(k + 1));
            assert(cmd@ + package_lib_args(packs.skip(k + 1)) =~= before + (lib_args(
                tail[0].target_configs,
            ) + package_lib_args(tail.drop_first())));
        }
        k += 1;
    }
    assert(cmd@ + Seq::<char>::empty() =~= cmd@);
    if packages.len() > 0 || libs.len() > 0 {
        cmd.append("-L");
        cmd.append(".bld_cpp/bin");
        match platform {
            Platform::Windows => {
                assert(cmd@ + Seq::<char>::empty() =~= cmd@);
            },
            _ => {
                cmd.append(" -Wl,-rpath,\'$ORIGIN\' ");
            },
        }
        cmd.append(" ");
    } else {
        assert(cmd@ + Seq::<char>::empty() =~= cmd@);
    }
    cmd.append(target_config.libs.as_str());
    proof {
        assert(cmd@ =~= link_command(
            platform,
            build_config@,
            target_config@,
            bin_path@,
            texts(objs@),
            specs(libs@),
            package_specs(packages@),
        ));
    }
    cmd
}

/// Why a target cannot be built.
#[derive(Debug)]
pub enum BuildError {
    /// The target `target`, of type `typ`, is depended on but is no library.
    DependencyNotLibrary { target: String, typ: String },
    /// More dependencies are asked for than library targets and packages are
    /// found for; `available` lists the library targets there are.
    DependenciesNotFound { requested: Vec<String>, available: Vec<String> },
    /// The header at `path`, which the file at `included_from` names, cannot
    /// be read.
    MissingHeader { path: String, included_from: String },
    /// The target `target` depends on `dependency`, which depends on `target`
    /// again, directly or through other targets.
    CyclicDependency { target: String, dependency: String },
    /// The compiler failed on the source file `source`.
    CompileFailed { source: String, command: String, stdout: String, stderr: String },
    /// The linker failed.
    LinkFailed { command: String, stderr: String },
    /// The step does not follow from the state that the build is in.
    OutOfTurn,
}

/// What is wrong with the dependencies of a target: the target at a place,
/// which is depended on, is no library; or too few of them are found.
pub enum Fault {
    NotLibrary(usize),
    NotFound,
}

/// The place in `deps` of the first target that is no library, or the
/// number of `deps`.
pub open spec fn first_non_library(all: Seq<TargetSpec>, deps: Seq<usize>) -> int
    decreases deps.len(),
{
    if deps.len() == 0 || all[deps[0] as int].typ != "dll"@ {
        0
    } else {
        1 + first_non_library(all, deps.drop_first())
    }
}

/// What is wrong with the dependencies of the target `target`, if anything:
/// the first of its dependencies that is no library; or, where all are, that
/// it names more dependencies than targets and packages are found for.
pub open spec fn fault_of(all: Seq<TargetSpec>, target: TargetSpec, packages: nat) -> Option<Fault> {
    let deps = resolved(all, target.deps);
    let at = first_non_library(all, deps);
    if 0 <= at < deps.len() {
        Some(Fault::NotLibrary(deps[at]))
    } else if target.deps.len() > deps.len() + packages {
        Some(Fault::NotFound)
    } else {
        None
    }
}

/// The place in `order` of the first target whose dependencies are at fault,
/// or the length of `order`.
pub open spec fn first_faulty(all: Seq<TargetSpec>, order: Seq<usize>, packages: nat) -> int
    decreases order.len(),
{
    if order.len() == 0 || fault_of(all, all[order[0] as int], packages) is Some {
        0
    } else {
        1 + first_faulty(all, order.drop_first(), packages)
    }
}

/// The names of the library targets among `all`, in order.
pub open spec fn library_names(all: Seq<TargetSpec>) -> Seq<Seq<char>>
    decreases all.len(),
{
    if all.len() == 0 {
        Seq::empty()
    } else if all[0].typ == "dll"@ {
        seq![all[0].name] + library_names(all.drop_first())
    } else {
        library_names(all.drop_first())
    }
}

/// The error `e` reports the fault `fault` of the target `target`.
pub open spec fn reports(e: BuildError, all: Seq<TargetSpec>, target: TargetSpec, fault: Fault) -> bool {
    match fault {
        Fault::NotLibrary(dep) => e matches BuildError::DependencyNotLibrary { target: name, typ }
            && name@ == all[dep as int].name && typ@ == all[dep as int].typ,
        Fault::NotFound => e matches BuildError::DependenciesNotFound { requested, available }
            && texts(requested@) == target.deps && texts(available@) == library_names(all),
    }
}

/// The targets that the target `target` depends on, then those that these
/// depend on, each behind its own dependencies.
pub open spec fn dependency_order(all: Seq<TargetSpec>, target: TargetSpec) -> Seq<usize> {
    finish_order(dep_graph(all), resolved(all, target.deps))
}

/// The dependencies of the target `target` go in a circle: a target that it
/// depends on, directly or not, depends on itself.
pub open spec fn closure_cycle(all: Seq<TargetSpec>, target: TargetSpec) -> bool {
    crate::graph::cycle_reached(dep_graph(all), resolved(all, target.deps))
}

/// The dependency at place `k` of the target at place `i` of the dependency
/// order is the first that does not stand before its target.
pub open spec fn first_closure_edge(all: Seq<TargetSpec>, target: TargetSpec, i: int, k: int) -> bool {
    &&& crate::graph::misplaced(dep_graph(all), dependency_order(all, target), i, k)
    &&& forall|a: int, b: int|
        crate::graph::misplaced(dep_graph(all), dependency_order(all, target), a, b) ==> i < a
            || (i == a && k <= b)
}

/// `user` and `dependency` are the names of the two ends of the first
/// dependency, in the dependency order of `target`, that does not stand
/// before its target.
pub open spec fn names_closure_edge(
    all: Seq<TargetSpec>,
    target: TargetSpec,
    user: Seq<char>,
    dependency: Seq<char>,
) -> bool {
    exists|i: int, k: int|
        #![trigger first_closure_edge(all, target, i, k)]
        first_closure_edge(all, target, i, k) && user == all[dependency_order(
            all,
            target,
        )[i] as int].name && dependency == all[dep_graph(all)[dependency_order(
            all,
            target,
        )[i] as int][k] as int].name
}

/// What is wrong with the target `target` or with a target it depends on,
/// directly or not: the targets depended on are looked at first, each behind
/// its own dependencies, then the target itself.
pub open spec fn first_fault(all: Seq<TargetSpec>, target: TargetSpec, packages: nat) -> Option<
    (TargetSpec, Fault),
> {
    let order = dependency_order(all, target);
    let at = first_faulty(all, order, packages);
    if 0 <= at < order.len() {
        Some((all[order[at] as int], fault_of(all, all[order[at] as int], packages)->0))
    } else if fault_of(all, target, packages) is Some {
        Some((target, fault_of(all, target, packages)->0))
    } else {
        None
    }
}

/// `first_non_library` is a place of `deps` or their number, the target
/// there is no library, and the targets before it are.
pub proof fn lemma_first_non_library(all: Seq<TargetSpec>, deps: Seq<usize>)
    ensures
        0 <= first_non_library(all, deps) <= deps.len(),
        forall|j: int|
            0 <= j < first_non_library(all, deps) ==> all[(#[trigger] deps[j]) as int].typ
                == "dll"@,
    decreases deps.len(),
{
    if deps.len() > 0 && all[deps[0] as int].typ == "dll"@ {
        let rest = deps.drop_first();
        lemma_first_non_library(all, rest);
        assert forall|j: int| 0 <= j < first_non_library(all, deps) implies all[(
        #[trigger] deps[j]) as int].typ == "dll"@ by {
            if j > 0 {
                assert(deps[j] == rest[j - 1]);
            }
        }
    }
}

/// A target that depends on a target which is no library cannot be made:
/// where one of the targets that `target` names as a dependency is found and
/// is no library, the dependencies go in a circle or there is a fault, and
/// `Target::new` reports the one or the other in place of a target.
pub proof fn lemma_non_library_dependency_refused(
    all: Seq<TargetSpec>,
    target: TargetSpec,
    packages: nat,
    k: int,
)
    requires
        0 <= k < resolved(all, target.deps).len(),
        all[resolved(all, target.deps)[k] as int].typ != "dll"@,
    ensures
        closure_cycle(all, target) || first_fault(all, target, packages) is Some,
{
    let deps = resolved(all, target.deps);
    lemma_first_non_library(all, deps);
    if first_non_library(all, deps) > k {
        assert(all[deps[k] as int].typ == "dll"@);
    }
    assert(fault_of(all, target, packages) is Some);
    lemma_first_faulty(all, dependency_order(all, target), packages);
}

/// `first_faulty` is a place of `order` or its length.
pub proof fn lemma_first_faulty(all: Seq<TargetSpec>, order: Seq<usize>, packages: nat)
    ensures
        0 <= first_faulty(all, order, packages) <= order.len(),
        first_faulty(all, order, packages) < order.len() ==> fault_of(
            all,
            all[order[first_faulty(all, order, packages)] as int],
            packages,
        ) is Some,
    decreases order.len(),
{
    if order.len() > 0 && !(fault_of(all, all[order[0] as int], packages) is Some) {
        let rest = order.drop_first();
        lemma_first_faulty(all, rest, packages);
        let at = first_faulty(all, rest, packages);
        if at < rest.len() {
            assert(rest[at] == order[at + 1]);
        }
    }
}

/// The names of the library targets among `targets`.
pub fn library_targets(targets: &Vec<TargetConfig>) -> (names: Vec<String>)
    ensures
        texts(names@) == library_names(specs(targets@)),
{
    let ghost all = specs(targets@);
    let mut names: Vec<String> = Vec::new();
    let mut i: usize = 0;
    assert(all.skip(0) =~= all);
    while i < targets.len()
        invariant
            i <= targets.len(),
            all == specs(targets@),
            texts(names@) + library_names(all.skip(i as int)) == library_names(all),
        decreases targets.len() - i,
    {
        let ghost before = texts(names@);
        proof {
            let tail = all.skip(i as int);
            assert(tail[0] == targets@[i as int]@);
            assert(tail.drop_first() =~= all.skip(i + 1));
        }
        if str_eq(targets[i].typ.as_str(), "dll") {
            names.push(targets[i].name.clone());
            proof {
                assert(texts(names@) =~= before + seq![targets@[i as int].name@]);
                assert(texts(names@) + library_names(all.skip(i + 1)) =~= before + (seq![
                    targets@[i as int].name@,
                ] + library_names(all.skip(i + 1))));
            }
        }
        i += 1;
    }
    assert(texts(names@) + Seq::<Seq<char>>::empty() =~= texts(names@));
    names
}

/// Checks the dependencies of `target`: each one that is found among
/// `targets` has to be a library, and no more may be named than targets and
/// packages are found for.
pub fn check_deps(targets: &Vec<TargetConfig>, target: &TargetConfig, packages: usize) -> (checked:
    Result<Vec<usize>, BuildError>)
    ensures
        checked matches Ok(deps) ==> fault_of(specs(targets@), target@, packages as nat) is None
            && deps@ == resolved(specs(targets@), target@.deps),
        checked matches Err(e) ==> fault_of(specs(targets@), target@, packages as nat) is Some
            && reports(
            e,
            specs(targets@),
            target@,
            fault_of(specs(targets@), target@, packages as nat)->0,
        ),
{
    let ghost all = specs(targets@);
    let deps = TargetConfig::resolve_deps(targets, &target.deps);
    proof {
        lemma_resolved(all, target@.deps);
    }
    let mut k: usize = 0;
    assert(deps@.skip(0) =~= deps@);
    while k < deps.len()
        invariant
            k <= deps.len(),
            all == specs(targets@),
            deps@ == resolved(all, target@.deps),
            forall|j: int| 0 <= j < deps@.len() ==> (#[trigger] deps@[j]) < all.len(),
            first_non_library(all, deps@) == k + first_non_library(all, deps@.skip(k as int)),
        decreases deps.len() - k,
    {
        proof {
            let tail = deps@.skip(k as int);
            assert(tail[0] == deps@[k as int]);
            assert(tail.drop_first() =~= deps@.skip(k + 1));
        }
        let dep = &targets[deps[k]];
        if !str_eq(dep.typ.as_str(), "dll") {
            return Err(
                BuildError::DependencyNotLibrary { target: dep.name.clone(), typ: dep.typ.clone() },
            );
        }
        k += 1;
    }
    if target.deps.len() - deps.len() > packages {
        return Err(
            BuildError::DependenciesNotFound {
                requested: crate::utils::configs::copy_strings(&target.deps),
                available: library_targets(targets),
            },
        );
    }
    Ok(deps)
}

/// Where no target before place `at` of `order` is at fault, `first_faulty`
/// is not before `at`.
pub proof fn lemma_first_faulty_is(all: Seq<TargetSpec>, order: Seq<usize>, packages: nat, at: int)
    requires
        0 <= at <= order.len(),
        forall|j: int|
            0 <= j < at ==> fault_of(all, all[(#[trigger] order[j]) as int], packages) is None,
        at < order.len() ==> fault_of(all, all[order[at] as int], packages) is Some,
    ensures
        first_faulty(all, order, packages) == at,
    decreases order.len(),
{
    if at > 0 {
        let rest = order.drop_first();
        assert(fault_of(all, all[order[0] as int], packages) is None);
        assert forall|j: int| 0 <= j < at - 1 implies fault_of(
            all,
            all[(#[trigger] rest[j]) as int],
            packages,
        ) is None by {
            assert(rest[j] == order[j + 1]);
        }
        if at < order.len() {
            assert(rest[at - 1] == order[at]);
        }
        lemma_first_faulty_is(all, rest, packages, at - 1);
    }
}

/// No target before `first_faulty` is at fault.
pub proof fn lemma_before_first_faulty(
    all: Seq<TargetSpec>,
    order: Seq<usize>,
    packages: nat,
    j: int,
)
    requires
        0 <= j < first_faulty(all, order, packages),
    ensures
        j < order.len(),
        fault_of(all, all[order[j] as int], packages) is None,
    decreases order.len(),
{
    lemma_first_faulty(all, order, packages);
    if j > 0 {
        let rest = order.drop_first();
        lemma_before_first_faulty(all, rest, packages, j - 1);
        assert(rest[j - 1] == order[j]);
    }
}

/// Where the dependencies of every target of a project were checked and no
/// fault was found, no target has a fault in what it depends on, directly or
/// not: `Target::new` refuses none of them for a fault.
pub proof fn lemma_checked_project(all: Seq<TargetSpec>, packages: nat, u: int)
    requires
        all.len() <= usize::MAX,
        first_faulty(all, crate::utils::configs::places(all.len()), packages) == all.len(),
        0 <= u < all.len(),
    ensures
        first_fault(all, all[u], packages) is None,
{
    let every = crate::utils::configs::places(all.len());
    let order = dependency_order(all, all[u]);
    crate::utils::configs::lemma_dep_graph(all);
    lemma_resolved(all, all[u].deps);
    assert(all_nodes(dep_graph(all), resolved(all, all[u].deps)));
    lemma_finish_order(dep_graph(all), resolved(all, all[u].deps));
    assert forall|j: int| 0 <= j < order.len() implies fault_of(
        all,
        all[(#[trigger] order[j]) as int],
        packages,
    ) is None by {
        let v = order[j] as int;
        assert(order[j] < dep_graph(all).len());
        lemma_before_first_faulty(all, every, packages, v);
        assert(every[v] == v as usize);
    }
    lemma_first_faulty_is(all, order, packages, order.len() as int);
    lemma_before_first_faulty(all, every, packages, u);
    assert(every[u] == u as usize);
}

/// Checks the dependencies of every target of a project, in the order of the
/// list, before anything is built: the first target that depends on a target
/// which is no library, or that names more dependencies than are found, is
/// reported.
pub fn check_dependencies(targets: &Vec<TargetConfig>, packages: usize) -> (checked: Result<
    (),
    BuildError,
>)
    ensures
        checked is Ok <==> first_faulty(
            specs(targets@),
            crate::utils::configs::places(targets@.len()),
            packages as nat,
        ) == targets@.len(),
        checked matches Err(e) ==> {
            let all = specs(targets@);
            let at = first_faulty(all, crate::utils::configs::places(all.len()), packages as nat);
            &&& 0 <= at < all.len()
            &&& reports(e, all, all[at], fault_of(all, all[at], packages as nat)->0)
        },
{
    let ghost all = specs(targets@);
    let ghost every = crate::utils::configs::places(all.len());
    let mut i: usize = 0;
    while i < targets.len()
        invariant
            i <= targets.len(),
            all == specs(targets@),
            every == crate::utils::configs::places(all.len()),
            forall|j: int|
                0 <= j < i ==> fault_of(all, all[(#[trigger] every[j]) as int], packages as nat)
                    is None,
        decreases targets.len() - i,
    {
        match check_deps(targets, &targets[i], packages) {
            Err(e) => {
                proof {
                    assert(every[i as int] == i);
                    lemma_first_faulty_is(all, every, packages as nat, i as int);
                }
                return Err(e);
            },
            Ok(_) => {
                assert(every[i as int] == i);
            },
        }
        i += 1;
    }
    proof {
        lemma_first_faulty_is(all, every, packages as nat, i as int);
    }
    Ok(())
}

/// The library targets among the first `n` of `targets`, which belong to the
/// package at place `p`: each as the place of its package and its own place.
pub open spec fn libraries_upto(targets: Seq<TargetSpec>, p: usize, n: int) -> Seq<(usize, usize)>
    decreases n,
{
    if n <= 0 {
        Seq::empty()
    } else if targets[n - 1].typ == "dll"@ {
        libraries_upto(targets, p, n - 1).push((p, (n - 1) as usize))
    } else {
        libraries_upto(targets, p, n - 1)
    }
}

/// The library targets of the first `m` packages, package by package.
pub open spec fn package_libraries(packages: Seq<PackageSpec>, m: int) -> Seq<(usize, usize)>
    decreases m,
{
    if m <= 0 {
        Seq::empty()
    } else {
        package_libraries(packages, m - 1) + libraries_upto(
            packages[m - 1].target_configs,
            (m - 1) as usize,
            packages[m - 1].target_configs.len() as int,
        )
    }
}

/// The targets of the packages that are built before a target of the project
/// is: every library target of every package, in the order of the packages,
/// as the place of the package and the place of the target in it. Each is
/// built with the build configuration of its package, among the targets of
/// its package and against no packages; the other targets of a package are
/// not built.
pub fn package_builds(packages: &Vec<Package>) -> (builds: Vec<(usize, usize)>)
    ensures
        builds@ == package_libraries(package_specs(packages@), packages@.len() as int),
{
    let ghost all = package_specs(packages@);
    let mut builds: Vec<(usize, usize)> = Vec::new();
    let mut p: usize = 0;
    while p < packages.len()
        invariant
            p <= packages.len(),
            all == package_specs(packages@),
            builds@ == package_libraries(all, p as int),
        decreases packages.len() - p,
    {
        let ghost before = builds@;
        let targets = &packages[p].target_configs;
        let ghost list = specs(targets@);
        let mut t: usize = 0;
        while t < targets.len()
            invariant
                t <= targets.len(),
                list == specs(targets@),
                builds@ == before + libraries_upto(list, p, t as int),
            decreases targets.len() - t,
        {
            let ghost so_far = libraries_upto(list, p, t as int);
            if str_eq(targets[t].typ.as_str(), "dll") {
                builds.push((p, t));
                assert(builds@ =~= before + so_far.push((p, t)));
            }
            t += 1;
        }
        assert(all[p as int].target_configs == list);
        p += 1;
    }
    builds
}

/// How far the build of a target has come.
#[derive(Clone, Copy, Debug, PartialEq, Eq, Structural)]
pub enum BuildState {
    /// Nothing was decided yet.
    NotStarted,
    /// It is known which source files have to be compiled.
    SourcesEvaluated,
    /// Nothing had to be done.
    UpToDate,
    /// The source files that need it are being compiled.
    Compiling,
    /// Every source file was compiled; the binary is to be linked.
    LinkNeeded,
    /// The binary was linked.
    Linked,
    /// The linker failed.
    LinkFailed,
}

/// A target that is being built: its configuration, the libraries and
/// packages it is built against, its source files with the headers they
/// depend on, and the digests of the files as the last build left them.
pub struct Target {
    srcs: Vec<Src>,
    directs: Vec<Vec<usize>>,
    build_config: BuildConfig,
    target_config: TargetConfig,
    headers: HeaderTable,
    pub bin_path: String,
    hash_file_path: String,
    path_hash: PathHash,
    current: PathHash,
    dependant_libs: Vec<TargetConfig>,
    packages: Vec<Package>,
    platform: Platform,
    state: BuildState,
    binary_exists: bool,
    needed: Vec<usize>,
}

impl Target {
    /// The configuration of the target.
    pub closed spec fn config(&self) -> TargetSpec {
        self.target_config@
    }

    /// The configuration of the build.
    pub closed spec fn build_spec(&self) -> BuildSpec {
        self.build_config@
    }

    /// The libraries that the target depends on, in the order in which it
    /// names them.
    pub closed spec fn libs(&self) -> Seq<TargetSpec> {
        specs(self.dependant_libs@)
    }

    /// The packages that the target is built against.
    pub closed spec fn packages(&self) -> Seq<PackageSpec> {
        package_specs(self.packages@)
    }

    /// The system that the build runs on.
    pub closed spec fn platform(&self) -> Platform {
        self.platform
    }

    /// The source files of the target.
    pub closed spec fn srcs(&self) -> Seq<SrcSpec> {
        crate::builder::src::units(self.srcs@)
    }

    /// For each source file, the places in the table of headers of the
    /// headers that the file names.
    pub closed spec fn directs(&self) -> Seq<Seq<usize>> {
        Seq::new(self.directs@.len(), |i: int| self.directs@[i]@)
    }

    /// The table of the target's headers.
    pub closed spec fn headers(&self) -> HeaderTable {
        self.headers
    }

    /// The digests of the target's files as the store holds them.
    pub closed spec fn hashes(&self) -> crate::hasher::Pairs {
        self.path_hash.pairs()
    }

    /// The digests of what the files held when the build began.
    pub closed spec fn snapshot(&self) -> Map<Seq<char>, Seq<char>> {
        self.current@
    }

    /// Whether the binary was there when the build began.
    pub closed spec fn binary_existed(&self) -> bool {
        self.binary_exists
    }

    /// The source files that have to be compiled, as places among the source
    /// files.
    pub closed spec fn needed(&self) -> Seq<usize> {
        self.needed@
    }

    /// How far the build has come.
    pub closed spec fn state(&self) -> BuildState {
        self.state
    }

    /// The path of the target's binary.
    pub closed spec fn bin(&self) -> Seq<char> {
        self.bin_path@
    }

    /// The path of the file that keeps the digests.
    pub closed spec fn hash_path(&self) -> Seq<char> {
        self.hash_file_path@
    }

    /// The target is in order: the table of headers is; for each source file
    /// the headers that it names are known, and are headers of the table; the
    /// source files that have to be compiled are source files of the target;
    /// and the store holds one digest for a path.
    pub closed spec fn wf(&self) -> bool {
        &&& self.headers.wf()
        &&& self.directs@.len() == self.srcs@.len()
        &&& forall|i: int|
            0 <= i < self.directs@.len() ==> all_nodes(
                self.headers.graph(),
                (#[trigger] self.directs@[i])@,
            )
        &&& forall|k: int| 0 <= k < self.needed@.len() ==> (#[trigger] self.needed@[k]) < self.srcs@.len()
        &&& self.path_hash.wf()
    }

    /// What it means for a target to be in order.
    pub proof fn lemma_wf(&self)
        requires
            self.wf(),
        ensures
            self.headers().wf(),
            self.directs().len() == self.srcs().len(),
            forall|i: int|
                0 <= i < self.directs().len() ==> all_nodes(
                    self.headers().graph(),
                    #[trigger] self.directs()[i],
                ),
            forall|k: int|
                0 <= k < self.needed().len() ==> (#[trigger] self.needed()[k]) < self.srcs().len(),
            crate::hasher::distinct_paths(self.hashes()),
    {
        assert forall|i: int| 0 <= i < self.directs().len() implies all_nodes(
            self.headers().graph(),
            #[trigger] self.directs()[i],
        ) by {
            assert(all_nodes(self.headers.graph(), self.directs@[i]@));
        }
    }

    /// Makes the target `target_config` of the project whose targets are
    /// `targets`. The targets it depends on are looked up by name, and so are
    /// theirs: each has to be a library, and none may name more dependencies
    /// than there are targets found and packages. `hash_file` is the text of
    /// the target's hash file, empty where there is none.
    pub fn new(
        build_config: &BuildConfig,
        target_config: &TargetConfig,
        targets: &Vec<TargetConfig>,
        packages: Vec<Package>,
        platform: Platform,
        hash_file: &str,
    ) -> (made: Result<Target, BuildError>)
        ensures
            made matches Ok(target) ==> {
                &&& !closure_cycle(specs(targets@), target_config@)
                &&& first_fault(specs(targets@), target_config@, packages@.len()) is None
                &&& target.wf()
                &&& target.headers().wf()
                &&& target.directs().len() == 0
                &&& target.needed().len() == 0
                &&& target.config() == target_config@
                &&& target.build_spec() == build_config@
                &&& target.libs() == crate::utils::configs::picked(
                    specs(targets@),
                    resolved(specs(targets@), target_config@.deps),
                )
                &&& target.packages() == package_specs(packages@)
                &&& target.platform() == platform
                &&& target.srcs().len() == 0
                &&& target.headers().names().len() == 0
                &&& target.headers().dir() == target_config@.include_dir
                &&& target.hashes() == crate::hasher::parsed_store(hash_file@)
                &&& target.state() == BuildState::NotStarted
                &&& target.bin() == bin_path_of(platform, target_config@.name, target_config@.typ)
                &&& target.hash_path() == hash_path_of(platform, target_config@.name)
            },
            made matches Err(e) ==> if closure_cycle(specs(targets@), target_config@) {
                &&& e matches BuildError::CyclicDependency { target, dependency }
                &&& names_closure_edge(specs(targets@), target_config@, target@, dependency@)
            } else {
                first_fault(specs(targets@), target_config@, packages@.len()) matches Some(
                    (at, fault),
                ) && reports(e, specs(targets@), at, fault)
            },
    {
        let ghost all = specs(targets@);
        let ghost pk = packages@.len();
        let adj = TargetConfig::dependency_lists(targets);
        let roots = TargetConfig::resolve_deps(targets, &target_config.deps);
        proof {
            lemma_resolved(all, target_config@.deps);
            assert(all_nodes(dep_graph(all), roots@));
            lemma_finish_order(dep_graph(all), roots@);
        }
        let order = walk_order(&adj, &roots);
        proof {
            crate::graph::lemma_finish_order_cycle(dep_graph(all), roots@);
        }
        match crate::graph::first_misplaced(&adj, &order) {
            Some((i, k)) => {
                let from = order[i];
                let to = adj[from][k];
                proof {
                    assert(dep_graph(all)[from as int][k as int] < dep_graph(all).len());
                    assert(first_closure_edge(all, target_config@, i as int, k as int));
                }
                return Err(
                    BuildError::CyclicDependency {
                        target: targets[from].name.clone(),
                        dependency: targets[to].name.clone(),
                    },
                );
            },
            None => {},
        }
        let mut i: usize = 0;
        assert(order@.skip(0) =~= order@);
        while i < order.len()
            invariant
                i <= order.len(),
                all == specs(targets@),
                pk == packages@.len(),
                !closure_cycle(all, target_config@),
                all_nodes(dep_graph(all), order@),
                order@ == dependency_order(all, target_config@),
                first_faulty(all, order@, pk) == i + first_faulty(all, order@.skip(i as int), pk),
            decreases order.len() - i,
        {
            proof {
                let tail = order@.skip(i as int);
                assert(tail[0] == order@[i as int]);
                assert(tail.drop_first() =~= order@.skip(i + 1));
            }
            match check_deps(targets, &targets[order[i]], packages.len()) {
                Err(e) => {
                    return Err(e);
                },
                Ok(_) => {},
            }
            i += 1;
        }
        let deps = match check_deps(targets, target_config, packages.len()) {
            Err(e) => {
                return Err(e);
            },
            Ok(deps) => deps,
        };
        let mut libs: Vec<TargetConfig> = Vec::new();
        let mut k: usize = 0;
        while k < deps.len()
            invariant
                k <= deps.len(),
                all == specs(targets@),
                deps@ == resolved(all, target_config@.deps),
                forall|j: int| 0 <= j < deps@.len() ==> (#[trigger] deps@[j]) < all.len(),
                libs@.len() == k,
                forall|j: int| 0 <= j < k ==> (#[trigger] libs@[j])@ == all[deps@[j] as int],
            decreases deps.len() - k,
        {
            libs.push(targets[deps[k]].duplicate());
            k += 1;
        }
        let target = Target {
            srcs: Vec::new(),
            directs: Vec::new(),
            build_config: build_config.duplicate(),
            target_config: target_config.duplicate(),
            headers: HeaderTable::new(target_config.include_dir.as_str()),
            bin_path: bin_path(platform, target_config.name.as_str(), target_config.typ.as_str()),
            hash_file_path: hash_file_path(platform, target_config.name.as_str()),
            path_hash: crate::hasher::load_hashes_from_file(hash_file),
            current: PathHash::new(),
            dependant_libs: libs,
            packages,
            platform,
            state: BuildState::NotStarted,
            binary_exists: false,
            needed: Vec::new(),
        };
        proof {
            assert(target.libs() =~= crate::utils::configs::picked(all, deps@));
            assert(target.directs() =~= Seq::<Seq<usize>>::empty());
        }
        Ok(target)
    }

    /// The two targets are set up alike: the same configuration, libraries,
    /// packages, system and paths.
    pub open spec fn same_setup(&self, other: &Target) -> bool {
        &&& self.config() == other.config()
        &&& self.build_spec() == other.build_spec()
        &&& self.libs() == other.libs()
        &&& self.packages() == other.packages()
        &&& self.platform() == other.platform()
        &&& self.bin() == other.bin()
        &&& self.hash_path() == other.hash_path()
    }

    /// The two targets are at the same point of the build: the same state,
    /// digests and decisions.
    pub open spec fn same_progress(&self, other: &Target) -> bool {
        &&& self.state() == other.state()
        &&& self.hashes() == other.hashes()
        &&& self.snapshot() == other.snapshot()
        &&& self.binary_existed() == other.binary_existed()
        &&& self.needed() == other.needed()
    }

    /// The source file that is entered for the file at `path`, before the
    /// headers it depends on are known.
    pub open spec fn new_unit(&self, path: Seq<char>) -> SrcSpec {
        SrcSpec {
            path,
            name: src_name_of(path),
            obj_name: obj_name_of(self.platform(), self.config().name, src_name_of(path)),
            bin_path: self.bin(),
            dependant_includes: Seq::empty(),
        }
    }

    /// A target has no more source files than a machine can count.
    pub proof fn lemma_src_count(&self)
        ensures
            self.srcs().len() <= usize::MAX,
    {
        assert(self.srcs@.len() == self.srcs.len());
    }

    /// How far the build has come.
    pub fn current_state(&self) -> (state: BuildState)
        ensures
            state == self.state(),
    {
        self.state
    }

    /// The path of the file that keeps the digests of the target's files.
    pub fn hash_file(&self) -> (path: &String)
        ensures
            path@ == self.hash_path(),
    {
        &self.hash_file_path
    }

    /// The number of source files.
    pub fn src_count(&self) -> (n: usize)
        ensures
            n == self.srcs().len(),
    {
        self.srcs.len()
    }

    /// The source file at place `i`.
    pub fn src_at(&self, i: usize) -> (src: &Src)
        requires
            i < self.srcs().len(),
        ensures
            src@ == self.srcs()[i as int],
    {
        &self.srcs[i]
    }

    /// Enters the source file at `path`, which holds `text`: its name and
    /// object file are worked out, and the headers that it names are entered
    /// in the table of headers. The headers that it depends on are filled in
    /// by `get_dependant_includes`, once the headers were read.
    pub fn add_src(&mut self, path: String, text: &str)
        requires
            old(self).wf(),
            old(self).state() == BuildState::NotStarted,
        ensures
            final(self).wf(),
            final(self).same_setup(old(self)),
            final(self).same_progress(old(self)),
            final(self).srcs() == old(self).srcs().push(old(self).new_unit(path@)),
            final(self).headers().grown_by(
                &old(self).headers(),
                path@,
                crate::builder::headers::include_substrings(text@),
            ),
            final(self).directs() == old(self).directs().push(
                crate::builder::headers::places_in(
                    final(self).headers().names(),
                    crate::builder::headers::include_substrings(text@),
                ),
            ),
    {
        let name = get_src_name(path.as_str());
        let obj_name = get_src_obj_name(
            self.platform,
            self.target_config.name.as_str(),
            name.as_str(),
        );
        let ghost g0 = self.headers.graph();
        let direct = self.headers.add_file(path.as_str(), text);
        let ghost unit = self.new_unit(path@);
        let src = Src::new(path, name, obj_name, self.bin_path.clone(), Vec::new());
        proof {
            assert(src@.dependant_includes =~= Seq::<Seq<char>>::empty());
            assert(src@ == unit);
        }
        self.srcs.push(src);
        self.directs.push(direct);
        proof {
            assert(self.srcs() =~= old(self).srcs().push(unit));
            assert(self.directs() =~= old(self).directs().push(direct@));
            crate::builder::headers::lemma_entered_all(
                old(self).headers().names(),
                crate::builder::headers::include_substrings(text@),
            );
            assert forall|i: int| 0 <= i < self.directs@.len() implies all_nodes(
                self.headers.graph(),
                (#[trigger] self.directs@[i])@,
            ) by {
                if i < old(self).directs@.len() {
                    assert(all_nodes(g0, old(self).directs@[i]@));
                }
            }
        }
    }

    /// The first header that was named and not read yet: its place in the
    /// table of headers and its path. There is none once every header that
    /// was named was read.
    pub fn next_header(&self) -> (next: Option<(usize, String)>)
        requires
            self.wf(),
        ensures
            next is None <==> self.headers().complete(),
            next matches Some((u, path)) ==> {
                &&& u < self.headers().names().len()
                &&& !self.headers().scanned()[u as int]
                &&& forall|j: int| 0 <= j < u ==> self.headers().scanned()[j]
                &&& path@ == self.headers().path_of(u as int)
            },
    {
        match self.headers.next_unscanned() {
            Some(u) => Some((u, self.headers.header_file(u))),
            None => None,
        }
    }

    /// The error that says that the header at place `u` of the table cannot be
    /// read: it gives the path of the header and of the file that named it
    /// first.
    pub fn missing_header(&self, u: usize) -> (e: BuildError)
        requires
            self.wf(),
            u < self.headers().names().len(),
        ensures
            e matches BuildError::MissingHeader { path, included_from } && path@
                == self.headers().path_of(u as int) && included_from@
                == self.headers().users()[u as int],
    {
        BuildError::MissingHeader {
            path: self.headers.header_file(u),
            included_from: self.headers.first_user(u).clone(),
        }
    }

    /// Records that the header at place `u` of the table holds `text`: the
    /// headers that it names are entered in the table.
    pub fn add_header(&mut self, u: usize, text: &str)
        requires
            old(self).wf(),
            u < old(self).headers().names().len(),
        ensures
            final(self).wf(),
            final(self).same_setup(old(self)),
            final(self).same_progress(old(self)),
            final(self).srcs() == old(self).srcs(),
            final(self).directs() == old(self).directs(),
            final(self).headers().dir() == old(self).headers().dir(),
            final(self).headers().names() == crate::builder::headers::entered_all(
                old(self).headers().names(),
                crate::builder::headers::include_substrings(text@),
            ),
            final(self).headers().users() == crate::builder::headers::credited(
                old(self).headers().users(),
                final(self).headers().names().len(),
                old(self).headers().path_of(u as int),
            ),
            final(self).headers().graph() == crate::builder::headers::widened(
                old(self).headers().graph(),
                final(self).headers().names().len(),
            ).update(
                u as int,
                crate::builder::headers::places_in(
                    final(self).headers().names(),
                    crate::builder::headers::include_substrings(text@),
                ),
            ),
            final(self).headers().scanned() == crate::builder::headers::lengthened(
                old(self).headers().scanned(),
                final(self).headers().names().len(),
            ).update(u as int, true),
    {
        let ghost g0 = self.headers.graph();
        self.headers.scan(u, text);
        proof {
            crate::builder::headers::lemma_entered_all(
                old(self).headers().names(),
                crate::builder::headers::include_substrings(text@),
            );
            assert forall|i: int| 0 <= i < self.directs@.len() implies all_nodes(
                self.headers.graph(),
                (#[trigger] self.directs@[i])@,
            ) by {
                assert(all_nodes(g0, old(self).directs@[i]@));
            }
        }
    }

    /// The source file `unit` with the headers that it depends on filled in:
    /// the paths of the headers that are reached from those it names.
    pub open spec fn resolved_unit(&self, unit: SrcSpec, direct: Seq<usize>) -> SrcSpec {
        SrcSpec {
            path: unit.path,
            name: unit.name,
            obj_name: unit.obj_name,
            bin_path: unit.bin_path,
            dependant_includes: self.headers().paths_of(
                finish_order(self.headers().graph(), direct),
            ),
        }
    }

    /// The error `e` says that the first header that was not read is missing.
    pub open spec fn reports_unread(&self, e: BuildError) -> bool {
        &&& e matches BuildError::MissingHeader { path, included_from }
        &&& exists|u: int|
            #![trigger self.headers().is_next(u)]
            self.headers().is_next(u) && path@ == self.headers().path_of(u) && included_from@
                == self.headers().users()[u]
    }

    /// Fills in, for every source file, the headers that it depends on: the
    /// headers that it names, those that these name, and so on, each once and
    /// behind the headers that it names itself. Every header that was named
    /// has to have been read: where one was not, nothing is filled in, and the
    /// first such header is reported as missing.
    pub fn get_dependant_includes(&mut self) -> (done: Result<(), BuildError>)
        requires
            old(self).wf(),
        ensures
            final(self).wf(),
            final(self).same_setup(old(self)),
            final(self).same_progress(old(self)),
            final(self).headers() == old(self).headers(),
            final(self).directs() == old(self).directs(),
            final(self).srcs().len() == old(self).srcs().len(),
            done is Ok <==> old(self).headers().complete(),
            done is Ok ==> forall|i: int|
                0 <= i < old(self).srcs().len() ==> #[trigger] final(self).srcs()[i] == old(
                    self,
                ).resolved_unit(old(self).srcs()[i], old(self).directs()[i]),
            done matches Err(e) ==> final(self).srcs() == old(self).srcs() && old(
                self,
            ).reports_unread(e),
    {
        match self.headers.next_unscanned() {
            Some(u) => {
                let e = self.missing_header(u);
                proof {
                    assert(self.headers().is_next(u as int));
                }
                return Err(e);
            },
            None => {},
        }
        let mut filled: Vec<Src> = Vec::new();
        let mut i: usize = 0;
        while i < self.srcs.len()
            invariant
                i <= self.srcs@.len(),
                self == old(self),
                self.wf(),
                filled@.len() == i,
                forall|j: int|
                    0 <= j < i ==> (#[trigger] filled@[j])@ == self.resolved_unit(
                        self.srcs()[j],
                        self.directs()[j],
                    ),
            decreases self.srcs.len() - i,
        {
            let src = &self.srcs[i];
            let paths = self.headers.dependant_includes(&self.directs[i]);
            filled.push(
                Src::new(
                    src.path.clone(),
                    src.name.clone(),
                    src.obj_name.clone(),
                    src.bin_path.clone(),
                    paths,
                ),
            );
            i += 1;
        }
        self.srcs = filled;
        Ok(())
    }
}

/// The texts of `list` without those that occur earlier in the list.
pub open spec fn without_repeats(list: Seq<Seq<char>>) -> Seq<Seq<char>>
    decreases list.len(),
{
    if list.len() == 0 {
        Seq::empty()
    } else {
        let before = without_repeats(list.drop_last());
        if before.contains(list.last()) {
            before
        } else {
            before.push(list.last())
        }
    }
}

/// Dropping repeats keeps every text, and keeps it once.
pub proof fn lemma_without_repeats(list: Seq<Seq<char>>)
    ensures
        forall|item: Seq<char>| without_repeats(list).contains(item) <==> list.contains(item),
        forall|i: int, j: int|
            0 <= i < j < without_repeats(list).len() ==> without_repeats(list)[i]
                != without_repeats(list)[j],
    decreases list.len(),
{
    if list.len() > 0 {
        let front = list.drop_last();
        let before = without_repeats(front);
        let after = without_repeats(list);
        lemma_without_repeats(front);
        assert forall|item: Seq<char>| after.contains(item) <==> list.contains(item) by {
            assert(before.contains(item) <==> front.contains(item));
            if after.contains(item) {
                let k = choose|k: int| 0 <= k < after.len() && after[k] == item;
                if k < before.len() {
                    assert(before[k] == item);
                    let w = choose|w: int| 0 <= w < front.len() && front[w] == item;
                    assert(list[w] == item);
                } else {
                    assert(list[list.len() - 1] == item);
                }
            }
            if list.contains(item) {
                let w = choose|w: int| 0 <= w < list.len() && list[w] == item;
                if w < front.len() {
                    assert(front[w] == item);
                    let k = choose|k: int| 0 <= k < before.len() && before[k] == item;
                    assert(after[k] == item);
                } else if before.contains(item) {
                } else {
                    assert(after[before.len() as int] == item);
                }
            }
        }
        assert forall|i: int, j: int| 0 <= i < j < after.len() implies after[i] != after[j] by {
            if j == before.len() {
                assert(before[i] == after[i]);
            }
        }
    }
}

/// Drops the strings that occur earlier in the list.
///
/// Wraps `Itertools::unique` of the `itertools` crate, which passes on each
/// item that it has not passed on before: what is left is the list without
/// the strings that an earlier place holds, in the order of the list.
#[verifier::external_body]
fn unique_texts(list: Vec<String>) -> (out: Vec<String>)
    ensures
        texts(out@) == without_repeats(texts(list@)),
{
    itertools::Itertools::unique(list.into_iter()).collect()
}

/// What the compiler left behind for one source file.
pub struct CompileResult {
    pub success: bool,
    pub stdout: String,
    pub stderr: String,
}

/// One source file to compile: its place among the source files of the
/// target, and the command that compiles it.
pub struct CompileJob {
    pub src: usize,
    pub command: String,
}

/// The places, below `n`, of the source files that have to be compiled.
pub open spec fn stale_upto(
    units: Seq<SrcSpec>,
    n: int,
    binary_exists: bool,
    stored: Map<Seq<char>, Seq<char>>,
    current: Map<Seq<char>, Seq<char>>,
) -> Seq<usize>
    decreases n,
{
    if n <= 0 {
        Seq::empty()
    } else {
        let before = stale_upto(units, n - 1, binary_exists, stored, current);
        if crate::builder::src::needs_rebuild(units[n - 1], binary_exists, stored, current) {
            before.push((n - 1) as usize)
        } else {
            before
        }
    }
}

/// The places of the source files that have to be compiled, in order.
pub open spec fn stale(
    units: Seq<SrcSpec>,
    binary_exists: bool,
    stored: Map<Seq<char>, Seq<char>>,
    current: Map<Seq<char>, Seq<char>>,
) -> Seq<usize> {
    stale_upto(units, units.len() as int, binary_exists, stored, current)
}

/// A place is among the stale ones exactly if the source file there has to be
/// compiled; the places are below `n` and go up.
pub proof fn lemma_stale_upto(
    units: Seq<SrcSpec>,
    n: int,
    binary_exists: bool,
    stored: Map<Seq<char>, Seq<char>>,
    current: Map<Seq<char>, Seq<char>>,
)
    requires
        0 <= n <= units.len(),
        n <= usize::MAX,
    ensures
        forall|i: usize|
            stale_upto(units, n, binary_exists, stored, current).contains(i) <==> i < n
                && crate::builder::src::needs_rebuild(
                units[i as int],
                binary_exists,
                stored,
                current,
            ),
        stale_upto(units, n, binary_exists, stored, current).len() <= n,
    decreases n,
{
    if n > 0 {
        lemma_stale_upto(units, n - 1, binary_exists, stored, current);
        let before = stale_upto(units, n - 1, binary_exists, stored, current);
        let now = stale_upto(units, n, binary_exists, stored, current);
        assert forall|i: usize|
            now.contains(i) <==> i < n && crate::builder::src::needs_rebuild(
                units[i as int],
                binary_exists,
                stored,
                current,
            ) by {
            let last = crate::builder::src::needs_rebuild(
                units[n - 1],
                binary_exists,
                stored,
                current,
            );
            assert(before.contains(i) <==> i < n - 1 && crate::builder::src::needs_rebuild(
                units[i as int],
                binary_exists,
                stored,
                current,
            ));
            if now.contains(i) {
                let k = choose|k: int| 0 <= k < now.len() && now[k] == i;
                if k < before.len() {
                    assert(before[k] == i);
                    assert(before.contains(i));
                } else {
                    assert(last);
                    assert(i == n - 1);
                }
            }
            if before.contains(i) {
                let k = choose|k: int| 0 <= k < before.len() && before[k] == i;
                assert(now[k] == i);
                assert(now.contains(i));
            }
            if i == n - 1 && last {
                assert(now[before.len() as int] == i);
                assert(now.contains(i));
            }
        }
    }
}

/// The paths of the source files.
pub open spec fn source_paths(units: Seq<SrcSpec>) -> Seq<Seq<char>> {
    Seq::new(units.len(), |i: int| units[i].path)
}

/// The paths of the headers that the source files depend on, file by file.
pub open spec fn header_paths(units: Seq<SrcSpec>) -> Seq<Seq<char>>
    decreases units.len(),
{
    if units.len() == 0 {
        Seq::empty()
    } else {
        units[0].dependant_includes + header_paths(units.drop_first())
    }
}

/// The paths of all the files of the target: the source files, then the
/// headers they depend on.
pub open spec fn all_paths(units: Seq<SrcSpec>) -> Seq<Seq<char>> {
    source_paths(units) + header_paths(units)
}

/// The paths of the object files.
pub open spec fn obj_names(units: Seq<SrcSpec>) -> Seq<Seq<char>> {
    Seq::new(units.len(), |i: int| units[i].obj_name)
}

/// The reasons for compiling the source files at the places `needed`.
pub open spec fn causes_of(
    units: Seq<SrcSpec>,
    needed: Seq<usize>,
    binary_exists: bool,
    stored: Map<Seq<char>, Seq<char>>,
    current: Map<Seq<char>, Seq<char>>,
) -> Seq<Seq<char>> {
    Seq::new(
        needed.len(),
        |k: int|
            crate::builder::src::rebuild_reason(
                units[needed[k] as int],
                binary_exists,
                stored,
                current,
            ),
    )
}

/// The place of the first result that reports a failure, or the number of
/// results.
pub open spec fn first_failed(results: Seq<CompileResult>) -> int
    decreases results.len(),
{
    if results.len() == 0 || !results[0].success {
        0
    } else {
        1 + first_failed(results.drop_first())
    }
}

/// What the compiler wrote to its error stream for the files it compiled,
/// leaving out the files for which it wrote nothing.
pub open spec fn warnings_of(results: Seq<CompileResult>) -> Seq<Seq<char>>
    decreases results.len(),
{
    if results.len() == 0 {
        Seq::empty()
    } else if results[0].stderr@.len() > 0 {
        seq![results[0].stderr@] + warnings_of(results.drop_first())
    } else {
        warnings_of(results.drop_first())
    }
}

/// What happened outside the library since the last step.
pub enum BuildEvent {
    /// The build begins: whether the binary is there, and the digests of what
    /// the target's files hold now.
    Begin { binary_exists: bool, current: PathHash },
    /// The decisions were taken note of; the build may go on.
    Proceed,
    /// The compiler has run for every job, and left these results, in the
    /// order of the jobs.
    Compiled { results: Vec<CompileResult> },
    /// The linker has run.
    Linked { success: bool, stderr: String },
}

/// What is to be done outside the library next.
pub enum BuildAction {
    /// Take note of the source files that have to be compiled, and why.
    Evaluated { needed: Vec<usize>, causes: Vec<String> },
    /// Nothing: the target is up to date.
    UpToDate,
    /// Run these compile commands; they do not depend on each other.
    Compile { jobs: Vec<CompileJob> },
    /// Show the warnings and run the link command.
    Link { command: String, warnings: Vec<String> },
    /// Write the hash file: the target was built.
    Done { hash_file: String },
    /// Stop: the build has failed.
    Failed(BuildError),
}

impl Target {
    /// The digests that the store maps the paths to.
    pub open spec fn stored(&self) -> Map<Seq<char>, Seq<char>> {
        crate::hasher::map_of(self.hashes())
    }

    /// The command that compiles the source file at place `i`.
    pub open spec fn compile_command_of(&self, i: int) -> Seq<char> {
        crate::builder::src::compile_command(
            self.srcs()[i],
            self.build_spec(),
            self.config(),
            self.libs(),
        )
    }

    /// The command that links the target.
    pub open spec fn link_command_of(&self) -> Seq<char> {
        link_command(
            self.platform(),
            self.build_spec(),
            self.config(),
            self.bin(),
            obj_names(self.srcs()),
            self.libs(),
            self.packages(),
        )
    }

    /// The target is as `before` was, but for the state of the build, the
    /// digests and the decisions.
    pub open spec fn same_files(&self, before: &Target) -> bool {
        &&& self.same_setup(before)
        &&& self.srcs() == before.srcs()
        &&& self.headers() == before.headers()
        &&& self.directs() == before.directs()
    }

    /// The step was out of turn: nothing has changed and the action says so.
    pub open spec fn refused(&self, before: &Target, action: BuildAction) -> bool {
        &&& self.same_files(before)
        &&& self.same_progress(before)
        &&& action matches BuildAction::Failed(e)
        &&& e is OutOfTurn
    }

    /// What `evaluate` does: in a build that has not started, each source
    /// file is judged against the stored digests and the digests of now.
    pub open spec fn evaluated(
        &self,
        before: &Target,
        binary_exists: bool,
        current: Map<Seq<char>, Seq<char>>,
        action: BuildAction,
    ) -> bool {
        if before.state() == BuildState::NotStarted {
            &&& self.same_files(before)
            &&& self.hashes() == before.hashes()
            &&& self.state() == BuildState::SourcesEvaluated
            &&& self.snapshot() == current
            &&& self.binary_existed() == binary_exists
            &&& self.needed() == stale(self.srcs(), binary_exists, before.stored(), current)
            &&& action matches BuildAction::Evaluated { needed, causes }
            &&& needed@ == self.needed()
            &&& texts(causes@) == causes_of(
                self.srcs(),
                self.needed(),
                binary_exists,
                before.stored(),
                current,
            )
        } else {
            self.refused(before, action)
        }
    }

    /// The jobs compile the source files that have to be compiled, in order.
    pub open spec fn jobs_match(&self, jobs: Seq<CompileJob>) -> bool {
        &&& jobs.len() == self.needed().len()
        &&& forall|k: int|
            0 <= k < jobs.len() ==> (#[trigger] jobs[k]).src == self.needed()[k]
                && jobs[k].command@ == self.compile_command_of(jobs[k].src as int)
    }

    /// What `proceed` does: with nothing to compile and the binary there the
    /// target is up to date; else the source files that need it are handed
    /// out to be compiled.
    pub open spec fn proceeded(&self, before: &Target, action: BuildAction) -> bool {
        if before.state() == BuildState::SourcesEvaluated {
            &&& self.same_files(before)
            &&& self.hashes() == before.hashes()
            &&& self.snapshot() == before.snapshot()
            &&& self.binary_existed() == before.binary_existed()
            &&& self.needed() == before.needed()
            &&& if before.needed().len() == 0 && before.binary_existed() {
                self.state() == BuildState::UpToDate && action is UpToDate
            } else {
                &&& self.state() == BuildState::Compiling
                &&& action matches BuildAction::Compile { jobs }
                &&& self.jobs_match(jobs@)
            }
        } else {
            self.refused(before, action)
        }
    }

    /// What `compiled` does: a failure of the compiler stops the build; else
    /// the digests of all the target's files are recorded and the binary is
    /// to be linked.
    pub open spec fn was_compiled(
        &self,
        before: &Target,
        results: Seq<CompileResult>,
        action: BuildAction,
    ) -> bool {
        let at = first_failed(results);
        if before.state() == BuildState::Compiling && results.len() == before.needed().len() {
            &&& self.same_files(before)
            &&& self.snapshot() == before.snapshot()
            &&& self.binary_existed() == before.binary_existed()
            &&& self.needed() == before.needed()
            &&& if 0 <= at < results.len() {
                &&& self.state() == BuildState::Compiling
                &&& self.hashes() == before.hashes()
                &&& action matches BuildAction::Failed(e)
                &&& e matches BuildError::CompileFailed { source, command, stdout, stderr }
                &&& source@ == self.srcs()[self.needed()[at] as int].path
                &&& command@ == self.compile_command_of(self.needed()[at] as int)
                &&& stdout@ == results[at].stdout@
                &&& stderr@ == results[at].stderr@
            } else {
                &&& self.state() == BuildState::LinkNeeded
                &&& self.hashes() == crate::hasher::record_all(
                    before.hashes(),
                    before.snapshot(),
                    all_paths(before.srcs()),
                )
                &&& action matches BuildAction::Link { command, warnings }
                &&& command@ == self.link_command_of()
                &&& texts(warnings@) == warnings_of(results)
            }
        } else {
            self.refused(before, action)
        }
    }

    /// What `linked` does: after a successful link the hash file is to be
    /// written; a failure of the linker stops the build, and nothing is
    /// written.
    pub open spec fn was_linked(
        &self,
        before: &Target,
        success: bool,
        stderr: Seq<char>,
        action: BuildAction,
    ) -> bool {
        if before.state() == BuildState::LinkNeeded {
            &&& self.same_files(before)
            &&& self.hashes() == before.hashes()
            &&& self.snapshot() == before.snapshot()
            &&& self.binary_existed() == before.binary_existed()
            &&& self.needed() == before.needed()
            &&& if success {
                &&& self.state() == BuildState::Linked
                &&& action matches BuildAction::Done { hash_file }
                &&& hash_file@ == crate::hasher::store_text(self.hashes())
            } else {
                &&& self.state() == BuildState::LinkFailed
                &&& action matches BuildAction::Failed(e)
                &&& e matches BuildError::LinkFailed { command, stderr: said }
                &&& command@ == self.link_command_of()
                &&& said@ == stderr
            }
        } else {
            self.refused(before, action)
        }
    }

    /// Begins the build: judges each source file. `binary_exists` says
    /// whether the binary is there, and `current` holds the digests of what
    /// the target's files hold now.
    pub fn evaluate(&mut self, binary_exists: bool, current: PathHash) -> (action: BuildAction)
        requires
            old(self).wf(),
        ensures
            final(self).wf(),
            final(self).evaluated(old(self), binary_exists, current@, action),
    {
        match self.state {
            BuildState::NotStarted => {},
            _ => {
                return BuildAction::Failed(BuildError::OutOfTurn);
            },
        }
        let ghost units = self.srcs();
        let ghost stored = self.stored();
        let mut needed: Vec<usize> = Vec::new();
        let mut listed: Vec<usize> = Vec::new();
        let mut causes: Vec<String> = Vec::new();
        let mut i: usize = 0;
        while i < self.srcs.len()
            invariant
                i <= self.srcs@.len(),
                self == old(self),
                units == self.srcs(),
                stored == self.stored(),
                needed@ == stale_upto(units, i as int, binary_exists, stored, current@),
                listed@ == needed@,
                causes@.len() == needed@.len(),
                forall|k: int| 0 <= k < needed@.len() ==> (#[trigger] needed@[k]) < i,
                forall|k: int|
                    0 <= k < needed@.len() ==> (#[trigger] causes@[k])@
                        == crate::builder::src::rebuild_reason(
                        units[needed@[k] as int],
                        binary_exists,
                        stored,
                        current@,
                    ),
            decreases self.srcs.len() - i,
        {
            let verdict = self.srcs[i].to_build(binary_exists, &self.path_hash, &current);
            if verdict.0 {
                needed.push(i);
                listed.push(i);
                causes.push(verdict.1);
            }
            i += 1;
        }
        proof {
            assert(texts(causes@) =~= causes_of(units, needed@, binary_exists, stored, current@));
        }
        self.current = current;
        self.binary_exists = binary_exists;
        self.needed = needed;
        self.state = BuildState::SourcesEvaluated;
        BuildAction::Evaluated { needed: listed, causes }
    }

    /// Goes on after the decisions: says that the target is up to date, or
    /// hands out the source files that have to be compiled.
    pub fn proceed(&mut self) -> (action: BuildAction)
        requires
            old(self).wf(),
        ensures
            final(self).wf(),
            final(self).proceeded(old(self), action),
    {
        match self.state {
            BuildState::SourcesEvaluated => {},
            _ => {
                return BuildAction::Failed(BuildError::OutOfTurn);
            },
        }
        if self.needed.len() == 0 && self.binary_exists {
            self.state = BuildState::UpToDate;
            return BuildAction::UpToDate;
        }
        let mut jobs: Vec<CompileJob> = Vec::new();
        let mut k: usize = 0;
        while k < self.needed.len()
            invariant
                k <= self.needed@.len(),
                self == old(self),
                self.wf(),
                jobs@.len() == k,
                forall|j: int|
                    0 <= j < k ==> (#[trigger] jobs@[j]).src == self.needed()[j]
                        && jobs@[j].command@ == self.compile_command_of(jobs@[j].src as int),
            decreases self.needed.len() - k,
        {
            let at = self.needed[k];
            let command = self.srcs[at].build(
                &self.build_config,
                &self.target_config,
                &self.dependant_libs,
            );
            jobs.push(CompileJob { src: at, command });
            k += 1;
        }
        self.state = BuildState::Compiling;
        BuildAction::Compile { jobs }
    }

    /// The paths of all the files of the target: the source files, then the
    /// headers that each depends on.
    pub fn file_paths(&self) -> (paths: Vec<String>)
        ensures
            texts(paths@) == all_paths(self.srcs()),
    {
        let ghost units = self.srcs();
        let mut paths: Vec<String> = Vec::new();
        let mut i: usize = 0;
        while i < self.srcs.len()
            invariant
                i <= self.srcs@.len(),
                units == self.srcs(),
                paths@.len() == i,
                forall|j: int| 0 <= j < i ==> (#[trigger] paths@[j])@ == units[j].path,
            decreases self.srcs.len() - i,
        {
            paths.push(self.srcs[i].path.clone());
            i += 1;
        }
        assert(texts(paths@) =~= source_paths(units));
        let mut u: usize = 0;
        assert(units.skip(0) =~= units);
        while u < self.srcs.len()
            invariant
                u <= self.srcs@.len(),
                units == self.srcs(),
                texts(paths@) + header_paths(units.skip(u as int)) == all_paths(units),
            decreases self.srcs.len() - u,
        {
            let ghost before = texts(paths@);
            let headers = &self.srcs[u].dependant_includes;
            let ghost list = texts(headers@);
            let mut h: usize = 0;
            while h < headers.len()
                invariant
                    h <= headers.len(),
                    list == texts(headers@),
                    texts(paths@) == before + list.take(h as int),
                decreases headers.len() - h,
            {
                let ghost so_far = texts(paths@);
                paths.push(headers[h].clone());
                proof {
                    assert(texts(paths@) =~= so_far.push(list[h as int]));
                    assert(list.take(h + 1) =~= list.take(h as int).push(list[h as int]));
                    assert(texts(paths@) =~= before + list.take(h + 1));
                }
                h += 1;
            }
            proof {
                assert(list.take(h as int) =~= list);
                let tail = units.skip(u as int);
                assert(tail[0] == units[u as int]);
                assert(tail[0].dependant_includes == list);
                assert(tail.drop_first() =~= units.skip(u + 1));
                assert(texts(paths@) + header_paths(units.skip(u + 1)) =~= before + (list
                    + header_paths(tail.drop_first())));
            }
            u += 1;
        }
        assert(texts(paths@) + Seq::<Seq<char>>::empty() =~= texts(paths@));
        paths
    }

    /// The files whose digests a build needs: the source files and the
    /// headers they depend on, each path once.
    pub fn files_to_hash(&self) -> (paths: Vec<String>)
        ensures
            texts(paths@) == without_repeats(all_paths(self.srcs())),
    {
        unique_texts(self.file_paths())
    }

    /// The command that links the target from the object files of all its
    /// source files.
    pub fn link(&self) -> (command: String)
        ensures
            command@ == self.link_command_of(),
    {
        let ghost units = self.srcs();
        let mut objs: Vec<String> = Vec::new();
        let mut i: usize = 0;
        while i < self.srcs.len()
            invariant
                i <= self.srcs@.len(),
                units == self.srcs(),
                objs@.len() == i,
                forall|j: int| 0 <= j < i ==> (#[trigger] objs@[j])@ == units[j].obj_name,
            decreases self.srcs.len() - i,
        {
            objs.push(self.srcs[i].obj_name.clone());
            i += 1;
        }
        assert(texts(objs@) =~= obj_names(units));
        link_command_for(
            self.platform,
            &self.build_config,
            &self.target_config,
            self.bin_path.as_str(),
            &objs,
            &self.dependant_libs,
            &self.packages,
        )
    }

    /// Takes the results of the compiler, one for each job and in the order
    /// of the jobs. The first failure stops the build. Where every file was
    /// compiled, the digests of all the target's files are recorded, and the
    /// binary is to be linked.
    pub fn compiled(&mut self, results: Vec<CompileResult>) -> (action: BuildAction)
        requires
            old(self).wf(),
        ensures
            final(self).wf(),
            final(self).was_compiled(old(self), results@, action),
    {
        match self.state {
            BuildState::Compiling => {},
            _ => {
                return BuildAction::Failed(BuildError::OutOfTurn);
            },
        }
        if results.len() != self.needed.len() {
            return BuildAction::Failed(BuildError::OutOfTurn);
        }
        let mut warnings: Vec<String> = Vec::new();
        let mut k: usize = 0;
        assert(results@.skip(0) =~= results@);
        while k < results.len()
            invariant
                k <= results@.len(),
                self == old(self),
                self.wf(),
                results@.len() == self.needed@.len(),
                self.state() == BuildState::Compiling,
                first_failed(results@) == k + first_failed(results@.skip(k as int)),
                texts(warnings@) + warnings_of(results@.skip(k as int)) == warnings_of(results@),
            decreases results.len() - k,
        {
            let ghost before = texts(warnings@);
            proof {
                let tail = results@.skip(k as int);
                assert(tail[0] == results@[k as int]);
                assert(tail.drop_first() =~= results@.skip(k + 1));
            }
            let result = &results[k];
            if !result.success {
                let at = self.needed[k];
                let command = self.srcs[at].build(
                    &self.build_config,
                    &self.target_config,
                    &self.dependant_libs,
                );
                return BuildAction::Failed(
                    BuildError::CompileFailed {
                        source: self.srcs[at].path.clone(),
                        command,
                        stdout: result.stdout.clone(),
                        stderr: result.stderr.clone(),
                    },
                );
            }
            if result.stderr.as_str().unicode_len() > 0 {
                warnings.push(result.stderr.clone());
                proof {
                    assert(texts(warnings@) =~= before + seq![result.stderr@]);
                    assert(texts(warnings@) + warnings_of(results@.skip(k + 1)) =~= before + (seq![
                        result.stderr@,
                    ] + warnings_of(results@.skip(k + 1))));
                }
            }
            k += 1;
        }
        assert(texts(warnings@) + Seq::<Seq<char>>::empty() =~= texts(warnings@));
        let paths = self.file_paths();
        crate::hasher::record_paths(&mut self.path_hash, &self.current, &paths);
        self.state = BuildState::LinkNeeded;
        let command = self.link();
        BuildAction::Link { command, warnings }
    }

    /// Takes the result of the linker. After a successful link the hash file
    /// is to be written, so that the next build finds the digests of this
    /// one; after a failure nothing is written.
    pub fn linked(&mut self, success: bool, stderr: String) -> (action: BuildAction)
        requires
            old(self).wf(),
        ensures
            final(self).wf(),
            final(self).was_linked(old(self), success, stderr@, action),
    {
        match self.state {
            BuildState::LinkNeeded => {},
            _ => {
                return BuildAction::Failed(BuildError::OutOfTurn);
            },
        }
        if success {
            self.state = BuildState::Linked;
            BuildAction::Done { hash_file: crate::hasher::save_hashes_to_file(&self.path_hash) }
        } else {
            self.state = BuildState::LinkFailed;
            BuildAction::Failed(BuildError::LinkFailed { command: self.link(), stderr })
        }
    }

    /// What the step for `event` does to a build.
    pub open spec fn stepped(&self, before: &Target, event: BuildEvent, action: BuildAction) -> bool {
        match event {
            BuildEvent::Begin { binary_exists, current } => self.evaluated(
                before,
                binary_exists,
                current@,
                action,
            ),
            BuildEvent::Proceed => self.proceeded(before, action),
            BuildEvent::Compiled { results } => self.was_compiled(before, results@, action),
            BuildEvent::Linked { success, stderr } => self.was_linked(
                before,
                success,
                stderr@,
                action,
            ),
        }
    }

    /// Takes the build one step further: from what has happened outside to
    /// what is to be done next. A build goes from its beginning through the
    /// decisions to being up to date, or through compiling and linking to a
    /// linked binary; the compiler and the linker are run by the caller.
    pub fn build(&mut self, event: BuildEvent) -> (action: BuildAction)
        requires
            old(self).wf(),
        ensures
            final(self).wf(),
            final(self).stepped(old(self), event, action),
    {
        match event {
            BuildEvent::Begin { binary_exists, current } => self.evaluate(binary_exists, current),
            BuildEvent::Proceed => self.proceed(),
            BuildEvent::Compiled { results } => self.compiled(results),
            BuildEvent::Linked { success, stderr } => self.linked(success, stderr),
        }
    }
}

} // verus!
