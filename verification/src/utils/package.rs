//! Packages: projects fetched from elsewhere that add library targets to the
//! build.

use crate::text::{
    from_chars, replace_chars, replaced, rows, split_chars, split_on, split_words, str_eq,
    text_less, text_lt, to_chars, words_of,
};
use crate::utils::configs::{
    copy_option, copy_strings, specs, BuildConfig, BuildSpec, Platform, TargetConfig, TargetSpec,
};
use vstd::prelude::*;

verus! {

/// A package: its name, where it comes from, and the build configuration and
/// library targets that its own manifest gives.
#[derive(Debug)]
pub struct Package {
    pub name: String,
    pub repo: String,
    pub branch: String,
    pub build_config: BuildConfig,
    pub target_configs: Vec<TargetConfig>,
}

/// What a package holds, as plain text.
pub struct PackageSpec {
    pub name: Seq<char>,
    pub repo: Seq<char>,
    pub branch: Seq<char>,
    pub build_config: BuildSpec,
    pub target_configs: Seq<TargetSpec>,
}

impl View for Package {
    type V = PackageSpec;

    open spec fn view(&self) -> PackageSpec {
        PackageSpec {
            name: self.name@,
            repo: self.repo@,
            branch: self.branch@,
            build_config: self.build_config@,
            target_configs: specs(self.target_configs@),
        }
    }
}

/// The directory for object files on `platform`, as packages write it.
pub open spec fn obj_dir_of(platform: Platform) -> Seq<char> {
    match platform {
        Platform::Linux => "./.bld_cpp/obj_linux"@,
        Platform::Android => "./.bld_cpp/obj_android"@,
        Platform::Windows => "./.bld_cpp/obj_win32"@,
    }
}

impl Package {
    /// A package made of the given parts.
    pub fn new(
        name: String,
        repo: String,
        branch: String,
        build_config: BuildConfig,
        target_configs: Vec<TargetConfig>,
    ) -> (package: Self)
        ensures
            package.name == name,
            package.repo == repo,
            package.branch == branch,
            package.build_config == build_config,
            package.target_configs == target_configs,
    {
        Self { name, repo, branch, build_config, target_configs }
    }

    /// The directory that object files are written to on `platform`.
    pub fn obj_dir(platform: Platform) -> (dir: &'static str)
        ensures
            dir@ == obj_dir_of(platform),
    {
        match platform {
            Platform::Linux => "./.bld_cpp/obj_linux",
            Platform::Android => "./.bld_cpp/obj_android",
            Platform::Windows => "./.bld_cpp/obj_win32",
        }
    }
}

/// What is wrong with the packages that a project asks for.
#[derive(Debug)]
pub enum PackageError {
    /// The entry is not made of two words, a repository and a branch.
    BadEntry { entry: String },
    /// The repository is not written as an owner, a slash and a name.
    BadRepo { repo: String },
}

/// Where a package comes from, as its entry in the manifest says: the
/// repository, the branch, and the name of the package, which is what
/// follows the first slash of the repository.
pub struct PackageSource {
    pub repo: String,
    pub branch: String,
    pub name: String,
}

/// `path` with backslashes turned into slashes, and with `/./` and `//`
/// shortened to one slash, each in one pass from the left.
pub open spec fn normalized(path: Seq<char>) -> Seq<char> {
    replaced(replaced(replaced(path, "\\"@, "/"@), "/./"@, "/"@), "//"@, "/"@)
}

/// The repository that the first word of an entry names: the word without
/// commas.
pub open spec fn repo_of(word: Seq<char>) -> Seq<char> {
    replaced(word, ","@, Seq::empty())
}

/// An entry is well written: two words, the first with a slash in it.
pub open spec fn entry_ok(entry: Seq<char>) -> bool {
    words_of(entry).len() == 2 && split_on(repo_of(words_of(entry)[0]), '/').len() >= 2
}

/// The name of the package that an entry asks for.
pub open spec fn entry_name(entry: Seq<char>) -> Seq<char> {
    split_on(repo_of(words_of(entry)[0]), '/')[1]
}

/// The directory that the source of the package named `name` is fetched to.
pub open spec fn source_dir_of(name: Seq<char>) -> Seq<char> {
    "./.bld_cpp/sources/"@ + name + "/"@
}

/// The directory that the headers of the package named `name` are copied to.
pub open spec fn include_dir_of(name: Seq<char>) -> Seq<char> {
    normalized("./.bld_cpp/includes/"@ + name)
}

/// The name of the manifest of a project on `platform`.
pub open spec fn manifest_name(platform: Platform) -> Seq<char> {
    match platform {
        Platform::Windows => "config_win32.toml"@,
        _ => "config_linux.toml"@,
    }
}

/// The path of the manifest of the package named `name`.
pub open spec fn manifest_path_of(platform: Platform, name: Seq<char>) -> Seq<char> {
    replaced(source_dir_of(name) + "/"@ + manifest_name(platform), "//"@, "/"@)
}

/// A library target of the package named `name`, as the project that uses the
/// package sees it: its sources lie in the package's source directory, its
/// headers in the package's directory of headers.
pub open spec fn adopted(name: Seq<char>, target: TargetSpec) -> TargetSpec {
    TargetSpec {
        name: target.name,
        src: normalized(source_dir_of(name) + "/"@ + target.src),
        include_dir: include_dir_of(name),
        typ: target.typ,
        cflags: target.cflags,
        libs: target.libs,
        deps: target.deps,
    }
}

/// The library targets among `targets`, each as the project that uses the
/// package sees it.
pub open spec fn adopted_all(name: Seq<char>, targets: Seq<TargetSpec>) -> Seq<TargetSpec>
    decreases targets.len(),
{
    if targets.len() == 0 {
        Seq::empty()
    } else if targets[0].typ == "dll"@ {
        seq![adopted(name, targets[0])] + adopted_all(name, targets.drop_first())
    } else {
        adopted_all(name, targets.drop_first())
    }
}

/// The command that copies the headers of a package's target, which lie in
/// `include_dir` below the package's source, to the package's directory of
/// headers.
pub open spec fn copy_command_of(name: Seq<char>, include_dir: Seq<char>) -> Seq<char> {
    "cp -r "@ + normalized(source_dir_of(name) + "/"@ + include_dir + "/* "@) + include_dir_of(name)
        + "/ "@
}

/// The command that brings the package up to date with its branch.
pub open spec fn update_command_of(name: Seq<char>, branch: Seq<char>) -> Seq<char> {
    "cd"@ + " ./.bld_cpp/sources/"@ + name + " &&"@ + " git"@ + " pull"@ + " origin"@ + " "@ + branch
}

/// The command that puts the package back to the state of its branch.
pub open spec fn restore_command_of(name: Seq<char>, branch: Seq<char>) -> Seq<char> {
    "cd"@ + " ./.bld_cpp/sources/"@ + name + " &&"@ + " git"@ + " reset"@ + " --hard"@ + " "@
        + branch
}

/// Replaces every `pattern` in `s` by `with`.
pub fn replace_text(s: &str, pattern: &str, with: &str) -> (out: String)
    ensures
        out@ == replaced(s@, pattern@, with@),
{
    from_chars(&replace_chars(&to_chars(s), &to_chars(pattern), &to_chars(with)))
}

/// Turns backslashes into slashes and shortens `/./` and `//` to one slash.
pub fn normalize(path: &str) -> (out: String)
    ensures
        out@ == normalized(path@),
{
    let a = replace_text(path, "\\", "/");
    let b = replace_text(a.as_str(), "/./", "/");
    replace_text(b.as_str(), "//", "/")
}

/// Reads an entry of the list of packages: a repository, written as an owner,
/// a slash and a name, and after white space a branch. Commas in the
/// repository are dropped.
pub fn parse_entry(entry: &str) -> (parsed: Result<PackageSource, PackageError>)
    ensures
        parsed is Ok <==> entry_ok(entry@),
        parsed matches Ok(source) ==> {
            &&& source.repo@ == repo_of(words_of(entry@)[0])
            &&& source.branch@ == words_of(entry@)[1]
            &&& source.name@ == entry_name(entry@)
        },
        parsed matches Err(e) ==> if words_of(entry@).len() != 2 {
            e matches PackageError::BadEntry { entry: said } && said@ == entry@
        } else {
            e matches PackageError::BadRepo { repo } && repo@ == repo_of(words_of(entry@)[0])
        },
{
    let words = split_words(&to_chars(entry));
    if words.len() != 2 {
        return Err(PackageError::BadEntry { entry: entry.to_owned() });
    }
    let nothing: Vec<char> = Vec::new();
    let repo = replace_chars(&words[0], &to_chars(","), &nothing);
    proof {
        assert(rows(words@)[0] == words@[0]@);
        assert(rows(words@)[1] == words@[1]@);
        assert(nothing@ =~= Seq::<char>::empty());
    }
    let pieces = split_chars(&repo, '/');
    if pieces.len() < 2 {
        return Err(PackageError::BadRepo { repo: from_chars(&repo) });
    }
    proof {
        assert(rows(pieces@)[1] == pieces@[1]@);
    }
    Ok(
        PackageSource {
            repo: from_chars(&repo),
            branch: from_chars(&words[1]),
            name: from_chars(&pieces[1]),
        },
    )
}

/// The directory that the source of the package named `name` is fetched to.
pub fn source_dir(name: &str) -> (dir: String)
    ensures
        dir@ == source_dir_of(name@),
{
    let mut dir = String::from_str("./.bld_cpp/sources/");
    dir.append(name);
    dir.append("/");
    dir
}

/// The directory that the headers of the package named `name` are copied to.
pub fn include_dir(name: &str) -> (dir: String)
    ensures
        dir@ == include_dir_of(name@),
{
    let mut dir = String::from_str("./.bld_cpp/includes/");
    dir.append(name);
    normalize(dir.as_str())
}

/// The path of the manifest of the package named `name`.
pub fn manifest_path(platform: Platform, name: &str) -> (path: String)
    ensures
        path@ == manifest_path_of(platform, name@),
{
    let mut path = source_dir(name);
    path.append("/");
    match platform {
        Platform::Windows => {
            path.append("config_win32.toml");
        },
        _ => {
            path.append("config_linux.toml");
        },
    }
    replace_text(path.as_str(), "//", "/")
}

/// The command that copies the headers of a package's target to the
/// package's directory of headers.
pub fn copy_command(name: &str, old_include_dir: &str) -> (cmd: String)
    ensures
        cmd@ == copy_command_of(name@, old_include_dir@),
{
    let mut from = source_dir(name);
    from.append("/");
    from.append(old_include_dir);
    from.append("/* ");
    let mut cmd = String::from_str("cp -r ");
    cmd.append(normalize(from.as_str()).as_str());
    cmd.append(include_dir(name).as_str());
    cmd.append("/ ");
    cmd
}

/// The library targets among `targets`, each as the project that uses the
/// package named `name` sees it.
pub fn adopt_targets(name: &str, targets: &Vec<TargetConfig>) -> (out: Vec<TargetConfig>)
    ensures
        specs(out@) == adopted_all(name@, specs(targets@)),
{
    let ghost all = specs(targets@);
    let mut out: Vec<TargetConfig> = Vec::new();
    let mut i: usize = 0;
    assert(all.skip(0) =~= all);
    while i < targets.len()
        invariant
            i <= targets.len(),
            all == specs(targets@),
            specs(out@) + adopted_all(name@, all.skip(i as int)) == adopted_all(name@, all),
        decreases targets.len() - i,
    {
        let ghost before = specs(out@);
        let target = &targets[i];
        proof {
            let tail = all.skip(i as int);
            assert(tail[0] == target@);
            assert(tail.drop_first() =~= all.skip(i + 1));
        }
        if str_eq(target.typ.as_str(), "dll") {
            let mut src = source_dir(name);
            src.append("/");
            src.append(target.src.as_str());
            let moved = TargetConfig {
                name: target.name.clone(),
                src: normalize(src.as_str()),
                include_dir: include_dir(name),
                typ: target.typ.clone(),
                cflags: target.cflags.clone(),
                libs: target.libs.clone(),
                deps: copy_strings(&target.deps),
            };
            proof {
                assert(moved@ == adopted(name@, target@));
            }
            out.push(moved);
            proof {
                assert(specs(out@) =~= before + seq![adopted(name@, target@)]);
                assert(specs(out@) + adopted_all(name@, all.skip(i + 1)) =~= before + (seq![
                    adopted(name@, target@),
                ] + adopted_all(name@, all.skip(i + 1))));
            }
        }
        i += 1;
    }
    assert(specs(out@) + Seq::<TargetSpec>::empty() =~= specs(out@));
    out
}

/// A package of `list` has the name `name`.
pub open spec fn has_name(list: Seq<PackageSpec>, name: Seq<char>) -> bool {
    exists|i: int| 0 <= i < list.len() && (#[trigger] list[i]).name == name
}

/// How many packages at the start of `list` have a name that comes before
/// `name` in the order of strings.
pub open spec fn slot(list: Seq<PackageSpec>, name: Seq<char>) -> int
    decreases list.len(),
{
    if list.len() == 0 || !text_lt(list[0].name, name) {
        0
    } else {
        1 + slot(list.drop_first(), name)
    }
}

/// `slot` is a place of `list` or its length; the packages before it have
/// names that come before `name`, the package at it has not.
pub proof fn lemma_slot(list: Seq<PackageSpec>, name: Seq<char>)
    ensures
        0 <= slot(list, name) <= list.len(),
        forall|j: int| 0 <= j < slot(list, name) ==> text_lt((#[trigger] list[j]).name, name),
        slot(list, name) < list.len() ==> !text_lt(list[slot(list, name)].name, name),
    decreases list.len(),
{
    if list.len() > 0 && text_lt(list[0].name, name) {
        let rest = list.drop_first();
        lemma_slot(rest, name);
        assert forall|j: int| 0 <= j < slot(list, name) implies text_lt(
            (#[trigger] list[j]).name,
            name,
        ) by {
            if j > 0 {
                assert(list[j] == rest[j - 1]);
            }
        }
    }
}

/// The list with the package `package` put in by its name: a list that has a
/// package of that name stays as it is; else the package goes behind the
/// packages whose names come before its own.
pub open spec fn placed(list: Seq<PackageSpec>, package: PackageSpec) -> Seq<PackageSpec> {
    if has_name(list, package.name) {
        list
    } else {
        list.insert(slot(list, package.name), package)
    }
}

/// The packages of `list` in the order of their names, without those whose
/// name an earlier package of `list` has.
pub open spec fn deduped(list: Seq<PackageSpec>) -> Seq<PackageSpec>
    decreases list.len(),
{
    if list.len() == 0 {
        Seq::empty()
    } else {
        placed(deduped(list.drop_last()), list.last())
    }
}

/// The names of the packages go up, in the order of strings.
pub open spec fn ascending(list: Seq<PackageSpec>) -> bool {
    forall|i: int, j: int| 0 <= i < j < list.len() ==> text_lt(list[i].name, list[j].name)
}

/// Putting a package into a list whose names go up leaves the names going up,
/// and adds the name of the package to the names of the list.
pub proof fn lemma_placed(list: Seq<PackageSpec>, package: PackageSpec)
    requires
        ascending(list),
    ensures
        ascending(placed(list, package)),
        forall|name: Seq<char>|
            has_name(placed(list, package), name) <==> has_name(list, name) || name
                == package.name,
{
    let out = placed(list, package);
    let k = slot(list, package.name);
    lemma_slot(list, package.name);
    if has_name(list, package.name) {
    } else {
        assert(out.len() == list.len() + 1);
        assert forall|i: int| 0 <= i < out.len() implies #[trigger] out[i] == (if i < k {
            list[i]
        } else if i == k {
            package
        } else {
            list[i - 1]
        }) by {}
        assert forall|j: int| k <= j < list.len() implies text_lt(
            package.name,
            (#[trigger] list[j]).name,
        ) by {
            assert(list[k].name != package.name);
            crate::text::lemma_text_order(list[k].name, package.name);
            if j > k {
                crate::text::lemma_text_lt_chain(package.name, list[k].name, list[j].name);
            }
        }
        assert forall|i: int, j: int| 0 <= i < j < out.len() implies text_lt(
            out[i].name,
            out[j].name,
        ) by {
            if j < k {
            } else if j == k {
                assert(text_lt(list[i].name, package.name));
            } else if i < k {
                assert(text_lt(list[i].name, list[j - 1].name));
            } else if i == k {
                assert(text_lt(package.name, list[j - 1].name));
            } else {
                assert(text_lt(list[i - 1].name, list[j - 1].name));
            }
        }
        assert forall|name: Seq<char>| has_name(out, name) <==> has_name(list, name) || name
            == package.name by {
            if has_name(out, name) {
                let i = choose|i: int| 0 <= i < out.len() && (#[trigger] out[i]).name == name;
                if i < k {
                    assert(list[i].name == name);
                } else if i > k {
                    assert(list[i - 1].name == name);
                }
            }
            if has_name(list, name) {
                let i = choose|i: int| 0 <= i < list.len() && (#[trigger] list[i]).name == name;
                if i < k {
                    assert(out[i].name == name);
                } else {
                    assert(out[i + 1].name == name);
                }
            }
            if name == package.name {
                assert(out[k].name == name);
            }
        }
    }
}

/// The packages that are kept stand in the order of their names, and their
/// names are the names of the list.
pub proof fn lemma_deduped(list: Seq<PackageSpec>)
    ensures
        ascending(deduped(list)),
        forall|name: Seq<char>| has_name(deduped(list), name) <==> has_name(list, name),
    decreases list.len(),
{
    if list.len() > 0 {
        let front = list.drop_last();
        lemma_deduped(front);
        lemma_placed(deduped(front), list.last());
        assert forall|name: Seq<char>| has_name(deduped(list), name) <==> has_name(list, name) by {
            if has_name(front, name) {
                let i = choose|i: int| 0 <= i < front.len() && (#[trigger] front[i]).name == name;
                assert(list[i].name == name);
            }
            if has_name(list, name) {
                let i = choose|i: int| 0 <= i < list.len() && (#[trigger] list[i]).name == name;
                if i < front.len() {
                    assert(front[i].name == name);
                }
            }
            if name == list.last().name {
                assert(list[list.len() - 1].name == name);
            }
        }
    }
}

/// What a list of packages holds.
pub open spec fn package_views(list: Seq<Package>) -> Seq<PackageSpec> {
    Seq::new(list.len(), |i: int| list[i]@)
}

/// Puts the packages in the order of their names, and drops every package
/// whose name an earlier package of the list has.
pub fn dedup_packages(list: Vec<Package>) -> (out: Vec<Package>)
    ensures
        package_views(out@) == deduped(package_views(list@)),
{
    let ghost all = package_views(list@);
    let mut out: Vec<Package> = Vec::new();
    let mut list = list;
    let mut rest: Vec<Package> = Vec::new();
    // Take the packages from the back, so that each can be moved out.
    let n = list.len();
    let mut k: usize = 0;
    while k < n
        invariant
            k <= n,
            list@.len() == n - k,
            rest@.len() == k,
            package_views(list@) =~= all.take(n - k),
            forall|j: int| 0 <= j < k ==> (#[trigger] rest@[j])@ == all[n - 1 - j],
            all.len() == n,
        decreases n - k,
    {
        let ghost full = list@;
        let last = list.pop();
        match last {
            Some(package) => {
                proof {
                    assert(package_views(full)[n - k - 1] == all.take(n - k)[n - k - 1]);
                    assert(package_views(list@) =~= package_views(full).take(n - k - 1));
                }
                rest.push(package);
            },
            None => {},
        }
        k += 1;
    }
    let mut i: usize = 0;
    while i < n
        invariant
            i <= n,
            rest@.len() == n - i,
            all.len() == n,
            forall|j: int| 0 <= j < n - i ==> (#[trigger] rest@[j])@ == all[n - 1 - j],
            package_views(out@) == deduped(all.take(i as int)),
        decreases n - i,
    {
        let next = rest.pop();
        proof {
            assert(all.take(i + 1).drop_last() =~= all.take(i as int));
            assert(all.take(i + 1).last() == all[i as int]);
        }
        match next {
            Some(package) => {
                let ghost before = package_views(out@);
                let mut found = false;
                let mut j: usize = 0;
                while j < out.len()
                    invariant
                        j <= out.len(),
                        before == package_views(out@),
                        found <==> has_name(before.take(j as int), package.name@),
                    decreases out.len() - j,
                {
                    if str_eq(out[j].name.as_str(), package.name.as_str()) {
                        found = true;
                    }
                    proof {
                        let now = before.take(j + 1);
                        assert(now[j as int] == before[j as int]);
                        if has_name(before.take(j as int), package.name@) {
                            let w = choose|w: int|
                                0 <= w < before.take(j as int).len() && (
                                #[trigger] before.take(j as int)[w]).name == package.name@;
                            assert(now[w].name == package.name@);
                        }
                        if has_name(now, package.name@) {
                            let w = choose|w: int|
                                0 <= w < now.len() && (#[trigger] now[w]).name == package.name@;
                            if w < j {
                                assert(before.take(j as int)[w].name == package.name@);
                            }
                        }
                    }
                    j += 1;
                }
                assert(before.take(j as int) =~= before);
                if !found {
                    let name = to_chars(package.name.as_str());
                    let mut k: usize = 0;
                    assert(before.skip(0) =~= before);
                    while k < out.len() && text_less(&to_chars(out[k].name.as_str()), &name)
                        invariant
                            k <= out.len(),
                            before == package_views(out@),
                            name@ == package.name@,
                            slot(before, name@) == k + slot(before.skip(k as int), name@),
                        decreases out.len() - k,
                    {
                        proof {
                            assert(before.skip(k as int)[0] == before[k as int]);
                            assert(before.skip(k as int).drop_first() =~= before.skip(k + 1));
                        }
                        k += 1;
                    }
                    proof {
                        if k < out.len() {
                            assert(before.skip(k as int)[0] == before[k as int]);
                        }
                    }
                    let ghost added = package@;
                    out.insert(k, package);
                    assert(package_views(out@) =~= before.insert(k as int, added));
                }
            },
            None => {},
        }
        i += 1;
    }
    assert(all.take(n as int) =~= all);
    out
}

impl Package {
    /// The package that the entry `source` asks for, as the project that uses
    /// it sees it: it is built with the compiler of that project, and offers
    /// the library targets of its own manifest.
    pub fn adopt(
        source: PackageSource,
        compiler: &str,
        build_config: &BuildConfig,
        targets: &Vec<TargetConfig>,
    ) -> (package: Package)
        ensures
            package@.name == source.name@,
            package@.repo == source.repo@,
            package@.branch == source.branch@,
            package@.build_config == (BuildSpec {
                compiler: compiler@,
                packages: build_config@.packages,
                pre_build: build_config@.pre_build,
                post_build: build_config@.post_build,
            }),
            package@.target_configs == adopted_all(source.name@, specs(targets@)),
    {
        let adopted = adopt_targets(source.name.as_str(), targets);
        let build = BuildConfig {
            compiler: compiler.to_owned(),
            packages: copy_strings(&build_config.packages),
            pre_build: copy_option(&build_config.pre_build),
            post_build: copy_option(&build_config.post_build),
        };
        Package::new(source.name, source.repo, source.branch, build, adopted)
    }

    /// The command that brings the package up to date with its branch.
    pub fn update(&self) -> (cmd: String)
        ensures
            cmd@ == update_command_of(self.name@, self.branch@),
    {
        let mut cmd = String::from_str("cd");
        cmd.append(" ./.bld_cpp/sources/");
        cmd.append(self.name.as_str());
        cmd.append(" &&");
        cmd.append(" git");
        cmd.append(" pull");
        cmd.append(" origin");
        cmd.append(" ");
        cmd.append(self.branch.as_str());
        cmd
    }

    /// The command that puts the package back to the state of its branch.
    pub fn restore(&self) -> (cmd: String)
        ensures
            cmd@ == restore_command_of(self.name@, self.branch@),
    {
        let mut cmd = String::from_str("cd");
        cmd.append(" ./.bld_cpp/sources/");
        cmd.append(self.name.as_str());
        cmd.append(" &&");
        cmd.append(" git");
        cmd.append(" reset");
        cmd.append(" --hard");
        cmd.append(" ");
        cmd.append(self.branch.as_str());
        cmd
    }
}

} // verus!
