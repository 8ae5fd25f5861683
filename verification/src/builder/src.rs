//! One source file of a target: whether it has to be compiled again, and the
//! command that compiles it.

use crate::hasher::{differs, is_file_changed, PathHash};
use crate::text::{
    from_chars, replace_chars, replaced, rows, split_chars, split_on, split_words, str_eq, texts,
    to_chars, words_of,
};
use crate::utils::configs::{specs, BuildConfig, BuildSpec, TargetConfig, TargetSpec};
use vstd::prelude::*;

verus! {

/// A source file: its path, its name without directory and extension, the
/// object file it is compiled to, the binary of its target, and the paths of
/// the headers it depends on.
pub struct Src {
    pub path: String,
    pub name: String,
    pub obj_name: String,
    pub bin_path: String,
    pub dependant_includes: Vec<String>,
}

/// What a source file holds, as plain text.
pub struct SrcSpec {
    pub path: Seq<char>,
    pub name: Seq<char>,
    pub obj_name: Seq<char>,
    pub bin_path: Seq<char>,
    pub dependant_includes: Seq<Seq<char>>,
}

impl View for Src {
    type V = SrcSpec;

    open spec fn view(&self) -> SrcSpec {
        SrcSpec {
            path: self.path@,
            name: self.name@,
            obj_name: self.obj_name@,
            bin_path: self.bin_path@,
            dependant_includes: texts(self.dependant_includes@),
        }
    }
}

/// What a list of source files holds.
pub open spec fn units(srcs: Seq<Src>) -> Seq<SrcSpec> {
    Seq::new(srcs.len(), |i: int| srcs[i]@)
}

/// The file at `path` has changed: `current` holds no digest for it, or
/// `stored` holds none, or the two digests differ.
pub open spec fn changed(
    stored: Map<Seq<char>, Seq<char>>,
    current: Map<Seq<char>, Seq<char>>,
    path: Seq<char>,
) -> bool {
    !current.contains_key(path) || differs(stored, path, current[path])
}

/// The place of the first path of `paths` that has changed, or the number of
/// paths where none has.
pub open spec fn first_changed(
    stored: Map<Seq<char>, Seq<char>>,
    current: Map<Seq<char>, Seq<char>>,
    paths: Seq<Seq<char>>,
) -> int
    decreases paths.len(),
{
    if paths.len() == 0 || changed(stored, current, paths[0]) {
        0
    } else {
        1 + first_changed(stored, current, paths.drop_first())
    }
}

/// `first_changed` is a place of `paths` or their number, the path there has
/// changed, and no earlier path has.
pub proof fn lemma_first_changed(
    stored: Map<Seq<char>, Seq<char>>,
    current: Map<Seq<char>, Seq<char>>,
    paths: Seq<Seq<char>>,
)
    ensures
        0 <= first_changed(stored, current, paths) <= paths.len(),
        first_changed(stored, current, paths) < paths.len() ==> changed(
            stored,
            current,
            paths[first_changed(stored, current, paths)],
        ),
        forall|j: int|
            0 <= j < first_changed(stored, current, paths) ==> !changed(
                stored,
                current,
                #[trigger] paths[j],
            ),
    decreases paths.len(),
{
    if paths.len() > 0 && !changed(stored, current, paths[0]) {
        let rest = paths.drop_first();
        lemma_first_changed(stored, current, rest);
        assert forall|j: int| 0 <= j < first_changed(stored, current, paths) implies !changed(
            stored,
            current,
            #[trigger] paths[j],
        ) by {
            if j > 0 {
                assert(paths[j] == rest[j - 1]);
            }
        }
    }
}

/// The source file has to be compiled again: the binary of its target does
/// not exist, or the file has changed, or a header it depends on has.
pub open spec fn needs_rebuild(
    unit: SrcSpec,
    binary_exists: bool,
    stored: Map<Seq<char>, Seq<char>>,
    current: Map<Seq<char>, Seq<char>>,
) -> bool {
    ||| !binary_exists
    ||| changed(stored, current, unit.path)
    ||| first_changed(stored, current, unit.dependant_includes) < unit.dependant_includes.len()
}

/// Why the source file has to be compiled again, or that it has not: the
/// first of the three reasons that holds is given.
pub open spec fn rebuild_reason(
    unit: SrcSpec,
    binary_exists: bool,
    stored: Map<Seq<char>, Seq<char>>,
    current: Map<Seq<char>, Seq<char>>,
) -> Seq<char> {
    let at = first_changed(stored, current, unit.dependant_includes);
    if !binary_exists {
        "\tBinary does not exist: "@ + unit.bin_path
    } else if changed(stored, current, unit.path) {
        "\tSource file has changed: "@ + unit.path
    } else if 0 <= at < unit.dependant_includes.len() {
        "\tSource file: "@ + unit.path + " depends on changed include file: "@
            + unit.dependant_includes[at]
    } else {
        "Source file: "@ + unit.path + " does not need to be built"@
    }
}

/// Tells whether the file at `path` has changed: `stored` holds the digests
/// of the last build, `current` those of what the files hold now.
pub fn is_changed(path: &str, stored: &PathHash, current: &PathHash) -> (yes: bool)
    ensures
        yes == changed(stored@, current@, path@),
{
    let at = current.find(path);
    if at < current.len() {
        proof {
            crate::hasher::lemma_position(current.pairs(), path@);
        }
        is_file_changed(path, stored, current.digest_at(at).as_str())
    } else {
        true
    }
}

/// The flags that add the directories `dirs` to the search path for headers:
/// `-I`, the directory and a space for each.
pub open spec fn include_flags(dirs: Seq<Seq<char>>) -> Seq<char>
    decreases dirs.len(),
{
    if dirs.len() == 0 {
        Seq::empty()
    } else {
        "-I"@ + dirs[0] + " "@ + include_flags(dirs.drop_first())
    }
}

/// The directory name of a package that is asked for as `package`: the first
/// word of the entry, cut down to what follows its last slash, without
/// commas. An entry without a word gives the empty name.
pub open spec fn package_dir(package: Seq<char>) -> Seq<char> {
    let words = words_of(package);
    if words.len() == 0 {
        Seq::empty()
    } else {
        replaced(split_on(words[0], '/').last(), seq![','], Seq::empty())
    }
}

/// The flags that add the header directories of the packages asked for.
pub open spec fn package_flags(packages: Seq<Seq<char>>) -> Seq<char>
    decreases packages.len(),
{
    if packages.len() == 0 {
        Seq::empty()
    } else {
        "-I"@ + ".bld_cpp/includes/"@ + package_dir(packages[0]) + " "@ + " "@ + package_flags(
            packages.drop_first(),
        )
    }
}

/// The header directories of the targets `libs`.
pub open spec fn include_dirs(libs: Seq<TargetSpec>) -> Seq<Seq<char>> {
    Seq::new(libs.len(), |i: int| libs[i].include_dir)
}

/// The flag that library code is compiled with.
pub open spec fn pic_flag(typ: Seq<char>) -> Seq<char> {
    if typ == "dll"@ {
        " -fPIC"@
    } else {
        Seq::empty()
    }
}

/// The command that compiles a source file of the target `target`: the
/// compiler, `-c` and the file, `-o` and the object file, the target's own
/// header directory, those of the libraries it depends on, those of the
/// packages, the target's flags, and `-fPIC` for a library.
pub open spec fn compile_command(
    unit: SrcSpec,
    build: BuildSpec,
    target: TargetSpec,
    libs: Seq<TargetSpec>,
) -> Seq<char> {
    build.compiler + " -c "@ + unit.path + " -o "@ + unit.obj_name + " -I"@ + target.include_dir
        + " "@ + include_flags(include_dirs(libs)) + package_flags(build.packages) + target.cflags
        + pic_flag(target.typ)
}

/// The directory name of the package asked for as `package`.
pub fn package_dir_name(package: &str) -> (name: String)
    ensures
        name@ == package_dir(package@),
{
    let chars = to_chars(package);
    let words = split_words(&chars);
    if words.len() == 0 {
        return String::new();
    }
    let pieces = split_chars(&words[0], '/');
    proof {
        assert(rows(words@)[0] == words@[0]@);
        crate::text::lemma_split_on_len(words@[0]@, '/');
        assert(rows(pieces@).last() == pieces@[pieces@.len() - 1]@);
    }
    let mut comma: Vec<char> = Vec::new();
    comma.push(',');
    let nothing: Vec<char> = Vec::new();
    let cleaned = replace_chars(&pieces[pieces.len() - 1], &comma, &nothing);
    proof {
        assert(comma@ =~= seq![',']);
        assert(nothing@ =~= Seq::<char>::empty());
    }
    from_chars(&cleaned)
}

impl Src {
    /// A source file made of the given parts.
    pub fn new(
        path: String,
        name: String,
        obj_name: String,
        bin_path: String,
        dependant_includes: Vec<String>,
    ) -> (src: Self)
        ensures
            src.path == path,
            src.name == name,
            src.obj_name == obj_name,
            src.bin_path == bin_path,
            src.dependant_includes == dependant_includes,
    {
        Self { path, name, obj_name, bin_path, dependant_includes }
    }

    /// Tells whether the file has to be compiled again, and why. `stored`
    /// holds the digests of the last build, `current` those of what the files
    /// hold now, and `binary_exists` says whether the target's binary is
    /// there.
    pub fn to_build(&self, binary_exists: bool, stored: &PathHash, current: &PathHash) -> (verdict:
        (bool, String))
        ensures
            verdict.0 == needs_rebuild(self@, binary_exists, stored@, current@),
            verdict.1@ == rebuild_reason(self@, binary_exists, stored@, current@),
    {
        let ghost paths = texts(self.dependant_includes@);
        if !binary_exists {
            let mut reason = String::from_str("\tBinary does not exist: ");
            reason.append(self.bin_path.as_str());
            return (true, reason);
        }
        if is_changed(self.path.as_str(), stored, current) {
            let mut reason = String::from_str("\tSource file has changed: ");
            reason.append(self.path.as_str());
            return (true, reason);
        }
        let mut i: usize = 0;
        assert(paths.skip(0) =~= paths);
        while i < self.dependant_includes.len()
            invariant
                i <= self.dependant_includes.len(),
                paths == texts(self.dependant_includes@),
                binary_exists,
                !changed(stored@, current@, self.path@),
                first_changed(stored@, current@, paths) == i + first_changed(
                    stored@,
                    current@,
                    paths.skip(i as int),
                ),
            decreases self.dependant_includes.len() - i,
        {
            proof {
                let tail = paths.skip(i as int);
                assert(tail[0] == self.dependant_includes@[i as int]@);
                assert(tail.drop_first() =~= paths.skip(i + 1));
            }
            if is_changed(self.dependant_includes[i].as_str(), stored, current) {
                let mut reason = String::from_str("\tSource file: ");
                reason.append(self.path.as_str());
                reason.append(" depends on changed include file: ");
                reason.append(self.dependant_includes[i].as_str());
                return (true, reason);
            }
            i += 1;
        }
        let mut reason = String::from_str("Source file: ");
        reason.append(self.path.as_str());
        reason.append(" does not need to be built");
        (false, reason)
    }

    /// The command that compiles the file as part of `target_config`, which
    /// depends on the libraries `dependant_libs`.
    pub fn build(
        &self,
        build_config: &BuildConfig,
        target_config: &TargetConfig,
        dependant_libs: &Vec<TargetConfig>,
    ) -> (cmd: String)
        ensures
            cmd@ == compile_command(
                self@,
                build_config@,
                target_config@,
                specs(dependant_libs@),
            ),
    {
        let ghost dirs = include_dirs(specs(dependant_libs@));
        let ghost packages = texts(build_config.packages@);
        let mut cmd = build_config.compiler.clone();
        cmd.append(" -c ");
        cmd.append(self.path.as_str());
        cmd.append(" -o ");
        cmd.append(self.obj_name.as_str());
        cmd.append(" -I");
        cmd.append(target_config.include_dir.as_str());
        cmd.append(" ");
        let ghost head = cmd@;
        let mut i: usize = 0;
        assert(dirs.skip(0) =~= dirs);
        assert(cmd@ + include_flags(dirs) =~= head + include_flags(dirs));
        while i < dependant_libs.len()
            invariant
                i <= dependant_libs.len(),
                dirs == include_dirs(specs(dependant_libs@)),
                cmd@ + include_flags(dirs.skip(i as int)) == head + include_flags(dirs),
            decreases dependant_libs.len() - i,
        {
            let ghost before = cmd@;
            cmd.append("-I");
            cmd.append(dependant_libs[i].include_dir.as_str());
            cmd.append(" ");
            proof {
                let tail = dirs.skip(i as int);
                assert(tail[0] == dependant_libs@[i as int].include_dir@);
                assert(tail.drop_first() =~= dirs.skip(i + 1));
                assert(cmd@ + include_flags(dirs.skip(i + 1)) =~= before + ("-I"@ + tail[0] + " "@
                    + include_flags(tail.drop_first())));
            }
            i += 1;
        }
        assert(cmd@ + Seq::<char>::empty() =~= cmd@);
        let ghost middle = cmd@;
        let mut k: usize = 0;
        assert(packages.skip(0) =~= packages);
        while k < build_config.packages.len()
            invariant
                k <= build_config.packages.len(),
                packages == texts(build_config.packages@),
                cmd@ + package_flags(packages.skip(k as int)) == middle + package_flags(packages),
            decreases build_config.packages.len() - k,
        {
            let ghost before = cmd@;
            let dir = package_dir_name(build_config.packages[k].as_str());
            cmd.append("-I");
            cmd.append(".bld_cpp/includes/");
            cmd.append(dir.as_str());
            cmd.append(" ");
            cmd.append(" ");
            proof {
                let tail = packages.skip(k as int);
                assert(tail[0] == build_config.packages@[k as int]@);
                assert(tail.drop_first() =~= packages.skip(k + 1));
                assert(cmd@ + package_flags(packages.skip(k + 1)) =~= before + ("-I"@
                    + ".bld_cpp/includes/"@ + package_dir(tail[0]) + " "@ + " "@ + package_flags(
                    tail.drop_first(),
                )));
            }
            k += 1;
        }
        assert(cmd@ + Seq::<char>::empty() =~= cmd@);
        cmd.append(target_config.cflags.as_str());
        if str_eq(target_config.typ.as_str(), "dll") {
            cmd.append(" -fPIC");
        } else {
            assert(cmd@ + Seq::<char>::empty() =~= cmd@);
        }
        proof {
            assert(cmd@ =~= compile_command(
                self@,
                build_config@,
                target_config@,
                specs(dependant_libs@),
            ));
        }
        cmd
    }
}

} // verus!
