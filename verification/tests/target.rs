use builder_cpp::builder::src::{package_dir_name, Src};
use builder_cpp::builder::target::{
    bin_path, check_dependencies, follows_naming, get_src_name, get_src_obj_name, hash_file_path,
    link_command_for, linker_name, package_builds, BuildAction, BuildError, BuildEvent, BuildState,
    CompileResult, Target,
};
use builder_cpp::hasher::{get_hash, hash_bytes, load_hashes_from_file, PathHash};
use builder_cpp::utils::configs::{BuildConfig, Platform, TargetConfig};
use builder_cpp::utils::package::Package;

fn build_config(packages: &[&str]) -> BuildConfig {
    BuildConfig {
        compiler: "g++".to_string(),
        packages: packages.iter().map(|p| p.to_string()).collect(),
        pre_build: None,
        post_build: None,
    }
}

fn target(name: &str, typ: &str, deps: &[&str]) -> TargetConfig {
    TargetConfig {
        name: name.to_string(),
        src: format!("./{}/src", name),
        include_dir: format!("./{}/include", name),
        typ: typ.to_string(),
        cflags: "-g -Wall".to_string(),
        libs: "-lm".to_string(),
        deps: deps.iter().map(|d| d.to_string()).collect(),
    }
}

fn package(name: &str, targets: Vec<TargetConfig>) -> Package {
    Package::new(
        name.to_string(),
        format!("owner/{}", name),
        "master".to_string(),
        build_config(&[]),
        targets,
    )
}

type Files = Vec<(&'static str, &'static str)>;

fn project() -> Files {
    vec![
        ("./main/src/main.cpp", "#include \"a.h\"\nint main() { return 0; }\n"),
        ("./main/src/util.cpp", "#include \"b.h\"\nint util() { return 1; }\n"),
        ("./main/include/a.h", "#include \"b.h\"\nint a();\n"),
        ("./main/include/b.h", "int b();\n"),
    ]
}

fn content(files: &Files, path: &str) -> &'static str {
    files.iter().find(|(p, _)| *p == path).map(|(_, t)| *t).expect("the file has to be there")
}

fn prepare(files: &Files, hash_file: &str) -> Target {
    let config = target("main", "exe", &[]);
    let targets = vec![target("main", "exe", &[])];
    let mut made =
        Target::new(&build_config(&[]), &config, &targets, vec![], Platform::Linux, hash_file)
            .unwrap();
    for (path, text) in files.iter().filter(|(p, _)| p.ends_with(".cpp")) {
        made.add_src(path.to_string(), text);
    }
    while let Some((u, path)) = made.next_header() {
        made.add_header(u, content(files, &path));
    }
    made.get_dependant_includes().unwrap();
    made
}

fn snapshot(made: &Target, files: &Files) -> PathHash {
    let mut current = PathHash::new();
    for path in made.files_to_hash() {
        current.set(&path, &hash_bytes(content(files, &path).as_bytes()));
    }
    current
}

fn ok(warning: &str) -> CompileResult {
    CompileResult { success: true, stdout: String::new(), stderr: warning.to_string() }
}

fn needed_of(action: BuildAction) -> (Vec<usize>, Vec<String>) {
    match action {
        BuildAction::Evaluated { needed, causes } => (needed, causes),
        _ => panic!("the decisions were expected"),
    }
}

fn run_to_the_end(made: &mut Target, files: &Files, binary_exists: bool) -> String {
    let current = snapshot(made, files);
    let (needed, _) = needed_of(made.build(BuildEvent::Begin { binary_exists, current }));
    let jobs = match made.build(BuildEvent::Proceed) {
        BuildAction::Compile { jobs } => jobs,
        _ => panic!("jobs were expected"),
    };
    assert_eq!(jobs.len(), needed.len());
    let results = jobs.iter().map(|_| ok("")).collect();
    match made.build(BuildEvent::Compiled { results }) {
        BuildAction::Link { .. } => {}
        _ => panic!("a link command was expected"),
    }
    match made.build(BuildEvent::Linked { success: true, stderr: String::new() }) {
        BuildAction::Done { hash_file } => hash_file,
        _ => panic!("the build was expected to end"),
    }
}

#[test]
fn sources_are_entered_with_their_names_and_headers() {
    let files = project();
    let made = prepare(&files, "");
    assert_eq!(made.src_count(), 2);
    let main = made.src_at(0);
    assert_eq!(main.path, "./main/src/main.cpp");
    assert_eq!(main.name, "main");
    assert_eq!(main.obj_name, ".bld_cpp/obj_linux/mainmain.o");
    assert_eq!(main.bin_path, ".bld_cpp/bin/main");
    assert_eq!(main.dependant_includes, vec!["./main/include/b.h", "./main/include/a.h"]);
    let util = made.src_at(1);
    assert_eq!(util.name, "util");
    assert_eq!(util.dependant_includes, vec!["./main/include/b.h"]);
    assert_eq!(made.bin_path, ".bld_cpp/bin/main");
    assert_eq!(made.hash_file(), ".bld_cpp/main.linux.hash");
    assert_eq!(made.current_state(), BuildState::NotStarted);
}

#[test]
fn missing_header_is_reported_with_the_file_that_names_it() {
    let config = target("main", "exe", &[]);
    let targets = vec![target("main", "exe", &[])];
    let mut made =
        Target::new(&build_config(&[]), &config, &targets, vec![], Platform::Linux, "").unwrap();
    made.add_src("./main/src/main.cpp".to_string(), "#include \"gone.h\"\n");
    let (place, path) = made.next_header().unwrap();
    assert_eq!(path, "./main/include/gone.h");
    match made.missing_header(place) {
        BuildError::MissingHeader { path, included_from } => {
            assert_eq!(path, "./main/include/gone.h");
            assert_eq!(included_from, "./main/src/main.cpp");
        }
        _ => panic!("a missing header was expected"),
    }
}

#[test]
fn each_file_is_hashed_once() {
    let files = project();
    let made = prepare(&files, "");
    assert_eq!(
        made.file_paths(),
        vec![
            "./main/src/main.cpp",
            "./main/src/util.cpp",
            "./main/include/b.h",
            "./main/include/a.h",
            "./main/include/b.h"
        ]
    );
    assert_eq!(
        made.files_to_hash(),
        vec!["./main/src/main.cpp", "./main/src/util.cpp", "./main/include/b.h", "./main/include/a.h"]
    );
}

#[test]
fn first_build_compiles_everything_and_links() {
    let files = project();
    let mut made = prepare(&files, "");
    let current = snapshot(&made, &files);
    let (needed, causes) =
        needed_of(made.build(BuildEvent::Begin { binary_exists: false, current }));
    assert_eq!(needed, vec![0, 1]);
    assert_eq!(
        causes,
        vec!["\tBinary does not exist: .bld_cpp/bin/main", "\tBinary does not exist: .bld_cpp/bin/main"]
    );
    assert_eq!(made.current_state(), BuildState::SourcesEvaluated);
    let jobs = match made.build(BuildEvent::Proceed) {
        BuildAction::Compile { jobs } => jobs,
        _ => panic!("jobs were expected"),
    };
    assert_eq!(made.current_state(), BuildState::Compiling);
    assert_eq!(jobs.len(), 2);
    assert_eq!(jobs[0].src, 0);
    assert_eq!(
        jobs[0].command,
        "g++ -c ./main/src/main.cpp -o .bld_cpp/obj_linux/mainmain.o -I./main/include -g -Wall"
    );
    assert_eq!(jobs[1].src, 1);
    let results = vec![ok(""), ok("")];
    match made.build(BuildEvent::Compiled { results }) {
        BuildAction::Link { command, warnings } => {
            assert_eq!(
                command,
                "g++ -o .bld_cpp/bin/main .bld_cpp/obj_linux/mainmain.o .bld_cpp/obj_linux/mainutil.o -g -Wall -lm"
            );
            assert_eq!(warnings, Vec::<String>::new());
        }
        _ => panic!("a link command was expected"),
    }
    assert_eq!(made.current_state(), BuildState::LinkNeeded);
    let hash_file = match made.build(BuildEvent::Linked { success: true, stderr: String::new() }) {
        BuildAction::Done { hash_file } => hash_file,
        _ => panic!("the build was expected to end"),
    };
    assert_eq!(made.current_state(), BuildState::Linked);
    let store = load_hashes_from_file(&hash_file);
    assert_eq!(store.len(), 4);
    for (path, text) in files.iter() {
        assert_eq!(get_hash(path, &store), Some(hash_bytes(text.as_bytes())));
    }
}

#[test]
fn second_build_does_nothing() {
    let files = project();
    let mut first = prepare(&files, "");
    let hash_file = run_to_the_end(&mut first, &files, false);
    let mut second = prepare(&files, &hash_file);
    let current = snapshot(&second, &files);
    let (needed, causes) =
        needed_of(second.build(BuildEvent::Begin { binary_exists: true, current }));
    assert_eq!(needed, Vec::<usize>::new());
    assert_eq!(causes, Vec::<String>::new());
    assert!(matches!(second.build(BuildEvent::Proceed), BuildAction::UpToDate));
    assert_eq!(second.current_state(), BuildState::UpToDate);
    assert!(matches!(
        second.build(BuildEvent::Linked { success: true, stderr: String::new() }),
        BuildAction::Failed(BuildError::OutOfTurn)
    ));
}

#[test]
fn only_the_changed_source_is_compiled() {
    let mut files = project();
    let mut first = prepare(&files, "");
    let hash_file = run_to_the_end(&mut first, &files, false);
    files[1].1 = "#include \"b.h\"\nint util() { return 2; }\n";
    let mut second = prepare(&files, &hash_file);
    let current = snapshot(&second, &files);
    let (needed, causes) =
        needed_of(second.build(BuildEvent::Begin { binary_exists: true, current }));
    assert_eq!(needed, vec![1]);
    assert_eq!(causes, vec!["\tSource file has changed: ./main/src/util.cpp"]);
    let jobs = match second.build(BuildEvent::Proceed) {
        BuildAction::Compile { jobs } => jobs,
        _ => panic!("jobs were expected"),
    };
    assert_eq!(jobs.len(), 1);
    assert_eq!(jobs[0].src, 1);
    assert!(matches!(
        second.build(BuildEvent::Compiled { results: vec![ok("")] }),
        BuildAction::Link { .. }
    ));
    let again = match second.build(BuildEvent::Linked { success: true, stderr: String::new() }) {
        BuildAction::Done { hash_file } => hash_file,
        _ => panic!("the build was expected to end"),
    };
    let mut third = prepare(&files, &again);
    let current = snapshot(&third, &files);
    let (needed, _) = needed_of(third.build(BuildEvent::Begin { binary_exists: true, current }));
    assert_eq!(needed, Vec::<usize>::new());
}

#[test]
fn change_of_a_header_of_a_header_reaches_the_source() {
    let mut files = project();
    let mut first = prepare(&files, "");
    let hash_file = run_to_the_end(&mut first, &files, false);
    files[2].1 = "#include \"b.h\"\nint a(int);\n";
    let mut second = prepare(&files, &hash_file);
    let current = snapshot(&second, &files);
    let (needed, causes) =
        needed_of(second.build(BuildEvent::Begin { binary_exists: true, current }));
    assert_eq!(needed, vec![0]);
    assert_eq!(
        causes,
        vec!["\tSource file: ./main/src/main.cpp depends on changed include file: ./main/include/a.h"]
    );
    files[3].1 = "int b(int);\n";
    let mut third = prepare(&files, &hash_file);
    let current = snapshot(&third, &files);
    let (needed, causes) =
        needed_of(third.build(BuildEvent::Begin { binary_exists: true, current }));
    assert_eq!(needed, vec![0, 1]);
    assert_eq!(
        causes[0],
        "\tSource file: ./main/src/main.cpp depends on changed include file: ./main/include/b.h"
    );
}

#[test]
fn missing_binary_rebuilds_what_is_unchanged() {
    let files = project();
    let mut first = prepare(&files, "");
    let hash_file = run_to_the_end(&mut first, &files, false);
    let mut second = prepare(&files, &hash_file);
    let current = snapshot(&second, &files);
    let (needed, _) = needed_of(second.build(BuildEvent::Begin { binary_exists: false, current }));
    assert_eq!(needed, vec![0, 1]);
}

#[test]
fn target_without_sources_links_when_the_binary_is_missing() {
    let files: Files = vec![];
    let mut made = prepare(&files, "");
    let (needed, _) = needed_of(
        made.build(BuildEvent::Begin { binary_exists: false, current: PathHash::new() }),
    );
    assert_eq!(needed, Vec::<usize>::new());
    match made.build(BuildEvent::Proceed) {
        BuildAction::Compile { jobs } => assert_eq!(jobs.len(), 0),
        _ => panic!("the build was expected to go on"),
    }
    assert!(matches!(
        made.build(BuildEvent::Compiled { results: vec![] }),
        BuildAction::Link { .. }
    ));
}

#[test]
fn failed_compile_stops_the_build() {
    let files = project();
    let mut made = prepare(&files, "");
    let current = snapshot(&made, &files);
    made.build(BuildEvent::Begin { binary_exists: false, current });
    made.build(BuildEvent::Proceed);
    let failed = CompileResult {
        success: false,
        stdout: "out".to_string(),
        stderr: "util.cpp:1: error".to_string(),
    };
    match made.build(BuildEvent::Compiled { results: vec![ok("careful"), failed] }) {
        BuildAction::Failed(BuildError::CompileFailed { source, command, stdout, stderr }) => {
            assert_eq!(source, "./main/src/util.cpp");
            assert_eq!(
                command,
                "g++ -c ./main/src/util.cpp -o .bld_cpp/obj_linux/mainutil.o -I./main/include -g -Wall"
            );
            assert_eq!(stdout, "out");
            assert_eq!(stderr, "util.cpp:1: error");
        }
        _ => panic!("the build was expected to fail"),
    }
    assert_eq!(made.current_state(), BuildState::Compiling);
}

#[test]
fn warnings_are_passed_on() {
    let files = project();
    let mut made = prepare(&files, "");
    let current = snapshot(&made, &files);
    made.build(BuildEvent::Begin { binary_exists: false, current });
    made.build(BuildEvent::Proceed);
    match made.build(BuildEvent::Compiled { results: vec![ok("unused variable"), ok("")] }) {
        BuildAction::Link { warnings, .. } => assert_eq!(warnings, vec!["unused variable"]),
        _ => panic!("a link command was expected"),
    }
}

#[test]
fn failed_link_writes_no_hash_file() {
    let files = project();
    let mut made = prepare(&files, "");
    let current = snapshot(&made, &files);
    made.build(BuildEvent::Begin { binary_exists: false, current });
    made.build(BuildEvent::Proceed);
    made.build(BuildEvent::Compiled { results: vec![ok(""), ok("")] });
    match made.build(BuildEvent::Linked { success: false, stderr: "undefined".to_string() }) {
        BuildAction::Failed(BuildError::LinkFailed { command, stderr }) => {
            assert!(command.starts_with("g++ -o .bld_cpp/bin/main"));
            assert_eq!(stderr, "undefined");
        }
        _ => panic!("the build was expected to fail"),
    }
    assert_eq!(made.current_state(), BuildState::LinkFailed);
}

#[test]
fn steps_out_of_turn_are_refused() {
    let files = project();
    let mut made = prepare(&files, "");
    assert!(matches!(made.build(BuildEvent::Proceed), BuildAction::Failed(BuildError::OutOfTurn)));
    assert!(matches!(
        made.build(BuildEvent::Compiled { results: vec![] }),
        BuildAction::Failed(BuildError::OutOfTurn)
    ));
    assert_eq!(made.current_state(), BuildState::NotStarted);
    let current = snapshot(&made, &files);
    made.build(BuildEvent::Begin { binary_exists: false, current });
    assert!(matches!(
        made.build(BuildEvent::Begin { binary_exists: false, current: PathHash::new() }),
        BuildAction::Failed(BuildError::OutOfTurn)
    ));
    made.build(BuildEvent::Proceed);
    assert!(matches!(
        made.build(BuildEvent::Compiled { results: vec![ok("")] }),
        BuildAction::Failed(BuildError::OutOfTurn)
    ));
    assert_eq!(made.current_state(), BuildState::Compiling);
}

#[test]
fn unit_is_judged_by_binary_source_and_headers() {
    let unit = Src::new(
        "src/a.c".to_string(),
        "a".to_string(),
        "obj/a.o".to_string(),
        "bin/app".to_string(),
        vec!["inc/x.h".to_string(), "inc/y.h".to_string()],
    );
    let mut stored = PathHash::new();
    stored.set("src/a.c", "1");
    stored.set("inc/x.h", "2");
    stored.set("inc/y.h", "3");
    let mut current = PathHash::new();
    current.set("src/a.c", "1");
    current.set("inc/x.h", "2");
    current.set("inc/y.h", "3");
    assert_eq!(
        unit.to_build(true, &stored, &current),
        (false, "Source file: src/a.c does not need to be built".to_string())
    );
    assert_eq!(
        unit.to_build(false, &stored, &current),
        (true, "\tBinary does not exist: bin/app".to_string())
    );
    current.set("inc/y.h", "4");
    assert_eq!(
        unit.to_build(true, &stored, &current),
        (true, "\tSource file: src/a.c depends on changed include file: inc/y.h".to_string())
    );
    current.set("inc/x.h", "5");
    assert_eq!(
        unit.to_build(true, &stored, &current),
        (true, "\tSource file: src/a.c depends on changed include file: inc/x.h".to_string())
    );
    current.set("src/a.c", "6");
    assert_eq!(
        unit.to_build(true, &stored, &current),
        (true, "\tSource file has changed: src/a.c".to_string())
    );
    assert_eq!(
        unit.to_build(true, &stored, &PathHash::new()),
        (true, "\tSource file has changed: src/a.c".to_string())
    );
    assert_eq!(
        unit.to_build(true, &PathHash::new(), &stored),
        (true, "\tSource file has changed: src/a.c".to_string())
    );
}

#[test]
fn same_content_is_not_a_change() {
    let unit = Src::new(
        "src/a.c".to_string(),
        "a".to_string(),
        "obj/a.o".to_string(),
        "bin/app".to_string(),
        vec![],
    );
    let mut stored = PathHash::new();
    stored.set("src/a.c", &hash_bytes(b"int a;"));
    let mut touched = PathHash::new();
    touched.set("src/a.c", &hash_bytes(b"int a;"));
    assert!(!unit.to_build(true, &stored, &touched).0);
    let mut edited = PathHash::new();
    edited.set("src/a.c", &hash_bytes(b"int a; "));
    assert!(unit.to_build(true, &stored, &edited).0);
}

#[test]
fn compile_command_lists_all_header_directories() {
    let unit = Src::new(
        "./src/main.cpp".to_string(),
        "main".to_string(),
        ".bld_cpp/obj_linux/mainmain.o".to_string(),
        ".bld_cpp/bin/main".to_string(),
        vec![],
    );
    let build = build_config(&["Dr-42/Nomu_Engine, master", "a/b/c dev"]);
    let mut own = target("main", "exe", &["libengine"]);
    own.include_dir = "./src".to_string();
    let libs = vec![target("libengine", "dll", &[])];
    assert_eq!(
        unit.build(&build, &own, &libs),
        "g++ -c ./src/main.cpp -o .bld_cpp/obj_linux/mainmain.o -I./src -I./libengine/include -I.bld_cpp/includes/Nomu_Engine  -I.bld_cpp/includes/c  -g -Wall"
    );
    own.typ = "dll".to_string();
    assert_eq!(
        unit.build(&build_config(&[]), &own, &vec![]),
        "g++ -c ./src/main.cpp -o .bld_cpp/obj_linux/mainmain.o -I./src -g -Wall -fPIC"
    );
}

#[test]
fn package_directory_is_the_end_of_the_repository() {
    assert_eq!(package_dir_name("Dr-42/Nomu_Engine, master"), "Nomu_Engine");
    assert_eq!(package_dir_name("  owner/name\tbranch"), "name");
    assert_eq!(package_dir_name("plain"), "plain");
    assert_eq!(package_dir_name("a,/b,c/"), "");
    assert_eq!(package_dir_name("   "), "");
    assert_eq!(package_dir_name(""), "");
}

#[test]
fn link_command_names_libraries_and_packages() {
    let own = target("main", "exe", &["libengine"]);
    let libs = vec![target("libengine", "dll", &[])];
    let objs = vec!["o1.o".to_string(), "o2.o".to_string()];
    assert_eq!(
        link_command_for(Platform::Linux, &build_config(&[]), &own, ".bld_cpp/bin/main", &objs, &libs, &vec![]),
        "g++ -o .bld_cpp/bin/main o1.o o2.o -g -Wall  -I./libengine/include -lengine -L.bld_cpp/bin -Wl,-rpath,'$ORIGIN'  -lm"
    );
    assert_eq!(
        link_command_for(Platform::Windows, &build_config(&[]), &own, ".bld_cpp/bin/main.exe", &objs, &libs, &vec![]),
        "g++ -o .bld_cpp/bin/main.exe o1.o o2.o -g -Wall  -I./libengine/include -lengine -L.bld_cpp/bin -lm"
    );
    let packages = vec![package("pk", vec![target("libpk", "dll", &[]), target("libmore", "dll", &[])])];
    let lib = target("libown", "dll", &[]);
    assert_eq!(
        link_command_for(Platform::Linux, &build_config(&[]), &lib, ".bld_cpp/bin/libown.so", &vec![], &vec![], &packages),
        "g++ -o .bld_cpp/bin/libown.so -shared  -g -Wall  -I./libpk/include -lpk  -I./libmore/include -lmore -L.bld_cpp/bin -Wl,-rpath,'$ORIGIN'  -lm"
    );
    assert_eq!(
        link_command_for(Platform::Linux, &build_config(&[]), &own, "bin", &vec![], &vec![], &vec![]),
        "g++ -o bin -g -Wall -lm"
    );
}

#[test]
fn library_names_are_rewritten_for_the_linker() {
    assert_eq!(linker_name("libengine"), "-lengine");
    assert_eq!(linker_name("libglib"), "-lglib");
    assert_eq!(linker_name("engine"), "engine");
    assert_eq!(linker_name("lib"), "-l");
    assert_eq!(linker_name("li"), "li");
    assert!(follows_naming("libengine"));
    assert!(!follows_naming("engine"));
}

#[test]
fn names_of_files_follow_the_platform() {
    assert_eq!(bin_path(Platform::Linux, "main", "exe"), ".bld_cpp/bin/main");
    assert_eq!(bin_path(Platform::Linux, "libx", "dll"), ".bld_cpp/bin/libx.so");
    assert_eq!(bin_path(Platform::Android, "libx", "dll"), ".bld_cpp/bin/libx.so");
    assert_eq!(bin_path(Platform::Windows, "main", "exe"), ".bld_cpp/bin/main.exe");
    assert_eq!(bin_path(Platform::Windows, "libx", "dll"), ".bld_cpp/bin/libx.dll");
    assert_eq!(bin_path(Platform::Windows, "odd", "other"), ".bld_cpp/bin/odd");
    assert_eq!(hash_file_path(Platform::Linux, "main"), ".bld_cpp/main.linux.hash");
    assert_eq!(hash_file_path(Platform::Android, "main"), ".bld_cpp/main.linux.hash");
    assert_eq!(hash_file_path(Platform::Windows, "main"), ".bld_cpp/main.win32.hash");
    assert_eq!(get_src_obj_name(Platform::Linux, "main", "util"), ".bld_cpp/obj_linux/mainutil.o");
    assert_eq!(get_src_obj_name(Platform::Windows, "main", "util"), ".bld_cpp/obj_win32/mainutil.o");
}

#[test]
fn source_name_is_the_file_name_up_to_the_first_dot() {
    assert_eq!(get_src_name("./src/main.cpp"), "main");
    assert_eq!(get_src_name("main.c"), "main");
    assert_eq!(get_src_name("./a.b/x.tar.c"), "x");
    assert_eq!(get_src_name("dir/noext"), "noext");
    assert_eq!(get_src_name("dir/.hidden.c"), "");
    assert_eq!(get_src_name(""), "");
}

#[test]
fn dependency_on_an_executable_is_refused() {
    let targets = vec![target("main", "exe", &["tool"]), target("tool", "exe", &[])];
    match Target::new(&build_config(&[]), &targets[0], &targets, vec![], Platform::Linux, "") {
        Err(BuildError::DependencyNotLibrary { target, typ }) => {
            assert_eq!(target, "tool");
            assert_eq!(typ, "exe");
        }
        _ => panic!("a dependency on an executable has to be refused"),
    }
}

#[test]
fn dependency_of_a_dependency_is_checked_too() {
    let targets = vec![
        target("main", "exe", &["liba"]),
        target("liba", "dll", &["tool"]),
        target("tool", "exe", &[]),
    ];
    match Target::new(&build_config(&[]), &targets[0], &targets, vec![], Platform::Linux, "") {
        Err(BuildError::DependencyNotLibrary { target, .. }) => assert_eq!(target, "tool"),
        _ => panic!("a dependency on an executable has to be refused"),
    }
}

#[test]
fn dependency_that_is_not_found_is_refused() {
    let targets = vec![target("main", "exe", &["liba", "libmissing"]), target("liba", "dll", &[])];
    match Target::new(&build_config(&[]), &targets[0], &targets, vec![], Platform::Linux, "") {
        Err(BuildError::DependenciesNotFound { requested, available }) => {
            assert_eq!(requested, vec!["liba", "libmissing"]);
            assert_eq!(available, vec!["liba"]);
        }
        _ => panic!("a dependency that is not found has to be refused"),
    }
    let packages = vec![package("libmissing", vec![])];
    assert!(Target::new(&build_config(&[]), &targets[0], &targets, packages, Platform::Linux, "")
        .is_ok());
}

#[test]
fn library_dependencies_are_accepted() {
    let targets = vec![target("main", "exe", &["liba"]), target("liba", "dll", &[])];
    let made =
        Target::new(&build_config(&[]), &targets[0], &targets, vec![], Platform::Windows, "x.c 1\n")
            .unwrap();
    assert_eq!(made.bin_path, ".bld_cpp/bin/main.exe");
    assert_eq!(made.hash_file(), ".bld_cpp/main.win32.hash");
    assert_eq!(made.src_count(), 0);
    assert_eq!(made.link(), "g++ -o .bld_cpp/bin/main.exe -g -Wall  -I./liba/include -la -L.bld_cpp/bin -lm");
}

#[test]
fn libraries_that_depend_on_each_other_are_refused() {
    let targets = vec![target("A", "dll", &["B"]), target("B", "dll", &["A"])];
    match Target::new(&build_config(&[]), &targets[0], &targets, vec![], Platform::Linux, "") {
        Err(BuildError::CyclicDependency { target, dependency }) => {
            assert_eq!(target, "A");
            assert_eq!(dependency, "B");
        }
        _ => panic!("dependencies that go in a circle have to be refused"),
    }
    let own = vec![target("main", "exe", &["liba"]), target("liba", "dll", &["liba"])];
    assert!(matches!(
        Target::new(&build_config(&[]), &own[0], &own, vec![], Platform::Linux, ""),
        Err(BuildError::CyclicDependency { .. })
    ));
}

#[test]
fn headers_are_filled_in_only_when_all_were_read() {
    let config = target("main", "exe", &[]);
    let targets = vec![target("main", "exe", &[])];
    let mut made =
        Target::new(&build_config(&[]), &config, &targets, vec![], Platform::Linux, "").unwrap();
    made.add_src("./main/src/a.c".to_string(), "#include \"h.h\"\n");
    match made.get_dependant_includes() {
        Err(BuildError::MissingHeader { path, included_from }) => {
            assert_eq!(path, "./main/include/h.h");
            assert_eq!(included_from, "./main/src/a.c");
        }
        _ => panic!("a header that was not read has to be reported"),
    }
    assert_eq!(made.src_at(0).dependant_includes, Vec::<String>::new());
    made.add_header(0, "#include \"h2.h\"\n");
    made.add_header(1, "");
    assert!(made.get_dependant_includes().is_ok());
    assert_eq!(
        made.src_at(0).dependant_includes,
        vec!["./main/include/h2.h", "./main/include/h.h"]
    );
}

#[test]
fn headers_that_name_each_other_are_listed_once() {
    let config = target("main", "exe", &[]);
    let targets = vec![target("main", "exe", &[])];
    let mut made =
        Target::new(&build_config(&[]), &config, &targets, vec![], Platform::Linux, "").unwrap();
    made.add_src("./main/src/a.c".to_string(), "#include \"a.h\"\n");
    made.add_header(0, "#include \"b.h\"\n");
    made.add_header(1, "#include \"a.h\"\n");
    made.get_dependant_includes().unwrap();
    assert_eq!(
        made.src_at(0).dependant_includes,
        vec!["./main/include/b.h", "./main/include/a.h"]
    );
}

#[test]
fn dependencies_of_all_targets_are_checked_before_building() {
    let targets = vec![
        target("liba", "dll", &[]),
        target("libb", "dll", &["tool"]),
        target("tool", "exe", &["liba"]),
    ];
    match check_dependencies(&targets, 0) {
        Err(BuildError::DependencyNotLibrary { target, typ }) => {
            assert_eq!(target, "tool");
            assert_eq!(typ, "exe");
        }
        _ => panic!("a dependency on an executable has to be refused"),
    }
    let missing = vec![target("main", "exe", &["libweb"])];
    assert!(matches!(check_dependencies(&missing, 0), Err(BuildError::DependenciesNotFound { .. })));
    assert!(check_dependencies(&missing, 1).is_ok());
    let fine = vec![target("liba", "dll", &[]), target("main", "exe", &["liba"])];
    assert!(check_dependencies(&fine, 0).is_ok());
    assert!(check_dependencies(&vec![], 0).is_ok());
}

#[test]
fn libraries_of_packages_are_built_first() {
    let packages = vec![
        package("one", vec![target("demo", "exe", &[]), target("libone", "dll", &[])]),
        package("none", vec![]),
        package("two", vec![target("libtwo", "dll", &[]), target("libmore", "dll", &[])]),
    ];
    assert_eq!(package_builds(&packages), vec![(0, 1), (2, 0), (2, 1)]);
    assert_eq!(package_builds(&vec![]), Vec::<(usize, usize)>::new());
}

#[test]
fn digest_has_forty_characters() {
    assert_eq!(hash_bytes(b"").len(), 40);
    assert_eq!(hash_bytes(&vec![1u8; 100000]).len(), 40);
}
