use builder_cpp::utils::configs::{
    check_executables, check_source_paths, check_targets, is_source_file, ConfigError,
    TargetConfig,
};

fn target(name: &str, typ: &str, deps: &[&str]) -> TargetConfig {
    TargetConfig {
        name: name.to_string(),
        src: format!("./{}/src", name),
        include_dir: format!("./{}/include", name),
        typ: typ.to_string(),
        cflags: "-g".to_string(),
        libs: "".to_string(),
        deps: deps.iter().map(|d| d.to_string()).collect(),
    }
}

fn names(list: &Vec<TargetConfig>) -> Vec<String> {
    list.iter().map(|t| t.name.clone()).collect()
}

#[test]
fn dependencies_are_built_first() {
    let targets =
        vec![target("main", "exe", &["libb"]), target("libb", "dll", &["libc"]), target("libc", "dll", &[])];
    let arranged = TargetConfig::arrange_targets(targets).unwrap();
    assert_eq!(names(&arranged), vec!["libc", "libb", "main"]);
}

#[test]
fn arranged_targets_keep_their_fields() {
    let targets = vec![target("main", "exe", &["libb"]), target("libb", "dll", &[])];
    let arranged = TargetConfig::arrange_targets(targets).unwrap();
    assert_eq!(arranged[0].name, "libb");
    assert_eq!(arranged[0].src, "./libb/src");
    assert_eq!(arranged[0].include_dir, "./libb/include");
    assert_eq!(arranged[0].typ, "dll");
    assert_eq!(arranged[1].deps, vec!["libb".to_string()]);
}

#[test]
fn independent_targets_keep_their_order() {
    let targets = vec![target("a", "dll", &[]), target("b", "dll", &[]), target("c", "exe", &[])];
    let arranged = TargetConfig::arrange_targets(targets).unwrap();
    assert_eq!(names(&arranged), vec!["a", "b", "c"]);
}

#[test]
fn unknown_dependency_names_are_left_to_packages() {
    let targets = vec![target("main", "exe", &["libfromweb"])];
    let arranged = TargetConfig::arrange_targets(targets).unwrap();
    assert_eq!(names(&arranged), vec!["main"]);
}

#[test]
fn mutual_dependency_is_refused() {
    let targets = vec![target("liba", "dll", &["libb"]), target("libb", "dll", &["liba"])];
    match TargetConfig::arrange_targets(targets) {
        Err(ConfigError::CyclicDependency { target, dependency }) => {
            assert_eq!(target, "libb");
            assert_eq!(dependency, "liba");
        }
        _ => panic!("a cycle of two targets has to be refused"),
    }
}

#[test]
fn longer_cycle_is_refused() {
    let targets = vec![
        target("main", "exe", &["liba"]),
        target("liba", "dll", &["libb"]),
        target("libb", "dll", &["libc"]),
        target("libc", "dll", &["liba"]),
    ];
    assert!(matches!(
        TargetConfig::arrange_targets(targets),
        Err(ConfigError::CyclicDependency { .. })
    ));
}

#[test]
fn target_that_depends_on_itself_is_refused() {
    let targets = vec![target("liba", "dll", &["liba"])];
    match TargetConfig::arrange_targets(targets) {
        Err(ConfigError::CyclicDependency { target, dependency }) => {
            assert_eq!(target, "liba");
            assert_eq!(dependency, "liba");
        }
        _ => panic!("a target that depends on itself has to be refused"),
    }
}

#[test]
fn no_targets_arrange_to_nothing() {
    assert_eq!(TargetConfig::arrange_targets(vec![]).unwrap().len(), 0);
}

#[test]
fn dependencies_are_found_by_name() {
    let targets = vec![target("main", "exe", &["libb", "nothere", "liba"]), target("liba", "dll", &[]), target("libb", "dll", &[])];
    assert_eq!(TargetConfig::find_named(&targets, "libb"), 2);
    assert_eq!(TargetConfig::find_named(&targets, "nothere"), 3);
    assert_eq!(TargetConfig::resolve_deps(&targets, &targets[0].deps), vec![2, 1]);
    assert_eq!(
        TargetConfig::dependency_lists(&targets),
        vec![vec![2, 1], vec![], vec![]]
    );
}

#[test]
fn project_without_targets_is_refused() {
    assert!(matches!(check_targets(&vec![]), Err(ConfigError::NoTargets)));
}

#[test]
fn target_of_unknown_type_is_refused() {
    let targets = vec![target("main", "exe", &[]), target("odd", "lib", &[]), target("odd", "so", &[])];
    match check_targets(&targets) {
        Err(ConfigError::InvalidType { target, typ }) => {
            assert_eq!(target, "odd");
            assert_eq!(typ, "lib");
        }
        _ => panic!("a type other than exe and dll has to be refused"),
    }
}

#[test]
fn duplicate_target_names_are_refused() {
    let targets = vec![target("main", "exe", &[]), target("liba", "dll", &[]), target("liba", "dll", &[])];
    match check_targets(&targets) {
        Err(ConfigError::DuplicateTarget { name }) => assert_eq!(name, "liba"),
        _ => panic!("two targets of one name have to be refused"),
    }
}

#[test]
fn sound_targets_pass() {
    let targets = vec![target("main", "exe", &["liba"]), target("liba", "dll", &[])];
    assert!(check_targets(&targets).is_ok());
}

#[test]
fn exactly_one_executable_is_wanted() {
    let one = vec![target("liba", "dll", &[]), target("main", "exe", &[])];
    assert!(matches!(check_executables(&one), Ok(1)));
    let none = vec![target("liba", "dll", &[])];
    assert!(matches!(check_executables(&none), Err(ConfigError::ExecutableCount { found: 0 })));
    let two = vec![target("a", "exe", &[]), target("b", "exe", &[])];
    assert!(matches!(check_executables(&two), Err(ConfigError::ExecutableCount { found: 2 })));
}

#[test]
fn same_file_name_in_two_directories_is_refused() {
    let found = vec!["main.cpp".to_string(), "util.cpp".to_string(), "util.cpp".to_string()];
    match check_source_paths("main", &found) {
        Err(ConfigError::DuplicateSource { target, file }) => {
            assert_eq!(target, "main");
            assert_eq!(file, "util.cpp");
        }
        _ => panic!("two source files of one name have to be refused"),
    }
}

#[test]
fn first_repeated_name_is_reported() {
    let found = vec!["b.c".to_string(), "a.c".to_string(), "a.c".to_string(), "b.c".to_string()];
    match check_source_paths("main", &found) {
        Err(ConfigError::DuplicateSource { file, .. }) => assert_eq!(file, "b.c"),
        _ => panic!("two source files of one name have to be refused"),
    }
}

#[test]
fn target_without_sources_is_refused() {
    match check_source_paths("main", &vec![]) {
        Err(ConfigError::NoSources { target }) => assert_eq!(target, "main"),
        _ => panic!("a target without source files has to be refused"),
    }
}

#[test]
fn distinct_source_names_pass() {
    let found = vec!["main.cpp".to_string(), "util.cpp".to_string(), "dir/other.c".to_string()];
    assert!(check_source_paths("main", &found).is_ok());
    let shared = vec!["main.cpp".to_string(), "util.cpp".to_string(), "main.c".to_string()];
    assert!(check_source_paths("main", &shared).is_err());
}

#[test]
fn source_files_are_told_by_their_extension() {
    assert!(is_source_file("main.cpp", false));
    assert!(is_source_file("dir/main.c", false));
    assert!(!is_source_file("main.h", false));
    assert!(!is_source_file("main.cu", false));
    assert!(is_source_file("main.cu", true));
    assert!(!is_source_file("main.cpp.bak", true));
    assert!(!is_source_file("", true));
}

#[test]
fn copies_are_equal() {
    let first = target("main", "exe", &["liba", "libb"]);
    let copy = first.duplicate();
    assert_eq!(copy.name, first.name);
    assert_eq!(copy.src, first.src);
    assert_eq!(copy.include_dir, first.include_dir);
    assert_eq!(copy.typ, first.typ);
    assert_eq!(copy.cflags, first.cflags);
    assert_eq!(copy.libs, first.libs);
    assert_eq!(copy.deps, first.deps);
}

#[test]
fn source_files_are_told_apart_without_directory_and_extension() {
    let paths = vec!["src/x/util.c".to_string(), "src/main.cpp".to_string(), "src/y/util.cpp".to_string()];
    match check_source_paths("main", &paths) {
        Err(ConfigError::DuplicateSource { target, file }) => {
            assert_eq!(target, "main");
            assert_eq!(file, "src/x/util.c");
        }
        _ => panic!("two source files of one name have to be refused"),
    }
    let fine = vec!["src/x/util.c".to_string(), "src/util2.c".to_string()];
    assert!(check_source_paths("main", &fine).is_ok());
    assert!(matches!(check_source_paths("main", &vec![]), Err(ConfigError::NoSources { .. })));
}
