use builder_cpp::utils::configs::ConfigError;
use builder_cpp::utils::manifest::{
    config_from_document, entry, get_list, get_optional_text, get_text, is_table, items, key,
    parse_config, read_config, text, Field, ManifestFault, Node,
};

const SAMPLE: &str = r#"
[build]
compiler = "g++"
packages = ["Dr-42/Nomu_Engine, master"]
pre_build = "echo before"

[[targets]]
name = "main"
src = "./src"
include_dir = "./src"
type = "exe"
cflags = "-g -Wall "
libs = ""
deps = ["libengine"]

[[targets]]
name = "libengine"
src = "./Engine/src/"
include_dir = "./Engine/src/include"
type = "dll"
cflags = "-g -Wall -Wunused"
libs = "-lm"
"#;

fn fault_of(text: &str) -> ManifestFault {
    match parse_config(text, false, &vec![]) {
        Err(ConfigError::Manifest { fault }) => fault,
        _ => panic!("a fault of the manifest was expected"),
    }
}

#[test]
fn sample_manifest_is_read() {
    let (build, targets) = read_config(SAMPLE).unwrap();
    assert_eq!(build.compiler, "g++");
    assert_eq!(build.packages, vec!["Dr-42/Nomu_Engine, master".to_string()]);
    assert_eq!(build.pre_build, Some("echo before".to_string()));
    assert_eq!(build.post_build, None);
    assert_eq!(targets.len(), 2);
    assert_eq!(targets[0].name, "main");
    assert_eq!(targets[0].src, "./src");
    assert_eq!(targets[0].include_dir, "./src");
    assert_eq!(targets[0].typ, "exe");
    assert_eq!(targets[0].cflags, "-g -Wall ");
    assert_eq!(targets[0].libs, "");
    assert_eq!(targets[0].deps, vec!["libengine".to_string()]);
    assert_eq!(targets[1].name, "libengine");
    assert_eq!(targets[1].typ, "dll");
    assert_eq!(targets[1].libs, "-lm");
    assert_eq!(targets[1].deps, Vec::<String>::new());
}

#[test]
fn text_that_is_no_toml_is_refused() {
    match parse_config("[build\ncompiler = ", false, &vec![]) {
        Err(ConfigError::Syntax { message }) => assert!(!message.is_empty()),
        _ => panic!("a syntax error was expected"),
    }
}

#[test]
fn manifest_without_build_is_refused() {
    assert_eq!(fault_of("targets = []\n"), ManifestFault::Missing(Field::Build));
}

#[test]
fn build_that_is_no_table_is_refused() {
    assert_eq!(fault_of("build = 3\ntargets = []\n"), ManifestFault::NotTable(Field::Build));
}

#[test]
fn manifest_without_compiler_is_refused() {
    assert_eq!(fault_of("targets = []\n[build]\n"), ManifestFault::Missing(Field::Compiler));
    assert_eq!(
        fault_of("targets = []\n[build]\ncompiler = 1\n"),
        ManifestFault::NotText(Field::Compiler)
    );
}

#[test]
fn packages_have_to_be_a_list_of_strings() {
    assert_eq!(
        fault_of("[build]\ncompiler = \"gcc\"\npackages = \"one\"\n"),
        ManifestFault::NotList(Field::Packages)
    );
    assert_eq!(
        fault_of("[build]\ncompiler = \"gcc\"\npackages = [1]\n"),
        ManifestFault::NotText(Field::Packages)
    );
}

#[test]
fn commands_around_the_build_have_to_be_strings() {
    assert_eq!(
        fault_of("[build]\ncompiler = \"gcc\"\npre_build = 1\n"),
        ManifestFault::NotText(Field::PreBuild)
    );
    assert_eq!(
        fault_of("[build]\ncompiler = \"gcc\"\npost_build = []\n"),
        ManifestFault::NotText(Field::PostBuild)
    );
}

#[test]
fn faults_of_the_build_table_come_in_reading_order() {
    assert_eq!(
        fault_of("[build]\npost_build = 1\npackages = 2\n"),
        ManifestFault::NotList(Field::Packages)
    );
}

#[test]
fn manifest_without_targets_is_refused() {
    assert_eq!(fault_of("[build]\ncompiler = \"gcc\"\n"), ManifestFault::Missing(Field::Targets));
    assert_eq!(
        fault_of("targets = 1\n[build]\ncompiler = \"gcc\"\n"),
        ManifestFault::NotList(Field::Targets)
    );
    assert!(matches!(
        parse_config("targets = []\n[build]\ncompiler = \"gcc\"\n", false, &vec![]),
        Err(ConfigError::NoTargets)
    ));
}

fn with_target(body: &str) -> String {
    format!("[build]\ncompiler = \"gcc\"\n\n[[targets]]\n{}", body)
}

#[test]
fn target_fields_are_required() {
    let full = "name = \"a\"\nsrc = \"s\"\ninclude_dir = \"i\"\ntype = \"exe\"\ncflags = \"\"\nlibs = \"\"\n";
    assert!(parse_config(&with_target(full), false, &vec![]).is_ok());
    let fields = [
        ("name", Field::Name),
        ("src", Field::Src),
        ("include_dir", Field::IncludeDir),
        ("type", Field::Type),
        ("cflags", Field::Cflags),
        ("libs", Field::Libs),
    ];
    for (name, field) in fields {
        let without: String =
            full.lines().filter(|l| !l.starts_with(&format!("{} =", name))).map(|l| format!("{}\n", l)).collect();
        assert_eq!(fault_of(&with_target(&without)), ManifestFault::Missing(field));
        let odd = format!("{}{} = 7\n", without, name);
        assert_eq!(fault_of(&with_target(&odd)), ManifestFault::NotText(field));
    }
}

#[test]
fn dependencies_have_to_be_a_list_of_strings() {
    let full = "name = \"a\"\nsrc = \"s\"\ninclude_dir = \"i\"\ntype = \"exe\"\ncflags = \"\"\nlibs = \"\"\n";
    assert_eq!(
        fault_of(&with_target(&format!("{}deps = \"x\"\n", full))),
        ManifestFault::NotList(Field::Deps)
    );
    assert_eq!(
        fault_of(&with_target(&format!("{}deps = [\"x\", 2]\n", full))),
        ManifestFault::NotText(Field::Deps)
    );
}

#[test]
fn target_of_unknown_type_is_refused_when_read() {
    let body = "name = \"a\"\nsrc = \"s\"\ninclude_dir = \"i\"\ntype = \"lib\"\ncflags = \"\"\nlibs = \"\"\n";
    match parse_config(&with_target(body), false, &vec![]) {
        Err(ConfigError::InvalidType { target, typ }) => {
            assert_eq!(target, "a");
            assert_eq!(typ, "lib");
        }
        _ => panic!("a type other than exe and dll has to be refused"),
    }
}

#[test]
fn duplicate_targets_are_refused_when_read() {
    let one = "name = \"a\"\nsrc = \"s\"\ninclude_dir = \"i\"\ntype = \"dll\"\ncflags = \"\"\nlibs = \"\"\n";
    let text = format!("{}\n[[targets]]\n{}", with_target(one), one);
    match parse_config(&text, false, &vec![]) {
        Err(ConfigError::DuplicateTarget { name }) => assert_eq!(name, "a"),
        _ => panic!("two targets of one name have to be refused"),
    }
}

fn text_node(s: &str) -> Node {
    Node::Text(s.to_string())
}

fn table(entries: Vec<(&str, Node)>) -> Node {
    Node::Table(entries.into_iter().map(|(k, v)| (k.to_string(), v)).collect())
}

fn target_node(name: &str, typ: &str) -> Node {
    table(vec![
        ("cflags", text_node("-g")),
        ("include_dir", text_node("./inc")),
        ("libs", text_node("")),
        ("name", text_node(name)),
        ("src", text_node("./src")),
        ("type", text_node(typ)),
    ])
}

#[test]
fn parts_are_taken_from_a_document() {
    let build = table(vec![
        ("compiler", text_node("g++")),
        ("packages", Node::List(vec![text_node("o/r b")])),
        ("pre_build", text_node("echo before")),
        ("odd", Node::Other),
    ]);
    assert_eq!(get_text(&build, Field::Compiler), Ok("g++".to_string()));
    assert_eq!(get_text(&build, Field::Name), Err(ManifestFault::Missing(Field::Name)));
    assert_eq!(get_optional_text(&build, Field::PostBuild), Ok(None));
    assert_eq!(get_optional_text(&build, Field::PreBuild), Ok(Some("echo before".to_string())));
    assert_eq!(get_list(&build, Field::Packages), Ok(vec!["o/r b".to_string()]));
    assert_eq!(get_list(&build, Field::Deps), Ok(vec![]));
    assert_eq!(get_text(&text_node("x"), Field::Compiler), Err(ManifestFault::Missing(Field::Compiler)));
    assert!(is_table(&build));
    assert!(!is_table(&Node::List(vec![])));
    assert!(matches!(entry(&build, "odd"), Some(Node::Other)));
    assert!(entry(&build, "none").is_none());
    assert_eq!(text(&text_node("abc")), Some("abc"));
    assert_eq!(text(&Node::Other), None);
    assert_eq!(items(&Node::List(vec![Node::Other, Node::Other])).map(|l| l.len()), Some(2));
    assert!(items(&build).is_none());
}

#[test]
fn configuration_is_taken_from_a_document() {
    let document = table(vec![
        ("build", table(vec![("compiler", text_node("clang"))])),
        ("targets", Node::List(vec![target_node("main", "exe"), target_node("libx", "dll")])),
    ]);
    let (build, targets) = config_from_document(&document).unwrap();
    assert_eq!(build.compiler, "clang");
    assert_eq!(build.packages, Vec::<String>::new());
    assert_eq!(targets.len(), 2);
    assert_eq!(targets[0].name, "main");
    assert_eq!(targets[0].include_dir, "./inc");
    assert_eq!(targets[1].typ, "dll");
    let twice = table(vec![
        ("build", table(vec![("compiler", text_node("clang"))])),
        ("targets", Node::List(vec![target_node("a", "dll"), target_node("a", "dll")])),
    ]);
    assert!(matches!(config_from_document(&twice), Err(ConfigError::DuplicateTarget { .. })));
    let odd = table(vec![
        ("build", Node::List(vec![])),
        ("targets", Node::List(vec![])),
    ]);
    assert!(matches!(
        config_from_document(&odd),
        Err(ConfigError::Manifest { fault: ManifestFault::NotTable(Field::Build) })
    ));
    assert!(matches!(
        config_from_document(&Node::Other),
        Err(ConfigError::Manifest { fault: ManifestFault::Missing(Field::Build) })
    ));
}

#[test]
fn keys_are_those_of_the_manifest() {
    assert_eq!(key(Field::Build), "build");
    assert_eq!(key(Field::IncludeDir), "include_dir");
    assert_eq!(key(Field::Type), "type");
    assert_eq!(key(Field::PreBuild), "pre_build");
}

fn chain() -> String {
    let mut text = String::from("[build]\ncompiler = \"g++\"\n");
    for (name, typ, deps) in [("app", "exe", "deps = [\"libz\"]\n"), ("libz", "dll", "deps = [\"liby\"]\n"), ("liby", "dll", "")] {
        text.push_str(&format!(
            "\n[[targets]]\nname = \"{}\"\nsrc = \".\"\ninclude_dir = \".\"\ntype = \"{}\"\ncflags = \"\"\nlibs = \"\"\n{}",
            name, typ, deps
        ));
    }
    text
}

fn names(targets: &Vec<builder_cpp::utils::configs::TargetConfig>) -> Vec<String> {
    targets.iter().map(|t| t.name.clone()).collect()
}

#[test]
fn targets_are_read_in_the_order_of_the_manifest() {
    let (_, targets) = read_config(&chain()).unwrap();
    assert_eq!(names(&targets), vec!["app", "libz", "liby"]);
}

#[test]
fn targets_are_given_in_the_order_they_are_built() {
    let (build, targets) = parse_config(&chain(), false, &vec![]).unwrap();
    assert_eq!(build.compiler, "g++");
    assert_eq!(names(&targets), vec!["liby", "libz", "app"]);
    assert!(targets[0].deps.is_empty());
    let (_, sample) = parse_config(SAMPLE, false, &vec![]).unwrap();
    assert_eq!(names(&sample), vec!["libengine", "main"]);
}

#[test]
fn targets_that_name_each_other_are_refused_when_read() {
    let one = "name = \"A\"\nsrc = \"s\"\ninclude_dir = \"i\"\ntype = \"dll\"\ncflags = \"\"\nlibs = \"\"\ndeps = [\"B\"]\n";
    let two = "name = \"B\"\nsrc = \"s\"\ninclude_dir = \"i\"\ntype = \"dll\"\ncflags = \"\"\nlibs = \"\"\ndeps = [\"A\"]\n";
    let text = format!("{}\n[[targets]]\n{}", with_target(one), two);
    assert!(read_config(&text).is_ok());
    match parse_config(&text, false, &vec![]) {
        Err(ConfigError::CyclicDependency { target, dependency }) => {
            assert_eq!(target, "B");
            assert_eq!(dependency, "A");
        }
        _ => panic!("targets that name each other have to be refused"),
    }
}

#[test]
fn source_files_of_one_name_are_refused_when_read() {
    let same = vec![
        vec!["./x/main.cpp".to_string()],
        vec!["./e/x/util.c".to_string(), "./e/y/util.c".to_string()],
    ];
    match parse_config(SAMPLE, true, &same) {
        Err(ConfigError::DuplicateSource { target, file }) => {
            assert_eq!(target, "libengine");
            assert_eq!(file, "./e/x/util.c");
        }
        _ => panic!("two source files of one name have to be refused"),
    }
    let logical = vec![
        vec!["./x/main.cpp".to_string()],
        vec!["./e/x/util.c".to_string(), "./e/y/util.cpp".to_string()],
    ];
    assert!(matches!(
        parse_config(SAMPLE, true, &logical),
        Err(ConfigError::DuplicateSource { .. })
    ));
    assert!(parse_config(SAMPLE, false, &logical).is_ok());
}

#[test]
fn target_without_source_files_is_refused_when_read() {
    let short = vec![vec!["./x/main.cpp".to_string()]];
    match parse_config(SAMPLE, true, &short) {
        Err(ConfigError::NoSources { target }) => assert_eq!(target, "libengine"),
        _ => panic!("a target without source files has to be refused"),
    }
    let fine = vec![vec!["./x/main.cpp".to_string()], vec!["./e/a.c".to_string(), "./e/b.c".to_string()]];
    let (_, targets) = parse_config(SAMPLE, true, &fine).unwrap();
    assert_eq!(names(&targets), vec!["libengine", "main"]);
}
