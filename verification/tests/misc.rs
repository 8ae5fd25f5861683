use builder_cpp::bin_flags::{clean, clean_packages, clean_packages_wrapper, restore_packages, update_packages};
use builder_cpp::global_config::{GlobalConfig, SettingError};
use builder_cpp::text::{
    copy_range, ends_with, find_char, find_repeated, find_text, from_chars, replace_chars,
    split_chars, split_lines, split_words, starts_with, text_less, to_chars,
};
use builder_cpp::utils::configs::{BuildConfig, Platform, TargetConfig};
use builder_cpp::utils::log::{log, should_log, LogLevel};
use builder_cpp::utils::package::{
    adopt_targets, copy_command, dedup_packages, include_dir, manifest_path, normalize,
    parse_entry, replace_text, source_dir, Package, PackageError,
};

fn chars(s: &str) -> Vec<char> {
    s.chars().collect()
}

fn strings(rows: Vec<Vec<char>>) -> Vec<String> {
    rows.iter().map(|r| r.iter().collect()).collect()
}

fn build_config() -> BuildConfig {
    BuildConfig {
        compiler: "clang++".to_string(),
        packages: vec!["x/y z".to_string()],
        pre_build: Some("pre".to_string()),
        post_build: None,
    }
}

fn target(name: &str, typ: &str) -> TargetConfig {
    TargetConfig {
        name: name.to_string(),
        src: "./src/".to_string(),
        include_dir: "./src/include".to_string(),
        typ: typ.to_string(),
        cflags: "-O2".to_string(),
        libs: "".to_string(),
        deps: vec!["libdep".to_string()],
    }
}

fn package(name: &str, branch: &str, targets: Vec<TargetConfig>) -> Package {
    Package::new(name.to_string(), format!("o/{}", name), branch.to_string(), build_config(), targets)
}

#[test]
fn text_goes_to_characters_and_back() {
    assert_eq!(to_chars("héllo"), chars("héllo"));
    assert_eq!(from_chars(&chars("héllo")), "héllo");
    assert_eq!(to_chars(""), Vec::<char>::new());
    assert_eq!(copy_range(&chars("abcdef"), 2, 4), chars("cd"));
    assert_eq!(find_char(&chars("a/b/c"), 0, '/'), 1);
    assert_eq!(find_char(&chars("a/b/c"), 2, '/'), 3);
    assert_eq!(find_char(&chars("a/b/c"), 4, '/'), 5);
}

#[test]
fn prefixes_and_suffixes() {
    assert!(starts_with(&chars("libfoo"), &chars("lib")));
    assert!(!starts_with(&chars("li"), &chars("lib")));
    assert!(starts_with(&chars("x"), &chars("")));
    assert!(ends_with(&chars("main.cpp"), &chars(".cpp")));
    assert!(!ends_with(&chars("main.cpp"), &chars(".c")));
    assert!(!ends_with(&chars("c"), &chars(".c")));
}

#[test]
fn text_is_cut_at_separators() {
    assert_eq!(strings(split_chars(&chars("a/b//c"), '/')), vec!["a", "b", "", "c"]);
    assert_eq!(strings(split_chars(&chars(""), '/')), vec![""]);
    assert_eq!(strings(split_chars(&chars("/"), '/')), vec!["", ""]);
}

#[test]
fn text_is_cut_into_lines() {
    assert_eq!(strings(split_lines(&chars("a\nb\r\n\nc"))), vec!["a", "b", "", "c"]);
    assert_eq!(strings(split_lines(&chars("a\n"))), vec!["a"]);
    assert_eq!(strings(split_lines(&chars(""))), Vec::<String>::new());
    assert_eq!(strings(split_lines(&chars("a\r"))), vec!["a\r"]);
    assert_eq!(strings(split_lines(&chars("\n"))), vec![""]);
    let text = "one\r\ntwo\n\rthree\r\r\nfour";
    let expected: Vec<String> = text.lines().map(|l| l.to_string()).collect();
    assert_eq!(strings(split_lines(&chars(text))), expected);
}

#[test]
fn text_is_cut_into_words() {
    assert_eq!(strings(split_words(&chars("  a\tbc \n d  "))), vec!["a", "bc", "d"]);
    assert_eq!(strings(split_words(&chars("   "))), Vec::<String>::new());
    assert_eq!(strings(split_words(&chars("one"))), vec!["one"]);
    let text = " x\u{a0}y\u{2003}z w";
    let expected: Vec<String> = text.split_whitespace().map(|w| w.to_string()).collect();
    assert_eq!(strings(split_words(&chars(text))), expected);
}

#[test]
fn patterns_are_replaced_from_the_left() {
    assert_eq!(replace_chars(&chars("a//b///c"), &chars("//"), &chars("/")), chars("a/b//c"));
    assert_eq!(replace_chars(&chars("aaa"), &chars("aa"), &chars("b")), chars("ba"));
    assert_eq!(replace_chars(&chars("abc"), &chars(""), &chars("x")), chars("abc"));
    assert_eq!(replace_chars(&chars("a,b,"), &chars(","), &chars("")), chars("ab"));
    assert_eq!(replace_text("a/./b/./c", "/./", "/"), "a/b/c".to_string());
    assert_eq!(replace_text("x", "xyz", "q"), "x");
}

#[test]
fn repeated_texts_are_found() {
    let list = vec!["a".to_string(), "b".to_string(), "c".to_string(), "b".to_string()];
    assert_eq!(find_text(&list, "b"), 1);
    assert_eq!(find_text(&list, "z"), 4);
    assert_eq!(find_repeated(&list), 1);
    assert_eq!(find_repeated(&vec!["a".to_string(), "b".to_string()]), 2);
    assert_eq!(find_repeated(&vec![]), 0);
}

#[test]
fn paths_are_normalized() {
    assert_eq!(normalize("a\\b\\.\\c//d"), "a/b/c/d");
    assert_eq!(normalize("./.bld_cpp/sources/x//./src/"), "./.bld_cpp/sources/x/src/");
    assert_eq!(normalize("a///b"), "a//b");
}

#[test]
fn package_entries_are_read() {
    let source = parse_entry("Dr-42/Nomu_Engine, master").ok().unwrap();
    assert_eq!(source.repo, "Dr-42/Nomu_Engine");
    assert_eq!(source.branch, "master");
    assert_eq!(source.name, "Nomu_Engine");
    let deep = parse_entry(" a/b/c   dev ").ok().unwrap();
    assert_eq!(deep.repo, "a/b/c");
    assert_eq!(deep.name, "b");
    assert_eq!(deep.branch, "dev");
}

#[test]
fn odd_package_entries_are_refused() {
    match parse_entry("only-one") {
        Err(PackageError::BadEntry { entry }) => assert_eq!(entry, "only-one"),
        _ => panic!("an entry of one word has to be refused"),
    }
    assert!(matches!(parse_entry("a/b c d"), Err(PackageError::BadEntry { .. })));
    assert!(matches!(parse_entry(""), Err(PackageError::BadEntry { .. })));
    match parse_entry("norepo, master") {
        Err(PackageError::BadRepo { repo }) => assert_eq!(repo, "norepo"),
        _ => panic!("a repository without a slash has to be refused"),
    }
}

#[test]
fn package_paths() {
    assert_eq!(source_dir("Nomu"), "./.bld_cpp/sources/Nomu/");
    assert_eq!(include_dir("Nomu"), "./.bld_cpp/includes/Nomu");
    assert_eq!(manifest_path(Platform::Linux, "Nomu"), "./.bld_cpp/sources/Nomu/config_linux.toml");
    assert_eq!(manifest_path(Platform::Android, "Nomu"), "./.bld_cpp/sources/Nomu/config_linux.toml");
    assert_eq!(manifest_path(Platform::Windows, "Nomu"), "./.bld_cpp/sources/Nomu/config_win32.toml");
    assert_eq!(
        copy_command("Nomu", "./Engine/include"),
        "cp -r ./.bld_cpp/sources/Nomu/Engine/include/* ./.bld_cpp/includes/Nomu/ "
    );
    assert_eq!(Package::obj_dir(Platform::Linux), "./.bld_cpp/obj_linux");
    assert_eq!(Package::obj_dir(Platform::Android), "./.bld_cpp/obj_android");
    assert_eq!(Package::obj_dir(Platform::Windows), "./.bld_cpp/obj_win32");
}

#[test]
fn library_targets_of_a_package_are_adopted() {
    let targets = vec![target("demo", "exe"), target("libengine", "dll")];
    let adopted = adopt_targets("Nomu", &targets);
    assert_eq!(adopted.len(), 1);
    assert_eq!(adopted[0].name, "libengine");
    assert_eq!(adopted[0].src, "./.bld_cpp/sources/Nomu/src/");
    assert_eq!(adopted[0].include_dir, "./.bld_cpp/includes/Nomu");
    assert_eq!(adopted[0].typ, "dll");
    assert_eq!(adopted[0].cflags, "-O2");
    assert_eq!(adopted[0].deps, vec!["libdep".to_string()]);
    let source = parse_entry("o/Nomu main").ok().unwrap();
    let made = Package::adopt(source, "g++", &build_config(), &targets);
    assert_eq!(made.name, "Nomu");
    assert_eq!(made.repo, "o/Nomu");
    assert_eq!(made.branch, "main");
    assert_eq!(made.build_config.compiler, "g++");
    assert_eq!(made.build_config.packages, vec!["x/y z".to_string()]);
    assert_eq!(made.build_config.pre_build, Some("pre".to_string()));
    assert_eq!(made.target_configs.len(), 1);
}

#[test]
fn packages_of_one_name_are_kept_once() {
    let list = vec![
        package("a", "1", vec![]),
        package("b", "2", vec![]),
        package("a", "3", vec![]),
        package("c", "4", vec![]),
        package("b", "5", vec![]),
    ];
    let kept = dedup_packages(list);
    let seen: Vec<(String, String)> = kept.iter().map(|p| (p.name.clone(), p.branch.clone())).collect();
    assert_eq!(
        seen,
        vec![
            ("a".to_string(), "1".to_string()),
            ("b".to_string(), "2".to_string()),
            ("c".to_string(), "4".to_string())
        ]
    );
    assert_eq!(dedup_packages(vec![]).len(), 0);
}

#[test]
fn packages_are_put_in_the_order_of_their_names() {
    let list = vec![
        package("zeta", "1", vec![]),
        package("Alpha", "2", vec![]),
        package("beta", "3", vec![]),
        package("zeta", "4", vec![]),
        package("be", "5", vec![]),
        package("\u{e9}t\u{e9}", "6", vec![]),
    ];
    let kept = dedup_packages(list);
    let seen: Vec<(String, String)> = kept.iter().map(|p| (p.name.clone(), p.branch.clone())).collect();
    let mut names: Vec<String> = seen.iter().map(|(n, _)| n.clone()).collect();
    assert_eq!(names, vec!["Alpha", "be", "beta", "zeta", "\u{e9}t\u{e9}"]);
    assert_eq!(seen[3], ("zeta".to_string(), "1".to_string()));
    let sorted = names.clone();
    names.sort();
    assert_eq!(names, sorted);
}

#[test]
fn texts_are_ordered_like_strings() {
    let pairs = [("a", "b"), ("b", "a"), ("", "a"), ("a", ""), ("ab", "abc"), ("abc", "ab"), ("x", "x"), ("Z", "a"), ("\u{e9}", "z"), ("z", "\u{10000}")];
    for (a, b) in pairs {
        assert_eq!(text_less(&chars(a), &chars(b)), a < b);
    }
}

#[test]
fn package_commands() {
    let list = vec![package("Nomu", "master", vec![target("libengine", "dll"), target("libx", "dll")]), package("b", "dev", vec![])];
    assert_eq!(list[0].update(), "cd ./.bld_cpp/sources/Nomu && git pull origin master");
    assert_eq!(list[0].restore(), "cd ./.bld_cpp/sources/Nomu && git reset --hard master");
    assert_eq!(
        update_packages(&list),
        vec!["cd ./.bld_cpp/sources/Nomu && git pull origin master", "cd ./.bld_cpp/sources/b && git pull origin dev"]
    );
    assert_eq!(
        restore_packages(&list),
        vec!["cd ./.bld_cpp/sources/Nomu && git reset --hard master", "cd ./.bld_cpp/sources/b && git reset --hard dev"]
    );
    assert_eq!(
        clean_packages(&list, Platform::Linux),
        vec![".bld_cpp/bin/libengine.so", ".bld_cpp/bin/libx.so"]
    );
    assert_eq!(
        clean_packages_wrapper(&list, Platform::Windows),
        vec![".bld_cpp/bin/libengine.dll", ".bld_cpp/bin/libx.dll"]
    );
}

#[test]
fn cleaning_lists_hash_files_and_binaries() {
    let files = clean(&vec![target("main", "exe"), target("libx", "dll")], Platform::Linux);
    assert_eq!(files.len(), 2);
    assert_eq!(files[0].hash_path, ".bld_cpp/main.linux.hash");
    assert_eq!(files[0].bin_path, ".bld_cpp/bin/main");
    assert_eq!(files[1].hash_path, ".bld_cpp/libx.linux.hash");
    assert_eq!(files[1].bin_path, ".bld_cpp/bin/libx.so");
}

#[test]
fn log_levels_by_name() {
    assert_eq!(LogLevel::from_name("Debug"), LogLevel::Debug);
    assert_eq!(LogLevel::from_name("Info"), LogLevel::Info);
    assert_eq!(LogLevel::from_name("Log"), LogLevel::Log);
    assert_eq!(LogLevel::from_name("Warn"), LogLevel::Warn);
    assert_eq!(LogLevel::from_name("Error"), LogLevel::Error);
    assert_eq!(LogLevel::from_name("debug"), LogLevel::Log);
    assert_eq!(LogLevel::from_name(""), LogLevel::Log);
    assert_eq!(LogLevel::Warn.rank(), 3);
    assert_eq!(LogLevel::Error.prefix(), "[ERROR]");
}

#[test]
fn log_shows_what_is_important_enough() {
    assert!(should_log(LogLevel::Log, LogLevel::Log));
    assert!(should_log(LogLevel::Error, LogLevel::Log));
    assert!(!should_log(LogLevel::Info, LogLevel::Log));
    assert!(!should_log(LogLevel::Debug, LogLevel::Info));
    assert!(should_log(LogLevel::Info, LogLevel::Info));
    assert!(should_log(LogLevel::Debug, LogLevel::Debug));
    assert!(!should_log(LogLevel::Info, LogLevel::Debug));
    assert!(!should_log(LogLevel::Log, LogLevel::Debug));
    assert!(should_log(LogLevel::Warn, LogLevel::Debug));
    assert!(should_log(LogLevel::Error, LogLevel::Error));
    assert!(!should_log(LogLevel::Warn, LogLevel::Error));
    assert_eq!(log(LogLevel::Warn, "careful", LogLevel::Log), Some("[WARN] careful".to_string()));
    assert_eq!(log(LogLevel::Info, "detail", LogLevel::Log), None);
}

#[test]
fn settings_are_read_and_set() {
    let mut config = GlobalConfig::new("gcc".to_string(), "cpp".to_string(), "NONE".to_string());
    assert_eq!(config.get_default_compiler(), "gcc");
    assert_eq!(config.get_default_language(), "cpp");
    assert_eq!(config.get_license(), "NONE");
    assert_eq!(config.set_defaults("default_compiler", "clang"), Ok(()));
    assert_eq!(config.get_default_compiler(), "clang");
    assert_eq!(config.set_defaults("default_compiler", "msvc"), Err(SettingError::InvalidCompiler));
    assert_eq!(config.get_default_compiler(), "clang");
    assert_eq!(config.set_defaults("default_language", "c"), Ok(()));
    assert_eq!(config.get_default_language(), "c");
    assert_eq!(config.set_defaults("default_language", "rust"), Err(SettingError::InvalidLanguage));
    assert_eq!(config.set_defaults("license", "MIT License"), Ok(()));
    assert_eq!(config.get_license(), "MIT License");
    assert_eq!(config.set_defaults("colour", "blue"), Err(SettingError::InvalidParameter));
}
