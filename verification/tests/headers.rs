use builder_cpp::builder::headers::{get_include_substrings, HeaderTable};

fn scan_all(table: &mut HeaderTable, files: &[(&str, &str)]) {
    while let Some(u) = table.next_unscanned() {
        let path = table.header_file(u);
        let text = files.iter().find(|(p, _)| *p == path).map(|(_, t)| *t).unwrap_or("");
        table.scan(u, text);
    }
}

#[test]
fn quoted_includes_are_found() {
    let text = "#include <stdio.h>\n#include \"a.h\"\nint x;\n#include \"dir/b.hpp\" // note\n";
    assert_eq!(get_include_substrings(text), vec!["a.h".to_string(), "dir/b.hpp".to_string()]);
}

#[test]
fn include_has_to_start_the_line() {
    let text = "  #include \"a.h\"\n//#include \"b.h\"\n#include\"c.h\"\n#include  \"d.h\"\n";
    assert_eq!(get_include_substrings(text), Vec::<String>::new());
}

#[test]
fn include_without_closing_quote_runs_to_the_end_of_the_line() {
    assert_eq!(get_include_substrings("#include \"a.h\r\n#include \"b.h"), vec!["a.h", "b.h"]);
    assert_eq!(get_include_substrings("#include \"\"\n"), vec![""]);
}

#[test]
fn file_without_includes_names_nothing() {
    assert_eq!(get_include_substrings(""), Vec::<String>::new());
    assert_eq!(get_include_substrings("int main() { return 0; }\n"), Vec::<String>::new());
}

#[test]
fn headers_of_headers_are_listed() {
    let files = [("inc/h.h", "#include \"h2.h\"\n"), ("inc/h2.h", "int x;\n")];
    let mut table = HeaderTable::new("inc");
    let direct = table.add_file("src/main.c", "#include \"h.h\"\nint main() {}\n");
    assert_eq!(direct, vec![0]);
    scan_all(&mut table, &files);
    assert_eq!(table.len(), 2);
    assert_eq!(table.dependant_includes(&direct), vec!["inc/h2.h", "inc/h.h"]);
}

#[test]
fn header_is_listed_once() {
    let files = [
        ("inc/a.h", "#include \"common.h\"\n"),
        ("inc/b.h", "#include \"common.h\"\n"),
        ("inc/common.h", ""),
    ];
    let mut table = HeaderTable::new("inc");
    let direct = table.add_file("src/main.c", "#include \"a.h\"\n#include \"b.h\"\n#include \"a.h\"\n");
    assert_eq!(direct, vec![0, 1, 0]);
    scan_all(&mut table, &files);
    assert_eq!(table.dependant_includes(&direct), vec!["inc/common.h", "inc/a.h", "inc/b.h"]);
}

#[test]
fn headers_that_name_each_other_end_the_walk() {
    let files = [("inc/a.h", "#include \"b.h\"\n"), ("inc/b.h", "#include \"a.h\"\n")];
    let mut table = HeaderTable::new("inc");
    let direct = table.add_file("src/main.c", "#include \"a.h\"\n");
    scan_all(&mut table, &files);
    assert_eq!(table.dependant_includes(&direct), vec!["inc/b.h", "inc/a.h"]);
    let other = table.add_file("src/main.c", "#include \"b.h\"\n");
    assert_eq!(table.dependant_includes(&other), vec!["inc/a.h", "inc/b.h"]);
}

#[test]
fn each_file_gets_its_own_headers() {
    let files = [("inc/a.h", ""), ("inc/b.h", "#include \"a.h\"\n"), ("inc/c.h", "")];
    let mut table = HeaderTable::new("inc");
    let first = table.add_file("src/main.c", "#include \"b.h\"\n");
    let second = table.add_file("src/main.c", "#include \"c.h\"\n#include \"a.h\"\n");
    scan_all(&mut table, &files);
    assert_eq!(table.next_unscanned(), None);
    assert_eq!(table.dependant_includes(&first), vec!["inc/a.h", "inc/b.h"]);
    assert_eq!(table.dependant_includes(&second), vec!["inc/c.h", "inc/a.h"]);
    assert_eq!(table.dependant_includes(&vec![]), Vec::<String>::new());
}

#[test]
fn table_remembers_who_named_a_header_first() {
    let mut table = HeaderTable::new("inc");
    table.add_file("src/a.c", "#include \"x.h\"\n");
    table.add_file("src/b.c", "#include \"x.h\"\n#include \"y.h\"\n");
    table.scan(0, "#include \"z.h\"\n");
    assert_eq!(table.first_user(0), "src/a.c");
    assert_eq!(table.first_user(1), "src/b.c");
    assert_eq!(table.first_user(2), "inc/x.h");
}

#[test]
fn headers_are_asked_for_in_the_order_they_were_named() {
    let mut table = HeaderTable::new("./src");
    table.add_file("src/main.c", "#include \"x.h\"\n#include \"sub/y.h\"\n");
    assert_eq!(table.next_unscanned(), Some(0));
    assert_eq!(table.header_file(0), "./src/x.h");
    assert_eq!(table.header_file(1), "./src/sub/y.h");
    table.scan(0, "#include \"z.h\"\n");
    assert_eq!(table.next_unscanned(), Some(1));
    table.scan(1, "");
    assert_eq!(table.next_unscanned(), Some(2));
    assert_eq!(table.header_file(2), "./src/z.h");
    table.scan(2, "");
    assert_eq!(table.next_unscanned(), None);
}
