//! Reading the manifest of a project: a TOML document with a table `build`
//! and a list `targets`.
//!
//! The document is parsed by the `toml` crate and taken into values of this
//! library; the functions that take a configuration out of a document work on
//! those, and say what they return for each document.

use crate::text::{str_eq, texts};
use crate::graph::has_cycle;
use crate::utils::configs::{
    build_order, check_source_paths, check_targets, dep_graph, first_invalid, names_cycle_edge,
    names_of, picked, sources_ok, specs, tells_sources, valid_type, BuildConfig, BuildSpec,
    ConfigError, TargetConfig, TargetSpec,
};
use vstd::prelude::*;

verus! {

/// A value of a TOML document, as the `toml` crate holds it.
#[verifier::external_type_specification]
#[verifier::external_body]
pub struct ExTomlValue(toml::Value);

/// Why the `toml` crate refuses a text.
#[verifier::external_type_specification]
#[verifier::external_body]
pub struct ExTomlError(toml::de::Error);

/// A value of a document, as far as a manifest is made of it: a string, a
/// list of values, a table of values under their keys, or a value of another
/// kind, which a manifest has no use for.
pub enum Node {
    Text(String),
    List(Vec<Node>),
    Table(Vec<(String, Node)>),
    Other,
}

/// The document that the `toml` crate reads from `text`: a table, or nothing
/// where the text is no TOML document.
pub uninterp spec fn document_of(text: Seq<char>) -> Option<toml::Value>;

/// What a value of the `toml` crate holds: a string as its text, an array as
/// the list of what its items hold, a table as what its values hold, each
/// with its key and in the order in which the table gives them, and any
/// other value as a value of another kind.
pub uninterp spec fn node_of(value: toml::Value) -> Node;

/// Parses a TOML document.
///
/// Wraps `str::parse::<toml::Table>` of the `toml` crate, and wraps the
/// table in a value. The contract names the value that the crate reads from
/// the text, and says that there is none where the crate reports an error.
#[verifier::external_body]
fn parse_document(text: &str) -> (parsed: Result<toml::Value, toml::de::Error>)
    ensures
        parsed matches Ok(value) ==> document_of(text@) == Some(value),
        parsed is Err ==> document_of(text@) is None,
{
    text.parse::<toml::Table>().map(toml::Value::Table)
}

/// What the `toml` crate says about a text that it refuses.
///
/// Wraps `to_string` on `toml::de::Error`. Nothing is claimed of the text.
#[verifier::external_body]
fn syntax_message(error: &toml::de::Error) -> (message: String) {
    error.to_string()
}

/// Takes what a value of the `toml` crate holds into a value of this library.
///
/// Tells the variants of `toml::Value` apart: a string gives its text, an
/// array its items, a table its keys with their values as the table's
/// iterator gives them, and each other variant a value of another kind. The
/// contract names the result.
#[verifier::external_body]
fn node_from(value: &toml::Value) -> (node: Node)
    ensures
        node == node_of(*value),
{
    match value {
        toml::Value::String(s) => Node::Text(s.clone()),
        toml::Value::Array(list) => Node::List(list.iter().map(node_from).collect()),
        toml::Value::Table(table) => {
            Node::Table(table.iter().map(|(k, v)| (k.clone(), node_from(v))).collect())
        },
        _ => Node::Other,
    }
}

/// The text of a value that is a string.
pub open spec fn text_in(value: Node) -> Option<Seq<char>> {
    match value {
        Node::Text(s) => Some(s@),
        _ => None,
    }
}

/// The items of a value that is a list, in order.
pub open spec fn items_in(value: Node) -> Option<Seq<Node>> {
    match value {
        Node::List(list) => Some(list@),
        _ => None,
    }
}

/// Whether a value is a table.
pub open spec fn table_in(value: Node) -> bool {
    value is Table
}

/// The place of the first entry under `key`, or the number of entries.
pub open spec fn place_in(entries: Seq<(String, Node)>, key: Seq<char>) -> int
    decreases entries.len(),
{
    if entries.len() == 0 || entries[0].0@ == key {
        0
    } else {
        1 + place_in(entries.drop_first(), key)
    }
}

/// The value that a table holds under `key`: that of its first entry under
/// the key. A value that is no table holds nothing under any key.
pub open spec fn entry_in(value: Node, key: Seq<char>) -> Option<Node> {
    match value {
        Node::Table(entries) => if 0 <= place_in(entries@, key) < entries@.len() {
            Some(entries@[place_in(entries@, key)].1)
        } else {
            None
        },
        _ => None,
    }
}

/// The value that a table holds under `key`.
pub fn entry<'a>(value: &'a Node, key: &str) -> (found: Option<&'a Node>)
    ensures
        found matches Some(inner) ==> entry_in(*value, key@) == Some(*inner),
        found is None ==> entry_in(*value, key@) is None,
{
    match value {
        Node::Table(entries) => {
            let mut i: usize = 0;
            assert(entries@.skip(0) =~= entries@);
            while i < entries.len()
                invariant
                    i <= entries.len(),
                    *value == Node::Table(*entries),
                    place_in(entries@, key@) == i + place_in(entries@.skip(i as int), key@),
                decreases entries.len() - i,
            {
                proof {
                    assert(entries@.skip(i as int)[0] == entries@[i as int]);
                    assert(entries@.skip(i as int).drop_first() =~= entries@.skip(i + 1));
                }
                if str_eq(entries[i].0.as_str(), key) {
                    return Some(&entries[i].1);
                }
                i += 1;
            }
            None
        },
        _ => None,
    }
}

/// The text of a value that is a string.
pub fn text<'a>(value: &'a Node) -> (found: Option<&'a str>)
    ensures
        found matches Some(inner) ==> text_in(*value) == Some(inner@),
        found is None ==> text_in(*value) is None,
{
    match value {
        Node::Text(s) => Some(s.as_str()),
        _ => None,
    }
}

/// The items of a value that is a list.
pub fn items<'a>(value: &'a Node) -> (found: Option<&'a Vec<Node>>)
    ensures
        found matches Some(inner) ==> items_in(*value) == Some(inner@),
        found is None ==> items_in(*value) is None,
{
    match value {
        Node::List(list) => Some(list),
        _ => None,
    }
}

/// Tells whether a value is a table.
pub fn is_table(value: &Node) -> (yes: bool)
    ensures
        yes == table_in(*value),
{
    match value {
        Node::Table(_) => true,
        _ => false,
    }
}

/// A part of a manifest.
#[derive(Clone, Copy, Debug, PartialEq, Eq, Structural)]
pub enum Field {
    Build,
    Compiler,
    Packages,
    PreBuild,
    PostBuild,
    Targets,
    Name,
    Src,
    IncludeDir,
    Type,
    Cflags,
    Libs,
    Deps,
}

/// What is wrong with a part of a manifest.
#[derive(Clone, Copy, Debug, PartialEq, Eq, Structural)]
pub enum ManifestFault {
    /// The part is not there.
    Missing(Field),
    /// The part is no table.
    NotTable(Field),
    /// The part is no list.
    NotList(Field),
    /// The part, or an item of it, is no string.
    NotText(Field),
}

/// The key under which a part stands.
pub open spec fn key_of(field: Field) -> Seq<char> {
    match field {
        Field::Build => "build"@,
        Field::Compiler => "compiler"@,
        Field::Packages => "packages"@,
        Field::PreBuild => "pre_build"@,
        Field::PostBuild => "post_build"@,
        Field::Targets => "targets"@,
        Field::Name => "name"@,
        Field::Src => "src"@,
        Field::IncludeDir => "include_dir"@,
        Field::Type => "type"@,
        Field::Cflags => "cflags"@,
        Field::Libs => "libs"@,
        Field::Deps => "deps"@,
    }
}

/// The string that has to stand under the key of `field`.
pub open spec fn required_text(value: Node, field: Field) -> Result<Seq<char>, ManifestFault> {
    match entry_in(value, key_of(field)) {
        None => Err(ManifestFault::Missing(field)),
        Some(inner) => match text_in(inner) {
            None => Err(ManifestFault::NotText(field)),
            Some(s) => Ok(s),
        },
    }
}

/// The string that may stand under the key of `field`.
pub open spec fn optional_text(value: Node, field: Field) -> Result<
    Option<Seq<char>>,
    ManifestFault,
> {
    match entry_in(value, key_of(field)) {
        None => Ok(None),
        Some(inner) => match text_in(inner) {
            None => Err(ManifestFault::NotText(field)),
            Some(s) => Ok(Some(s)),
        },
    }
}

/// The strings that the items are; the first item that is no string is at
/// fault.
pub open spec fn texts_in(list: Seq<Node>, field: Field) -> Result<
    Seq<Seq<char>>,
    ManifestFault,
>
    decreases list.len(),
{
    if list.len() == 0 {
        Ok(Seq::empty())
    } else {
        match text_in(list[0]) {
            None => Err(ManifestFault::NotText(field)),
            Some(s) => match texts_in(list.drop_first(), field) {
                Err(fault) => Err(fault),
                Ok(rest) => Ok(seq![s] + rest),
            },
        }
    }
}

/// The list of strings that may stand under the key of `field`; a list that
/// is not there is empty.
pub open spec fn optional_list(value: Node, field: Field) -> Result<
    Seq<Seq<char>>,
    ManifestFault,
> {
    match entry_in(value, key_of(field)) {
        None => Ok(Seq::empty()),
        Some(inner) => match items_in(inner) {
            None => Err(ManifestFault::NotList(field)),
            Some(list) => texts_in(list, field),
        },
    }
}

/// The build configuration that the table `build` holds. The parts are read
/// in the order packages, commands before and after the build, compiler, and
/// the first that is at fault is reported.
pub open spec fn build_in(table: Node) -> Result<BuildSpec, ManifestFault> {
    match optional_list(table, Field::Packages) {
        Err(fault) => Err(fault),
        Ok(packages) => match optional_text(table, Field::PreBuild) {
            Err(fault) => Err(fault),
            Ok(pre_build) => match optional_text(table, Field::PostBuild) {
                Err(fault) => Err(fault),
                Ok(post_build) => match required_text(table, Field::Compiler) {
                    Err(fault) => Err(fault),
                    Ok(compiler) => Ok(BuildSpec { compiler, packages, pre_build, post_build }),
                },
            },
        },
    }
}

/// The target that an item of the list `targets` holds. The parts are read
/// in the order dependencies, name, sources, headers, type, flags, libraries.
pub open spec fn target_in(item: Node) -> Result<TargetSpec, ManifestFault> {
    match optional_list(item, Field::Deps) {
        Err(fault) => Err(fault),
        Ok(deps) => match required_text(item, Field::Name) {
            Err(fault) => Err(fault),
            Ok(name) => match required_text(item, Field::Src) {
                Err(fault) => Err(fault),
                Ok(src) => match required_text(item, Field::IncludeDir) {
                    Err(fault) => Err(fault),
                    Ok(include_dir) => match required_text(item, Field::Type) {
                        Err(fault) => Err(fault),
                        Ok(typ) => match required_text(item, Field::Cflags) {
                            Err(fault) => Err(fault),
                            Ok(cflags) => match required_text(item, Field::Libs) {
                                Err(fault) => Err(fault),
                                Ok(libs) => Ok(
                                    TargetSpec { name, src, include_dir, typ, cflags, libs, deps },
                                ),
                            },
                        },
                    },
                },
            },
        },
    }
}

/// What keeps a manifest from giving a configuration.
pub enum Problem {
    /// A part of the manifest is at fault.
    Fault(ManifestFault),
    /// The target with this name has this type, which is none.
    BadType(Seq<char>, Seq<char>),
}

/// The targets that the items hold. The first item that is at fault, or
/// whose type is neither `exe` nor `dll`, is reported.
pub open spec fn targets_in(list: Seq<Node>) -> Result<Seq<TargetSpec>, Problem>
    decreases list.len(),
{
    if list.len() == 0 {
        Ok(Seq::empty())
    } else {
        match target_in(list[0]) {
            Err(fault) => Err(Problem::Fault(fault)),
            Ok(target) => if !valid_type(target.typ) {
                Err(Problem::BadType(target.name, target.typ))
            } else {
                match targets_in(list.drop_first()) {
                    Err(problem) => Err(problem),
                    Ok(rest) => Ok(seq![target] + rest),
                }
            },
        }
    }
}

/// The configuration that a document holds, before the targets are looked
/// at as a whole: the table `build`, then the list `targets`.
pub open spec fn config_in(document: Node) -> Result<(BuildSpec, Seq<TargetSpec>), Problem> {
    match entry_in(document, key_of(Field::Build)) {
        None => Err(Problem::Fault(ManifestFault::Missing(Field::Build))),
        Some(table) => if !table_in(table) {
            Err(Problem::Fault(ManifestFault::NotTable(Field::Build)))
        } else {
            match build_in(table) {
                Err(fault) => Err(Problem::Fault(fault)),
                Ok(build) => match entry_in(document, key_of(Field::Targets)) {
                    None => Err(Problem::Fault(ManifestFault::Missing(Field::Targets))),
                    Some(inner) => match items_in(inner) {
                        None => Err(Problem::Fault(ManifestFault::NotList(Field::Targets))),
                        Some(list) => match targets_in(list) {
                            Err(problem) => Err(problem),
                            Ok(targets) => Ok((build, targets)),
                        },
                    },
                },
            }
        },
    }
}

/// The error `e` tells of the problem `problem`.
pub open spec fn tells(e: ConfigError, problem: Problem) -> bool {
    match problem {
        Problem::Fault(fault) => e matches ConfigError::Manifest { fault: said } && said == fault,
        Problem::BadType(name, typ) => e matches ConfigError::InvalidType { target, typ: said }
            && target@ == name && said@ == typ,
    }
}

/// The key under which a part stands.
pub fn key(field: Field) -> (name: &'static str)
    ensures
        name@ == key_of(field),
{
    match field {
        Field::Build => "build",
        Field::Compiler => "compiler",
        Field::Packages => "packages",
        Field::PreBuild => "pre_build",
        Field::PostBuild => "post_build",
        Field::Targets => "targets",
        Field::Name => "name",
        Field::Src => "src",
        Field::IncludeDir => "include_dir",
        Field::Type => "type",
        Field::Cflags => "cflags",
        Field::Libs => "libs",
        Field::Deps => "deps",
    }
}

/// The string that has to stand under the key of `field`.
pub fn get_text(value: &Node, field: Field) -> (got: Result<String, ManifestFault>)
    ensures
        got matches Ok(s) ==> required_text(*value, field) == Ok::<Seq<char>, ManifestFault>(s@),
        got matches Err(fault) ==> required_text(*value, field) == Err::<
            Seq<char>,
            ManifestFault,
        >(fault),
{
    match entry(value, key(field)) {
        None => Err(ManifestFault::Missing(field)),
        Some(inner) => match text(inner) {
            None => Err(ManifestFault::NotText(field)),
            Some(s) => Ok(s.to_owned()),
        },
    }
}

/// The string that may stand under the key of `field`.
pub fn get_optional_text(value: &Node, field: Field) -> (got: Result<
    Option<String>,
    ManifestFault,
>)
    ensures
        got matches Ok(s) ==> optional_text(*value, field) == Ok::<
            Option<Seq<char>>,
            ManifestFault,
        >(crate::utils::configs::text_of(s)),
        got matches Err(fault) ==> optional_text(*value, field) == Err::<
            Option<Seq<char>>,
            ManifestFault,
        >(fault),
{
    match entry(value, key(field)) {
        None => Ok(None),
        Some(inner) => match text(inner) {
            None => Err(ManifestFault::NotText(field)),
            Some(s) => Ok(Some(s.to_owned())),
        },
    }
}

/// The list of strings that may stand under the key of `field`.
pub fn get_list(value: &Node, field: Field) -> (got: Result<Vec<String>, ManifestFault>)
    ensures
        got matches Ok(list) ==> optional_list(*value, field) == Ok::<
            Seq<Seq<char>>,
            ManifestFault,
        >(texts(list@)),
        got matches Err(fault) ==> optional_list(*value, field) == Err::<
            Seq<Seq<char>>,
            ManifestFault,
        >(fault),
{
    match entry(value, key(field)) {
        None => {
            let list: Vec<String> = Vec::new();
            assert(texts(list@) =~= Seq::<Seq<char>>::empty());
            Ok(list)
        },
        Some(inner) => match items(inner) {
            None => Err(ManifestFault::NotList(field)),
            Some(found) => {
                let mut list: Vec<String> = Vec::new();
                let mut i: usize = 0;
                assert(found@.skip(0) =~= found@);
                while i < found.len()
                    invariant
                        i <= found.len(),
                        optional_list(*value, field) == texts_in(found@, field),
                        match texts_in(found@.skip(i as int), field) {
                            Ok(rest) => texts_in(found@, field) == Ok::<
                                Seq<Seq<char>>,
                                ManifestFault,
                            >(texts(list@) + rest),
                            Err(fault) => texts_in(found@, field) == Err::<
                                Seq<Seq<char>>,
                                ManifestFault,
                            >(fault),
                        },
                    decreases found.len() - i,
                {
                    let ghost before = texts(list@);
                    proof {
                        let tail = found@.skip(i as int);
                        assert(tail[0] == found@[i as int]);
                        assert(tail.drop_first() =~= found@.skip(i + 1));
                    }
                    match text(&found[i]) {
                        None => {
                            return Err(ManifestFault::NotText(field));
                        },
                        Some(s) => {
                            list.push(s.to_owned());
                            proof {
                                assert(texts(list@) =~= before + seq![s@]);
                                match texts_in(found@.skip(i + 1), field) {
                                    Ok(rest) => {
                                        assert(texts(list@) + rest =~= before + (seq![s@] + rest));
                                    },
                                    Err(_) => {},
                                }
                            }
                        },
                    }
                    i += 1;
                }
                assert(found@.skip(i as int) =~= Seq::<Node>::empty());
                assert(texts(list@) + Seq::<Seq<char>>::empty() =~= texts(list@));
                Ok(list)
            },
        },
    }
}

/// The build configuration that the table `build` holds.
pub fn get_build(table: &Node) -> (got: Result<BuildConfig, ManifestFault>)
    ensures
        got matches Ok(build) ==> build_in(*table) == Ok::<BuildSpec, ManifestFault>(build@),
        got matches Err(fault) ==> build_in(*table) == Err::<BuildSpec, ManifestFault>(fault),
{
    let packages = match get_list(table, Field::Packages) {
        Err(fault) => {
            return Err(fault);
        },
        Ok(list) => list,
    };
    let pre_build = match get_optional_text(table, Field::PreBuild) {
        Err(fault) => {
            return Err(fault);
        },
        Ok(s) => s,
    };
    let post_build = match get_optional_text(table, Field::PostBuild) {
        Err(fault) => {
            return Err(fault);
        },
        Ok(s) => s,
    };
    let compiler = match get_text(table, Field::Compiler) {
        Err(fault) => {
            return Err(fault);
        },
        Ok(s) => s,
    };
    Ok(BuildConfig { compiler, packages, pre_build, post_build })
}

/// The target that an item of the list `targets` holds.
pub fn get_target(item: &Node) -> (got: Result<TargetConfig, ManifestFault>)
    ensures
        got matches Ok(target) ==> target_in(*item) == Ok::<TargetSpec, ManifestFault>(target@),
        got matches Err(fault) ==> target_in(*item) == Err::<TargetSpec, ManifestFault>(fault),
{
    let deps = match get_list(item, Field::Deps) {
        Err(fault) => {
            return Err(fault);
        },
        Ok(list) => list,
    };
    let name = match get_text(item, Field::Name) {
        Err(fault) => {
            return Err(fault);
        },
        Ok(s) => s,
    };
    let src = match get_text(item, Field::Src) {
        Err(fault) => {
            return Err(fault);
        },
        Ok(s) => s,
    };
    let include_dir = match get_text(item, Field::IncludeDir) {
        Err(fault) => {
            return Err(fault);
        },
        Ok(s) => s,
    };
    let typ = match get_text(item, Field::Type) {
        Err(fault) => {
            return Err(fault);
        },
        Ok(s) => s,
    };
    let cflags = match get_text(item, Field::Cflags) {
        Err(fault) => {
            return Err(fault);
        },
        Ok(s) => s,
    };
    let libs = match get_text(item, Field::Libs) {
        Err(fault) => {
            return Err(fault);
        },
        Ok(s) => s,
    };
    Ok(TargetConfig { name, src, include_dir, typ, cflags, libs, deps })
}

/// The targets that the items of the list `targets` hold.
pub fn get_targets(list: &Vec<Node>) -> (got: Result<Vec<TargetConfig>, ConfigError>)
    ensures
        got matches Ok(targets) ==> targets_in(list@) == Ok::<Seq<TargetSpec>, Problem>(
            specs(targets@),
        ),
        got matches Err(e) ==> (targets_in(list@) matches Err(problem) && tells(e, problem)),
{
    let mut targets: Vec<TargetConfig> = Vec::new();
    let mut i: usize = 0;
    assert(list@.skip(0) =~= list@);
    while i < list.len()
        invariant
            i <= list.len(),
            match targets_in(list@.skip(i as int)) {
                Ok(rest) => targets_in(list@) == Ok::<Seq<TargetSpec>, Problem>(
                    specs(targets@) + rest,
                ),
                Err(problem) => targets_in(list@) == Err::<Seq<TargetSpec>, Problem>(problem),
            },
        decreases list.len() - i,
    {
        let ghost before = specs(targets@);
        proof {
            let tail = list@.skip(i as int);
            assert(tail[0] == list@[i as int]);
            assert(tail.drop_first() =~= list@.skip(i + 1));
        }
        let target = match get_target(&list[i]) {
            Err(fault) => {
                return Err(ConfigError::Manifest { fault });
            },
            Ok(target) => target,
        };
        if !str_eq(target.typ.as_str(), "exe") && !str_eq(target.typ.as_str(), "dll") {
            return Err(ConfigError::InvalidType { target: target.name, typ: target.typ });
        }
        let ghost added = target@;
        targets.push(target);
        proof {
            assert(specs(targets@) =~= before + seq![added]);
            match targets_in(list@.skip(i + 1)) {
                Ok(rest) => {
                    assert(specs(targets@) + rest =~= before + (seq![added] + rest));
                },
                Err(_) => {},
            }
        }
        i += 1;
    }
    assert(list@.skip(i as int) =~= Seq::<Node>::empty());
    assert(specs(targets@) + Seq::<TargetSpec>::empty() =~= specs(targets@));
    Ok(targets)
}

/// Takes the configuration out of a parsed manifest: the build configuration
/// and the targets, in the order of the manifest. A part that is missing or
/// of the wrong kind is reported, and so is a target whose type is neither
/// `exe` nor `dll`; then there has to be a target, and no two targets may
/// have the same name.
pub fn config_from_document(document: &Node) -> (got: Result<
    (BuildConfig, Vec<TargetConfig>),
    ConfigError,
>)
    ensures
        got matches Ok((build, targets)) ==> {
            &&& config_in(*document) == Ok::<(BuildSpec, Seq<TargetSpec>), Problem>(
                (build@, specs(targets@)),
            )
            &&& targets@.len() > 0
            &&& crate::text::first_repeated(names_of(specs(targets@))) == targets@.len()
        },
        got matches Err(e) ==> match config_in(*document) {
            Err(problem) => tells(e, problem),
            Ok((build, targets)) => if targets.len() == 0 {
                e is NoTargets
            } else {
                &&& 0 <= crate::text::first_repeated(names_of(targets)) < targets.len()
                &&& e matches ConfigError::DuplicateTarget { name }
                &&& name@ == targets[crate::text::first_repeated(names_of(targets))].name
            },
        },
{
    let table = match entry(document, key(Field::Build)) {
        None => {
            return Err(ConfigError::Manifest { fault: ManifestFault::Missing(Field::Build) });
        },
        Some(table) => table,
    };
    if !is_table(table) {
        return Err(ConfigError::Manifest { fault: ManifestFault::NotTable(Field::Build) });
    }
    let build = match get_build(table) {
        Err(fault) => {
            return Err(ConfigError::Manifest { fault });
        },
        Ok(build) => build,
    };
    let inner = match entry(document, key(Field::Targets)) {
        None => {
            return Err(ConfigError::Manifest { fault: ManifestFault::Missing(Field::Targets) });
        },
        Some(inner) => inner,
    };
    let list = match items(inner) {
        None => {
            return Err(ConfigError::Manifest { fault: ManifestFault::NotList(Field::Targets) });
        },
        Some(list) => list,
    };
    let targets = match get_targets(list) {
        Err(e) => {
            return Err(e);
        },
        Ok(targets) => targets,
    };
    proof {
        lemma_targets_valid(list@);
    }
    match check_targets(&targets) {
        Err(e) => Err(e),
        Ok(()) => Ok((build, targets)),
    }
}

/// The targets that are taken out of a manifest have valid types.
pub proof fn lemma_targets_valid(list: Seq<Node>)
    ensures
        targets_in(list) matches Ok(targets) ==> first_invalid(targets) == targets.len(),
    decreases list.len(),
{
    if list.len() > 0 {
        lemma_targets_valid(list.drop_first());
        match targets_in(list) {
            Ok(targets) => {
                let rest = targets_in(list.drop_first())->Ok_0;
                assert(targets.drop_first() =~= rest);
            },
            Err(_) => {},
        }
    }
}

/// What reading a manifest gives, for a document that holds the build
/// configuration `build` and the targets `targets`: there has to be a target,
/// and no two targets may have the same name.
pub open spec fn read_as(
    got: Result<(BuildConfig, Vec<TargetConfig>), ConfigError>,
    build: BuildSpec,
    targets: Seq<TargetSpec>,
) -> bool {
    let twice = crate::text::first_repeated(names_of(targets));
    if targets.len() == 0 {
        got matches Err(e) && e is NoTargets
    } else if 0 <= twice < targets.len() {
        &&& got matches Err(e)
        &&& e matches ConfigError::DuplicateTarget { name }
        &&& name@ == targets[twice].name
    } else {
        got matches Ok((b, t)) && b@ == build && specs(t@) == targets
    }
}

/// Reads the manifest of a project from its text, and gives the build
/// configuration and the targets in the order of the manifest. A text that
/// is no TOML document is refused with what the parser says about it; a
/// document is handed to `config_from_document`.
pub fn read_config(contents: &str) -> (got: Result<(BuildConfig, Vec<TargetConfig>), ConfigError>)
    ensures
        document_of(contents@) is None ==> (got matches Err(e) && e is Syntax),
        document_of(contents@) matches Some(document) ==> match config_in(node_of(document)) {
            Ok((build, targets)) => read_as(got, build, targets),
            Err(problem) => got matches Err(e) && tells(e, problem),
        },
{
    match parse_document(contents) {
        Err(error) => Err(ConfigError::Syntax { message: syntax_message(&error) }),
        Ok(document) => config_from_document(&node_from(&document)),
    }
}

/// The paths that were found for each target, as text.
pub open spec fn listing(sources: Seq<Vec<String>>) -> Seq<Seq<Seq<char>>> {
    Seq::new(sources.len(), |i: int| texts(sources[i]@))
}

/// The paths of the source files of the target at place `i`; a target that
/// the listing does not reach has none.
pub open spec fn sources_of(found: Seq<Seq<Seq<char>>>, i: int) -> Seq<Seq<char>> {
    if 0 <= i < found.len() {
        found[i]
    } else {
        Seq::empty()
    }
}

/// The place, at or after `from` and below `n`, of the first target whose
/// source files cannot make a target, or `n`.
pub open spec fn first_unsourced(found: Seq<Seq<Seq<char>>>, from: int, n: int) -> int
    decreases n - from,
{
    if from >= n {
        n
    } else if !sources_ok(sources_of(found, from)) {
        from
    } else {
        first_unsourced(found, from + 1, n)
    }
}

/// What `parse_config` gives for a document that holds the build
/// configuration `build` and the targets `targets`. The checks come in this
/// order, and the first that fails is reported: there has to be a target; no
/// two targets may have the same name; where the source files are to be
/// checked, each target has to have one, and no two of one target may have
/// the same name; and the dependencies may not go in a circle. What passes
/// is given with the targets in the order in which they are built.
pub open spec fn parsed_as(
    got: Result<(BuildConfig, Vec<TargetConfig>), ConfigError>,
    build: BuildSpec,
    targets: Seq<TargetSpec>,
    check_dup_src: bool,
    found: Seq<Seq<Seq<char>>>,
) -> bool {
    let twice = crate::text::first_repeated(names_of(targets));
    let bad = first_unsourced(found, 0, targets.len() as int);
    if targets.len() == 0 {
        got matches Err(e) && e is NoTargets
    } else if 0 <= twice < targets.len() {
        &&& got matches Err(e)
        &&& e matches ConfigError::DuplicateTarget { name }
        &&& name@ == targets[twice].name
    } else if check_dup_src && 0 <= bad < targets.len() {
        got matches Err(e) && tells_sources(e, targets[bad].name, sources_of(found, bad))
    } else if has_cycle(dep_graph(targets)) {
        &&& got matches Err(e)
        &&& e matches ConfigError::CyclicDependency { target, dependency }
        &&& names_cycle_edge(targets, target@, dependency@)
    } else {
        got matches Ok((b, t)) && b@ == build && specs(t@) == picked(targets, build_order(targets))
    }
}

/// Reads the manifest of a project from its text, checks it, and gives the
/// build configuration and the targets in the order in which they are built:
/// each target behind the targets it depends on. Where `check_dup_src` is
/// set, `sources` holds for each target, in the order of the manifest, the
/// paths of the source files that were found for it.
pub fn parse_config(contents: &str, check_dup_src: bool, sources: &Vec<Vec<String>>) -> (got:
    Result<(BuildConfig, Vec<TargetConfig>), ConfigError>)
    ensures
        document_of(contents@) is None ==> (got matches Err(e) && e is Syntax),
        document_of(contents@) matches Some(document) ==> match config_in(node_of(document)) {
            Ok((build, targets)) => parsed_as(
                got,
                build,
                targets,
                check_dup_src,
                listing(sources@),
            ),
            Err(problem) => got matches Err(e) && tells(e, problem),
        },
{
    let (build, targets) = match read_config(contents) {
        Err(e) => {
            return Err(e);
        },
        Ok(read) => read,
    };
    let ghost all = specs(targets@);
    let ghost found = listing(sources@);
    proof {
        crate::text::lemma_first_repeated(names_of(all));
    }
    if check_dup_src {
        let none: Vec<String> = Vec::new();
        let mut i: usize = 0;
        while i < targets.len()
            invariant
                i <= targets.len(),
                all == specs(targets@),
                found == listing(sources@),
                none@.len() == 0,
                check_dup_src,
                document_of(contents@) is Some,
                config_in(node_of(document_of(contents@)->0)) == Ok::<
                    (BuildSpec, Seq<TargetSpec>),
                    Problem,
                >((build@, all)),
                all.len() > 0,
                crate::text::first_repeated(names_of(all)) == all.len(),
                first_unsourced(found, 0, all.len() as int) == first_unsourced(
                    found,
                    i as int,
                    all.len() as int,
                ),
            decreases targets.len() - i,
        {
            let paths = if i < sources.len() {
                &sources[i]
            } else {
                &none
            };
            proof {
                assert(texts(paths@) =~= sources_of(found, i as int));
            }
            match check_source_paths(targets[i].name.as_str(), paths) {
                Err(e) => {
                    return Err(e);
                },
                Ok(()) => {},
            }
            i += 1;
        }
    }
    match TargetConfig::arrange_targets(targets) {
        Err(e) => Err(e),
        Ok(list) => Ok((build, list)),
    }
}

} // verus!
