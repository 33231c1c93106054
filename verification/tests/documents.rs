use sentrux::document::{parse_json, parse_toml, parse_yaml, write_json, Node};
use sentrux::manifest::{
    extract_json_field, extract_line_match, extract_name_from_manifest, extract_toml_field,
    extract_yaml_field, navigate_json, text_field,
};
use sentrux::text::{replace, trim, CharClass};
use sentrux::xml::{extract_xml_field, find_field, read_events, XmlEvent};

fn text(s: &str) -> Node {
    Node::Text(s.to_string())
}

fn number(s: &str) -> Node {
    Node::Number(s.to_string())
}

fn found(s: &str) -> Option<String> {
    Some(s.to_string())
}

#[test]
fn json_becomes_a_tree() {
    let doc = parse_json(r#"{"a":[1,"x",null,true,{"b":"y"}]}"#).unwrap();
    let inner = Node::Table(vec![(text("b"), text("y"))]);
    let list = Node::List(vec![number("1"), text("x"), Node::Null, Node::Bool(true), inner]);
    assert_eq!(doc, Node::Table(vec![(text("a"), list)]));
    assert_eq!(parse_json("{"), None);
}

#[test]
fn toml_becomes_a_tree() {
    let doc = parse_toml("[package]\nname = \"core\"\nedition = 2021\nok = false\n").unwrap();
    assert_eq!(doc.get("package").unwrap().get("name"), Some(&text("core")));
    assert_eq!(doc.get("package").unwrap().get("edition"), Some(&number("2021")));
    assert_eq!(doc.get("package").unwrap().get("ok"), Some(&Node::Bool(false)));
    assert_eq!(parse_toml("= 1"), None);
}

#[test]
fn yaml_becomes_a_tree() {
    let doc = parse_yaml("name: app\nlist:\n  - 1\n  - two\nnone: ~\n").unwrap();
    assert_eq!(doc.get("name"), Some(&text("app")));
    assert_eq!(doc.get("list"), Some(&Node::List(vec![number("1"), text("two")])));
    assert_eq!(doc.get("none"), Some(&Node::Null));
    assert_eq!(parse_yaml("a: [1"), None);
}

#[test]
fn yaml_tags_are_looked_through() {
    let doc = parse_yaml("a: !t\n  b: !u x\n").unwrap();
    assert_eq!(doc.get("a").unwrap().get("b").unwrap().as_text(), Some(&"x".to_string()));
}

#[test]
fn json_is_navigated_by_dots() {
    let doc = parse_json(r#"{"a":{"b":{"c":"x"}}}"#).unwrap();
    assert_eq!(navigate_json(&doc, "a.b.c"), Some(&text("x")));
    assert_eq!(navigate_json(&doc, "a.x"), None);
    assert_eq!(navigate_json(&doc, "a.b.c.d"), None);
    assert_eq!(navigate_json(&doc, ""), None);
}

#[test]
fn documents_are_written_as_json() {
    let doc = Node::Table(vec![
        (text("b"), Node::List(vec![number("1"), number("-2.50"), Node::Null, text("q\"")])),
        (text("a"), Node::Bool(true)),
        (number("3"), text("no key")),
        (text("b"), text("too late")),
        (text("B"), Node::Tagged(Box::new(text("t")))),
        (text("c"), number("inf")),
        (text("d"), Node::List(Vec::new())),
    ]);
    let expected = r#"{
  "B": "t",
  "a": true,
  "b": [
    1,
    -2.5,
    null,
    "q\""
  ],
  "c": null,
  "d": []
}"#;
    assert_eq!(write_json(&doc), expected);
    assert_eq!(write_json(&Node::Table(Vec::new())), "{}");
    assert_eq!(write_json(&Node::Null), "null");
}

#[test]
fn written_fields_are_read_again() {
    let doc = Node::Table(vec![
        (text("z"), text("last")),
        (text("name"), text("core")),
        (text("n"), number("7")),
    ]);
    let again = parse_json(&write_json(&doc)).unwrap();
    for key in ["z", "name", "n", "none"] {
        assert_eq!(again.get(key), doc.get(key));
    }
}

#[test]
fn fields_are_texts() {
    assert_eq!(extract_json_field(r#"{"name":"@c/s"}"#, "name"), found("@c/s"));
    assert_eq!(extract_json_field(r#"{"name":1}"#, "name"), None);
    assert_eq!(extract_json_field("nope", "name"), None);
    assert_eq!(extract_toml_field("[package]\nname='x'\n", "package.name"), found("x"));
    assert_eq!(extract_toml_field("[package]\nname=1\n", "package.name"), None);
    assert_eq!(extract_yaml_field("project:\n  name: y\n", "project.name"), found("y"));
    assert_eq!(extract_yaml_field("- a\n", "name"), None);
    assert_eq!(text_field(&None, "name"), None);
}

#[test]
fn xml_events_are_read_to_the_end() {
    let events = read_events("<a x='1'>t &lt; u</a>");
    assert_eq!(
        events,
        vec![
            XmlEvent::Start("a".to_string()),
            XmlEvent::Text(Some("t < u".to_string())),
            XmlEvent::End,
            XmlEvent::Eof
        ]
    );
    let broken = read_events("<a></b>");
    assert_eq!(broken, vec![XmlEvent::Start("a".to_string()), XmlEvent::Malformed]);
}

#[test]
fn xml_fields_are_found_by_their_path() {
    let pom = "<?xml version=\"1.0\"?><project><!-- c --><artifactId> core </artifactId></project>";
    assert_eq!(extract_xml_field(pom, "project.artifactId"), found("core"));
    assert_eq!(extract_xml_field(pom, "project.version"), None);
    assert_eq!(extract_xml_field("<p><n></n><n>x</n></p>", "p.n"), None);
    assert_eq!(extract_xml_field("<p><n>\n<m>x</m></n></p>", "p.n"), found("x"));
    assert_eq!(extract_xml_field("<p><n>&bad;</n></p>", "p.n"), None);
    assert_eq!(extract_xml_field("<p><q></p>", "p.n"), None);
}

#[test]
fn xml_paths_name_elements_directly_inside_each_other() {
    let pom =
        "<project><parent><artifactId>p</artifactId></parent><artifactId>a</artifactId></project>";
    assert_eq!(extract_xml_field(pom, "project.artifactId"), found("a"));
    assert_eq!(extract_xml_field(pom, "project.parent.artifactId"), found("p"));
    assert_eq!(extract_xml_field(pom, "project.version"), None);
    let csproj = "<Project><PropertyGroup><X>1</X></PropertyGroup><ItemGroup/>\
        <PropertyGroup><AssemblyName>core</AssemblyName></PropertyGroup></Project>";
    assert_eq!(extract_xml_field(csproj, "Project.PropertyGroup.AssemblyName"), found("core"));
    let twice = "<a><a><b>inner</b></a><b>outer</b></a>";
    assert_eq!(extract_xml_field(twice, "a.b"), found("inner"));
    assert_eq!(extract_xml_field(twice, "a.a.b"), found("inner"));
    let left = "<a><c/></a><b>x</b>";
    assert_eq!(extract_xml_field(left, "a.b"), None);
    let deeper = "<a><c><b>far</b></c></a>";
    assert_eq!(extract_xml_field(deeper, "a.b"), None);
}

#[test]
fn xml_paths_begin_at_any_depth() {
    assert_eq!(extract_xml_field("<p><n>x</n></p>", "n"), found("x"));
    let pom =
        "<project><parent><artifactId>p</artifactId></parent><artifactId>a</artifactId></project>";
    assert_eq!(extract_xml_field(pom, "artifactId"), found("p"));
    assert_eq!(extract_xml_field(pom, "parent.artifactId"), found("p"));
    let csproj = "<Project><PropertyGroup><X>1</X></PropertyGroup>\
        <PropertyGroup><AssemblyName>core</AssemblyName></PropertyGroup></Project>";
    assert_eq!(extract_xml_field(csproj, "PropertyGroup.AssemblyName"), found("core"));
    assert_eq!(extract_xml_field(csproj, "AssemblyName"), found("core"));
    let again = "<a><x><a><b>v</b></a></x></a>";
    assert_eq!(extract_xml_field(again, "a.b"), found("v"));
}

#[test]
fn xml_fields_of_given_events() {
    let events = vec![
        XmlEvent::Other,
        XmlEvent::Start("p".to_string()),
        XmlEvent::Text(Some("skipped".to_string())),
        XmlEvent::Start("n".to_string()),
        XmlEvent::Text(Some("  ".to_string())),
        XmlEvent::Text(Some(" v ".to_string())),
        XmlEvent::End,
        XmlEvent::Eof,
    ];
    assert_eq!(find_field(&events, "p.n"), found("v"));
    let unreadable = vec![XmlEvent::Start("n".to_string()), XmlEvent::Text(None)];
    assert_eq!(find_field(&unreadable, "n"), None);
}

#[test]
fn the_file_name_tells_the_format() {
    assert_eq!(
        extract_name_from_manifest(r#"{"name":"j"}"#, "name", "package.json"),
        found("j")
    );
    assert_eq!(
        extract_name_from_manifest("[package]\nname = \"t\"\n", "package.name", "Cargo.toml"),
        found("t")
    );
    assert_eq!(extract_name_from_manifest("<a>x</a>", "a", "pom.xml"), found("x"));
    assert_eq!(extract_name_from_manifest("<a>c</a>", "a", "*.csproj"), found("c"));
    assert_eq!(extract_name_from_manifest("name: y\n", "name", "pubspec.yaml"), found("y"));
    assert_eq!(extract_name_from_manifest("name: y\n", "name", "a.yml"), found("y"));
    assert_eq!(
        extract_name_from_manifest("name := \"s\"\n", "name", "build.sbt"),
        found("s")
    );
}

#[test]
fn lines_hold_quoted_values() {
    assert_eq!(extract_line_match("  name := \"core lib\" // x\n", "name"), found("core lib"));
    assert_eq!(extract_line_match("spec.name = 'gem'\n", "spec.name"), found("gem"));
    assert_eq!(extract_line_match("name \"open\nname \"b\"\n", "name"), None);
}

#[test]
fn lines_hold_atoms_and_words() {
    assert_eq!(extract_line_match("app: :my_app, x\n", "app: "), found("my_app"));
    assert_eq!(extract_line_match("app: :my_app,\n", "app"), found("my_app"));
    assert_eq!(extract_line_match("app: :my_app]", "app:"), found("my_app"));
    assert_eq!(extract_line_match("app: :my_app]", "app"), found("my_app"));
    assert_eq!(extract_line_match("app :my_app]", "app"), found("my_app"));
    assert_eq!(extract_line_match("name:my-app", "name"), found("my-app"));
    assert_eq!(extract_line_match("name := \"x\"", "name"), found("x"));
    assert_eq!(extract_line_match("name : my-app", "name"), found("my-app"));
    assert_eq!(extract_line_match("name = word, more\n", "name"), found("word"));
    assert_eq!(extract_line_match("name =\nname = second\n", "name"), found("second"));
    assert_eq!(extract_line_match("other = x\n", "name"), None);
}

#[test]
fn white_space_is_what_unicode_says() {
    let white = [
        0x9u32, 0xa, 0xb, 0xc, 0xd, 0x20, 0x85, 0xa0, 0x1680, 0x2000, 0x2001, 0x2002, 0x2003,
        0x2004, 0x2005, 0x2006, 0x2007, 0x2008, 0x2009, 0x200a, 0x2028, 0x2029, 0x202f, 0x205f,
        0x3000,
    ];
    for code in 0..=0x10ffffu32 {
        if let Some(c) = char::from_u32(code) {
            let s = c.to_string();
            assert_eq!(trim(&s, CharClass::White).is_empty(), white.contains(&code));
        }
    }
}

#[test]
fn atoms_end_at_other_characters() {
    for code in 0..128u32 {
        let c = char::from_u32(code).unwrap();
        let part = c.is_ascii_alphanumeric() || c == '_';
        assert_eq!(CharClass::NonAtom.has(c), !part);
    }
    assert!(!CharClass::NonAtom.has('é'));
    assert!(CharClass::NonAtom.has('—'));
}

#[test]
fn replacing_goes_left_to_right() {
    assert_eq!(replace("aaa", "aa", "b"), "ba");
    assert_eq!(replace("a-b-c", "-", "_"), "a_b_c");
    assert_eq!(replace("é→é", "→", ""), "éé");
}
