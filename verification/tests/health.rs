use sentrux::document::Node;
use sentrux::health::{
    bottleneck, diagnostics_node, finish_health, health_report, print_health, run_health,
    Diagnostics, FileMetric, FuncMetric, HealthFigures, Instability, RootCauses,
};
use sentrux::quality::ScanStep;
use sentrux::report::{Exit, Line};

fn ranks(list: [i64; 5]) -> RootCauses<i64> {
    RootCauses {
        modularity: list[0],
        acyclicity: list[1],
        depth: list[2],
        equality: list[3],
        redundancy: list[4],
    }
}

fn text(s: &str) -> Node {
    Node::Text(s.to_string())
}

fn number(s: &str) -> Node {
    Node::Number(s.to_string())
}

fn table(entries: Vec<(&str, Node)>) -> Node {
    Node::Table(entries.into_iter().map(|(k, v)| (text(k), v)).collect())
}

fn figures() -> HealthFigures {
    HealthFigures {
        quality_signal: 7342,
        ranks: ranks([6700, 10000, 10000, 6100, 8800]),
        scores: RootCauses {
            modularity: 6700,
            acyclicity: 10000,
            depth: 10000,
            equality: 6100,
            redundancy: 8800,
        },
        raw: RootCauses {
            modularity: "0.45".to_string(),
            acyclicity: "0".to_string(),
            depth: "4".to_string(),
            equality: "0.39".to_string(),
            redundancy: "0.12".to_string(),
        },
        total_import_edges: 12,
        cross_module_edges: 3,
    }
}

fn file(path: &str, value: u64) -> FileMetric {
    FileMetric { path: path.to_string(), value }
}

fn func(name: &str, value: u64) -> FuncMetric {
    FuncMetric { file: "f.rs".to_string(), func: name.to_string(), value }
}

fn many(n: usize) -> Vec<FuncMetric> {
    (0..n).map(|i| func(&format!("f{i}"), i as u64)).collect()
}

fn diagnostics() -> Diagnostics {
    Diagnostics {
        god_files: (0..30).map(|i| file("god", i)).collect(),
        hotspot_files: vec![file("hot", 9)],
        most_unstable: (0..11)
            .map(|i| Instability {
                path: format!("u{i}"),
                instability: "0.5".to_string(),
                fan_in: i,
                fan_out: 2,
            })
            .collect(),
        cycles: vec![vec!["a".to_string(), "b".to_string()]],
        max_depth: 4,
        complex_functions: many(21),
        cog_complex_functions: many(3),
        long_functions: many(25),
        long_files: (0..12).map(|i| file("long", i)).collect(),
        high_param_functions: many(20),
        dead_functions: many(60),
        duplicate_groups: (0..22).map(|_| vec![func("d", 5)]).collect(),
    }
}

fn list<'a>(node: &'a Node, cause: &str, key: &str) -> &'a Vec<Node> {
    match node.get(cause).unwrap().get(key).unwrap() {
        Node::List(items) => items,
        _ => panic!("no list under {cause}.{key}"),
    }
}

#[test]
fn the_weakest_cause_is_the_bottleneck() {
    assert_eq!(bottleneck(&ranks([5, 4, 3, 2, 1])), "redundancy");
    assert_eq!(bottleneck(&ranks([5, 4, 3, 1, 2])), "equality");
    assert_eq!(bottleneck(&ranks([5, 4, -3, 1, 2])), "depth");
    assert_eq!(bottleneck(&ranks([5, 1, 3, 4, 2])), "acyclicity");
    assert_eq!(bottleneck(&ranks([1, 2, 3, 4, 5])), "modularity");
    assert_eq!(bottleneck(&ranks([2, 1, 1, 1, 2])), "acyclicity");
    assert_eq!(bottleneck(&ranks([7, 7, 7, 7, 7])), "modularity");
}

#[test]
fn the_report_holds_the_figures() {
    let cause = |score: &str, raw: &str| table(vec![("score", number(score)), ("raw", number(raw))]);
    assert_eq!(
        health_report(&figures(), &None),
        table(vec![
            ("quality_signal", number("7342")),
            ("bottleneck", text("equality")),
            (
                "root_causes",
                table(vec![
                    ("modularity", cause("6700", "0.45")),
                    ("acyclicity", cause("10000", "0")),
                    ("depth", cause("10000", "4")),
                    ("equality", cause("6100", "0.39")),
                    ("redundancy", cause("8800", "0.12")),
                ])
            ),
            ("total_import_edges", number("12")),
            ("cross_module_edges", number("3")),
        ])
    );
}

#[test]
fn diagnostics_are_cut_short() {
    let report = health_report(&figures(), &Some(diagnostics()));
    let d = report.get("diagnostics").unwrap();
    assert_eq!(*d, diagnostics_node(&diagnostics()));
    assert_eq!(list(d, "modularity", "god_files").len(), 30);
    assert_eq!(list(d, "modularity", "hotspot_files").len(), 1);
    assert_eq!(list(d, "modularity", "most_unstable").len(), 10);
    assert_eq!(list(d, "acyclicity", "cycles").len(), 1);
    assert_eq!(list(d, "equality", "complex_functions").len(), 20);
    assert_eq!(list(d, "equality", "cog_complex_functions").len(), 3);
    assert_eq!(list(d, "equality", "long_functions").len(), 20);
    assert_eq!(list(d, "equality", "large_files").len(), 10);
    assert_eq!(list(d, "equality", "high_param_functions").len(), 20);
    assert_eq!(list(d, "redundancy", "dead_functions").len(), 50);
    assert_eq!(list(d, "redundancy", "duplicate_groups").len(), 20);
}

#[test]
fn diagnostics_name_their_figures() {
    let d = diagnostics_node(&diagnostics());
    assert_eq!(
        list(&d, "modularity", "god_files")[1],
        table(vec![("path", text("god")), ("fan_out", number("1"))])
    );
    assert_eq!(
        list(&d, "modularity", "hotspot_files")[0],
        table(vec![("path", text("hot")), ("fan_in", number("9"))])
    );
    assert_eq!(
        list(&d, "modularity", "most_unstable")[3],
        table(vec![
            ("path", text("u3")),
            ("instability", number("0.5")),
            ("fan_in", number("3")),
            ("fan_out", number("2")),
        ])
    );
    assert_eq!(
        list(&d, "acyclicity", "cycles")[0],
        Node::List(vec![text("a"), text("b")])
    );
    assert_eq!(d.get("depth").unwrap().get("max_depth"), Some(&number("4")));
    let named = |key: &str, n: &str| {
        table(vec![("file", text("f.rs")), ("func", text(&format!("f{n}"))), (key, number(n))])
    };
    assert_eq!(list(&d, "equality", "complex_functions")[2], named("cc", "2"));
    assert_eq!(list(&d, "equality", "cog_complex_functions")[2], named("cog", "2"));
    assert_eq!(list(&d, "equality", "long_functions")[19], named("lines", "19"));
    assert_eq!(list(&d, "equality", "high_param_functions")[0], named("params", "0"));
    assert_eq!(list(&d, "redundancy", "dead_functions")[49], named("lines", "49"));
    assert_eq!(
        list(&d, "redundancy", "duplicate_groups")[0],
        table(vec![(
            "instances",
            Node::List(vec![table(vec![
                ("file", text("f.rs")),
                ("func", text("d")),
                ("lines", number("5")),
            ])])
        )])
    );
}

#[test]
fn a_finished_report_is_a_success() {
    let done = finish_health(&Ok("{}".to_string()));
    assert_eq!(done, Exit { lines: vec![Line::Out("{}".to_string())], code: 0 });
    let failed = finish_health(&Err("why".to_string()));
    assert_eq!(failed, Exit { lines: vec![Line::Note("Scan failed: why".to_string())], code: 1 });
}

fn printed(figures: &HealthFigures, diagnostics: &Option<Diagnostics>) -> String {
    let exit = print_health(figures, diagnostics);
    assert_eq!(exit.code, 0);
    assert_eq!(exit.lines.len(), 1);
    match &exit.lines[0] {
        Line::Out(json) => json.clone(),
        other => panic!("{other:?}"),
    }
}

#[test]
fn reports_are_printed_as_json() {
    let expected = r#"{
  "bottleneck": "equality",
  "cross_module_edges": 3,
  "quality_signal": 7342,
  "root_causes": {
    "acyclicity": {
      "raw": 0,
      "score": 10000
    },
    "depth": {
      "raw": 4,
      "score": 10000
    },
    "equality": {
      "raw": 0.39,
      "score": 6100
    },
    "modularity": {
      "raw": 0.45,
      "score": 6700
    },
    "redundancy": {
      "raw": 0.12,
      "score": 8800
    }
  },
  "total_import_edges": 12
}"#;
    assert_eq!(printed(&figures(), &None), expected);
}

#[test]
fn printed_figures_keep_their_digits() {
    for x in [0.1 + 0.2, 1.0 / 3.0, 1e-7, 0.00001, 5e-324, 1.7976931348623157e308, -0.0, 1e16] {
        let mut f = figures();
        f.raw.equality = format!("{x:?}");
        let raw = serde_json::Value::from(x);
        let line = format!("\"raw\": {raw},");
        assert!(printed(&f, &None).contains(&line), "{line}");
    }
    let mut f = figures();
    f.raw.equality = format!("{:?}", f64::NAN);
    assert!(printed(&f, &None).contains("\"raw\": null,"));
}

#[test]
fn printed_diagnostics_are_the_reported_ones() {
    let json = printed(&figures(), &Some(diagnostics()));
    let value: serde_json::Value = serde_json::from_str(&json).unwrap();
    let d = &value["diagnostics"];
    assert_eq!(d["modularity"]["god_files"].as_array().unwrap().len(), 30);
    assert_eq!(d["modularity"]["most_unstable"][3]["instability"].as_f64(), Some(0.5));
    assert_eq!(d["depth"]["max_depth"].as_u64(), Some(4));
    assert_eq!(d["equality"]["complex_functions"][2]["func"].as_str(), Some("f2"));
    assert_eq!(
        d["redundancy"]["duplicate_groups"][0]["instances"][0]["lines"].as_u64(),
        Some(5)
    );
}

#[test]
fn health_needs_a_directory() {
    assert_eq!(run_health("x", true), ScanStep::Scan(Vec::new()));
    assert!(matches!(run_health("x", false), ScanStep::Stop(exit) if exit.code == 1));
}
