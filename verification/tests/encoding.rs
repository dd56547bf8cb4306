use qsgal::analyzer::analyze_semantic;
use qsgal::ast::{Command, Manifest};
use qsgal::emit::{emit_manifest, emit_obj};
use qsgal::json::{manifest_from_json, manifest_to_json};
use qsgal::parser::parse_qsgal;

#[test]
fn emit_manifest_ignores_the_ir() {
    let ir1 = analyze_semantic(parse_qsgal("rule grow").unwrap()).unwrap();
    let ir2 = analyze_semantic(parse_qsgal("rule a\nrule b\nprimitive p\nattractor q").unwrap())
        .unwrap();
    let m1 = emit_manifest(ir1);
    let m2 = emit_manifest(ir2);
    assert_eq!(m1.commands.len(), 2);
    assert_eq!(m1.commands[0].op, "scale");
    assert_eq!(m1.commands[0].value_milli, 1618);
    assert_eq!(m1.commands[1].op, "rotate_x");
    assert_eq!(m1.commands[1].value_milli, 180000);
    assert_eq!(m2.commands.len(), 2);
    assert_eq!(m1.commands[0].op, m2.commands[0].op);
    assert_eq!(m1.commands[1].value_milli, m2.commands[1].value_milli);
}

#[test]
fn emit_obj_ignores_the_ir() {
    let ir1 = analyze_semantic(parse_qsgal("rule grow").unwrap()).unwrap();
    let ir2 = analyze_semantic(parse_qsgal("rule a\nprimitive b").unwrap()).unwrap();
    assert_eq!(emit_obj(ir1), emit_obj(ir2));
}

#[test]
fn manifest_json_matches_serde_pretty_printing() {
    let ir = analyze_semantic(parse_qsgal("rule grow").unwrap()).unwrap();
    let ours = manifest_to_json(&emit_manifest(ir));

    let mut first = serde_json::Map::new();
    first.insert("op".to_string(), serde_json::Value::String("scale".to_string()));
    first.insert(
        "value".to_string(),
        serde_json::Value::Number(serde_json::Number::from_f64(1.618).unwrap()),
    );
    let mut second = serde_json::Map::new();
    second.insert("op".to_string(), serde_json::Value::String("rotate_x".to_string()));
    second.insert(
        "value".to_string(),
        serde_json::Value::Number(serde_json::Number::from_f64(180.0).unwrap()),
    );
    let mut root = serde_json::Map::new();
    root.insert(
        "commands".to_string(),
        serde_json::Value::Array(vec![
            serde_json::Value::Object(first),
            serde_json::Value::Object(second),
        ]),
    );
    let expected = serde_json::to_string_pretty(&serde_json::Value::Object(root)).unwrap();
    assert_eq!(ours, expected);
}

#[test]
fn manifest_json_round_trips_through_a_json_reader() {
    let ir = analyze_semantic(parse_qsgal("rule grow").unwrap()).unwrap();
    let manifest = emit_manifest(ir);
    let printed = manifest_to_json(&manifest);

    let value: serde_json::Value = serde_json::from_str(&printed).unwrap();
    let commands = value["commands"].as_array().unwrap();
    assert_eq!(commands.len(), manifest.commands.len());
    for (read, original) in commands.iter().zip(manifest.commands.iter()) {
        assert_eq!(read["op"].as_str().unwrap(), original.op);
        let value_milli = (read["value"].as_f64().unwrap() * 1000.0).round() as i64;
        assert_eq!(value_milli, original.value_milli);
    }
}

#[test]
fn manifest_json_round_trips_through_the_library_reader() {
    let m = Manifest {
        commands: vec![
            Command { op: String::from("scale"), value_milli: 1618 },
            Command { op: String::from("rotate_x"), value_milli: 180000 },
            Command { op: String::from("shift"), value_milli: -250 },
            Command { op: String::from("hold"), value_milli: 0 },
        ],
    };
    let printed = manifest_to_json(&m);
    let back = manifest_from_json(&printed).expect("the printed form must read back");
    assert_eq!(back.commands.len(), m.commands.len());
    for (a, b) in back.commands.iter().zip(m.commands.iter()) {
        assert_eq!(a.op, b.op);
        assert_eq!(a.value_milli, b.value_milli);
    }

    let empty = Manifest { commands: Vec::new() };
    let back = manifest_from_json(&manifest_to_json(&empty)).unwrap();
    assert!(back.commands.is_empty());
}

#[test]
fn manifest_reader_rejects_other_texts() {
    assert!(manifest_from_json("").is_none());
    assert!(manifest_from_json("{\"commands\":[]}").is_none());
    let m = Manifest { commands: vec![Command { op: String::from("scale"), value_milli: 1618 }] };
    let printed = manifest_to_json(&m);
    let mut tampered = printed.clone();
    tampered.push(' ');
    assert!(manifest_from_json(&tampered).is_none());
    assert!(manifest_from_json(&printed[1..]).is_none());
    assert!(manifest_from_json(&printed.replace("1.618", "1.6180")).is_none());
    assert!(manifest_from_json(&printed.replace("1.618", "01.618")).is_none());
}

#[test]
fn compiled_manifest_json_reads_back_as_the_demo_pair() {
    let printed = qsgal::cli::compile("rule grow").unwrap();
    let back = manifest_from_json(&printed).expect("a compiled manifest must read back");
    assert_eq!(back.commands.len(), 2);
    assert_eq!(back.commands[0].op, "scale");
    assert_eq!(back.commands[0].value_milli, 1618);
    assert_eq!(back.commands[1].op, "rotate_x");
    assert_eq!(back.commands[1].value_milli, 180000);
}

#[test]
fn empty_manifest_prints_an_empty_array() {
    let m = Manifest { commands: Vec::new() };
    let ours = manifest_to_json(&m);
    assert_eq!(ours, "{\n  \"commands\": []\n}");

    let mut root = serde_json::Map::new();
    root.insert("commands".to_string(), serde_json::Value::Array(Vec::new()));
    let expected = serde_json::to_string_pretty(&serde_json::Value::Object(root)).unwrap();
    assert_eq!(ours, expected);
}

#[test]
fn json_numbers_print_like_floats() {
    let m = Manifest {
        commands: vec![
            Command { op: String::from("a"), value_milli: 0 },
            Command { op: String::from("b"), value_milli: -500 },
            Command { op: String::from("c"), value_milli: 2000 },
            Command { op: String::from("d"), value_milli: 1610 },
            Command { op: String::from("e"), value_milli: -12345 },
        ],
    };
    let printed = manifest_to_json(&m);
    let value: serde_json::Value = serde_json::from_str(&printed).unwrap();
    let commands = value["commands"].as_array().unwrap();
    assert_eq!(commands[0]["value"].to_string(), "0.0");
    assert_eq!(commands[1]["value"].to_string(), "-0.5");
    assert_eq!(commands[2]["value"].to_string(), "2.0");
    assert_eq!(commands[3]["value"].to_string(), "1.61");
    assert_eq!(commands[4]["value"].to_string(), "-12.345");
}

#[test]
fn plain_formatting_matches_float_display() {
    let mut s = String::new();
    qsgal::fmt::push_milli_plain(&mut s, -1000);
    s.push(' ');
    qsgal::fmt::push_milli_plain(&mut s, 1618);
    s.push(' ');
    qsgal::fmt::push_milli_plain(&mut s, 0);
    s.push(' ');
    qsgal::fmt::push_milli_plain(&mut s, -1618);
    assert_eq!(s, format!("{} {} {} {}", -1.0, 1.618, 0.0, -1.0 * 1.618));
}
