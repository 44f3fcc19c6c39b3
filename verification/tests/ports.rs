//! Port declarations and tables of ports.

use lmflow::port::{parse_port_spec, reassemble, PortSpec, PortTable};

#[test]
fn port_spec_three_forms() {
    assert_eq!(
        parse_port_spec("frames").unwrap(),
        PortSpec {
            tag: String::new(),
            index: None,
            name: "frames".into()
        }
    );
    assert_eq!(
        parse_port_spec("VIDEO:cam0").unwrap(),
        PortSpec {
            tag: "VIDEO".into(),
            index: None,
            name: "cam0".into()
        }
    );
    assert_eq!(
        parse_port_spec("MASK:1:m1").unwrap(),
        PortSpec {
            tag: "MASK".into(),
            index: Some(1),
            name: "m1".into()
        }
    );
}

#[test]
fn port_spec_rejects_malformed() {
    assert!(parse_port_spec("a:b:c:d").is_err(), "too many segments");
    assert!(
        parse_port_spec("TAG:x:name").is_err(),
        "index is not a number"
    );
    assert!(parse_port_spec("").is_err(), "empty name");
    assert!(parse_port_spec("TAG:").is_err(), "empty name");
}

#[test]
fn config_port_spec_three_forms() {
    for (decl, tag, index, name) in [
        ("frames", "", None, "frames"),
        ("VIDEO:cam0", "VIDEO", None, "cam0"),
        ("MASK:1:m1", "MASK", Some(1), "m1"),
    ] {
        let spec = parse_port_spec(decl).unwrap();
        assert_eq!((spec.tag.as_str(), spec.index, spec.name.as_str()), (tag, index, name));
    }
}

#[test]
fn config_port_spec_rejects_malformed() {
    for decl in ["a:b:c:d", "TAG:x:name", "", "TAG:"] {
        assert!(parse_port_spec(decl).is_err(), "{decl}");
    }
}

#[test]
fn malformed_ports_say_why() {
    let e = parse_port_spec("a:b:c:d").unwrap_err();
    assert_eq!(e.code(), lmflow::status::INVALID_ARG);
    assert!(e.text().contains("invalid number of segments"), "{}", e.text());
    let e = parse_port_spec("TAG:x:name").unwrap_err();
    assert!(e.text().contains("index `x` is not a non-negative integer"), "{}", e.text());
    let e = parse_port_spec("TAG:").unwrap_err();
    assert!(e.text().contains("has an empty name"), "{}", e.text());
}

#[test]
fn indices_beyond_the_machine_are_refused() {
    assert!(parse_port_spec("T:18446744073709551616:n").is_err());
    assert!(parse_port_spec("T:-1:n").is_err());
    assert!(parse_port_spec("T::n").is_err());
    assert_eq!(parse_port_spec("T:007:n").unwrap().index, Some(7));
    assert_eq!(parse_port_spec("T:+7:n").unwrap().index, Some(7));
}

#[test]
fn reassembled_declarations_read_back() {
    let spec = parse_port_spec("MASK:12:m1").unwrap();
    let text = reassemble(&spec, "d/m1");
    assert_eq!(text, "MASK:12:d/m1");
    let again = parse_port_spec(&text).unwrap();
    assert_eq!(again.tag, "MASK");
    assert_eq!(again.index, Some(12));
    assert_eq!(again.name, "d/m1");
}

fn table(decls: &[&str]) -> PortTable {
    let decls: Vec<String> = decls.iter().map(|s| s.to_string()).collect();
    PortTable::build(&decls).unwrap()
}

#[test]
fn tables_find_ports_by_name_and_tag() {
    let t = table(&["plain", "V:a", "V:b", "V:0:c", "W:5:d"]);
    assert_eq!(t.len(), 5);
    assert_eq!(t.index_by_name("b"), Some(2));
    assert_eq!(t.index_by_name("nope"), None);
    assert_eq!(t.id_by_tag("V", 0), Some(1));
    assert_eq!(t.id_by_tag("V", 1), Some(2));
    assert_eq!(t.id_by_tag("W", 5), Some(4));
    assert_eq!(t.id_by_tag("W", 0), None);
    assert_eq!(t.name(3), Some("c"));
    assert_eq!(t.name(5), None);
}

#[test]
fn ports_without_a_tag_keep_their_index() {
    let spec = parse_port_spec(":2:x").unwrap();
    assert_eq!(reassemble(&spec, "d/x"), ":2:d/x");
    let again = parse_port_spec(":2:d/x").unwrap();
    assert_eq!((again.tag.as_str(), again.index, again.name.as_str()), ("", Some(2), "d/x"));
    assert_eq!(reassemble(&parse_port_spec("x").unwrap(), "y"), "y");
    assert_eq!(reassemble(&parse_port_spec("A:x").unwrap(), "y"), "A:y");
}
