use branchify::{
    branchify, build_method, generate_branchified_method, interpret, run_matcher, write_method,
    Arms, Ending, Outcome, Rules, Switch,
};

fn arm_bytes(arms: &Arms) -> Vec<u8> {
    let mut bytes = Vec::new();
    let mut at = arms;
    loop {
        match at {
            Arms::Done => return bytes,
            Arms::Arm { byte, rest, .. } => {
                bytes.push(*byte);
                at = rest;
            }
        }
    }
}

fn arm<'a>(arms: &'a Arms, wanted: u8) -> &'a Switch {
    let mut at = arms;
    loop {
        match at {
            Arms::Done => panic!("no arm for {}", wanted),
            Arms::Arm { byte, then, rest } => {
                if *byte == wanted {
                    return then;
                }
                at = rest;
            }
        }
    }
}

fn value_of(switch: &Switch) -> Option<&str> {
    match &switch.on_end {
        Some(Ending::Value(value)) => Some(value.as_str()),
        _ => None,
    }
}

fn letters() -> Vec<u8> {
    let mut valid = Vec::new();
    for b in b'A'..=b'Z' {
        valid.push(b);
    }
    for b in b'a'..=b'z' {
        valid.push(b);
    }
    valid
}

#[test]
fn method_of_no_tree_has_no_arm() {
    let method = build_method(&[]);
    assert!(matches!(method.arms, Arms::Done));
    assert!(method.on_end.is_none());
}

#[test]
fn method_follows_the_tree() {
    let tree = branchify(&[("GET", "Get"), ("GETX", "GetX"), ("PUT", "Put")], true).unwrap();
    let method = build_method(&tree);
    assert!(method.on_end.is_none());
    assert_eq!(arm_bytes(&method.arms), vec![b'G', b'P']);
    let g = arm(&method.arms, b'G');
    assert!(matches!(g.on_end, Some(Ending::Unknown)));
    assert_eq!(arm_bytes(&g.arms), vec![b'E']);
    let t = arm(&arm(&g.arms, b'E').arms, b'T');
    assert_eq!(value_of(t), Some("Get"));
    assert_eq!(arm_bytes(&t.arms), vec![b'X']);
    let x = arm(&t.arms, b'X');
    assert_eq!(value_of(x), Some("GetX"));
    assert!(matches!(x.arms, Arms::Done));
}

#[test]
fn each_match_byte_has_its_arm() {
    let tree = branchify(&[("a1", "V"), ("b", "W")], false).unwrap();
    let method = build_method(&tree);
    assert_eq!(arm_bytes(&method.arms), vec![b'A', b'a', b'B', b'b']);
    let upper = arm(&method.arms, b'A');
    let lower = arm(&method.arms, b'a');
    assert_eq!(arm_bytes(&upper.arms), vec![b'1']);
    assert_eq!(arm_bytes(&lower.arms), vec![b'1']);
    assert_eq!(value_of(arm(&upper.arms, b'1')), Some("V"));
    assert_eq!(value_of(arm(&lower.arms, b'1')), Some("V"));
    assert_eq!(value_of(arm(&method.arms, b'b')), Some("W"));
}

#[test]
fn text_of_the_built_method_is_the_generated_text() {
    let tree = branchify(&[("GET", "Get"), ("GETX", "GetX"), ("Host", "Host")], false).unwrap();
    let mut generated = String::new();
    generate_branchified_method(&mut generated, &tree, 2, "read()", "SP", "MAX", "ok(b)", "U({})");
    let mut printed = String::new();
    write_method(&mut printed, &build_method(&tree), 2, "read()", "SP", "MAX", "ok(b)", "U({})");
    assert_eq!(printed, generated);
}

#[test]
fn outcome_of_the_built_method_is_the_outcome_for_the_tree() {
    let tree = branchify(&[("GET", "Get"), ("GETX", "GetX")], true).unwrap();
    let method = build_method(&tree);
    let rules = Rules { end: b' ', max_len: 4, valid: letters() };
    for input in [&b"GET "[..], b"GETX ", b"GE ", b"POST ", b"POSTS ", b"GETXY ", b"GETXY", b"", b" "] {
        assert_eq!(interpret(&method, input, &rules), run_matcher(&tree, input, &rules));
    }
}

#[test]
fn one_value_is_printed_and_run() {
    let method = Switch {
        arms: Arms::Arm {
            byte: b'O',
            then: Box::new(Switch {
                arms: Arms::Arm {
                    byte: b'K',
                    then: Box::new(Switch {
                        arms: Arms::Done,
                        on_end: Some(Ending::Value(String::from("Ok"))),
                    }),
                    rest: Box::new(Arms::Done),
                },
                on_end: Some(Ending::Unknown),
            }),
            rest: Box::new(Arms::Done),
        },
        on_end: None,
    };
    let mut text = String::new();
    write_method(&mut text, &method, 0, "read()", "SP", "MAX", "ok(b)", "Unknown({})");
    let head = [
        "let (s, next_byte) = match read() {",
        "    Some(b) if b == 'O' as u8 => match read() {",
        "        Some(b) if b == 'K' as u8 => match read() {",
        "            Some(b) if b == SP => return Some(Ok),",
        "            Some(b) if ok(b) => (\"OK\", b),",
        "            _ => return None,",
        "        },",
        "        Some(b) if b == SP => return Some(Unknown(~\"O\")),",
        "        Some(b) if ok(b) => (\"O\", b),",
        "        _ => return None,",
        "    },",
        "    Some(b) if ok(b) => (\"\", b),",
        "    _ => return None,",
        "};",
        "// OK, that didn't pan out. Let's read the rest and see what we get.",
        "let mut s = s.to_owned();",
        "if s.len() >= MAX {",
        "    // Too long; bad request",
        "    return None;",
        "}",
        "s.push_char(next_byte as char);",
        "loop {",
    ];
    let mut expected = String::new();
    for line in head {
        expected.push_str(line);
        expected.push('\n');
    }
    assert!(text.starts_with(&expected));
    let rules = Rules { end: b' ', max_len: 2, valid: letters() };
    assert_eq!(interpret(&method, b"OK ", &rules), Outcome::Known(String::from("Ok")));
    assert_eq!(interpret(&method, b"O ", &rules), Outcome::Unknown(b"O".to_vec()));
    assert_eq!(interpret(&method, b"ON ", &rules), Outcome::Unknown(b"ON".to_vec()));
    assert_eq!(interpret(&method, b"OKS ", &rules), Outcome::NoMatch);
    assert_eq!(interpret(&method, b"ONE ", &rules), Outcome::NoMatch);
    assert_eq!(interpret(&method, b"OK", &rules), Outcome::NoMatch);
}
