use branchify::{branchify, run_matcher, Outcome, ParseBranch, Rules};

fn letters() -> Vec<u8> {
    let mut valid = Vec::new();
    for b in b'A'..=b'Z' {
        valid.push(b);
    }
    for b in b'a'..=b'z' {
        valid.push(b);
    }
    valid
}

fn rules(max_len: usize) -> Rules {
    Rules { end: b' ', max_len, valid: letters() }
}

fn methods() -> Vec<ParseBranch> {
    branchify(&[("GET", "Get"), ("GETX", "GetX")], true).unwrap()
}

fn known(value: &str) -> Outcome {
    Outcome::Known(String::from(value))
}

fn unknown(text: &str) -> Outcome {
    Outcome::Unknown(text.as_bytes().to_vec())
}

#[test]
fn literal_with_the_ending_byte_gives_its_value() {
    let tree = methods();
    assert_eq!(run_matcher(&tree, b"GET ", &rules(10)), known("Get"));
    assert_eq!(run_matcher(&tree, b"GETX ", &rules(10)), known("GetX"));
}

#[test]
fn every_literal_of_a_table_gives_its_value() {
    let table = [
        ("OPTIONS", "Options"),
        ("GET", "Get"),
        ("HEAD", "Head"),
        ("POST", "Post"),
        ("PUT", "Put"),
        ("DELETE", "Delete"),
        ("TRACE", "Trace"),
        ("CONNECT", "Connect"),
        ("PATCH", "Patch"),
    ];
    let tree = branchify(&table, true).unwrap();
    for (key, value) in table {
        let mut input = key.as_bytes().to_vec();
        input.push(b' ');
        assert_eq!(run_matcher(&tree, &input, &rules(16)), known(value));
    }
}

#[test]
fn bytes_behind_the_ending_byte_are_not_read() {
    let tree = methods();
    assert_eq!(run_matcher(&tree, b"GET / HTTP/1.1\r\n", &rules(10)), known("Get"));
}

#[test]
fn strict_prefix_gives_unknown_of_the_prefix() {
    let tree = methods();
    assert_eq!(run_matcher(&tree, b"GE ", &rules(10)), unknown("GE"));
    assert_eq!(run_matcher(&tree, b"G ", &rules(10)), unknown("G"));
}

#[test]
fn token_outside_the_table_gives_unknown_of_its_text() {
    let tree = methods();
    assert_eq!(run_matcher(&tree, b"POST ", &rules(10)), unknown("POST"));
    assert_eq!(run_matcher(&tree, b"GEM ", &rules(10)), unknown("GEM"));
    assert_eq!(run_matcher(&tree, b"GETXY ", &rules(10)), unknown("GETXY"));
}

#[test]
fn case_sensitive_tree_does_not_take_the_other_case() {
    let tree = methods();
    assert_eq!(run_matcher(&tree, b"get ", &rules(10)), unknown("get"));
    assert_eq!(run_matcher(&tree, b"GEt ", &rules(10)), unknown("GEt"));
}

#[test]
fn any_case_gives_the_value_where_case_is_ignored() {
    let tree = branchify(&[("Host", "Host"), ("Content-Length", "ContentLength")], false).unwrap();
    let mut valid = letters();
    valid.push(b'-');
    let rules = Rules { end: b':', max_len: 32, valid };
    for spelling in ["Host:", "host:", "HOST:", "hOsT:", "HoST:"] {
        assert_eq!(run_matcher(&tree, spelling.as_bytes(), &rules), known("Host"));
    }
    for spelling in ["Content-Length:", "content-length:", "CONTENT-LENGTH:", "cOnTeNt-lEnGtH:"] {
        assert_eq!(run_matcher(&tree, spelling.as_bytes(), &rules), known("ContentLength"));
    }
}

#[test]
fn unknown_text_keeps_the_case_that_was_read() {
    let tree = branchify(&[("Host", "Host")], false).unwrap();
    let rules = Rules { end: b':', max_len: 32, valid: letters() };
    assert_eq!(run_matcher(&tree, b"hOs:", &rules), unknown("hOs"));
    assert_eq!(run_matcher(&tree, b"hOsts:", &rules), unknown("hOsts"));
}

#[test]
fn input_that_ends_before_the_ending_byte_is_no_match() {
    let tree = methods();
    assert_eq!(run_matcher(&tree, b"", &rules(10)), Outcome::NoMatch);
    assert_eq!(run_matcher(&tree, b"G", &rules(10)), Outcome::NoMatch);
    assert_eq!(run_matcher(&tree, b"GE", &rules(10)), Outcome::NoMatch);
    assert_eq!(run_matcher(&tree, b"GET", &rules(10)), Outcome::NoMatch);
    assert_eq!(run_matcher(&tree, b"GETX", &rules(10)), Outcome::NoMatch);
    assert_eq!(run_matcher(&tree, b"GETXY", &rules(10)), Outcome::NoMatch);
    assert_eq!(run_matcher(&tree, b"POST", &rules(10)), Outcome::NoMatch);
    assert_eq!(run_matcher(&tree, b"P", &rules(10)), Outcome::NoMatch);
}

#[test]
fn every_cut_before_the_ending_byte_is_no_match() {
    let tree = methods();
    for input in [&b"GETX "[..], &b"GE "[..], &b"POSTED "[..]] {
        assert!(run_matcher(&tree, input, &rules(10)) != Outcome::NoMatch);
        for cut in 0..input.len() {
            assert_eq!(run_matcher(&tree, &input[..cut], &rules(10)), Outcome::NoMatch);
        }
    }
}

#[test]
fn byte_that_may_not_stand_in_a_token_is_no_match() {
    let tree = methods();
    assert_eq!(run_matcher(&tree, b"GE! ", &rules(10)), Outcome::NoMatch);
    assert_eq!(run_matcher(&tree, b"1 ", &rules(10)), Outcome::NoMatch);
    assert_eq!(run_matcher(&tree, b"POS1 ", &rules(10)), Outcome::NoMatch);
    assert_eq!(run_matcher(&tree, b"GETX\0", &rules(10)), Outcome::NoMatch);
}

#[test]
fn ending_byte_alone_is_no_match() {
    let tree = methods();
    assert_eq!(run_matcher(&tree, b" ", &rules(10)), Outcome::NoMatch);
    assert_eq!(run_matcher(&[], b" ", &rules(10)), Outcome::NoMatch);
}

#[test]
fn token_beyond_the_maximum_is_no_match() {
    let tree = methods();
    assert_eq!(run_matcher(&tree, b"POST ", &rules(4)), unknown("POST"));
    assert_eq!(run_matcher(&tree, b"POSTS ", &rules(4)), Outcome::NoMatch);
    assert_eq!(run_matcher(&tree, b"POSTED ", &rules(4)), Outcome::NoMatch);
    assert_eq!(run_matcher(&tree, b"GETXYZ ", &rules(4)), Outcome::NoMatch);
    assert_eq!(run_matcher(&tree, b"GEMS ", &rules(3)), Outcome::NoMatch);
    assert_eq!(run_matcher(&tree, b"ABCDEFGHIJK ", &rules(10)), Outcome::NoMatch);
    assert_eq!(run_matcher(&tree, b"ABCDEFGHIJ ", &rules(10)), unknown("ABCDEFGHIJ"));
}

#[test]
fn maximum_of_nothing_collects_no_token() {
    let tree = methods();
    assert_eq!(run_matcher(&tree, b"P ", &rules(0)), Outcome::NoMatch);
    assert_eq!(run_matcher(&tree, b"PO ", &rules(0)), Outcome::NoMatch);
    assert_eq!(run_matcher(&[], b"P ", &rules(0)), Outcome::NoMatch);
    assert_eq!(run_matcher(&[], b"P ", &rules(1)), unknown("P"));
}

#[test]
fn text_that_enters_the_loop_is_measured() {
    let tree = methods();
    assert_eq!(run_matcher(&tree, b"GETXY ", &rules(4)), Outcome::NoMatch);
    assert_eq!(run_matcher(&tree, b"GETXY ", &rules(5)), unknown("GETXY"));
    assert_eq!(run_matcher(&tree, b"GEM ", &rules(2)), Outcome::NoMatch);
    assert_eq!(run_matcher(&tree, b"GEM ", &rules(3)), unknown("GEM"));
}

#[test]
fn token_that_ends_in_the_tree_is_not_measured() {
    let tree = methods();
    assert_eq!(run_matcher(&tree, b"GETX ", &rules(2)), known("GetX"));
    assert_eq!(run_matcher(&tree, b"GE ", &rules(1)), unknown("GE"));
}

#[test]
fn literal_that_goes_on_with_the_ending_byte_takes_it() {
    let tree = branchify(&[("A", "Short"), ("A B", "Long")], true).unwrap();
    assert_eq!(run_matcher(&tree, b"A B ", &rules(10)), known("Long"));
    assert_eq!(run_matcher(&tree, b"A ", &rules(10)), Outcome::NoMatch);
    assert_eq!(run_matcher(&tree, b"A C", &rules(10)), Outcome::NoMatch);
}

#[test]
fn empty_tree_collects_every_token() {
    assert_eq!(run_matcher(&[], b"GET ", &rules(10)), unknown("GET"));
    assert_eq!(run_matcher(&[], b"GET", &rules(10)), Outcome::NoMatch);
}

#[test]
fn is_valid_tells_the_listed_bytes() {
    let rules = Rules { end: b' ', max_len: 1, valid: vec![b'a', b'-'] };
    assert!(rules.is_valid(b'a'));
    assert!(rules.is_valid(b'-'));
    assert!(!rules.is_valid(b'b'));
    assert!(!rules.is_valid(b' '));
}

#[test]
fn get_and_getx_scenario() {
    let tree = branchify(&[("GET", "Get"), ("GETX", "GetX")], true).unwrap();
    let rules = Rules { end: b' ', max_len: 10, valid: letters() };
    assert_eq!(run_matcher(&tree, b"GET ", &rules), known("Get"));
    assert_eq!(run_matcher(&tree, b"GETX ", &rules), known("GetX"));
    assert_eq!(run_matcher(&tree, b"GE ", &rules), unknown("GE"));
    assert_eq!(run_matcher(&tree, b"POST ", &rules), unknown("POST"));
    assert_eq!(run_matcher(&tree, b"GETXY", &rules), Outcome::NoMatch);
    let short = Rules { end: b' ', max_len: 4, valid: letters() };
    assert_eq!(run_matcher(&tree, b"GETXY ", &short), Outcome::NoMatch);
}

#[test]
fn every_byte_valid_does_not_lift_the_maximum() {
    let tree = branchify(&[("GET", "Get"), ("GETX", "GetX")], true).unwrap();
    let mut valid = Vec::new();
    for b in 0..=255u8 {
        valid.push(b);
    }
    let rules = Rules { end: b' ', max_len: 4, valid };
    assert_eq!(run_matcher(&tree, b"GETXY ", &rules), Outcome::NoMatch);
    assert_eq!(run_matcher(&tree, b"GETX ", &rules), known("GetX"));
}
