use clicktrack::pattern as pat;
use clicktrack::pattern::{parse, FailureCode, Note, ParseError, PatternItem, Velocity};

fn single(key: u8, vel: Velocity) -> PatternItem {
    PatternItem::Notes(vec![Note { key, vel }])
}

#[test]
fn rest() {
    assert_eq!(pat::rest("r").unwrap(), ("".to_string(), PatternItem::Rest));
}

#[test]
fn key() {
    assert_eq!(pat::key("m").unwrap(), ("".to_string(), 32));
    assert_eq!(pat::key("h").unwrap(), ("".to_string(), 42));
    assert_eq!(pat::key("c").unwrap(), ("".to_string(), 75));
    assert_eq!(pat::key("b").unwrap(), ("".to_string(), 35));
    assert_eq!(pat::key("s").unwrap(), ("".to_string(), 38));

    assert_eq!(pat::key("2").unwrap(), ("".to_string(), 2));
    assert_eq!(pat::key("32").unwrap(), ("".to_string(), 32));
    assert_eq!(pat::key("102").unwrap(), ("".to_string(), 102));
}

#[test]
fn velocity() {
    assert_eq!(pat::velocity("").unwrap(), ("".to_string(), Velocity::Default));
    assert_eq!(pat::velocity(",").unwrap(), ("".to_string(), Velocity::Ghosted));
    assert_eq!(pat::velocity(">").unwrap(), ("".to_string(), Velocity::Accented));
}

#[test]
fn note() {
    assert_eq!(
        pat::note("c>").unwrap(),
        ("".to_string(), Note { key: 75, vel: Velocity::Accented })
    );
    assert_eq!(
        pat::note("h,").unwrap(),
        ("".to_string(), Note { key: 42, vel: Velocity::Ghosted })
    );
    assert_eq!(
        pat::note("m").unwrap(),
        ("".to_string(), Note { key: 32, vel: Velocity::Default })
    );
}

#[test]
fn bad_pattern() {
    assert_eq!(
        Err("error parsing pattern `???`: Error(Error { input: \"???\", code: Char })".to_string()),
        parse("???").map_err(|e| e.message("???"))
    );
    assert_eq!(
        Err("invalid pattern, unexpected `.`".to_string()),
        parse("r.").map_err(|e| e.message("r."))
    );
}

#[test]
fn parse_pattern() {
    assert_eq!(
        &[PatternItem::Rest, PatternItem::Rest, PatternItem::Rest],
        parse("rrr").unwrap().as_slice()
    );
    let expected = [
        single(32, Velocity::Accented),
        single(32, Velocity::Default),
        single(75, Velocity::Ghosted),
        PatternItem::Rest,
        single(42, Velocity::Default),
    ];
    assert_eq!(&expected, parse("m>mc,rh").unwrap().as_slice());
    assert_eq!(&expected, parse("m>m   c, r h").unwrap().as_slice());
    assert_eq!(
        &[
            PatternItem::Notes(vec![
                Note { key: 75, vel: Velocity::Default },
                Note { key: 42, vel: Velocity::Default },
            ]),
            PatternItem::Notes(vec![
                Note { key: 75, vel: Velocity::Accented },
                Note { key: 42, vel: Velocity::Ghosted },
            ]),
            single(75, Velocity::Default),
            single(42, Velocity::Default),
        ],
        parse("(ch)(c>h,)ch").unwrap().as_slice()
    );
}

#[test]
fn rejection_kinds() {
    assert_eq!(
        parse("???"),
        Err(ParseError::Grammar { at: 0, code: FailureCode::ExpectedChar, input: "???".to_string() })
    );
    assert_eq!(parse("r."), Err(ParseError::Trailing { at: 1, rest: ".".to_string() }));
    assert_eq!(parse(""), Err(ParseError::Empty));
    assert_eq!(parse(" \t\n"), Err(ParseError::Empty));
    assert_eq!(ParseError::Empty.message(""), "empty pattern");
}

#[test]
fn grammar_error_inside_chord() {
    assert_eq!(
        parse("(c"),
        Err(ParseError::Grammar { at: 2, code: FailureCode::ExpectedChar, input: "".to_string() })
    );
    assert_eq!(
        parse("(300)"),
        Err(ParseError::Grammar { at: 1, code: FailureCode::KeyOutOfRange, input: "300)".to_string() })
    );
    assert_eq!(
        parse("( x)"),
        Err(ParseError::Grammar { at: 2, code: FailureCode::ExpectedDigit, input: "x)".to_string() })
    );
    assert_eq!(
        parse("(c\"x"),
        Err(ParseError::Grammar { at: 2, code: FailureCode::ExpectedChar, input: "\"x".to_string() })
    );
    assert_eq!(
        parse("(c\"x").map_err(|e| e.message("(c\"x")),
        Err("error parsing pattern `(c\"x`: Error(Error { input: \"\\\"x\", code: Char })".to_string())
    );
}

#[test]
fn digit_keys() {
    assert_eq!(pat::key("255").unwrap(), ("".to_string(), 255));
    assert_eq!(pat::key("007x").unwrap(), ("x".to_string(), 7));
    assert_eq!(pat::key("256"), Err((0, FailureCode::KeyOutOfRange)));
    assert_eq!(pat::key("x"), Err((0, FailureCode::ExpectedDigit)));
    assert_eq!(
        parse("256"),
        Err(ParseError::Grammar { at: 0, code: FailureCode::ExpectedChar, input: "256".to_string() })
    );
    assert_eq!(parse("r256"), Err(ParseError::Trailing { at: 1, rest: "256".to_string() }));
    assert_eq!(parse("12 3").unwrap(), vec![single(12, Velocity::Default), single(3, Velocity::Default)]);
    assert_eq!(parse("123").unwrap(), vec![single(123, Velocity::Default)]);
    assert_eq!(
        parse("b s,").unwrap(),
        vec![single(35, Velocity::Default), single(38, Velocity::Ghosted)]
    );
}

#[test]
fn whitespace_between_and_inside_items() {
    assert_eq!(
        parse("( c\t h )\n r").unwrap(),
        vec![
            PatternItem::Notes(vec![
                Note { key: 75, vel: Velocity::Default },
                Note { key: 42, vel: Velocity::Default },
            ]),
            PatternItem::Rest,
        ]
    );
    assert_eq!(pat::rest("r  m").unwrap(), ("m".to_string(), PatternItem::Rest));
    assert_eq!(pat::note("c > ").unwrap(), ("> ".to_string(), Note { key: 75, vel: Velocity::Default }));
    assert_eq!(pat::rest("m"), Err((0, FailureCode::ExpectedChar)));
}
