use parser_combinator::base_parsers::{
    literal, matching, newline, not_newline, not_whitespace, one_newline, whitespace,
    whitespace_no_newline, Pattern,
};
use parser_combinator::parsers::{Input, Parser};
use parser_combinator::source_range::{SourceRange, Span};

fn chars(s: &str) -> Vec<char> {
    s.chars().collect()
}

#[test]
fn test_whitespace_no_newline() {
    let src = chars(" \t\r\n");
    let (rem, out) = whitespace_no_newline()
        .parse(Input::new(&src))
        .expect("parse is ok");
    assert_eq!(chars(" \t"), out.text);
    assert_eq!(chars("\r\n"), rem.rest());
}

#[test]
fn test_whitespace_no_newline_2() {
    let src = chars("\r\n\r\n");
    assert!(whitespace_no_newline().parse(Input::new(&src)).is_err());
}

#[test]
fn test_newline() {
    let tab = chars("\t");
    assert!(newline().parse(Input::new(&tab)).is_err());
    let space = chars(" ");
    assert!(newline().parse(Input::new(&space)).is_err());

    let lf = chars("\n");
    assert!(newline().parse(Input::new(&lf)).is_ok());
    let crlf = chars("\r\n");
    assert!(newline().parse(Input::new(&crlf)).is_ok());
}

#[test]
fn test_newline_2() {
    let src = chars("\n\t");
    let (rem, out) = newline().parse(Input::new(&src)).expect("parse is ok");
    assert_eq!(chars("\n"), out.text);
    assert_eq!(chars("\t"), rem.rest());
}

#[test]
fn test_one_newline() {
    let src = chars("\n\n");
    let (rem, out) = one_newline().parse(Input::new(&src)).expect("parse is ok");
    assert_eq!(chars("\n"), out.text);
    assert_eq!(chars("\n"), rem.rest());
}

#[test]
fn test_not_whitespace() {
    let src = chars("a#@^%$6\n ");
    let (rem, out) = not_whitespace()
        .parse(Input::new(&src))
        .expect("parse is ok");
    assert_eq!(chars("a#@^%$6"), out.text);
    assert_eq!(chars("\n "), rem.rest());
}

#[test]
fn test_not_newline() {
    let src = chars("a#@^%$6 \n");
    let (rem, out) = not_newline().parse(Input::new(&src)).expect("parse is ok");
    assert_eq!(chars("a#@^%$6 "), out.text);
    assert_eq!(chars("\n"), rem.rest());
}

#[test]
fn test_whitespace_takes_unicode_spaces() {
    let src = chars("\u{2028}\u{00A0} x");
    let (rem, out) = whitespace().parse(Input::new(&src)).expect("parse is ok");
    assert_eq!(chars("\u{2028}\u{00A0} "), out.text);
    assert_eq!(chars("x"), rem.rest());
}

#[test]
fn test_literal_is_case_insensitive() {
    let src = chars(" foo");
    let (rem, out) = literal(" foo").parse(Input::new(&src)).expect("parse is ok");
    assert_eq!(chars(" foo"), out.text);
    assert_eq!(chars(""), rem.rest());

    // the matched text keeps the input's own case
    let src = chars("fOO bar");
    let (rem, out) = literal("Foo").parse(Input::new(&src)).expect("parse is ok");
    assert_eq!(chars("fOO"), out.text);
    assert_eq!(chars(" bar"), rem.rest());

    let src = chars("fo");
    assert_eq!(
        Err("Could not parse 'foo'".to_string()),
        literal("foo").parse(Input::new(&src)).map(|_| ())
    );

    // case folding covers the whole of Unicode, not only ASCII
    let src = chars("\u{e9}?");
    let (rem, out) = literal("\u{c9}").parse(Input::new(&src)).expect("parse is ok");
    assert_eq!(chars("\u{e9}"), out.text);
    assert_eq!(chars("?"), rem.rest());
}

#[test]
fn test_matching_number_pattern() {
    let src = chars("-2.4");
    let (rem, out) = matching(Pattern::JsonNumber)
        .parse(Input::new(&src))
        .expect("parse is ok");
    assert_eq!(chars("-2.4"), out.text);
    assert_eq!(chars(""), rem.rest());

    let src = chars("NaN");
    assert!(matching(Pattern::JsonNumber).parse(Input::new(&src)).is_err());

    // no redundant leading zero: only the zero itself matches
    let src = chars("01");
    let (rem, out) = matching(Pattern::JsonNumber)
        .parse(Input::new(&src))
        .expect("parse is ok");
    assert_eq!(chars("0"), out.text);
    assert_eq!(chars("1"), rem.rest());

    // an exponent without digits is not part of the match
    let src = chars("1e+");
    let (rem, out) = matching(Pattern::JsonNumber)
        .parse(Input::new(&src))
        .expect("parse is ok");
    assert_eq!(chars("1"), out.text);
    assert_eq!(chars("e+"), rem.rest());

    let src = chars("6.02e23 rest");
    let (rem, out) = matching(Pattern::JsonNumber)
        .parse(Input::new(&src))
        .expect("parse is ok");
    assert_eq!(chars("6.02e23"), out.text);
    assert_eq!(chars(" rest"), rem.rest());
}

#[test]
fn test_token_span_is_recorded() {
    let src = chars("  ");
    // spans of matched tokens name the place in the buffer
    let ws = whitespace().parse(Input::new(&src)).expect("parse is ok").1;
    assert_eq!(0, ws.span.start);
    assert_eq!(2, ws.span.end);
    // and a token derived from the buffer reports its range in it
    assert_eq!(Some(Span { start: 0, end: 2 }), ws.source_range(&src));
    let tiny = chars(" ");
    assert_eq!(None, ws.source_range(&tiny));
}
