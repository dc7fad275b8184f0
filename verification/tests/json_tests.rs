use parser_combinator::base_parsers::Token;
use parser_combinator::json_ast::Json;
use parser_combinator::json_parser::{
    false_, json, null_, number, string, string_content, terminal_value, true_, value,
};
use parser_combinator::parsers::{Input, Parser};
use parser_combinator::source_range::{SourceRange, Span, ToRangeOption};

fn chars(s: &str) -> Vec<char> {
    s.chars().collect()
}

fn tok(s: &str) -> Token {
    Token {
        text: s.chars().collect(),
        span: Span { start: 0, end: 0 },
    }
}

fn jstr(s: &str) -> Json {
    Json::String { elem: tok(s) }
}

fn jnum(s: &str) -> Json {
    Json::Number { elem: tok(s) }
}

fn jtrue() -> Json {
    Json::True { elem: tok("true") }
}

fn jobj(elem: Vec<(Json, Json)>) -> Json {
    Json::Object { elem }
}

fn jarr(elem: Vec<Json>) -> Json {
    Json::Array { elem }
}

fn assert_terminal(source: &str, expected: &Json) {
    let src = chars(source);
    let (rem, out) = terminal_value()
        .parse(Input::new(&src))
        .expect("parse is ok");
    assert_eq!(chars(""), rem.rest());
    assert!(out.content_eq(expected), "wrong node for {}", source);
}

#[test]
fn terminal_json_value_demo() {
    assert_terminal("true", &jtrue());
    assert_terminal("false", &Json::False { elem: tok("false") });
    assert_terminal("null", &Json::Null { elem: tok("null") });

    assert_terminal("0.64", &jnum("0.64"));
    assert_terminal("-1", &jnum("-1"));
    assert_terminal("42", &jnum("42"));

    assert_terminal("\"foo\"", &jstr("foo"));
    assert_terminal("\"\\\\\"", &jstr("\\\\"));
    assert_terminal("\"\\CODE\"", &jstr("\\CODE"));
    assert_terminal("\"two words\"", &jstr("two words"));
}

#[test]
fn test_object() {}

#[test]
fn json_demo_1() {
    assert!(json("{}").is_ok());
    let parsed = json("{}").expect("parse is ok");
    assert!(parsed.content_eq(&jobj(vec![])));
}

#[test]
fn json_demo_2() {
    let parsed = json(
        "{ \
        \"foo\": \"bar\" \
    }",
    )
    .expect("parse is ok");
    assert!(parsed.content_eq(&jobj(vec![(jstr("foo"), jstr("bar"))])));
}

#[test]
fn json_demo_3() {
    let parsed = json(
        "{ \
        \"foo\": \"bar\", \
        \"2nd_key\" : true \
    }",
    )
    .expect("parse is ok");
    assert!(parsed.content_eq(&jobj(vec![
        (jstr("foo"), jstr("bar")),
        (jstr("2nd_key"), jtrue()),
    ])));
}

#[test]
fn json_demo_4() {
    let parsed = json("[ \"bar\" ]").expect("parse is ok");
    assert!(parsed.content_eq(&jarr(vec![jstr("bar")])));
}

#[test]
fn json_demo_5() {
    let parsed = json("[\"bar\", \"foo\", true]").expect("parse is ok");
    assert!(parsed.content_eq(&jarr(vec![jstr("bar"), jstr("foo"), jtrue()])));
}

#[test]
fn json_demo_6() {
    let parsed = json("[\"bar\", \"foo\", true, {\"name\": \"bob\"}]").expect("parse is ok");
    assert!(parsed.content_eq(&jarr(vec![
        jstr("bar"),
        jstr("foo"),
        jtrue(),
        jobj(vec![(jstr("name"), jstr("bob"))]),
    ])));
}

#[test]
fn json_demo_7() {
    let parsed = json(
        "{ \
    \"value\": [\
        \"bar\", \
        \"foo\", \
        true, \
        {\"name\": \"bob\"}\
    ]}",
    )
    .expect("parse is ok");
    assert!(parsed.content_eq(&jobj(vec![(
        jstr("value"),
        jarr(vec![
            jstr("bar"),
            jstr("foo"),
            jtrue(),
            jobj(vec![(jstr("name"), jstr("bob"))]),
        ]),
    )])));
}

#[test]
fn json_demo_sample() {
    let sample = "{\n  \"name\": \"sample\",\n  \"version\": 3,\n  \"active\": true,\n  \"tags\": [\"a\", \"b\", \"c\"],\n  \"owner\": { \"id\": 42, \"aliases\": [null, \"admin\"] },\n  \"ratio\": -0.25,\n  \"big\": 6.02e23\n}";
    assert!(json(sample).is_ok());
}

#[test]
fn json_nested_mixed_document() {
    let parsed = json("{\"a\": [1, {\"b\": null}]}").expect("parse is ok");
    assert!(parsed.content_eq(&jobj(vec![(
        jstr("a"),
        jarr(vec![
            jnum("1"),
            jobj(vec![(jstr("b"), Json::Null { elem: tok("null") })]),
        ]),
    )])));
}

#[test]
fn json_rejects_missing_value() {
    assert!(json("{\"a\": }").is_err());
}

#[test]
fn json_rejects_trailing_text() {
    match json("{} tail") {
        Err(e) => assert_eq!("Unexpected trailing characters", e),
        Ok(_) => panic!("trailing input must be rejected"),
    }
}

#[test]
fn json_rejects_bare_terminal_document() {
    assert!(json("true").is_err());
    assert!(json("\"foo\"").is_err());
}

#[test]
fn json_keywords_are_case_sensitive() {
    assert!(json("[TRUE]").is_err());
    assert!(json("[True]").is_err());
    assert!(json("[true]").is_ok());
}

#[test]
fn string_content_stops_at_quote() {
    let src = chars("ab\"rest");
    let (rem, out) = string_content(Input::new(&src)).expect("parse is ok");
    assert_eq!(chars("ab"), out.text);
    assert_eq!(chars("\"rest"), rem.rest());
}

#[test]
fn string_content_rejects_truncated_escape() {
    let src = chars("ab\\");
    assert_eq!(
        Err("Unexpected end of stream here".to_string()),
        string_content(Input::new(&src)).map(|_| ())
    );
}

#[test]
fn terminal_parsers_match_their_keywords() {
    let src = chars("true rest");
    let (rem, out) = true_().parse(Input::new(&src)).expect("parse is ok");
    assert!(out.content_eq(&jtrue()));
    assert_eq!(chars(" rest"), rem.rest());

    let src = chars("false");
    let (_, out) = false_().parse(Input::new(&src)).expect("parse is ok");
    assert!(out.content_eq(&Json::False { elem: tok("false") }));

    let src = chars("null");
    let (_, out) = null_().parse(Input::new(&src)).expect("parse is ok");
    assert!(out.content_eq(&Json::Null { elem: tok("null") }));

    let src = chars("12.5");
    let (_, out) = number().parse(Input::new(&src)).expect("parse is ok");
    assert!(out.content_eq(&jnum("12.5")));

    let src = chars("\"hi\"");
    let (_, out) = string().parse(Input::new(&src)).expect("parse is ok");
    assert!(out.content_eq(&jstr("hi")));

    let src = chars("[1]");
    let (_, out) = value().parse(Input::new(&src)).expect("parse is ok");
    assert!(out.content_eq(&jarr(vec![jnum("1")])));
}

#[test]
fn source_range_round_trips_terminal_spans() {
    let src = chars("[\"bar\"]");
    let parsed = json("[\"bar\"]").expect("parse is ok");
    let inner = match &parsed {
        Json::Array { elem } => &elem[0],
        _ => panic!("expected an array"),
    };
    let span = inner.source_range(&src).expect("a derivable range");
    assert_eq!(Span { start: 2, end: 5 }, span);
    let stored = match inner {
        Json::String { elem } => elem.text.clone(),
        _ => panic!("expected a string"),
    };
    assert_eq!(src[span.start..span.end].to_vec(), stored);

    // the array's range runs from its first child's start to its last
    // child's end
    assert_eq!(Some(Span { start: 2, end: 5 }), parsed.source_range(&src));
}

#[test]
fn source_range_of_object_spans_first_key_to_last_value() {
    // key "a" spans [2,3); the value 1 spans [6,7)
    let src = chars("{\"a\": 1}");
    let parsed = json("{\"a\": 1}").expect("parse is ok");
    assert_eq!(Some(2), parsed.source_range_start(&src));
    assert_eq!(Some(7), parsed.source_range_end(&src));
}

#[test]
fn json_rejects_trailing_comma() {
    assert!(json("{\"a\": 1,}").is_err());
    assert!(json("[1,]").is_err());
    assert!(json("[1, 2,]").is_err());
}

#[test]
fn json_requires_commas_between_items() {
    assert!(json("{\"a\": 1 \"b\": 2}").is_err());
    assert!(json("[1 2]").is_err());
    assert!(json("{\"a\": 1, \"b\": 2}").is_ok());
    assert!(json("[1, 2]").is_ok());
}

#[test]
fn json_accepts_white_space_in_empty_containers() {
    let parsed = json("[ ]").expect("parse is ok");
    assert!(parsed.content_eq(&jarr(vec![])));
    let parsed = json("{ }").expect("parse is ok");
    assert!(parsed.content_eq(&jobj(vec![])));
}

#[test]
fn source_range_of_empty_composite_is_none() {
    let src = chars("{}");
    let parsed = json("{}").expect("parse is ok");
    assert_eq!(None, parsed.source_range(&src));

    // a node whose claimed place falls outside the buffer has no
    // derivable range there
    let stray = Json::String {
        elem: Token {
            text: chars("zz"),
            span: Span { start: 5, end: 99 },
        },
    };
    assert_eq!(None, stray.source_range(&src));
}

#[test]
fn to_range_combines_optional_endpoints() {
    assert_eq!(
        Some(Span { start: 1, end: 7 }),
        (Some(1usize), Some(7usize)).to_range()
    );
    assert_eq!(None, (Some(1usize), None).to_range());
    assert_eq!(None, (None, Some(7usize)).to_range());
}
