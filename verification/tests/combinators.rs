use parser_combinator::base_parsers::{identifier, whitespace, EmptyMatch, Token};
use parser_combinator::parsers::{
    and, fail, inject, left, maybe, nothing, one_or_more, or, parse_if, parse_if_or_err, right,
    starts_with, while_, Input, NullObserver, Parser, SecondFn,
};

fn chars(s: &str) -> Vec<char> {
    s.chars().collect()
}

#[test]
fn test_and_parser() {
    let src = chars("Hello World");
    let parser = and(identifier(), whitespace());
    let (rem, (a, b)) = parser.parse(Input::new(&src)).expect("parse is ok");
    assert_eq!(chars("Hello"), a.text);
    assert_eq!(chars(" "), b.text);
    assert_eq!(chars("World"), rem.rest());
}

#[test]
fn test_map_parser() {
    let src = chars("Hello World");
    let parser = and(identifier(), whitespace());
    let parser = parser_combinator::parsers::map(parser, SecondFn::new());
    let (rem, b) = parser.parse(Input::new(&src)).expect("parse is ok");
    assert_eq!(chars(" "), b.text);
    assert_eq!(chars("World"), rem.rest());
}

#[test]
fn test_right_parser() {
    let src = chars("Hello World");
    let parser = right(identifier(), whitespace());
    let (rem, b) = parser.parse(Input::new(&src)).expect("parse is ok");
    assert_eq!(chars(" "), b.text);
    assert_eq!(chars("World"), rem.rest());
}

#[test]
fn test_left_parser() {
    let src = chars("Hello World");
    let parser = left(identifier(), whitespace());
    let (rem, a) = parser.parse(Input::new(&src)).expect("parse is ok");
    assert_eq!(chars("Hello"), a.text);
    assert_eq!(chars("World"), rem.rest());
}

#[test]
fn test_or_parser() {
    // First succeeds
    let src = chars("Hello World");
    let parser = or(identifier(), whitespace());
    let (rem, out) = parser.parse(Input::new(&src)).expect("parse is ok");
    assert_eq!(chars("Hello"), out.text);
    assert_eq!(chars(" World"), rem.rest());

    // Second succeeds
    let src = chars(" Hello World");
    let parser = or(identifier(), whitespace());
    let (rem, out) = parser.parse(Input::new(&src)).expect("parse is ok");
    assert_eq!(chars(" "), out.text);
    assert_eq!(chars("Hello World"), rem.rest());
}

#[test]
fn test_while_parser() {
    let src = chars("Hello World ");
    let parser = while_(left(identifier(), whitespace()));
    let (rem, out) = parser.parse(Input::new(&src)).expect("parse is ok");
    let texts: Vec<Vec<char>> = out.into_iter().map(|t| t.text).collect();
    assert_eq!(vec![chars("Hello"), chars("World")], texts);
    assert_eq!(chars(""), rem.rest());

    let src = chars("12345");
    let parser = while_(left(identifier(), whitespace()));
    let (rem, out) = parser.parse(Input::new(&src)).expect("parse is ok");
    assert!(out.is_empty());
    assert_eq!(chars("12345"), rem.rest());
}

#[test]
fn test_one_or_more_parser() {
    let src = chars("Hello World ");
    let parser = one_or_more(left(identifier(), whitespace()));
    let (rem, out) = parser.parse(Input::new(&src)).expect("parse is ok");
    let texts: Vec<Vec<char>> = out.into_iter().map(|t| t.text).collect();
    assert_eq!(vec![chars("Hello"), chars("World")], texts);
    assert_eq!(chars(""), rem.rest());

    let src = chars("Hello World");
    let parser = one_or_more(left(identifier(), whitespace()));
    let (rem, out) = parser.parse(Input::new(&src)).expect("parse is ok");
    let texts: Vec<Vec<char>> = out.into_iter().map(|t| t.text).collect();
    assert_eq!(vec![chars("Hello")], texts);
    assert_eq!(chars("World"), rem.rest());

    let src = chars("12345");
    let parser = one_or_more(left(identifier(), whitespace()));
    assert_eq!(
        Err(String::from("Could not parse '\\A[a-zA-Z_][a-zA-Z0-9_]*'")),
        parser.parse(Input::new(&src)).map(|_| ())
    );

    let src = chars("Hello World");
    let blank = parser_combinator::parsers::map(nothing(), EmptyMatch);
    let parser = one_or_more(left(identifier(), or(whitespace(), blank)));
    let (rem, out) = parser.parse(Input::new(&src)).expect("parse is ok");
    let texts: Vec<Vec<char>> = out.into_iter().map(|t| t.text).collect();
    assert_eq!(vec![chars("Hello"), chars("World")], texts);
    assert_eq!(chars(""), rem.rest());

    let src = chars("Hello World 12345");
    let blank = parser_combinator::parsers::map(nothing(), EmptyMatch);
    let parser = one_or_more(left(identifier(), or(whitespace(), blank)));
    let (rem, out) = parser.parse(Input::new(&src)).expect("parse is ok");
    let texts: Vec<Vec<char>> = out.into_iter().map(|t| t.text).collect();
    assert_eq!(vec![chars("Hello"), chars("World")], texts);
    assert_eq!(chars("12345"), rem.rest());
}

#[test]
fn test_parse_if_parser() {
    let src = chars("Hello World");
    let parser = parse_if(left(identifier(), whitespace()), starts_with("H"));
    let (rem, out) = parser.parse(Input::new(&src)).expect("parse is ok");
    assert_eq!(chars("Hello"), out.expect("an output").text);
    assert_eq!(chars("World"), rem.rest());

    let src = chars("Bye World");
    let parser = parse_if(left(identifier(), whitespace()), starts_with("H"));
    let (rem, out) = parser.parse(Input::new(&src)).expect("parse is ok");
    assert!(out.is_none());
    assert_eq!(chars("Bye World"), rem.rest());
}

#[test]
fn test_parse_if_or_err_parser() {
    let src = chars("ident1");
    let parser = parse_if_or_err(identifier(), "Not valid".to_string(), starts_with("i"));
    let (rem, out) = parser.parse(Input::new(&src)).expect("parse is ok");
    assert_eq!(chars("ident1"), out.text);
    assert_eq!(chars(""), rem.rest());

    let src = chars("1ident");
    let parser = parse_if_or_err(identifier(), "Not valid".to_string(), starts_with("i"));
    assert_eq!(
        Err("Not valid".to_string()),
        parser.parse(Input::new(&src)).map(|_| ())
    );
}

#[test]
fn test_nothing_parser() {
    let src = chars("anything");
    let r: Result<(Input, ()), String> = nothing().parse(Input::new(&src));
    let (rem, ()) = r.expect("always succeeds");
    assert_eq!(chars("anything"), rem.rest());
}

#[test]
fn test_fail_parser() {
    let src = chars("anything");
    let parser = fail::<Token, String>("boom".to_string());
    assert_eq!(
        Err("boom".to_string()),
        parser.parse(Input::new(&src)).map(|_| ())
    );
}

#[test]
fn test_while_never_fails() {
    // even a parser that always fails repeats into an empty, successful list
    let src = chars("abc");
    let parser = while_(fail::<Token, String>("nope".to_string()));
    let (rem, out) = parser.parse(Input::new(&src)).expect("never fails");
    assert!(out.is_empty());
    assert_eq!(chars("abc"), rem.rest());
}

#[test]
fn test_maybe_keeps_input_on_failure() {
    let src = chars("12345");
    let parser = maybe(identifier());
    let (rem, out) = parser.parse(Input::new(&src)).expect("never fails");
    assert!(out.is_none());
    assert_eq!(chars("12345"), rem.rest());

    let src = chars("ident rest");
    let parser = maybe(identifier());
    let (rem, out) = parser.parse(Input::new(&src)).expect("never fails");
    assert_eq!(chars("ident"), out.expect("an output").text);
    assert_eq!(chars(" rest"), rem.rest());
}

#[test]
fn test_inject_leaves_result_untouched() {
    let src = chars("Hello World");
    let parser = inject(identifier(), NullObserver);
    let (rem, out) = parser.parse(Input::new(&src)).expect("parse is ok");
    assert_eq!(chars("Hello"), out.text);
    assert_eq!(chars(" World"), rem.rest());
}

#[test]
fn test_consumed_prefix_and_remainder_reconstruct_input() {
    let src = chars("Hello World");
    let (rem, out) = identifier().parse(Input::new(&src)).expect("parse is ok");
    let mut rebuilt = out.text.clone();
    rebuilt.extend(rem.rest());
    assert_eq!(src, rebuilt);
}
