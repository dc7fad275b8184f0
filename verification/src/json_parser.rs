//! The JSON grammar: object, array, value and terminal parsers producing
//! the JSON syntax tree.
//!
//! Each grammar rule has its meaning written out as a specification
//! function over the buffer and a position; the executable rules are proved
//! to return exactly what those functions describe.  The grammar follows
//! JSON: a document is an object or an array; values are objects, arrays,
//! strings, numbers, or the keywords `true`, `false` and `null` (matched
//! case-sensitively); every value and pair consumes the white space that
//! follows it.

use crate::base_parsers::{
    MatchP, Pattern, Token, TokenV, copy_range, could_not_parse, could_not_parse_msg, matching,
    pattern_end, pattern_text, lemma_pattern_end_bounds, token_at,
};
use crate::json_ast::{Json, JsonV, from_source, lemma_pairs_deep_view, lemma_values_deep_view};
use crate::parsers::{Input, Parser, PredFn, StartsWith, to_chars, lemma_deep_view_push};
use crate::source_range::Span;
use vstd::prelude::*;

verus! {

/// Where optional white space starting at `pos` ends: the end of the
/// white-space run, or `pos` itself when none is there.
pub open spec fn ws_end(src: Seq<char>, pos: int) -> int {
    match pattern_end(src, pos, Pattern::Whitespace) {
        Some(e) => e,
        None => pos,
    }
}

/// Optional white space neither moves backwards nor leaves the buffer.
pub proof fn lemma_ws_end_bounds(src: Seq<char>, pos: int)
    requires
        0 <= pos <= src.len(),
    ensures
        pos <= ws_end(src, pos) <= src.len(),
{
    lemma_pattern_end_bounds(src, pos, Pattern::Whitespace);
}

/// Where the raw content of a string starting at `i` ends: scanning stops
/// at an unescaped quote or at the end of the input; a backslash always
/// consumes the following character too, and a trailing backslash with
/// nothing after it is a failure (`None`).
pub open spec fn content_end(src: Seq<char>, i: int) -> Option<int>
    decreases src.len() - i,
{
    if i >= src.len() {
        Some(i)
    } else if src[i] == '"' {
        Some(i)
    } else if src[i] == '\\' {
        if i + 1 < src.len() {
            content_end(src, i + 2)
        } else {
            None
        }
    } else {
        content_end(src, i + 1)
    }
}

/// String content neither moves backwards nor leaves the buffer.
pub proof fn lemma_content_end_bounds(src: Seq<char>, i: int)
    requires
        0 <= i <= src.len(),
    ensures
        content_end(src, i) matches Some(e) ==> i <= e <= src.len(),
    decreases src.len() - i,
{
    if i < src.len() && src[i] != '"' {
        if src[i] == '\\' {
            if i + 1 < src.len() {
                lemma_content_end_bounds(src, i + 2);
            }
        } else {
            lemma_content_end_bounds(src, i + 1);
        }
    }
}

/// What the string-content scanner returns at `pos`: the raw characters up
/// to the closing quote or the end of input, or the truncated-escape error.
pub open spec fn spec_string_content(src: Seq<char>, pos: int) -> Result<(int, TokenV), Seq<char>> {
    match content_end(src, pos) {
        Some(e) => Ok((e, token_at(src, pos, e))),
        None => Err("Unexpected end of stream here"@),
    }
}

/// What the string parser returns at `pos`: a quote, the raw content, and a
/// closing quote; the token holds the content between the quotes.
pub open spec fn spec_string(src: Seq<char>, pos: int) -> Result<(int, TokenV), Seq<char>> {
    if !(0 <= pos && pos < src.len() && src[pos] == '"') {
        Err(could_not_parse_msg("\""@))
    } else {
        match content_end(src, pos + 1) {
            None => Err("Unexpected end of stream here"@),
            Some(e) => if e < src.len() && src[e] == '"' {
                Ok((e + 1, token_at(src, pos + 1, e)))
            } else {
                Err(could_not_parse_msg("\""@))
            },
        }
    }
}

/// A successful string match starts with its quote in the buffer and ends
/// no further than the buffer's end.
pub proof fn lemma_spec_string_bounds(src: Seq<char>, pos: int)
    ensures
        spec_string(src, pos) matches Ok((q, _)) ==> 0 <= pos && pos + 2 <= q <= src.len(),
{
    if 0 <= pos && pos < src.len() && src[pos] == '"' {
        lemma_content_end_bounds(src, pos + 1);
    }
}

/// What the number parser returns at `pos`: the longest JSON number
/// anchored there, or a failure naming the number pattern.
pub open spec fn spec_number(src: Seq<char>, pos: int) -> Result<(int, TokenV), Seq<char>> {
    match pattern_end(src, pos, Pattern::JsonNumber) {
        Some(e) => Ok((e, token_at(src, pos, e))),
        None => Err(could_not_parse_msg(pattern_text(Pattern::JsonNumber))),
    }
}

/// The word `word` stands at `pos` in `src`, letter for letter.
pub open spec fn keyword_at(src: Seq<char>, pos: int, word: Seq<char>) -> bool {
    &&& 0 <= pos
    &&& pos + word.len() <= src.len()
    &&& src.subrange(pos, pos + word.len()) == word
}

/// What a bare terminal parse returns at `pos`: a string, a number, or one
/// of the keywords `true`, `false` and `null` (in that order of attempts,
/// each matched case-sensitively); when none matches, the failure reported
/// is the last alternative's.
pub open spec fn spec_bare_terminal(src: Seq<char>, pos: int) -> Result<(int, JsonV), Seq<char>> {
    match spec_string(src, pos) {
        Ok((e, t)) => Ok((e, JsonV::String { elem: t })),
        Err(_) => match spec_number(src, pos) {
            Ok((e, t)) => Ok((e, JsonV::Number { elem: t })),
            Err(_) => if keyword_at(src, pos, "true"@) {
                Ok((pos + 4, JsonV::True { elem: token_at(src, pos, pos + 4) }))
            } else if keyword_at(src, pos, "false"@) {
                Ok((pos + 5, JsonV::False { elem: token_at(src, pos, pos + 5) }))
            } else if keyword_at(src, pos, "null"@) {
                Ok((pos + 4, JsonV::Null { elem: token_at(src, pos, pos + 4) }))
            } else {
                Err(could_not_parse_msg("null"@))
            },
        },
    }
}

/// What the terminal-value parser returns at `pos`: a bare terminal, with
/// the white space after it consumed.
pub open spec fn spec_terminal_value(src: Seq<char>, pos: int) -> Result<(int, JsonV), Seq<char>> {
    match spec_bare_terminal(src, pos) {
        Ok((e, v)) => Ok((ws_end(src, e), v)),
        Err(e) => Err(e),
    }
}

/// A successful bare terminal stays inside the buffer.
pub proof fn lemma_spec_bare_terminal_bounds(src: Seq<char>, pos: int)
    requires
        0 <= pos <= src.len(),
    ensures
        spec_bare_terminal(src, pos) matches Ok((q, _)) ==> pos <= q <= src.len(),
{
    lemma_spec_string_bounds(src, pos);
    lemma_pattern_end_bounds(src, pos, Pattern::JsonNumber);
    reveal_strlit("true");
    reveal_strlit("false");
    reveal_strlit("null");
}

/// A successful terminal value stays inside the buffer.
pub proof fn lemma_spec_terminal_value_bounds(src: Seq<char>, pos: int)
    requires
        0 <= pos <= src.len(),
    ensures
        spec_terminal_value(src, pos) matches Ok((q, _)) ==> pos <= q <= src.len(),
{
    lemma_spec_bare_terminal_bounds(src, pos);
    if let Ok((e, _)) = spec_bare_terminal(src, pos) {
        lemma_ws_end_bounds(src, e);
    }
}

/// What the value parser returns at `pos`: an object, an array, or a
/// terminal value, tried in that order; when all fail, the failure reported
/// is the terminal parser's.
pub open spec fn spec_value(src: Seq<char>, pos: int) -> Result<(int, JsonV), Seq<char>>
    decreases src.len() - pos, 2int,
{
    match spec_object(src, pos) {
        Ok(r) => Ok(r),
        Err(_) => match spec_array(src, pos) {
            Ok(r) => Ok(r),
            Err(_) => spec_terminal_value(src, pos),
        },
    }
}

/// What the object parser returns at `pos`: `{`, optional white space, the
/// pair list, `}`, and the white space after the object.
pub open spec fn spec_object(src: Seq<char>, pos: int) -> Result<(int, JsonV), Seq<char>>
    decreases src.len() - pos, 1int,
    via spec_object_decreases
{
    if !(0 <= pos && pos < src.len() && src[pos] == '{') {
        Err(could_not_parse_msg("{"@))
    } else {
        let p1 = ws_end(src, pos + 1);
        let (p2, items) = spec_obj_items(src, p1);
        if p2 < src.len() && src[p2] == '}' {
            Ok((ws_end(src, p2 + 1), JsonV::Object { elem: items }))
        } else {
            Err(could_not_parse_msg("}"@))
        }
    }
}

#[via_fn]
proof fn spec_object_decreases(src: Seq<char>, pos: int) {
    if 0 <= pos && pos < src.len() && src[pos] == '{' {
        lemma_ws_end_bounds(src, pos + 1);
    }
}

/// Where the object's pair list starting at `p` ends and the pairs it
/// holds: one pair and then further pairs each introduced by a comma (with
/// white space after the comma), or nothing at all.  The list never fails,
/// a comma not followed by a pair is left unconsumed, and a step that makes
/// no forward progress ends the list.
pub open spec fn spec_obj_items(src: Seq<char>, p: int) -> (int, Seq<(JsonV, JsonV)>)
    decreases src.len() - p, 3int,
{
    if !(0 <= p && p <= src.len()) {
        (p, Seq::empty())
    } else {
        match spec_kv(src, p) {
            Err(_) => (p, Seq::empty()),
            Ok((p2, pair)) => {
                if p < p2 && p2 <= src.len() {
                    let (q, rest) = spec_obj_more(src, p2);
                    (q, seq![pair] + rest)
                } else {
                    (p, Seq::empty())
                }
            },
        }
    }
}

/// Where the comma-introduced continuation of an object's pair list ends
/// and the pairs it holds: each step takes a comma, optional white space
/// and a pair; when the comma is missing, or a pair does not follow it, the
/// continuation ends before that comma.
pub open spec fn spec_obj_more(src: Seq<char>, p: int) -> (int, Seq<(JsonV, JsonV)>)
    decreases src.len() - p, 3int,
    via spec_obj_more_decreases
{
    if !(0 <= p && p <= src.len()) {
        (p, Seq::empty())
    } else if p < src.len() && src[p] == ',' {
        let pc = ws_end(src, p + 1);
        match spec_kv(src, pc) {
            Err(_) => (p, Seq::empty()),
            Ok((p2, pair)) => {
                if p < p2 && p2 <= src.len() {
                    let (q, rest) = spec_obj_more(src, p2);
                    (q, seq![pair] + rest)
                } else {
                    (p, Seq::empty())
                }
            },
        }
    } else {
        (p, Seq::empty())
    }
}

#[via_fn]
proof fn spec_obj_more_decreases(src: Seq<char>, p: int) {
    if 0 <= p && p <= src.len() && p < src.len() && src[p] == ',' {
        lemma_ws_end_bounds(src, p + 1);
    }
}

/// What the key-value parser returns at `p`: a string key, optional white
/// space, `:`, optional white space, and a value.
pub open spec fn spec_kv(src: Seq<char>, p: int) -> Result<(int, (JsonV, JsonV)), Seq<char>>
    decreases src.len() - p, 2int,
    via spec_kv_decreases
{
    match spec_string(src, p) {
        Err(e) => Err(e),
        Ok((p1, tok)) => {
            let p2 = ws_end(src, p1);
            if p2 < src.len() && src[p2] == ':' {
                let p3 = ws_end(src, p2 + 1);
                match spec_value(src, p3) {
                    Ok((p4, v)) => Ok((p4, (JsonV::String { elem: tok }, v))),
                    Err(e) => Err(e),
                }
            } else {
                Err(could_not_parse_msg(":"@))
            }
        },
    }
}

#[via_fn]
proof fn spec_kv_decreases(src: Seq<char>, p: int) {
    lemma_spec_string_bounds(src, p);
    if let Ok((p1, _)) = spec_string(src, p) {
        lemma_ws_end_bounds(src, p1);
        let p2 = ws_end(src, p1);
        if p2 < src.len() && src[p2] == ':' {
            lemma_ws_end_bounds(src, p2 + 1);
        }
    }
}

/// What the array parser returns at `pos`: `[`, optional white space, the
/// value list, `]`, and the white space after the array.
pub open spec fn spec_array(src: Seq<char>, pos: int) -> Result<(int, JsonV), Seq<char>>
    decreases src.len() - pos, 1int,
    via spec_array_decreases
{
    if !(0 <= pos && pos < src.len() && src[pos] == '[') {
        Err(could_not_parse_msg("["@))
    } else {
        let p1 = ws_end(src, pos + 1);
        let (p2, items) = spec_arr_items(src, p1);
        if p2 < src.len() && src[p2] == ']' {
            Ok((ws_end(src, p2 + 1), JsonV::Array { elem: items }))
        } else {
            Err(could_not_parse_msg("]"@))
        }
    }
}

#[via_fn]
proof fn spec_array_decreases(src: Seq<char>, pos: int) {
    if 0 <= pos && pos < src.len() && src[pos] == '[' {
        lemma_ws_end_bounds(src, pos + 1);
    }
}

/// Where the array's value list starting at `p` ends and the values it
/// holds: one value and then further values each introduced by a comma
/// (with white space after the comma), or nothing at all.  The list never
/// fails, a comma not followed by a value is left unconsumed, and a step
/// that makes no forward progress ends the list.
pub open spec fn spec_arr_items(src: Seq<char>, p: int) -> (int, Seq<JsonV>)
    decreases src.len() - p, 3int,
{
    if !(0 <= p && p <= src.len()) {
        (p, Seq::empty())
    } else {
        match spec_value(src, p) {
            Err(_) => (p, Seq::empty()),
            Ok((p2, v)) => {
                if p < p2 && p2 <= src.len() {
                    let (q, rest) = spec_arr_more(src, p2);
                    (q, seq![v] + rest)
                } else {
                    (p, Seq::empty())
                }
            },
        }
    }
}

/// Where the comma-introduced continuation of an array's value list ends
/// and the values it holds: each step takes a comma, optional white space
/// and a value; when the comma is missing, or a value does not follow it,
/// the continuation ends before that comma.
pub open spec fn spec_arr_more(src: Seq<char>, p: int) -> (int, Seq<JsonV>)
    decreases src.len() - p, 3int,
    via spec_arr_more_decreases
{
    if !(0 <= p && p <= src.len()) {
        (p, Seq::empty())
    } else if p < src.len() && src[p] == ',' {
        let pc = ws_end(src, p + 1);
        match spec_value(src, pc) {
            Err(_) => (p, Seq::empty()),
            Ok((p2, v)) => {
                if p < p2 && p2 <= src.len() {
                    let (q, rest) = spec_arr_more(src, p2);
                    (q, seq![v] + rest)
                } else {
                    (p, Seq::empty())
                }
            },
        }
    } else {
        (p, Seq::empty())
    }
}

#[via_fn]
proof fn spec_arr_more_decreases(src: Seq<char>, p: int) {
    if 0 <= p && p <= src.len() && p < src.len() && src[p] == ',' {
        lemma_ws_end_bounds(src, p + 1);
    }
}

/// What parsing a whole document returns: an object or an array, tried in
/// that order, which must consume the entire input.
pub open spec fn spec_json(src: Seq<char>) -> Result<JsonV, Seq<char>> {
    let r = match spec_object(src, 0) {
        Ok(x) => Ok(x),
        Err(_) => spec_array(src, 0),
    };
    match r {
        Err(e) => Err(e),
        Ok((q, v)) => if q == src.len() {
            Ok(v)
        } else {
            Err("Unexpected trailing characters"@)
        },
    }
}

/// A successful value stays inside the buffer.
pub proof fn lemma_spec_value_bounds(src: Seq<char>, pos: int)
    requires
        0 <= pos <= src.len(),
    ensures
        spec_value(src, pos) matches Ok((q, _)) ==> pos <= q <= src.len(),
    decreases src.len() - pos, 2int,
{
    lemma_spec_object_bounds(src, pos);
    lemma_spec_array_bounds(src, pos);
    lemma_spec_terminal_value_bounds(src, pos);
}

/// A successful object stays inside the buffer.
pub proof fn lemma_spec_object_bounds(src: Seq<char>, pos: int)
    requires
        0 <= pos <= src.len(),
    ensures
        spec_object(src, pos) matches Ok((q, _)) ==> pos <= q <= src.len(),
    decreases src.len() - pos, 1int,
{
    if 0 <= pos && pos < src.len() && src[pos] == '{' {
        lemma_ws_end_bounds(src, pos + 1);
        let p1 = ws_end(src, pos + 1);
        lemma_spec_obj_items_bounds(src, p1);
        let (p2, _) = spec_obj_items(src, p1);
        if p2 < src.len() && src[p2] == '}' {
            lemma_ws_end_bounds(src, p2 + 1);
        }
    }
}

/// The object's pair list stays inside the buffer.
pub proof fn lemma_spec_obj_items_bounds(src: Seq<char>, p: int)
    requires
        0 <= p <= src.len(),
    ensures
        p <= spec_obj_items(src, p).0 <= src.len(),
{
    match spec_kv(src, p) {
        Err(_) => {},
        Ok((p2, _)) => {
            if p < p2 && p2 <= src.len() {
                lemma_spec_obj_more_bounds(src, p2);
            }
        },
    }
}

/// The comma-introduced continuation of an object's pair list stays inside
/// the buffer.
pub proof fn lemma_spec_obj_more_bounds(src: Seq<char>, p: int)
    requires
        0 <= p <= src.len(),
    ensures
        p <= spec_obj_more(src, p).0 <= src.len(),
    decreases src.len() - p,
{
    if p < src.len() && src[p] == ',' {
        lemma_ws_end_bounds(src, p + 1);
        match spec_kv(src, ws_end(src, p + 1)) {
            Err(_) => {},
            Ok((p2, _)) => {
                if p < p2 && p2 <= src.len() {
                    lemma_spec_obj_more_bounds(src, p2);
                }
            },
        }
    }
}

/// A successful key-value pair stays inside the buffer.
pub proof fn lemma_spec_kv_bounds(src: Seq<char>, p: int)
    requires
        0 <= p <= src.len(),
    ensures
        spec_kv(src, p) matches Ok((q, _)) ==> p <= q <= src.len(),
    decreases src.len() - p, 2int,
{
    lemma_spec_string_bounds(src, p);
    if let Ok((p1, _)) = spec_string(src, p) {
        lemma_ws_end_bounds(src, p1);
        let p2 = ws_end(src, p1);
        if p2 < src.len() && src[p2] == ':' {
            lemma_ws_end_bounds(src, p2 + 1);
            lemma_spec_value_bounds(src, ws_end(src, p2 + 1));
        }
    }
}

/// A successful array stays inside the buffer.
pub proof fn lemma_spec_array_bounds(src: Seq<char>, pos: int)
    requires
        0 <= pos <= src.len(),
    ensures
        spec_array(src, pos) matches Ok((q, _)) ==> pos <= q <= src.len(),
    decreases src.len() - pos, 1int,
{
    if 0 <= pos && pos < src.len() && src[pos] == '[' {
        lemma_ws_end_bounds(src, pos + 1);
        let p1 = ws_end(src, pos + 1);
        lemma_spec_arr_items_bounds(src, p1);
        let (p2, _) = spec_arr_items(src, p1);
        if p2 < src.len() && src[p2] == ']' {
            lemma_ws_end_bounds(src, p2 + 1);
        }
    }
}

/// A parse result and a grammar rule's meaning agree: on success the
/// remainder, the node's abstract value and its provenance match; on
/// failure the error text matches.
pub open spec fn value_agrees<'a>(
    input: Input<'a>,
    r: Result<(Input<'a>, Json), String>,
    s: Result<(int, JsonV), Seq<char>>,
) -> bool {
    match r {
        Ok((rem, out)) => {
            &&& rem.src@ == input.src@
            &&& input.pos <= rem.pos
            &&& rem.wf()
            &&& s == Ok::<(int, JsonV), Seq<char>>((rem.pos as int, out.deep_view()))
            &&& from_source(out.deep_view(), input.s())
        },
        Err(e) => s == Err::<(int, JsonV), Seq<char>>(e@),
    }
}

/// Like [`value_agrees`], for a rule that yields a key-value pair.
pub open spec fn pair_agrees<'a>(
    input: Input<'a>,
    r: Result<(Input<'a>, (Json, Json)), String>,
    s: Result<(int, (JsonV, JsonV)), Seq<char>>,
) -> bool {
    match r {
        Ok((rem, out)) => {
            &&& rem.src@ == input.src@
            &&& input.pos <= rem.pos
            &&& rem.wf()
            &&& s == Ok::<(int, (JsonV, JsonV)), Seq<char>>((rem.pos as int, out.deep_view()))
            &&& from_source(out.deep_view().0, input.s())
            &&& from_source(out.deep_view().1, input.s())
        },
        Err(e) => s == Err::<(int, (JsonV, JsonV)), Seq<char>>(e@),
    }
}

/// Like [`value_agrees`], for a rule that yields a matched token.
pub open spec fn token_agrees<'a>(
    input: Input<'a>,
    r: Result<(Input<'a>, Token), String>,
    s: Result<(int, TokenV), Seq<char>>,
) -> bool {
    match r {
        Ok((rem, out)) => {
            &&& rem.src@ == input.src@
            &&& input.pos <= rem.pos
            &&& rem.wf()
            &&& s == Ok::<(int, TokenV), Seq<char>>((rem.pos as int, out.deep_view()))
        },
        Err(e) => s == Err::<(int, TokenV), Seq<char>>(e@),
    }
}

/// The array's value list stays inside the buffer.
pub proof fn lemma_spec_arr_items_bounds(src: Seq<char>, p: int)
    requires
        0 <= p <= src.len(),
    ensures
        p <= spec_arr_items(src, p).0 <= src.len(),
{
    match spec_value(src, p) {
        Err(_) => {},
        Ok((p2, _)) => {
            if p < p2 && p2 <= src.len() {
                lemma_spec_arr_more_bounds(src, p2);
            }
        },
    }
}

/// The comma-introduced continuation of an array's value list stays inside
/// the buffer.
pub proof fn lemma_spec_arr_more_bounds(src: Seq<char>, p: int)
    requires
        0 <= p <= src.len(),
    ensures
        p <= spec_arr_more(src, p).0 <= src.len(),
    decreases src.len() - p,
{
    if p < src.len() && src[p] == ',' {
        lemma_ws_end_bounds(src, p + 1);
        match spec_value(src, ws_end(src, p + 1)) {
            Err(_) => {},
            Ok((p2, _)) => {
                if p < p2 && p2 <= src.len() {
                    lemma_spec_arr_more_bounds(src, p2);
                }
            },
        }
    }
}


/// Consume optional white space: the remainder starts where the
/// white-space run (if any) ends.
fn skip_ws<'a>(input: Input<'a>) -> (r: Input<'a>)
    requires
        input.wf(),
    ensures
        r.src == input.src,
        r.wf(),
        input.pos <= r.pos,
        r.pos as int == ws_end(input.s(), input.pos as int),
{
    let e = crate::base_parsers::scan_run(input.src, input.pos, Pattern::Whitespace);
    Input { src: input.src, pos: e }
}

/// Parse all JSON string content: scan characters one at a time, where a
/// backslash unconditionally consumes the following character as well, and
/// stop at an unescaped quote or the end of input.  Fails only when a
/// trailing backslash has no character left to consume.
pub fn string_content<'a>(input: Input<'a>) -> (r: Result<(Input<'a>, Token), String>)
    requires
        input.wf(),
    ensures
        token_agrees(input, r, spec_string_content(input.s(), input.pos as int)),
{
    let src = input.src;
    let n = src.len();
    let mut i: usize = input.pos;
    loop
        invariant
            input.wf(),
            src == input.src,
            n == src@.len(),
            input.pos <= i <= n,
            content_end(src@, input.pos as int) == content_end(src@, i as int),
        ensures
            input.pos <= i <= n,
            src == input.src,
            n == src@.len(),
            content_end(src@, input.pos as int) == Some(i as int),
        decreases n - i,
    {
        if i >= n {
            break;
        }
        let c = src[i];
        if c == '"' {
            break;
        }
        if c == '\\' {
            if i + 1 < n {
                i = i + 2;
            } else {
                return Err("Unexpected end of stream here".to_owned());
            }
        } else {
            i = i + 1;
        }
    }
    let text = copy_range(src, input.pos, i);
    Ok((Input { src, pos: i }, Token { text, span: Span { start: input.pos, end: i } }))
}

/// Parse a string: a quote, raw content, and a closing quote, yielding the
/// content between the quotes.
fn string_at<'a>(input: Input<'a>) -> (r: Result<(Input<'a>, Token), String>)
    requires
        input.wf(),
    ensures
        token_agrees(input, r, spec_string(input.s(), input.pos as int)),
{
    let src = input.src;
    let n = src.len();
    if !(input.pos < n && src[input.pos] == '"') {
        return Err(could_not_parse("\""));
    }
    let inner = Input { src, pos: input.pos + 1 };
    match string_content(inner) {
        Err(e) => Err(e),
        Ok((rem, tok)) => {
            if rem.pos < n && src[rem.pos] == '"' {
                Ok((Input { src, pos: rem.pos + 1 }, tok))
            } else {
                Err(could_not_parse("\""))
            }
        },
    }
}

/// Match a fixed word, letter for letter, yielding the matched text.
fn keyword_parse<'a>(input: Input<'a>, word: &'static str) -> (r: Result<
    (Input<'a>, Token),
    String,
>)
    requires
        input.wf(),
    ensures
        match r {
            Ok((rem, tok)) => {
                &&& keyword_at(input.s(), input.pos as int, word@)
                &&& rem.src == input.src
                &&& rem.wf()
                &&& input.pos <= rem.pos
                &&& rem.pos as int == input.pos + word@.len()
                &&& tok.deep_view() == token_at(input.s(), input.pos as int, input.pos + word@.len())
            },
            Err(e) => {
                &&& !keyword_at(input.s(), input.pos as int, word@)
                &&& e@ == could_not_parse_msg(word@)
            },
        },
{
    let sw = StartsWith { prefix: to_chars(word) };
    if sw.test(input) {
        let n = input.src.len();
        let m = sw.prefix.len();
        proof {
            assert(input.pos + m <= n);
        }
        let e = input.pos + m;
        let text = copy_range(input.src, input.pos, e);
        proof {
            assert(input.s().subrange(input.pos as int, input.pos + word@.len()) == word@);
        }
        Ok((Input { src: input.src, pos: e }, Token { text, span: Span { start: input.pos, end: e } }))
    } else {
        Err(could_not_parse(word))
    }
}

/// Parse a bare terminal value: a string, a number, or a keyword, tried in
/// that order.
fn bare_terminal_at<'a>(input: Input<'a>) -> (r: Result<(Input<'a>, Json), String>)
    requires
        input.wf(),
    ensures
        value_agrees(input, r, spec_bare_terminal(input.s(), input.pos as int)),
{
    proof {
        lemma_spec_string_bounds(input.s(), input.pos as int);
        lemma_pattern_end_bounds(input.s(), input.pos as int, Pattern::JsonNumber);
        reveal_strlit("true");
        reveal_strlit("false");
        reveal_strlit("null");
    }
    match string_at(input) {
        Ok((rem, tok)) => Ok((rem, Json::String { elem: tok })),
        Err(_) => match matching(Pattern::JsonNumber).parse(input) {
            Ok((rem, tok)) => Ok((rem, Json::Number { elem: tok })),
            Err(_) => match keyword_parse(input, "true") {
                Ok((rem, tok)) => Ok((rem, Json::True { elem: tok })),
                Err(_) => match keyword_parse(input, "false") {
                    Ok((rem, tok)) => Ok((rem, Json::False { elem: tok })),
                    Err(_) => match keyword_parse(input, "null") {
                        Ok((rem, tok)) => Ok((rem, Json::Null { elem: tok })),
                        Err(e) => Err(e),
                    },
                },
            },
        },
    }
}

/// Parse a terminal value, consuming the white space after it.
fn terminal_value_at<'a>(input: Input<'a>) -> (r: Result<(Input<'a>, Json), String>)
    requires
        input.wf(),
    ensures
        value_agrees(input, r, spec_terminal_value(input.s(), input.pos as int)),
{
    match bare_terminal_at(input) {
        Err(e) => Err(e),
        Ok((rem, v)) => {
            let after = skip_ws(rem);
            Ok((after, v))
        },
    }
}

/// Parse any JSON value: an object, an array, or a terminal value, tried in
/// that order.
fn value_at<'a>(input: Input<'a>) -> (r: Result<(Input<'a>, Json), String>)
    requires
        input.wf(),
    ensures
        value_agrees(input, r, spec_value(input.s(), input.pos as int)),
    decreases input.s().len() - input.pos, 2int,
{
    match object(input) {
        Ok(r) => Ok(r),
        Err(_) => match array(input) {
            Ok(r) => Ok(r),
            Err(_) => terminal_value_at(input),
        },
    }
}

/// Parse a key-value pair: a string key, optional white space, a colon,
/// optional white space, and a value.
fn kv_at<'a>(input: Input<'a>) -> (r: Result<(Input<'a>, (Json, Json)), String>)
    requires
        input.wf(),
    ensures
        pair_agrees(input, r, spec_kv(input.s(), input.pos as int)),
    decreases input.s().len() - input.pos, 2int,
{
    let src = input.src;
    let n = src.len();
    match string_at(input) {
        Err(e) => Err(e),
        Ok((rem1, tok)) => {
            proof {
                lemma_spec_string_bounds(input.s(), input.pos as int);
            }
            let p2 = skip_ws(rem1);
            if p2.pos < n && src[p2.pos] == ':' {
                let p3 = skip_ws(Input { src, pos: p2.pos + 1 });
                match value_at(p3) {
                    Ok((p4, v)) => Ok((p4, (Json::String { elem: tok }, v))),
                    Err(e) => Err(e),
                }
            } else {
                Err(could_not_parse(":"))
            }
        },
    }
}

/// Parse a JSON object: `{`, optional white space, zero or more key-value
/// pairs separated by commas (no trailing comma), and `}`; the white space
/// after the object is consumed.
pub fn object<'a>(input: Input<'a>) -> (r: Result<(Input<'a>, Json), String>)
    requires
        input.wf(),
    ensures
        value_agrees(input, r, spec_object(input.s(), input.pos as int)),
    decreases input.s().len() - input.pos, 1int,
{
    let src = input.src;
    let n = src.len();
    if !(input.pos < n && src[input.pos] == '{') {
        return Err(could_not_parse("{"));
    }
    proof {
        lemma_ws_end_bounds(input.s(), input.pos + 1);
    }
    let start = skip_ws(Input { src, pos: input.pos + 1 });
    let mut cur = start;
    let mut items: Vec<(Json, Json)> = Vec::new();
    match kv_at(start) {
        Err(_) => {
            proof {
                assert(items.deep_view() =~= Seq::<(JsonV, JsonV)>::empty());
                assert(spec_obj_items(input.s(), start.pos as int) == (
                    start.pos as int,
                    items.deep_view(),
                ));
            }
        },
        Ok((first_rem, first_pair)) => {
            if first_rem.pos <= start.pos {
                proof {
                    assert(items.deep_view() =~= Seq::<(JsonV, JsonV)>::empty());
                    assert(spec_obj_items(input.s(), start.pos as int) == (
                        start.pos as int,
                        items.deep_view(),
                    ));
                }
            } else {
                proof {
                    let tail = spec_obj_more(input.s(), first_rem.pos as int);
                    assert(spec_obj_items(input.s(), start.pos as int) == (
                        tail.0,
                        seq![first_pair.deep_view()] + tail.1,
                    ));
                    lemma_deep_view_push(items@, first_pair);
                    assert(items.deep_view() =~= Seq::<(JsonV, JsonV)>::empty());
                    assert(Seq::<(JsonV, JsonV)>::empty().push(first_pair.deep_view()) =~= seq![
                        first_pair.deep_view(),
                    ]);
                }
                items.push(first_pair);
                cur = first_rem;
                loop
                    invariant
                        input.wf(),
                        src == input.src,
                        n == src@.len(),
                        cur.wf(),
                        cur.src@ == src@,
                        input.pos < cur.pos,
                        spec_obj_items(input.s(), start.pos as int) == ({
                            let (q, vs) = spec_obj_more(input.s(), cur.pos as int);
                            (q, items.deep_view() + vs)
                        }),
                        forall|k: int| #![trigger items.deep_view()[k]]
                            0 <= k < items.deep_view().len() ==> from_source(
                                items.deep_view()[k].0,
                                input.s(),
                            ) && from_source(items.deep_view()[k].1, input.s()),
                    ensures
                        cur.wf(),
                        cur.src@ == src@,
                        input.pos < cur.pos,
                        spec_obj_items(input.s(), start.pos as int) == (
                            cur.pos as int,
                            items.deep_view(),
                        ),
                        forall|k: int| #![trigger items.deep_view()[k]]
                            0 <= k < items.deep_view().len() ==> from_source(
                                items.deep_view()[k].0,
                                input.s(),
                            ) && from_source(items.deep_view()[k].1, input.s()),
                    decreases n - cur.pos,
                {
                    if cur.pos < n && src[cur.pos] == ',' {
                        let pc = skip_ws(Input { src, pos: cur.pos + 1 });
                        match kv_at(pc) {
                            Err(_) => {
                                proof {
                                    assert(spec_obj_more(input.s(), cur.pos as int) == (
                                        cur.pos as int,
                                        Seq::<(JsonV, JsonV)>::empty(),
                                    ));
                                    assert(items.deep_view() + Seq::<(JsonV, JsonV)>::empty()
                                        =~= items.deep_view());
                                }
                                break;
                            },
                            Ok((after, pair)) => {
                                if after.pos <= cur.pos {
                                    proof {
                                        assert(spec_obj_more(input.s(), cur.pos as int) == (
                                            cur.pos as int,
                                            Seq::<(JsonV, JsonV)>::empty(),
                                        ));
                                        assert(items.deep_view() + Seq::<(JsonV, JsonV)>::empty()
                                            =~= items.deep_view());
                                    }
                                    break;
                                }
                                proof {
                                    let tail = spec_obj_more(input.s(), after.pos as int);
                                    assert(spec_obj_more(input.s(), cur.pos as int) == (
                                        tail.0,
                                        seq![pair.deep_view()] + tail.1,
                                    ));
                                    lemma_deep_view_push(items@, pair);
                                    assert(items.deep_view().push(pair.deep_view()) + tail.1
                                        =~= items.deep_view() + (seq![pair.deep_view()] + tail.1));
                                }
                                items.push(pair);
                                cur = after;
                            },
                        }
                    } else {
                        proof {
                            assert(spec_obj_more(input.s(), cur.pos as int) == (
                                cur.pos as int,
                                Seq::<(JsonV, JsonV)>::empty(),
                            ));
                            assert(items.deep_view() + Seq::<(JsonV, JsonV)>::empty()
                                =~= items.deep_view());
                        }
                        break;
                    }
                }
            }
        },
    }
    if cur.pos < n && src[cur.pos] == '}' {
        let rem = skip_ws(Input { src, pos: cur.pos + 1 });
        proof {
            lemma_pairs_deep_view(items);
        }
        let out = Json::Object { elem: items };
        Ok((rem, out))
    } else {
        Err(could_not_parse("}"))
    }
}

/// Parse a JSON array: `[`, optional white space, zero or more
/// comma-separated values (no trailing comma), and `]`; the white space
/// after the array is consumed.
pub fn array<'a>(input: Input<'a>) -> (r: Result<(Input<'a>, Json), String>)
    requires
        input.wf(),
    ensures
        value_agrees(input, r, spec_array(input.s(), input.pos as int)),
    decreases input.s().len() - input.pos, 1int,
{
    let src = input.src;
    let n = src.len();
    if !(input.pos < n && src[input.pos] == '[') {
        return Err(could_not_parse("["));
    }
    proof {
        lemma_ws_end_bounds(input.s(), input.pos + 1);
    }
    let start = skip_ws(Input { src, pos: input.pos + 1 });
    let mut cur = start;
    let mut items: Vec<Json> = Vec::new();
    match value_at(start) {
        Err(_) => {
            proof {
                assert(items.deep_view() =~= Seq::<JsonV>::empty());
                assert(spec_arr_items(input.s(), start.pos as int) == (
                    start.pos as int,
                    items.deep_view(),
                ));
            }
        },
        Ok((first_rem, first_val)) => {
            if first_rem.pos <= start.pos {
                proof {
                    assert(items.deep_view() =~= Seq::<JsonV>::empty());
                    assert(spec_arr_items(input.s(), start.pos as int) == (
                        start.pos as int,
                        items.deep_view(),
                    ));
                }
            } else {
                proof {
                    let tail = spec_arr_more(input.s(), first_rem.pos as int);
                    assert(spec_arr_items(input.s(), start.pos as int) == (
                        tail.0,
                        seq![first_val.deep_view()] + tail.1,
                    ));
                    lemma_deep_view_push(items@, first_val);
                    assert(items.deep_view() =~= Seq::<JsonV>::empty());
                    assert(Seq::<JsonV>::empty().push(first_val.deep_view()) =~= seq![
                        first_val.deep_view(),
                    ]);
                }
                items.push(first_val);
                cur = first_rem;
                loop
                    invariant
                        input.wf(),
                        src == input.src,
                        n == src@.len(),
                        cur.wf(),
                        cur.src@ == src@,
                        input.pos < cur.pos,
                        spec_arr_items(input.s(), start.pos as int) == ({
                            let (q, vs) = spec_arr_more(input.s(), cur.pos as int);
                            (q, items.deep_view() + vs)
                        }),
                        forall|k: int| #![trigger items.deep_view()[k]]
                            0 <= k < items.deep_view().len() ==> from_source(
                                items.deep_view()[k],
                                input.s(),
                            ),
                    ensures
                        cur.wf(),
                        cur.src@ == src@,
                        input.pos < cur.pos,
                        spec_arr_items(input.s(), start.pos as int) == (
                            cur.pos as int,
                            items.deep_view(),
                        ),
                        forall|k: int| #![trigger items.deep_view()[k]]
                            0 <= k < items.deep_view().len() ==> from_source(
                                items.deep_view()[k],
                                input.s(),
                            ),
                    decreases n - cur.pos,
                {
                    if cur.pos < n && src[cur.pos] == ',' {
                        let pc = skip_ws(Input { src, pos: cur.pos + 1 });
                        match value_at(pc) {
                            Err(_) => {
                                proof {
                                    assert(spec_arr_more(input.s(), cur.pos as int) == (
                                        cur.pos as int,
                                        Seq::<JsonV>::empty(),
                                    ));
                                    assert(items.deep_view() + Seq::<JsonV>::empty()
                                        =~= items.deep_view());
                                }
                                break;
                            },
                            Ok((after, v)) => {
                                if after.pos <= cur.pos {
                                    proof {
                                        assert(spec_arr_more(input.s(), cur.pos as int) == (
                                            cur.pos as int,
                                            Seq::<JsonV>::empty(),
                                        ));
                                        assert(items.deep_view() + Seq::<JsonV>::empty()
                                            =~= items.deep_view());
                                    }
                                    break;
                                }
                                proof {
                                    let tail = spec_arr_more(input.s(), after.pos as int);
                                    assert(spec_arr_more(input.s(), cur.pos as int) == (
                                        tail.0,
                                        seq![v.deep_view()] + tail.1,
                                    ));
                                    lemma_deep_view_push(items@, v);
                                    assert(items.deep_view().push(v.deep_view()) + tail.1
                                        =~= items.deep_view() + (seq![v.deep_view()] + tail.1));
                                }
                                items.push(v);
                                cur = after;
                            },
                        }
                    } else {
                        proof {
                            assert(spec_arr_more(input.s(), cur.pos as int) == (
                                cur.pos as int,
                                Seq::<JsonV>::empty(),
                            ));
                            assert(items.deep_view() + Seq::<JsonV>::empty()
                                =~= items.deep_view());
                        }
                        break;
                    }
                }
            }
        },
    }
    if cur.pos < n && src[cur.pos] == ']' {
        let rem = skip_ws(Input { src, pos: cur.pos + 1 });
        proof {
            lemma_values_deep_view(items);
        }
        let out = Json::Array { elem: items };
        Ok((rem, out))
    } else {
        Err(could_not_parse("]"))
    }
}

/// Parse a complete JSON document from a text buffer.  The document must be
/// an object or an array and must span the entire input; anything else is
/// an error.
pub fn json(source: &str) -> (r: Result<Json, String>)
    ensures
        match r {
            Ok(j) => spec_json(source@) == Ok::<JsonV, Seq<char>>(j.deep_view()) && from_source(
                j.deep_view(),
                source@,
            ),
            Err(e) => spec_json(source@) == Err::<JsonV, Seq<char>>(e@),
        },
{
    let chars = to_chars(source);
    let input = Input::new(&chars);
    let parsed = match object(input) {
        Ok(x) => Ok(x),
        Err(_) => array(input),
    };
    match parsed {
        Err(e) => Err(e),
        Ok((rem, j)) => {
            if rem.pos == chars.len() {
                Ok(j)
            } else {
                Err("Unexpected trailing characters".to_owned())
            }
        },
    }
}


/// Parser form of the JSON value rule.
pub struct ValueP;

impl Parser<Json, String> for ValueP {
    open spec fn spec_parse(&self, src: Seq<char>, pos: int) -> Result<(int, JsonV), Seq<char>> {
        spec_value(src, pos)
    }

    proof fn lemma_parse_bounds(&self, src: Seq<char>, pos: int) {
        lemma_spec_value_bounds(src, pos);
    }

    fn parse<'a>(&self, input: Input<'a>) -> (r: Result<(Input<'a>, Json), String>) {
        value_at(input)
    }
}

/// Parse any JSON value: an object, an array, or a terminal value.
pub fn value() -> ValueP {
    ValueP
}

/// Parser form of the terminal-value rule.
pub struct TerminalValueP;

impl Parser<Json, String> for TerminalValueP {
    open spec fn spec_parse(&self, src: Seq<char>, pos: int) -> Result<(int, JsonV), Seq<char>> {
        spec_terminal_value(src, pos)
    }

    proof fn lemma_parse_bounds(&self, src: Seq<char>, pos: int) {
        lemma_spec_terminal_value_bounds(src, pos);
    }

    fn parse<'a>(&self, input: Input<'a>) -> (r: Result<(Input<'a>, Json), String>) {
        terminal_value_at(input)
    }
}

/// Parse any terminal value: a value with no further grammatical
/// substructure (string, number, boolean or null), with the white space
/// after it consumed.
pub fn terminal_value() -> TerminalValueP {
    TerminalValueP
}

/// Parser form of the key-value rule.
pub struct KeyValueP;

impl Parser<(Json, Json), String> for KeyValueP {
    open spec fn spec_parse(&self, src: Seq<char>, pos: int) -> Result<
        (int, (JsonV, JsonV)),
        Seq<char>,
    > {
        spec_kv(src, pos)
    }

    proof fn lemma_parse_bounds(&self, src: Seq<char>, pos: int) {
        lemma_spec_kv_bounds(src, pos);
    }

    fn parse<'a>(&self, input: Input<'a>) -> (r: Result<(Input<'a>, (Json, Json)), String>) {
        kv_at(input)
    }
}

/// Parse one key-value pair of a JSON object.
pub fn key_value_pair() -> KeyValueP {
    KeyValueP
}

/// Parser form of the string rule.
pub struct StringP;

impl Parser<Json, String> for StringP {
    open spec fn spec_parse(&self, src: Seq<char>, pos: int) -> Result<(int, JsonV), Seq<char>> {
        match spec_string(src, pos) {
            Ok((e, t)) => Ok((e, JsonV::String { elem: t })),
            Err(e) => Err(e),
        }
    }

    proof fn lemma_parse_bounds(&self, src: Seq<char>, pos: int) {
        lemma_spec_string_bounds(src, pos);
    }

    fn parse<'a>(&self, input: Input<'a>) -> (r: Result<(Input<'a>, Json), String>) {
        match string_at(input) {
            Ok((rem, tok)) => Ok((rem, Json::String { elem: tok })),
            Err(e) => Err(e),
        }
    }
}

/// Parses a `string` terminal: a quote, raw content, and a closing quote.
pub fn string() -> StringP {
    StringP
}

/// Parser form of the number rule.
pub struct NumberP;

impl Parser<Json, String> for NumberP {
    open spec fn spec_parse(&self, src: Seq<char>, pos: int) -> Result<(int, JsonV), Seq<char>> {
        match spec_number(src, pos) {
            Ok((e, t)) => Ok((e, JsonV::Number { elem: t })),
            Err(e) => Err(e),
        }
    }

    proof fn lemma_parse_bounds(&self, src: Seq<char>, pos: int) {
        lemma_pattern_end_bounds(src, pos, Pattern::JsonNumber);
    }

    fn parse<'a>(&self, input: Input<'a>) -> (r: Result<(Input<'a>, Json), String>) {
        match matching(Pattern::JsonNumber).parse(input) {
            Ok((rem, tok)) => Ok((rem, Json::Number { elem: tok })),
            Err(e) => Err(e),
        }
    }
}

/// Parses a `number` terminal.
pub fn number() -> NumberP {
    NumberP
}

/// Parses the raw text of a `number` terminal.
pub fn number_raw() -> (r: MatchP)
    ensures
        r.pat == Pattern::JsonNumber,
{
    matching(Pattern::JsonNumber)
}

/// A parser for one fixed keyword, matched letter for letter (JSON keywords
/// are case-sensitive), wrapping the matched text in the node the keyword
/// stands for.
pub struct KeywordP {
    /// The keyword matched.
    pub word: &'static str,
}

/// The JSON node a keyword parser wraps its token in.
pub open spec fn keyword_node(word: Seq<char>, t: TokenV) -> JsonV {
    if word == "true"@ {
        JsonV::True { elem: t }
    } else if word == "false"@ {
        JsonV::False { elem: t }
    } else {
        JsonV::Null { elem: t }
    }
}

impl Parser<Json, String> for KeywordP {
    open spec fn spec_parse(&self, src: Seq<char>, pos: int) -> Result<(int, JsonV), Seq<char>> {
        if keyword_at(src, pos, self.word@) {
            Ok(
                (
                    pos + self.word@.len(),
                    keyword_node(self.word@, token_at(src, pos, pos + self.word@.len())),
                ),
            )
        } else {
            Err(could_not_parse_msg(self.word@))
        }
    }

    proof fn lemma_parse_bounds(&self, src: Seq<char>, pos: int) {
    }

    fn parse<'a>(&self, input: Input<'a>) -> (r: Result<(Input<'a>, Json), String>) {
        match keyword_parse(input, self.word) {
            Err(e) => Err(e),
            Ok((rem, tok)) => {
                if eq_true(self.word) {
                    Ok((rem, Json::True { elem: tok }))
                } else if eq_false(self.word) {
                    Ok((rem, Json::False { elem: tok }))
                } else {
                    Ok((rem, Json::Null { elem: tok }))
                }
            },
        }
    }
}

/// Whether a static word is exactly `true`.
fn eq_true(word: &'static str) -> (r: bool)
    ensures
        r == (word@ == "true"@),
{
    let cs = to_chars(word);
    proof {
        reveal_strlit("true");
    }
    if cs.len() == 4 {
        let r = cs[0] == 't' && cs[1] == 'r' && cs[2] == 'u' && cs[3] == 'e';
        proof {
            if r {
                assert(cs@ =~= "true"@);
            } else {
                assert(cs@ != "true"@);
            }
        }
        r
    } else {
        false
    }
}

/// Whether a static word is exactly `false`.
fn eq_false(word: &'static str) -> (r: bool)
    ensures
        r == (word@ == "false"@),
{
    let cs = to_chars(word);
    proof {
        reveal_strlit("false");
    }
    if cs.len() == 5 {
        let r = cs[0] == 'f' && cs[1] == 'a' && cs[2] == 'l' && cs[3] == 's' && cs[4] == 'e';
        proof {
            if r {
                assert(cs@ =~= "false"@);
            } else {
                assert(cs@ != "false"@);
            }
        }
        r
    } else {
        false
    }
}

/// Parses a `true` terminal, matching the keyword case-sensitively.
pub fn true_() -> (r: KeywordP)
    ensures
        r.word@ == "true"@,
{
    KeywordP { word: "true" }
}

/// Parses a `false` terminal, matching the keyword case-sensitively.
pub fn false_() -> (r: KeywordP)
    ensures
        r.word@ == "false"@,
{
    KeywordP { word: "false" }
}

/// Parses a `null` terminal, matching the keyword case-sensitively.
pub fn null_() -> (r: KeywordP)
    ensures
        r.word@ == "null"@,
{
    KeywordP { word: "null" }
}

} // verus!
