//! Terminal matchers: parsers that recognise a pattern anchored at the start
//! of the unconsumed input and yield the matched text.
//!
//! Each matcher corresponds to an anchored pattern over the text; the
//! pattern's meaning is written out as a specification function, and the
//! matcher is proved to take exactly the prefix that the pattern describes
//! (always the longest one).  On failure a matcher reports the pattern it
//! could not match.

use crate::parsers::{Input, MapFn, Parser, to_chars};
use crate::source_range::Span;
use vstd::prelude::*;
use vstd::string::StringExecFns;

verus! {

/// The matched text together with the place in the buffer it was taken from.
#[derive(Debug)]
pub struct Token {
    /// The matched characters, owned.
    pub text: Vec<char>,
    /// Where in the source buffer the match lies.
    pub span: Span,
}

/// The abstract value of a [`Token`]: its characters and its offsets.
pub struct TokenV {
    /// The matched characters.
    pub text: Seq<char>,
    /// Offset of the first matched character.
    pub start: int,
    /// Offset one past the last matched character.
    pub end: int,
}

impl DeepView for Token {
    type V = TokenV;

    open spec fn deep_view(&self) -> TokenV {
        TokenV { text: self.text@, start: self.span.start as int, end: self.span.end as int }
    }
}

/// The token taken from `src` between offsets `start` and `end`.
pub open spec fn token_at(src: Seq<char>, start: int, end: int) -> TokenV {
    TokenV { text: src.subrange(start, end), start, end }
}

/// The characters of `src` from `from` (inclusive) to `to` (exclusive), as
/// an owned vector.
pub fn copy_range(src: &Vec<char>, from: usize, to: usize) -> (v: Vec<char>)
    requires
        from <= to <= src@.len(),
    ensures
        v@ == src@.subrange(from as int, to as int),
{
    let mut out: Vec<char> = Vec::new();
    let mut i: usize = from;
    while i < to
        invariant
            from <= i <= to <= src@.len(),
            out@ == src@.subrange(from as int, i as int),
        decreases to - i,
    {
        out.push(src[i]);
        assert(out@ == src@.subrange(from as int, i + 1));
        i = i + 1;
    }
    out
}

/// The error text reported when a pattern does not match.
pub open spec fn could_not_parse_msg(pattern: Seq<char>) -> Seq<char> {
    "Could not parse '"@ + pattern + "'"@
}

/// The error string reported when a pattern does not match, built exactly
/// as [`could_not_parse_msg`] says.
pub fn could_not_parse(pattern: &str) -> (r: String)
    ensures
        r@ == could_not_parse_msg(pattern@),
{
    let mut msg: String = "Could not parse '".to_owned();
    msg.append(pattern);
    msg.append("'");
    msg
}

/// A character is a space: the Unicode white-space set, the one the
/// `whitespace` matcher recognises.
pub open spec fn is_space(c: char) -> bool {
    ||| c == ' '
    ||| c == '\t'
    ||| c == '\n'
    ||| c == '\u{0B}'
    ||| c == '\u{0C}'
    ||| c == '\r'
    ||| c == '\u{85}'
    ||| c == '\u{A0}'
    ||| c == '\u{1680}'
    ||| ('\u{2000}' <= c && c <= '\u{200A}')
    ||| c == '\u{2028}'
    ||| c == '\u{2029}'
    ||| c == '\u{202F}'
    ||| c == '\u{205F}'
    ||| c == '\u{3000}'
}

/// A character ends a line: carriage return or line feed.
pub open spec fn is_line_break(c: char) -> bool {
    c == '\r' || c == '\n'
}

/// A character may start an identifier: a letter or an underscore.
pub open spec fn is_ident_start(c: char) -> bool {
    ('a' <= c && c <= 'z') || ('A' <= c && c <= 'Z') || c == '_'
}

/// A character may continue an identifier: a letter, a digit or an
/// underscore.
pub open spec fn is_ident_cont(c: char) -> bool {
    is_ident_start(c) || is_digit(c)
}

/// A character is a decimal digit.
pub open spec fn is_digit(c: char) -> bool {
    '0' <= c && c <= '9'
}

/// A character is a decimal digit other than zero.
pub open spec fn is_nonzero_digit(c: char) -> bool {
    '1' <= c && c <= '9'
}

/// Whether `c` is a space, decided exactly as [`is_space`] says.
pub fn space_char(c: char) -> (r: bool)
    ensures
        r == is_space(c),
{
    c == ' ' || c == '\t' || c == '\n' || c == '\u{0B}' || c == '\u{0C}' || c == '\r' || c
        == '\u{85}' || c == '\u{A0}' || c == '\u{1680}' || ('\u{2000}' <= c && c <= '\u{200A}') || c
        == '\u{2028}' || c == '\u{2029}' || c == '\u{202F}' || c == '\u{205F}' || c == '\u{3000}'
}

/// The end of the run of characters satisfying `cls` that starts at `i`:
/// the first offset at or after `i` whose character falls outside the class
/// (or the end of the buffer).
pub open spec fn run_end(src: Seq<char>, i: int, cls: spec_fn(char) -> bool) -> int
    decreases src.len() - i,
{
    if i < src.len() && cls(src[i]) {
        run_end(src, i + 1, cls)
    } else {
        i
    }
}

/// A run neither moves backwards nor leaves the buffer.
pub proof fn lemma_run_end_bounds(src: Seq<char>, i: int, cls: spec_fn(char) -> bool)
    requires
        0 <= i <= src.len(),
    ensures
        i <= run_end(src, i, cls) <= src.len(),
    decreases src.len() - i,
{
    if i < src.len() && cls(src[i]) {
        lemma_run_end_bounds(src, i + 1, cls);
    }
}

/// The end of the run of decimal digits starting at `i`.
pub open spec fn digits_end(src: Seq<char>, i: int) -> int {
    run_end(src, i, |c: char| is_digit(c))
}

/// Where a fractional part ending a number's integer part at `k` ends: a
/// point followed by at least one digit extends the match to the end of the
/// digit run; anything else leaves the match at `k`.
pub open spec fn frac_end(src: Seq<char>, k: int) -> int {
    if k < src.len() && src[k] == '.' && digits_end(src, k + 1) > k + 1 {
        digits_end(src, k + 1)
    } else {
        k
    }
}

/// Where an exponent part starting at `m` ends: an `e` or `E`, an optional
/// sign and at least one digit extend the match to the end of the digit
/// run; anything else leaves the match at `m`.
pub open spec fn exp_end(src: Seq<char>, m: int) -> int {
    if m < src.len() && (src[m] == 'e' || src[m] == 'E') {
        let t = if m + 1 < src.len() && (src[m + 1] == '+' || src[m + 1] == '-') {
            m + 2
        } else {
            m + 1
        };
        if digits_end(src, t) > t {
            digits_end(src, t)
        } else {
            m
        }
    } else {
        m
    }
}

/// Where a number whose integer part ends at `k` ends: the integer part,
/// then an optional fraction, then an optional exponent.
pub open spec fn number_tail(src: Seq<char>, k: int) -> int {
    exp_end(src, frac_end(src, k))
}

/// Where the number starting at `pos` ends, if one starts there: an optional
/// minus sign, an integer part that is a lone zero or starts with a nonzero
/// digit, then the optional fraction and exponent.
pub open spec fn number_end(src: Seq<char>, pos: int) -> Option<int> {
    let ipos = if pos < src.len() && src[pos] == '-' {
        pos + 1
    } else {
        pos
    };
    if ipos < src.len() && src[ipos] == '0' {
        Some(number_tail(src, ipos + 1))
    } else if ipos < src.len() && is_nonzero_digit(src[ipos]) {
        Some(number_tail(src, digits_end(src, ipos + 1)))
    } else {
        None
    }
}

/// A number match neither moves backwards nor leaves the buffer.
pub proof fn lemma_number_end_bounds(src: Seq<char>, pos: int)
    requires
        0 <= pos <= src.len(),
    ensures
        number_end(src, pos) matches Some(e) ==> pos <= e <= src.len(),
{
    let cls = |c: char| is_digit(c);
    if let Some(e) = number_end(src, pos) {
        let ipos = if pos < src.len() && src[pos] == '-' {
            pos + 1
        } else {
            pos
        };
        let k = if src[ipos] == '0' {
            ipos + 1
        } else {
            digits_end(src, ipos + 1)
        };
        lemma_run_end_bounds(src, ipos + 1, cls);
        let f = frac_end(src, k);
        if k < src.len() && src[k] == '.' && digits_end(src, k + 1) > k + 1 {
            lemma_run_end_bounds(src, k + 1, cls);
        }
        let m = exp_end(src, f);
        if f < src.len() && (src[f] == 'e' || src[f] == 'E') {
            let t = if f + 1 < src.len() && (src[f + 1] == '+' || src[f + 1] == '-') {
                f + 2
            } else {
                f + 1
            };
            lemma_run_end_bounds(src, t, cls);
        }
    }
}

/// The terminal patterns this toolkit recognises, one for each anchored
/// pattern of the public pattern set.
#[derive(Clone, Copy, PartialEq, Eq, Structural, Debug)]
pub enum Pattern {
    /// An identifier: a letter or underscore, then letters, digits or
    /// underscores.
    Ident,
    /// One or more white-space characters of any kind.
    Whitespace,
    /// One or more white-space characters, none of which ends a line.
    WhitespaceNoNewline,
    /// One or more line-break characters.
    Newline,
    /// One or more characters, none of which ends a line.
    NotNewline,
    /// One or more characters, none of which is white space.
    NotWhitespace,
    /// A JSON number literal.
    JsonNumber,
}

/// The character class whose run the pattern takes; for an identifier this
/// is the class of its continuation characters, and a number is not a plain
/// run at all.
pub open spec fn run_class(pat: Pattern) -> spec_fn(char) -> bool {
    match pat {
        Pattern::Ident => |c: char| is_ident_cont(c),
        Pattern::Whitespace => |c: char| is_space(c),
        Pattern::WhitespaceNoNewline => |c: char| is_space(c) && !is_line_break(c),
        Pattern::Newline => |c: char| is_line_break(c),
        Pattern::NotNewline => |c: char| !is_line_break(c),
        Pattern::NotWhitespace => |c: char| !is_space(c),
        Pattern::JsonNumber => |c: char| false,
    }
}

/// Whether `c` belongs to the pattern's run class, decided exactly as
/// [`run_class`] says.
pub fn char_in_class(pat: Pattern, c: char) -> (r: bool)
    ensures
        r == run_class(pat)(c),
{
    match pat {
        Pattern::Ident => {
            ('a' <= c && c <= 'z') || ('A' <= c && c <= 'Z') || c == '_' || ('0' <= c && c <= '9')
        },
        Pattern::Whitespace => space_char(c),
        Pattern::WhitespaceNoNewline => space_char(c) && !(c == '\r' || c == '\n'),
        Pattern::Newline => c == '\r' || c == '\n',
        Pattern::NotNewline => !(c == '\r' || c == '\n'),
        Pattern::NotWhitespace => !space_char(c),
        Pattern::JsonNumber => false,
    }
}

/// Where the pattern's match ends when anchored at `pos`, if it matches at
/// all.  Every pattern takes the longest prefix it can.
pub open spec fn pattern_end(src: Seq<char>, pos: int, pat: Pattern) -> Option<int> {
    match pat {
        Pattern::Ident => if pos < src.len() && is_ident_start(src[pos]) {
            Some(run_end(src, pos + 1, run_class(pat)))
        } else {
            None
        },
        Pattern::JsonNumber => number_end(src, pos),
        _ => {
            let e = run_end(src, pos, run_class(pat));
            if e > pos {
                Some(e)
            } else {
                None
            }
        },
    }
}

/// A pattern match neither moves backwards nor leaves the buffer.
pub proof fn lemma_pattern_end_bounds(src: Seq<char>, pos: int, pat: Pattern)
    requires
        0 <= pos <= src.len(),
    ensures
        pattern_end(src, pos, pat) matches Some(e) ==> pos <= e <= src.len(),
{
    match pat {
        Pattern::Ident => {
            if pos < src.len() && is_ident_start(src[pos]) {
                lemma_run_end_bounds(src, pos + 1, run_class(pat));
            }
        },
        Pattern::JsonNumber => {
            lemma_number_end_bounds(src, pos);
        },
        _ => {
            lemma_run_end_bounds(src, pos, run_class(pat));
        },
    }
}

/// The anchored pattern each [`Pattern`] stands for, written as the regular
/// expression it recognises; failure reports name this text.
pub open spec fn pattern_text(pat: Pattern) -> Seq<char> {
    match pat {
        Pattern::Ident => "\\A[a-zA-Z_][a-zA-Z0-9_]*"@,
        Pattern::Whitespace => "\\A\\s+"@,
        Pattern::WhitespaceNoNewline => "\\A[^\\S\\r\\n]+"@,
        Pattern::Newline => "\\A[\\r\\n]+"@,
        Pattern::NotNewline => "\\A^[^\\n\\r]+"@,
        Pattern::NotWhitespace => "\\A^[^\\s]+"@,
        Pattern::JsonNumber => "\\A-?(?:0|[1-9]\\d*)(?:\\.\\d+)?(?:[eE][+-]?\\d+)?"@,
    }
}

/// The pattern's text, exactly as [`pattern_text`] says.
pub fn pattern_text_of(pat: Pattern) -> (r: &'static str)
    ensures
        r@ == pattern_text(pat),
{
    match pat {
        Pattern::Ident => "\\A[a-zA-Z_][a-zA-Z0-9_]*",
        Pattern::Whitespace => "\\A\\s+",
        Pattern::WhitespaceNoNewline => "\\A[^\\S\\r\\n]+",
        Pattern::Newline => "\\A[\\r\\n]+",
        Pattern::NotNewline => "\\A^[^\\n\\r]+",
        Pattern::NotWhitespace => "\\A^[^\\s]+",
        Pattern::JsonNumber => "\\A-?(?:0|[1-9]\\d*)(?:\\.\\d+)?(?:[eE][+-]?\\d+)?",
    }
}

/// The end of the run of characters of `pat`'s class starting at `from`,
/// found by walking the buffer.
pub(crate) fn scan_run(src: &Vec<char>, from: usize, pat: Pattern) -> (e: usize)
    requires
        from <= src@.len(),
    ensures
        e as int == run_end(src@, from as int, run_class(pat)),
        from <= e <= src@.len(),
{
    let n = src.len();
    let mut i: usize = from;
    while i < n && char_in_class(pat, src[i])
        invariant
            from <= i <= src@.len(),
            n == src@.len(),
            run_end(src@, from as int, run_class(pat)) == run_end(src@, i as int, run_class(pat)),
        decreases src@.len() - i,
    {
        i = i + 1;
    }
    i
}

/// The end of the run of decimal digits starting at `from`, found by
/// walking the buffer.
fn scan_digits(src: &Vec<char>, from: usize) -> (e: usize)
    requires
        from <= src@.len(),
    ensures
        e as int == digits_end(src@, from as int),
        from <= e <= src@.len(),
{
    let n = src.len();
    let mut i: usize = from;
    while i < n && '0' <= src[i] && src[i] <= '9'
        invariant
            from <= i <= src@.len(),
            n == src@.len(),
            digits_end(src@, from as int) == digits_end(src@, i as int),
        decreases src@.len() - i,
    {
        assert(digits_end(src@, i as int) == digits_end(src@, i + 1));
        i = i + 1;
    }
    i
}

/// A parser that succeeds when the given pattern matches a prefix of the
/// unconsumed input, yielding the matched text, and fails naming the
/// pattern otherwise.
pub struct MatchP {
    /// The pattern matched against the input.
    pub pat: Pattern,
}

impl Parser<Token, String> for MatchP {
    open spec fn spec_parse(&self, src: Seq<char>, pos: int) -> Result<(int, TokenV), Seq<char>> {
        match pattern_end(src, pos, self.pat) {
            Some(e) => Ok((e, token_at(src, pos, e))),
            None => Err(could_not_parse_msg(pattern_text(self.pat))),
        }
    }

    proof fn lemma_parse_bounds(&self, src: Seq<char>, pos: int) {
        lemma_pattern_end_bounds(src, pos, self.pat);
    }

    fn parse<'a>(&self, input: Input<'a>) -> (r: Result<(Input<'a>, Token), String>) {
        let src = input.src;
        let n = src.len();
        let pos = input.pos;
        let matched_end: Option<usize> = match self.pat {
            Pattern::Ident => {
                if pos < n && char_is_ident_start(src[pos]) {
                    Some(scan_run(src, pos + 1, self.pat))
                } else {
                    None
                }
            },
            Pattern::JsonNumber => {
                let ipos: usize = if pos < n && src[pos] == '-' {
                    pos + 1
                } else {
                    pos
                };
                if ipos < n && src[ipos] == '0' {
                    Some(scan_number_tail(src, ipos + 1))
                } else if ipos < n && '1' <= src[ipos] && src[ipos] <= '9' {
                    let k = scan_digits(src, ipos + 1);
                    Some(scan_number_tail(src, k))
                } else {
                    None
                }
            },
            _ => {
                let e = scan_run(src, pos, self.pat);
                if e > pos {
                    Some(e)
                } else {
                    None
                }
            },
        };
        match matched_end {
            Some(e) => {
                let text = copy_range(src, pos, e);
                Ok((Input { src, pos: e }, Token { text, span: Span { start: pos, end: e } }))
            },
            None => Err(could_not_parse(pattern_text_of(self.pat))),
        }
    }
}

/// Whether `c` may start an identifier, exactly as [`is_ident_start`] says.
fn char_is_ident_start(c: char) -> (r: bool)
    ensures
        r == is_ident_start(c),
{
    ('a' <= c && c <= 'z') || ('A' <= c && c <= 'Z') || c == '_'
}

/// The end of a number's optional fraction and exponent, the integer part
/// having ended at `k`.
fn scan_number_tail(src: &Vec<char>, k: usize) -> (e: usize)
    requires
        k <= src@.len(),
    ensures
        e as int == number_tail(src@, k as int),
        k <= e <= src@.len(),
{
    let n = src.len();
    let k2: usize = if k < n && src[k] == '.' {
        let d = scan_digits(src, k + 1);
        if d > k + 1 {
            d
        } else {
            k
        }
    } else {
        k
    };
    assert(k2 as int == frac_end(src@, k as int));
    let m: usize = if k2 < n && (src[k2] == 'e' || src[k2] == 'E') {
        let t: usize = if k2 + 1 < n && (src[k2 + 1] == '+' || src[k2 + 1] == '-') {
            k2 + 2
        } else {
            k2 + 1
        };
        let d = scan_digits(src, t);
        if d > t {
            d
        } else {
            k2
        }
    } else {
        k2
    };
    assert(m as int == exp_end(src@, k2 as int));
    m
}

/// A parser that succeeds when the given pattern matches a prefix of the
/// input, handing back the remainder and the matched text.
pub fn matching(expected: Pattern) -> (r: MatchP)
    ensures
        r.pat == expected,
{
    MatchP { pat: expected }
}

/// The lowercase image of a sequence of characters, as Unicode case
/// folding gives it.
pub uninterp spec fn lower_of(s: Seq<char>) -> Seq<char>;

/// Relies on str::to_lowercase: the lowercase image of a string depends on
/// its characters alone.
#[verifier::external_body]
fn lowercase_chars(s: &Vec<char>) -> (r: Vec<char>)
    ensures
        r@ == lower_of(s@),
{
    let text: String = s.iter().collect();
    text.to_lowercase().chars().collect()
}

/// Whether two owned character vectors hold the same characters.
pub(crate) fn chars_equal(a: &Vec<char>, b: &Vec<char>) -> (r: bool)
    ensures
        r == (a@ == b@),
{
    if a.len() != b.len() {
        return false;
    }
    let mut i: usize = 0;
    while i < a.len()
        invariant
            a@.len() == b@.len(),
            0 <= i <= a@.len(),
            forall|j: int| 0 <= j < i ==> a@[j] == b@[j],
        decreases a@.len() - i,
    {
        if a[i] != b[i] {
            return false;
        }
        i = i + 1;
    }
    proof {
        assert(a@ =~= b@);
    }
    true
}

/// A parser that matches exactly the given word but insensitive to case,
/// comparing the word and a same-length prefix of the input after
/// lower-casing both sides; it yields the matched prefix of the input (in
/// the input's own case).
pub struct LiteralP {
    /// The characters that must come next, up to case.
    pub expected: Vec<char>,
    /// The word as given, used in the failure report.
    pub expected_text: String,
}

impl Parser<Token, String> for LiteralP {
    open spec fn spec_parse(&self, src: Seq<char>, pos: int) -> Result<(int, TokenV), Seq<char>> {
        let m = self.expected@.len();
        if 0 <= pos && pos + m <= src.len() && lower_of(src.subrange(pos, pos + m)) == lower_of(
            self.expected@,
        ) {
            Ok((pos + m, token_at(src, pos, pos + m)))
        } else {
            Err(could_not_parse_msg(self.expected_text@))
        }
    }

    proof fn lemma_parse_bounds(&self, src: Seq<char>, pos: int) {
    }

    fn parse<'a>(&self, input: Input<'a>) -> (r: Result<(Input<'a>, Token), String>) {
        let src = input.src;
        let n = src.len();
        let pos = input.pos;
        let m = self.expected.len();
        if n - pos < m {
            return Err(could_not_parse(self.expected_text.as_str()));
        }
        let e = pos + m;
        let window = copy_range(src, pos, e);
        let lowered_input = lowercase_chars(&window);
        let lowered_expected = lowercase_chars(&self.expected);
        if chars_equal(&lowered_input, &lowered_expected) {
            Ok((Input { src, pos: e }, Token { text: window, span: Span { start: pos, end: e } }))
        } else {
            Err(could_not_parse(self.expected_text.as_str()))
        }
    }
}

/// Matches exactly the given word but insensitive to case, comparing
/// after lower-casing both sides.
pub fn literal(expected: &str) -> (r: LiteralP)
    ensures
        r.expected@ == expected@,
        r.expected_text@ == expected@,
{
    LiteralP { expected: to_chars(expected), expected_text: expected.to_owned() }
}

/// Parse an identifier, in most programming languages' sense.
pub fn identifier() -> (r: MatchP)
    ensures
        r.pat == Pattern::Ident,
{
    matching(Pattern::Ident)
}

/// Parse any type of white space.
pub fn whitespace() -> (r: MatchP)
    ensures
        r.pat == Pattern::Whitespace,
{
    matching(Pattern::Whitespace)
}

/// Parse any type of white space that is not a line break.
pub fn whitespace_no_newline() -> (r: MatchP)
    ensures
        r.pat == Pattern::WhitespaceNoNewline,
{
    matching(Pattern::WhitespaceNoNewline)
}

/// Parse multiple consecutive line-break characters.
pub fn newline() -> (r: MatchP)
    ensures
        r.pat == Pattern::Newline,
{
    matching(Pattern::Newline)
}

/// Matches exactly one line-feed character.
pub fn one_newline() -> (r: LiteralP)
    ensures
        r.expected@ == "\n"@,
        r.expected_text@ == "\n"@,
{
    literal("\n")
}

/// Matches a run of characters none of which is white space.
pub fn not_whitespace() -> (r: MatchP)
    ensures
        r.pat == Pattern::NotWhitespace,
{
    matching(Pattern::NotWhitespace)
}

/// Transformation that turns the unit output of a parser that consumes
/// nothing into an empty token, so such a parser can stand as an
/// alternative beside a matcher.
pub struct EmptyMatch;

impl MapFn for EmptyMatch {
    type A = ();

    type B = Token;

    open spec fn spec_apply(&self, a: ()) -> TokenV {
        TokenV { text: Seq::empty(), start: 0, end: 0 }
    }

    fn apply(&self, a: ()) -> (r: Token) {
        Token { text: Vec::new(), span: Span { start: 0, end: 0 } }
    }
}

/// Matches a run of characters none of which ends a line.
pub fn not_newline() -> (r: MatchP)
    ensures
        r.pat == Pattern::NotNewline,
{
    matching(Pattern::NotNewline)
}

} // verus!
