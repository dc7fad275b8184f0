//! The JSON syntax tree: a closed set of node variants for parsed JSON
//! values.  Terminal variants hold the exact matched text (raw, with escape
//! sequences undecoded) together with the span of the source buffer it was
//! taken from; composite variants own their children in order.

use crate::base_parsers::{chars_equal, Token, TokenV};
use crate::source_range::{SourceRange, Span};
use vstd::prelude::*;

verus! {

/// A parsed JSON value.
///
/// Terminal variants keep the matched sub-slice of the source (for a string,
/// the raw content between the quotes, escapes not decoded).  When a node
/// was produced by parsing a buffer, its span names the place in that buffer
/// the text was taken from; a node fabricated independently may carry any
/// span.
#[derive(Debug)]
pub enum Json {
    /// A JSON object: its key-value pairs, order preserved.
    Object {
        /// The pairs, in the order they were written.
        elem: Vec<(Json, Json)>,
    },
    /// A JSON array: its values in order.
    Array {
        /// The values, in the order they were written.
        elem: Vec<Json>,
    },
    /// A `number` terminal.
    Number {
        /// The matched text.
        elem: Token,
    },
    /// A `string` terminal: the raw content between the quotes.
    String {
        /// The matched text.
        elem: Token,
    },
    /// A `true` terminal.
    True {
        /// The matched text.
        elem: Token,
    },
    /// A `false` terminal.
    False {
        /// The matched text.
        elem: Token,
    },
    /// A `null` terminal.
    Null {
        /// The matched text.
        elem: Token,
    },
}

/// The abstract value of a [`Json`] node.
pub enum JsonV {
    /// A JSON object.
    Object {
        /// The pairs, in order.
        elem: Seq<(JsonV, JsonV)>,
    },
    /// A JSON array.
    Array {
        /// The values, in order.
        elem: Seq<JsonV>,
    },
    /// A `number` terminal.
    Number {
        /// The matched text and its place.
        elem: TokenV,
    },
    /// A `string` terminal.
    String {
        /// The matched text and its place.
        elem: TokenV,
    },
    /// A `true` terminal.
    True {
        /// The matched text and its place.
        elem: TokenV,
    },
    /// A `false` terminal.
    False {
        /// The matched text and its place.
        elem: TokenV,
    },
    /// A `null` terminal.
    Null {
        /// The matched text and its place.
        elem: TokenV,
    },
}

/// The abstract value of a JSON node: spans become offset pairs, vectors
/// become sequences.
pub open spec fn json_view(j: Json) -> JsonV
    decreases j,
    via json_view_decreases
{
    match j {
        Json::Object { elem } => JsonV::Object { elem: pairs_view(elem@) },
        Json::Array { elem } => JsonV::Array { elem: values_view(elem@) },
        Json::Number { elem } => JsonV::Number { elem: elem.deep_view() },
        Json::String { elem } => JsonV::String { elem: elem.deep_view() },
        Json::True { elem } => JsonV::True { elem: elem.deep_view() },
        Json::False { elem } => JsonV::False { elem: elem.deep_view() },
        Json::Null { elem } => JsonV::Null { elem: elem.deep_view() },
    }
}

#[via_fn]
proof fn json_view_decreases(j: Json) {
    match j {
        Json::Object { elem } => {
            assert(decreases_to!(j => elem));
            assert(decreases_to!(elem => elem@));
        },
        Json::Array { elem } => {
            assert(decreases_to!(j => elem));
            assert(decreases_to!(elem => elem@));
        },
        _ => {},
    }
}

/// The abstract values of a sequence of key-value pairs, in order.
pub open spec fn pairs_view(s: Seq<(Json, Json)>) -> Seq<(JsonV, JsonV)>
    decreases s,
    via pairs_view_decreases
{
    if s.len() == 0 {
        Seq::empty()
    } else {
        pairs_view(s.subrange(0, s.len() - 1)).push(
            (json_view(s[s.len() - 1].0), json_view(s[s.len() - 1].1)),
        )
    }
}

#[via_fn]
proof fn pairs_view_decreases(s: Seq<(Json, Json)>) {
    if s.len() > 0 {
        assert(decreases_to!(s => s.subrange(0, s.len() - 1)));
        assert(decreases_to!(s => s[s.len() - 1]));
        assert(decreases_to!(s[s.len() - 1] => s[s.len() - 1].0));
        assert(decreases_to!(s[s.len() - 1] => s[s.len() - 1].1));
    }
}

/// The abstract values of a sequence of JSON values, in order.
pub open spec fn values_view(s: Seq<Json>) -> Seq<JsonV>
    decreases s,
    via values_view_decreases
{
    if s.len() == 0 {
        Seq::empty()
    } else {
        values_view(s.subrange(0, s.len() - 1)).push(json_view(s[s.len() - 1]))
    }
}

#[via_fn]
proof fn values_view_decreases(s: Seq<Json>) {
    if s.len() > 0 {
        assert(decreases_to!(s => s.subrange(0, s.len() - 1)));
        assert(decreases_to!(s => s[s.len() - 1]));
    }
}

/// A pair sequence's abstract value is the pairs' abstract values, one for
/// one and in order.
pub proof fn lemma_pairs_view(s: Seq<(Json, Json)>)
    ensures
        pairs_view(s).len() == s.len(),
        forall|i: int|
            0 <= i < s.len() ==> #[trigger] pairs_view(s)[i] == (
                json_view(s[i].0),
                json_view(s[i].1),
            ),
    decreases s.len(),
{
    if s.len() > 0 {
        let pre = s.subrange(0, s.len() - 1);
        lemma_pairs_view(pre);
        assert forall|i: int|
            0 <= i < s.len() implies #[trigger] pairs_view(s)[i] == (
            json_view(s[i].0),
            json_view(s[i].1),
        ) by {
            if i < s.len() - 1 {
                assert(pre[i] == s[i]);
                assert(pairs_view(s)[i] == pairs_view(pre)[i]);
            }
        }
    }
}

/// A value sequence's abstract value is the values' abstract values, one
/// for one and in order.
pub proof fn lemma_values_view(s: Seq<Json>)
    ensures
        values_view(s).len() == s.len(),
        forall|i: int| 0 <= i < s.len() ==> #[trigger] values_view(s)[i] == json_view(s[i]),
    decreases s.len(),
{
    if s.len() > 0 {
        let pre = s.subrange(0, s.len() - 1);
        lemma_values_view(pre);
        assert forall|i: int| 0 <= i < s.len() implies #[trigger] values_view(s)[i] == json_view(
            s[i],
        ) by {
            if i < s.len() - 1 {
                assert(pre[i] == s[i]);
                assert(values_view(s)[i] == values_view(pre)[i]);
            }
        }
    }
}

/// A vector of pairs views to the same sequence whichever way it is taken:
/// deeply, or pair by pair.
pub proof fn lemma_pairs_deep_view(v: Vec<(Json, Json)>)
    ensures
        v.deep_view() == pairs_view(v@),
{
    lemma_pairs_view(v@);
    assert(v.deep_view() =~= pairs_view(v@));
}

/// A vector of values views to the same sequence whichever way it is taken:
/// deeply, or value by value.
pub proof fn lemma_values_deep_view(v: Vec<Json>)
    ensures
        v.deep_view() == values_view(v@),
{
    lemma_values_view(v@);
    assert(v.deep_view() =~= values_view(v@));
}

impl DeepView for Json {
    type V = JsonV;

    open spec fn deep_view(&self) -> JsonV {
        json_view(*self)
    }
}

/// Two JSON values hold the same content: the same shape and the same
/// texts, wherever in a buffer each was taken from.  This is the equality
/// the tests compare with; spans are deliberately left out of it.
pub open spec fn content_matches(a: Json, b: Json) -> bool
    decreases a,
    via content_matches_decreases
{
    match (a, b) {
        (Json::Object { elem: ea }, Json::Object { elem: eb }) => {
            &&& ea@.len() == eb@.len()
            &&& forall|i: int| #![trigger ea@[i]]
                0 <= i < ea@.len() ==> content_matches(ea@[i].0, eb@[i].0)
                    && content_matches(ea@[i].1, eb@[i].1)
        },
        (Json::Array { elem: ea }, Json::Array { elem: eb }) => {
            &&& ea@.len() == eb@.len()
            &&& forall|i: int| 0 <= i < ea@.len() ==> content_matches(#[trigger] ea@[i], eb@[i])
        },
        (Json::Number { elem: ta }, Json::Number { elem: tb }) => ta.text@ == tb.text@,
        (Json::String { elem: ta }, Json::String { elem: tb }) => ta.text@ == tb.text@,
        (Json::True { elem: ta }, Json::True { elem: tb }) => ta.text@ == tb.text@,
        (Json::False { elem: ta }, Json::False { elem: tb }) => ta.text@ == tb.text@,
        (Json::Null { elem: ta }, Json::Null { elem: tb }) => ta.text@ == tb.text@,
        _ => false,
    }
}

#[via_fn]
proof fn content_matches_decreases(a: Json, b: Json) {
    match a {
        Json::Object { elem } => {
            assert(decreases_to!(a => elem));
            assert(decreases_to!(elem => elem@));
            assert forall|i: int| 0 <= i < elem@.len() implies decreases_to!(a => elem@[i].0)
                && decreases_to!(a => elem@[i].1) by {
                assert(decreases_to!(elem@ => elem@[i]));
                assert(decreases_to!(elem@[i] => elem@[i].0));
                assert(decreases_to!(elem@[i] => elem@[i].1));
            }
        },
        Json::Array { elem } => {
            assert(decreases_to!(a => elem));
            assert(decreases_to!(elem => elem@));
            assert forall|i: int| 0 <= i < elem@.len() implies decreases_to!(
                a => elem@[i],
            ) by {
                assert(decreases_to!(elem@ => elem@[i]));
            }
        },
        _ => {},
    }
}

fn pairs_content_eq(a: &Vec<(Json, Json)>, b: &Vec<(Json, Json)>) -> (r: bool)
    ensures
        r == (a@.len() == b@.len() && (forall|j: int| #![trigger a@[j]]
            0 <= j < a@.len() ==> content_matches(a@[j].0, b@[j].0) && content_matches(
                a@[j].1,
                b@[j].1,
            ))),
    decreases *a,
{
    if a.len() != b.len() {
        return false;
    }
    let mut i: usize = 0;
    while i < a.len()
        invariant
            a@.len() == b@.len(),
            0 <= i <= a@.len(),
            forall|j: int| #![trigger a@[j]]
                0 <= j < i ==> content_matches(a@[j].0, b@[j].0) && content_matches(
                    a@[j].1,
                    b@[j].1,
                ),
        decreases a@.len() - i,
    {
        proof {
            assert(decreases_to!(*a => a@));
            assert(decreases_to!(a@ => a@[i as int]));
            assert(decreases_to!(a@[i as int] => a@[i as int].0));
            assert(decreases_to!(a@[i as int] => a@[i as int].1));
        }
        let pa = &a[i];
        let pb = &b[i];
        proof {
            assert(*pa == a@[i as int]);
            assert(*pb == b@[i as int]);
        }
        if !pa.0.content_eq(&pb.0) {
            proof {
                assert(!content_matches(a@[i as int].0, b@[i as int].0));
            }
            return false;
        }
        if !pa.1.content_eq(&pb.1) {
            proof {
                assert(!content_matches(a@[i as int].1, b@[i as int].1));
            }
            return false;
        }
        proof {
            assert(content_matches(a@[i as int].0, b@[i as int].0));
            assert(content_matches(a@[i as int].1, b@[i as int].1));
        }
        i = i + 1;
    }
    true
}

fn values_content_eq(a: &Vec<Json>, b: &Vec<Json>) -> (r: bool)
    ensures
        r == (a@.len() == b@.len() && (forall|j: int|
            0 <= j < a@.len() ==> content_matches(#[trigger] a@[j], b@[j]))),
    decreases *a,
{
    if a.len() != b.len() {
        return false;
    }
    let mut i: usize = 0;
    while i < a.len()
        invariant
            a@.len() == b@.len(),
            0 <= i <= a@.len(),
            forall|j: int| 0 <= j < i ==> content_matches(#[trigger] a@[j], b@[j]),
        decreases a@.len() - i,
    {
        proof {
            assert(decreases_to!(*a => a@));
            assert(decreases_to!(a@ => a@[i as int]));
        }
        let va = &a[i];
        let vb = &b[i];
        proof {
            assert(*va == a@[i as int]);
            assert(*vb == b@[i as int]);
        }
        if !va.content_eq(vb) {
            proof {
                assert(!content_matches(a@[i as int], b@[i as int]));
            }
            return false;
        }
        proof {
            assert(content_matches(a@[i as int], b@[i as int]));
        }
        i = i + 1;
    }
    true
}

impl Json {
    /// Whether this value holds the same content as `other`: the same shape
    /// and the same texts, regardless of where each was parsed from.
    pub fn content_eq(&self, other: &Json) -> (r: bool)
        ensures
            r == content_matches(*self, *other),
        decreases *self,
    {
        match self {
            Json::Object { elem: ea } => match other {
                Json::Object { elem: eb } => {
                    proof {
                        let whole = Json::Object { elem: *ea };
                        assert(whole == *self);
                        assert(decreases_to!(whole => *ea));
                    }
                    pairs_content_eq(ea, eb)
                },
                _ => false,
            },
            Json::Array { elem: ea } => match other {
                Json::Array { elem: eb } => {
                    proof {
                        let whole = Json::Array { elem: *ea };
                        assert(whole == *self);
                        assert(decreases_to!(whole => *ea));
                    }
                    values_content_eq(ea, eb)
                },
                _ => false,
            },
            Json::Number { elem: ta } => match other {
                Json::Number { elem: tb } => chars_equal(&ta.text, &tb.text),
                _ => false,
            },
            Json::String { elem: ta } => match other {
                Json::String { elem: tb } => chars_equal(&ta.text, &tb.text),
                _ => false,
            },
            Json::True { elem: ta } => match other {
                Json::True { elem: tb } => chars_equal(&ta.text, &tb.text),
                _ => false,
            },
            Json::False { elem: ta } => match other {
                Json::False { elem: tb } => chars_equal(&ta.text, &tb.text),
                _ => false,
            },
            Json::Null { elem: ta } => match other {
                Json::Null { elem: tb } => chars_equal(&ta.text, &tb.text),
                _ => false,
            },
        }
    }
}

/// Every text a node holds was taken from `src` at the place its span
/// names: the invariant that parsing establishes for each node it builds.
pub open spec fn from_source(j: JsonV, src: Seq<char>) -> bool
    decreases j,
    via from_source_decreases
{
    match j {
        JsonV::Object { elem } => forall|i: int| #![trigger elem[i]]
            0 <= i < elem.len() ==> from_source(elem[i].0, src) && from_source(elem[i].1, src),
        JsonV::Array { elem } => forall|i: int|
            0 <= i < elem.len() ==> from_source(#[trigger] elem[i], src),
        JsonV::Number { elem: t } => token_from_source(t, src),
        JsonV::String { elem: t } => token_from_source(t, src),
        JsonV::True { elem: t } => token_from_source(t, src),
        JsonV::False { elem: t } => token_from_source(t, src),
        JsonV::Null { elem: t } => token_from_source(t, src),
    }
}

#[via_fn]
proof fn from_source_decreases(j: JsonV, src: Seq<char>) {
    match j {
        JsonV::Object { elem } => {
            assert(decreases_to!(j => elem));
            assert forall|i: int| 0 <= i < elem.len() implies decreases_to!(j => elem[i].0)
                && decreases_to!(j => elem[i].1) by {
                assert(decreases_to!(elem => elem[i]));
                assert(decreases_to!(elem[i] => elem[i].0));
                assert(decreases_to!(elem[i] => elem[i].1));
            }
        },
        JsonV::Array { elem } => {
            assert(decreases_to!(j => elem));
            assert forall|i: int| 0 <= i < elem.len() implies decreases_to!(
                j => elem[i],
            ) by {
                assert(decreases_to!(elem => elem[i]));
            }
        },
        _ => {},
    }
}

/// A token's span lies inside `src` and its text is what stands there.
pub open spec fn token_from_source(t: TokenV, src: Seq<char>) -> bool {
    &&& 0 <= t.start <= t.end <= src.len()
    &&& t.text == src.subrange(t.start, t.end)
}

/// The range of the buffer `[0, n)` that a node claims.  A terminal claims
/// its own span when that span lies inside the buffer; a composite claims
/// the range from the start of its first child's range to the end of its
/// last child's range (for an object, from the first pair's key to the last
/// pair's value), and nothing when it is empty or when either boundary is
/// not derivable.
pub open spec fn json_range(j: JsonV, n: int) -> Option<Span>
    decreases j,
    via json_range_decreases
{
    match j {
        JsonV::Object { elem } => {
            if elem.len() == 0 {
                None
            } else {
                match (json_range(elem[0].0, n), json_range(elem[elem.len() - 1].1, n)) {
                    (Some(a), Some(b)) => Some(Span { start: a.start, end: b.end }),
                    _ => None,
                }
            }
        },
        JsonV::Array { elem } => {
            if elem.len() == 0 {
                None
            } else {
                match (json_range(elem[0], n), json_range(elem[elem.len() - 1], n)) {
                    (Some(a), Some(b)) => Some(Span { start: a.start, end: b.end }),
                    _ => None,
                }
            }
        },
        JsonV::Number { elem: t } => token_range(t, n),
        JsonV::String { elem: t } => token_range(t, n),
        JsonV::True { elem: t } => token_range(t, n),
        JsonV::False { elem: t } => token_range(t, n),
        JsonV::Null { elem: t } => token_range(t, n),
    }
}

#[via_fn]
proof fn json_range_decreases(j: JsonV, n: int) {
    match j {
        JsonV::Object { elem } => {
            if elem.len() > 0 {
                assert(decreases_to!(j => elem));
                assert(decreases_to!(elem => elem[0]));
                assert(decreases_to!(elem[0] => elem[0].0));
                assert(decreases_to!(elem => elem[elem.len() - 1]));
                assert(decreases_to!(elem[elem.len() - 1] => elem[elem.len() - 1].1));
            }
        },
        JsonV::Array { elem } => {
            if elem.len() > 0 {
                assert(decreases_to!(j => elem));
                assert(decreases_to!(elem => elem[0]));
                assert(decreases_to!(elem => elem[elem.len() - 1]));
            }
        },
        _ => {},
    }
}

/// The range a token claims in a buffer of `n` characters: its span when
/// that span is ordered and lies inside the buffer, nothing otherwise.
pub open spec fn token_range(t: TokenV, n: int) -> Option<Span> {
    if 0 <= t.start <= t.end <= n {
        Some(Span { start: t.start as usize, end: t.end as usize })
    } else {
        None
    }
}

/// The range of the buffer that `j` claims, found by walking the tree.
fn range_of(j: &Json, n: usize) -> (r: Option<Span>)
    ensures
        r == json_range(j.deep_view(), n as int),
    decreases *j,
{
    match j {
        Json::Object { elem } => {
            proof {
                lemma_pairs_view(elem@);
            }
            if elem.len() == 0 {
                None
            } else {
                proof {
                    let whole = Json::Object { elem: *elem };
                    assert(whole == *j);
                    assert(decreases_to!(whole => *elem));
                    assert(decreases_to!(*elem => elem@));
                    assert(decreases_to!(elem@ => elem@[0]));
                    assert(decreases_to!(elem@[0] => elem@[0].0));
                    assert(decreases_to!(elem@ => elem@[elem@.len() - 1]));
                    assert(decreases_to!(elem@[elem@.len() - 1] => elem@[elem@.len() - 1].1));
                }
                let first = &elem[0];
                let last = &elem[elem.len() - 1];
                match (range_of(&first.0, n), range_of(&last.1, n)) {
                    (Some(a), Some(b)) => Some(Span { start: a.start, end: b.end }),
                    _ => None,
                }
            }
        },
        Json::Array { elem } => {
            proof {
                lemma_values_view(elem@);
            }
            if elem.len() == 0 {
                None
            } else {
                proof {
                    let whole = Json::Array { elem: *elem };
                    assert(whole == *j);
                    assert(decreases_to!(whole => *elem));
                    assert(decreases_to!(*elem => elem@));
                    assert(decreases_to!(elem@ => elem@[0]));
                    assert(decreases_to!(elem@ => elem@[elem@.len() - 1]));
                }
                let first = &elem[0];
                let last = &elem[elem.len() - 1];
                match (range_of(first, n), range_of(last, n)) {
                    (Some(a), Some(b)) => Some(Span { start: a.start, end: b.end }),
                    _ => None,
                }
            }
        },
        Json::Number { elem: t } => token_range_of(t, n),
        Json::String { elem: t } => token_range_of(t, n),
        Json::True { elem: t } => token_range_of(t, n),
        Json::False { elem: t } => token_range_of(t, n),
        Json::Null { elem: t } => token_range_of(t, n),
    }
}

/// The range a token claims in a buffer of `n` characters, checked as
/// [`token_range`] says.
fn token_range_of(t: &Token, n: usize) -> (r: Option<Span>)
    ensures
        r == token_range(t.deep_view(), n as int),
{
    if t.span.start <= t.span.end && t.span.end <= n {
        Some(Span { start: t.span.start, end: t.span.end })
    } else {
        None
    }
}

impl SourceRange for Token {
    open spec fn spec_range(&self, source: Seq<char>) -> Option<Span> {
        token_range(self.deep_view(), source.len() as int)
    }

    fn source_range(&self, source: &Vec<char>) -> (r: Option<Span>) {
        token_range_of(self, source.len())
    }
}

impl SourceRange for Json {
    open spec fn spec_range(&self, source: Seq<char>) -> Option<Span> {
        json_range(self.deep_view(), source.len() as int)
    }

    fn source_range(&self, source: &Vec<char>) -> (r: Option<Span>) {
        range_of(self, source.len())
    }
}

/// Round trip of span capture: a JSON terminal node that was taken from a
/// buffer claims a range of that buffer, and the characters of that range
/// are exactly the node's stored text.
pub proof fn lemma_terminal_span_round_trip(j: JsonV, src: Seq<char>)
    requires
        from_source(j, src),
        src.len() <= usize::MAX,
        !(j is Object),
        !(j is Array),
    ensures
        json_range(j, src.len() as int) matches Some(sp) && {
            let t = match j {
                JsonV::Number { elem: t } => t,
                JsonV::String { elem: t } => t,
                JsonV::True { elem: t } => t,
                JsonV::False { elem: t } => t,
                JsonV::Null { elem: t } => t,
                _ => arbitrary(),
            };
            &&& sp.start == t.start
            &&& sp.end == t.end
            &&& src.subrange(sp.start as int, sp.end as int) == t.text
        },
{
}

} // verus!
