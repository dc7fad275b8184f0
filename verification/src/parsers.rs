//! The parser abstraction and its combinators.
//!
//! A parser consumes a prefix of a character buffer and yields either the
//! advanced cursor together with an output value, or an error value.  Every
//! parser carries a mathematical description of itself (`spec_parse`), and
//! its executable `parse` method is proved to agree with that description.

use vstd::prelude::*;
use vstd::std_specs::iter::IteratorSpec;

verus! {

/// A cursor into a source buffer: the characters of the buffer together with
/// the position from which parsing continues.  Copying an `Input` is cheap,
/// which is what lets alternation retry a second parser on the original
/// input without any backtracking bookkeeping.
pub struct Input<'a> {
    /// The whole source buffer.
    pub src: &'a Vec<char>,
    /// The position (in characters) where the unconsumed part begins.
    pub pos: usize,
}

impl<'a> Clone for Input<'a> {
    fn clone(&self) -> (r: Self)
        ensures
            r == *self,
    {
        Input { src: self.src, pos: self.pos }
    }
}

impl<'a> Copy for Input<'a> {

}

impl<'a> Input<'a> {
    /// The characters of the whole buffer.
    pub open spec fn s(&self) -> Seq<char> {
        self.src@
    }

    /// The cursor must not point past the end of the buffer.
    pub open spec fn wf(&self) -> bool {
        self.pos <= self.src@.len()
    }

    /// A cursor at the start of `src`.
    pub fn new(src: &'a Vec<char>) -> (r: Input<'a>)
        ensures
            r.src@ == src@,
            r.pos == 0,
            r.wf(),
    {
        Input { src, pos: 0 }
    }

    /// The unconsumed characters, as an owned vector.
    pub fn rest(&self) -> (r: Vec<char>)
        requires
            self.wf(),
        ensures
            r@ == self.s().skip(self.pos as int),
    {
        let mut out: Vec<char> = Vec::new();
        let mut i: usize = self.pos;
        while i < self.src.len()
            invariant
                self.pos <= i <= self.src@.len(),
                out@ == self.s().subrange(self.pos as int, i as int),
            decreases self.src@.len() - i,
        {
            out.push(self.src[i]);
            assert(out@ == self.s().subrange(self.pos as int, i + 1));
            i = i + 1;
        }
        assert(self.s().subrange(self.pos as int, self.s().len() as int) == self.s().skip(
            self.pos as int,
        ));
        out
    }
}

/// The central abstraction: anything that can consume a prefix of the input
/// and return either the remaining input with an output of type `O`, or an
/// error of type `E`.
///
/// `spec_parse` is the parser's mathematical meaning: a function from the
/// buffer contents and a position to either the position after the consumed
/// prefix with the output's abstract value, or the error's abstract value.
/// The executable `parse` must return exactly what `spec_parse` describes.
pub trait Parser<O: DeepView, E: DeepView>: Sized {
    /// What this parser returns, as a function of the buffer and position.
    spec fn spec_parse(&self, src: Seq<char>, pos: int) -> Result<(int, O::V), E::V>;

    /// On success the new position lies between the old position and the end
    /// of the buffer: a parser only ever consumes a prefix of what remains.
    proof fn lemma_parse_bounds(&self, src: Seq<char>, pos: int)
        requires
            0 <= pos <= src.len(),
        ensures
            self.spec_parse(src, pos) matches Ok((q, _)) ==> pos <= q <= src.len(),
    ;

    /// Consume the next bit of input: return the remainder and an output, or
    /// an error, exactly as `spec_parse` describes.
    fn parse<'a>(&self, input: Input<'a>) -> (r: Result<(Input<'a>, O), E>)
        requires
            input.wf(),
        ensures
            match r {
                Ok((rem, out)) => {
                    &&& rem.src@ == input.src@
                    &&& input.pos <= rem.pos
                    &&& rem.wf()
                    &&& self.spec_parse(input.s(), input.pos as int) == Ok::<
                        (int, O::V),
                        E::V,
                    >((rem.pos as int, out.deep_view()))
                },
                Err(e) => self.spec_parse(input.s(), input.pos as int) == Err::<
                    (int, O::V),
                    E::V,
                >(e.deep_view()),
            },
    ;
}

/// Parser that always succeeds, consumes nothing and yields a unit value.
pub struct NothingP;

impl<E: DeepView> Parser<(), E> for NothingP {
    open spec fn spec_parse(&self, src: Seq<char>, pos: int) -> Result<(int, ()), E::V> {
        Ok((pos, ()))
    }

    proof fn lemma_parse_bounds(&self, src: Seq<char>, pos: int) {
    }

    fn parse<'a>(&self, input: Input<'a>) -> (r: Result<(Input<'a>, ()), E>) {
        Ok((input, ()))
    }
}

/// Parser that always succeeds given any input, consuming nothing.
pub fn nothing() -> NothingP {
    NothingP
}

/// A value that can be duplicated without changing its abstract value.
/// Parsers that hand out a stored error each time they run need this.
pub trait Dup: DeepView + Sized {
    /// Produce a copy whose abstract value equals this one's.
    fn dup(&self) -> (r: Self)
        ensures
            r.deep_view() == self.deep_view(),
    ;
}

impl Dup for String {
    fn dup(&self) -> (r: Self) {
        self.clone()
    }
}

impl<'s> Dup for &'s str {
    fn dup(&self) -> (r: Self) {
        *self
    }
}

/// Parser that always fails with a fixed error value.
pub struct FailP<O, E> {
    /// The error returned on every run.
    pub error: E,
    /// Phantom marker tying down the output type.
    pub _out: core::marker::PhantomData<O>,
}

impl<O: DeepView, E: Dup> Parser<O, E> for FailP<O, E> {
    open spec fn spec_parse(&self, src: Seq<char>, pos: int) -> Result<(int, O::V), E::V> {
        Err(self.error.deep_view())
    }

    proof fn lemma_parse_bounds(&self, src: Seq<char>, pos: int) {
    }

    fn parse<'a>(&self, input: Input<'a>) -> (r: Result<(Input<'a>, O), E>) {
        Err(self.error.dup())
    }
}

/// Parser that always fails given any input, with the given error.
pub fn fail<O, E>(error: E) -> (r: FailP<O, E>)
    ensures
        r.error == error,
{
    FailP { error, _out: core::marker::PhantomData }
}

/// A transformation of one output value into another, together with its
/// mathematical meaning.  This is what the `map` combinator applies.
pub trait MapFn {
    /// The type transformed from.
    type A: DeepView;

    /// The type transformed to.
    type B: DeepView;

    /// What the transformation yields, on abstract values.
    spec fn spec_apply(&self, a: <Self::A as DeepView>::V) -> <Self::B as DeepView>::V;

    /// Transform one value, exactly as `spec_apply` describes.
    fn apply(&self, a: Self::A) -> (r: Self::B)
        ensures
            r.deep_view() == self.spec_apply(a.deep_view()),
    ;
}

/// Transformation that keeps the first component of a pair.
pub struct FirstFn<A, B> {
    /// Phantom marker tying down the pair type.
    pub _types: core::marker::PhantomData<(A, B)>,
}

impl<A, B> FirstFn<A, B> {
    /// Build the transformation.
    pub fn new() -> Self {
        FirstFn { _types: core::marker::PhantomData }
    }
}

impl<A: DeepView, B: DeepView> MapFn for FirstFn<A, B> {
    type A = (A, B);

    type B = A;

    open spec fn spec_apply(&self, a: (A::V, B::V)) -> A::V {
        a.0
    }

    fn apply(&self, a: (A, B)) -> (r: A) {
        a.0
    }
}

/// Transformation that keeps the second component of a pair.
pub struct SecondFn<A, B> {
    /// Phantom marker tying down the pair type.
    pub _types: core::marker::PhantomData<(A, B)>,
}

impl<A, B> SecondFn<A, B> {
    /// Build the transformation.
    pub fn new() -> Self {
        SecondFn { _types: core::marker::PhantomData }
    }
}

impl<A: DeepView, B: DeepView> MapFn for SecondFn<A, B> {
    type A = (A, B);

    type B = B;

    open spec fn spec_apply(&self, a: (A::V, B::V)) -> B::V {
        a.1
    }

    fn apply(&self, a: (A, B)) -> (r: B) {
        a.1
    }
}

/// Parser that runs `p` and transforms its output with `f`; a failure of `p`
/// is propagated unchanged.
pub struct MapP<P, F> {
    /// The underlying parser.
    pub p: P,
    /// The transformation applied to the output.
    pub f: F,
}

impl<E: DeepView, P, F> Parser<<F as MapFn>::B, E> for MapP<P, F> where
    F: MapFn,
    P: Parser<F::A, E>,
 {
    open spec fn spec_parse(&self, src: Seq<char>, pos: int) -> Result<
        (int, <F::B as DeepView>::V),
        E::V,
    > {
        match self.p.spec_parse(src, pos) {
            Ok((q, a)) => Ok((q, self.f.spec_apply(a))),
            Err(e) => Err(e),
        }
    }

    proof fn lemma_parse_bounds(&self, src: Seq<char>, pos: int) {
        self.p.lemma_parse_bounds(src, pos);
    }

    fn parse<'a>(&self, input: Input<'a>) -> (r: Result<(Input<'a>, F::B), E>) {
        match self.p.parse(input) {
            Ok((rem, a)) => Ok((rem, self.f.apply(a))),
            Err(e) => Err(e),
        }
    }
}

/// Allow the transformation of a parser's output into another output.
/// Failures pass through untouched.
pub fn map<P, F>(pa: P, map_fn: F) -> (r: MapP<P, F>)
    ensures
        r.p == pa,
        r.f == map_fn,
{
    MapP { p: pa, f: map_fn }
}

/// Parser that runs `pa`, then `pb` on `pa`'s remainder, and yields both
/// outputs as a pair.  It fails with whichever parser failed first, and `pb`
/// is never run when `pa` fails.
pub struct AndP<PA, PB> {
    /// The parser run first.
    pub pa: PA,
    /// The parser run on `pa`'s remainder.
    pub pb: PB,
}

impl<OA: DeepView, OB: DeepView, E: DeepView, PA, PB> Parser<(OA, OB), E> for AndP<PA, PB> where
    PA: Parser<OA, E>,
    PB: Parser<OB, E>,
 {
    open spec fn spec_parse(&self, src: Seq<char>, pos: int) -> Result<
        (int, (OA::V, OB::V)),
        E::V,
    > {
        match self.pa.spec_parse(src, pos) {
            Ok((q, a)) => match self.pb.spec_parse(src, q) {
                Ok((q2, b)) => Ok((q2, (a, b))),
                Err(e) => Err(e),
            },
            Err(e) => Err(e),
        }
    }

    proof fn lemma_parse_bounds(&self, src: Seq<char>, pos: int) {
        self.pa.lemma_parse_bounds(src, pos);
        if let Ok((q, _)) = self.pa.spec_parse(src, pos) {
            self.pb.lemma_parse_bounds(src, q);
        }
    }

    fn parse<'a>(&self, input: Input<'a>) -> (r: Result<(Input<'a>, (OA, OB)), E>) {
        match self.pa.parse(input) {
            Ok((rem_a, out_a)) => match self.pb.parse(rem_a) {
                Ok((rem_b, out_b)) => Ok((rem_b, (out_a, out_b))),
                Err(e) => Err(e),
            },
            Err(e) => Err(e),
        }
    }
}

/// Takes two parsers and returns the result of both in a tuple.
pub fn and<PA, PB>(pa: PA, pb: PB) -> (r: AndP<PA, PB>)
    ensures
        r.pa == pa,
        r.pb == pb,
{
    AndP { pa, pb }
}

/// Parser that tries `pa` and, when it fails, retries `pb` on the original
/// input.  When both fail, `pb`'s error is the one reported.
pub struct OrP<PA, PB> {
    /// The alternative tried first.
    pub pa: PA,
    /// The alternative tried on the original input when `pa` fails.
    pub pb: PB,
}

impl<O: DeepView, E: DeepView, PA, PB> Parser<O, E> for OrP<PA, PB> where
    PA: Parser<O, E>,
    PB: Parser<O, E>,
 {
    open spec fn spec_parse(&self, src: Seq<char>, pos: int) -> Result<(int, O::V), E::V> {
        match self.pa.spec_parse(src, pos) {
            Ok(r) => Ok(r),
            Err(_) => self.pb.spec_parse(src, pos),
        }
    }

    proof fn lemma_parse_bounds(&self, src: Seq<char>, pos: int) {
        self.pa.lemma_parse_bounds(src, pos);
        self.pb.lemma_parse_bounds(src, pos);
    }

    fn parse<'a>(&self, input: Input<'a>) -> (r: Result<(Input<'a>, O), E>) {
        match self.pa.parse(input) {
            Ok(r) => Ok(r),
            Err(_) => match self.pb.parse(input) {
                Ok(r) => Ok(r),
                Err(e) => Err(e),
            },
        }
    }
}

/// Takes two parsers and returns whichever result matches first: `pa` is
/// tried, and on failure `pb` is tried on the same input.
pub fn or<PA, PB>(pa: PA, pb: PB) -> (r: OrP<PA, PB>)
    ensures
        r.pa == pa,
        r.pb == pb,
{
    OrP { pa, pb }
}

/// Takes 2 parsers as argument and returns the result of the second parser.
/// Both parsers must succeed.
pub fn right<OA: DeepView, OB: DeepView, PA, PB>(pa: PA, pb: PB) -> (r: MapP<
    AndP<PA, PB>,
    SecondFn<OA, OB>,
>)
    ensures
        r.p.pa == pa,
        r.p.pb == pb,
        r.f == (SecondFn::<OA, OB> { _types: core::marker::PhantomData }),
{
    map(and(pa, pb), SecondFn::new())
}

/// Takes 2 parsers as argument and returns the result of the left parser.
/// Both parsers must succeed.
pub fn left<OA: DeepView, OB: DeepView, PA, PB>(pa: PA, pb: PB) -> (r: MapP<
    AndP<PA, PB>,
    FirstFn<OA, OB>,
>)
    ensures
        r.p.pa == pa,
        r.p.pb == pb,
        r.f == (FirstFn::<OA, OB> { _types: core::marker::PhantomData }),
{
    map(and(pa, pb), FirstFn::new())
}

/// Combination of the left and right parsers: given parsers A, B and C run in
/// sequence, only B's output is kept.  All three parsers must succeed.
pub fn middle<OA: DeepView, OB: DeepView, OC: DeepView, PA, PB, PC>(pa: PA, pb: PB, pc: PC) -> (r:
    MapP<AndP<MapP<AndP<PA, PB>, SecondFn<OA, OB>>, PC>, FirstFn<OB, OC>>)
    ensures
        r.p.pa.p.pa == pa,
        r.p.pa.p.pb == pb,
        r.p.pb == pc,
        r.p.pa.f == (SecondFn::<OA, OB> { _types: core::marker::PhantomData }),
        r.f == (FirstFn::<OB, OC> { _types: core::marker::PhantomData }),
{
    let p = map(and(pa, pb), SecondFn::new());
    map(and(p, pc), FirstFn::new())
}

/// Pushing onto a vector appends the element's abstract value to the
/// vector's abstract value.
pub proof fn lemma_deep_view_push<T: DeepView>(v: Seq<T>, x: T)
    ensures
        Seq::new(v.push(x).len(), |i: int| v.push(x)[i].deep_view()) == Seq::new(
            v.len(),
            |i: int| v[i].deep_view(),
        ).push(x.deep_view()),
{
    assert(Seq::new(v.push(x).len(), |i: int| v.push(x)[i].deep_view()) =~= Seq::new(
        v.len(),
        |i: int| v[i].deep_view(),
    ).push(x.deep_view()));
}

/// Where repeated application of `p` ends, and what it collects on the way:
/// starting at `pos`, apply `p` as long as it succeeds and moves forward,
/// and gather the outputs in order.  Repetition never fails: when `p` fails,
/// or when it succeeds without consuming anything (which would repeat
/// forever), the collected outputs so far are the result and the position
/// stays where the last full step left it.
pub open spec fn spec_repeat<O: DeepView, E: DeepView, P: Parser<O, E>>(
    p: &P,
    src: Seq<char>,
    pos: int,
) -> (int, Seq<O::V>)
    decreases src.len() - pos,
{
    match p.spec_parse(src, pos) {
        Ok((q, v)) => {
            if pos < q <= src.len() {
                let (qq, vs) = spec_repeat(p, src, q);
                (qq, seq![v] + vs)
            } else {
                (pos, Seq::empty())
            }
        },
        Err(_) => (pos, Seq::empty()),
    }
}

/// Repetition only moves forward, and never past the end of the buffer.
pub proof fn lemma_repeat_bounds<O: DeepView, E: DeepView, P: Parser<O, E>>(
    p: &P,
    src: Seq<char>,
    pos: int,
)
    requires
        0 <= pos <= src.len(),
    ensures
        pos <= spec_repeat(p, src, pos).0 <= src.len(),
    decreases src.len() - pos,
{
    if let Ok((q, v)) = p.spec_parse(src, pos) {
        if pos < q <= src.len() {
            lemma_repeat_bounds(p, src, q);
        }
    }
}

/// Parser that applies `p` zero or more times, collecting the outputs; it
/// never fails itself.  A failed attempt leaves the remainder from before
/// that attempt untouched.
pub struct WhileP<P> {
    /// The parser applied repeatedly.
    pub p: P,
}

impl<O: DeepView, E: DeepView, P: Parser<O, E>> Parser<Vec<O>, E> for WhileP<P> {
    open spec fn spec_parse(&self, src: Seq<char>, pos: int) -> Result<(int, Seq<O::V>), E::V> {
        Ok(spec_repeat(&self.p, src, pos))
    }

    proof fn lemma_parse_bounds(&self, src: Seq<char>, pos: int) {
        lemma_repeat_bounds(&self.p, src, pos);
    }

    fn parse<'a>(&self, input: Input<'a>) -> (r: Result<(Input<'a>, Vec<O>), E>) {
        let mut rem = input;
        let mut res: Vec<O> = Vec::new();
        proof {
            assert(res.deep_view() =~= Seq::<O::V>::empty());
            assert(res.deep_view() + spec_repeat(&self.p, input.s(), input.pos as int).1
                =~= spec_repeat(&self.p, input.s(), input.pos as int).1);
        }
        loop
            invariant
                rem.wf(),
                rem.src@ == input.src@,
                input.pos <= rem.pos,
                spec_repeat(&self.p, input.s(), input.pos as int) == ({
                    let (q, vs) = spec_repeat(&self.p, input.s(), rem.pos as int);
                    (q, res.deep_view() + vs)
                }),
            ensures
                rem.wf(),
                rem.src@ == input.src@,
                input.pos <= rem.pos,
                spec_repeat(&self.p, input.s(), input.pos as int) == (
                    rem.pos as int,
                    res.deep_view(),
                ),
            decreases input.s().len() - rem.pos,
        {
            match self.p.parse(rem) {
                Ok((new_rem, out)) => {
                    if new_rem.pos <= rem.pos {
                        // a sub-parser that consumes nothing would repeat
                        // forever; treat it as the end of the repetition
                        proof {
                            assert(res.deep_view() + spec_repeat(
                                &self.p,
                                input.s(),
                                rem.pos as int,
                            ).1 =~= res.deep_view());
                        }
                        break;
                    }
                    proof {
                        let src = input.s();
                        let tail = spec_repeat(&self.p, src, new_rem.pos as int);
                        assert(spec_repeat(&self.p, src, rem.pos as int) == (
                            tail.0,
                            seq![out.deep_view()] + tail.1,
                        ));
                        lemma_deep_view_push(res@, out);
                        assert(res.deep_view().push(out.deep_view()) + tail.1 =~= res.deep_view()
                            + (seq![out.deep_view()] + tail.1));
                    }
                    res.push(out);
                    rem = new_rem;
                },
                Err(_) => {
                    proof {
                        assert(res.deep_view() + spec_repeat(
                            &self.p,
                            input.s(),
                            rem.pos as int,
                        ).1 =~= res.deep_view());
                    }
                    break;
                },
            }
        }
        Ok((rem, res))
    }
}

/// Applies a parser 0 or more times; always succeeds, and returns as soon as
/// the given parser stops matching.
pub fn while_<P>(parser: P) -> (r: WhileP<P>)
    ensures
        r.p == parser,
{
    WhileP { p: parser }
}

/// Parser that applies `p` one or more times: the first application must
/// succeed, and its failure is propagated; afterwards it collects like the
/// zero-or-more repetition.
pub struct OneOrMoreP<P> {
    /// The parser applied repeatedly.
    pub p: P,
}

impl<O: DeepView, E: DeepView, P: Parser<O, E>> Parser<Vec<O>, E> for OneOrMoreP<P> {
    open spec fn spec_parse(&self, src: Seq<char>, pos: int) -> Result<(int, Seq<O::V>), E::V> {
        match self.p.spec_parse(src, pos) {
            Ok((q, v)) => {
                if pos < q <= src.len() {
                    let (qq, vs) = spec_repeat(&self.p, src, q);
                    Ok((qq, seq![v] + vs))
                } else {
                    Ok((q, seq![v]))
                }
            },
            Err(e) => Err(e),
        }
    }

    proof fn lemma_parse_bounds(&self, src: Seq<char>, pos: int) {
        self.p.lemma_parse_bounds(src, pos);
        if let Ok((q, _)) = self.p.spec_parse(src, pos) {
            if pos < q <= src.len() {
                lemma_repeat_bounds(&self.p, src, q);
            }
        }
    }

    fn parse<'a>(&self, input: Input<'a>) -> (r: Result<(Input<'a>, Vec<O>), E>) {
        let first = self.p.parse(input);
        match first {
            Err(e) => Err(e),
            Ok((first_rem, first_out)) => {
                let mut res: Vec<O> = Vec::new();
                proof {
                    lemma_deep_view_push(res@, first_out);
                    assert(res.deep_view() =~= Seq::<O::V>::empty());
                    assert(Seq::<O::V>::empty().push(first_out.deep_view()) =~= seq![
                        first_out.deep_view(),
                    ]);
                }
                res.push(first_out);
                if first_rem.pos <= input.pos {
                    // no forward progress: stop after the first output
                    return Ok((first_rem, res));
                }
                let mut rem = first_rem;
                proof {
                    assert(res.deep_view() + spec_repeat(&self.p, input.s(), rem.pos as int).1
                        =~= seq![first_out.deep_view()] + spec_repeat(
                        &self.p,
                        input.s(),
                        rem.pos as int,
                    ).1);
                }
                loop
                    invariant
                        rem.wf(),
                        rem.src@ == input.src@,
                        input.pos <= rem.pos,
                        self.spec_parse(input.s(), input.pos as int) == ({
                            let (q, vs) = spec_repeat(&self.p, input.s(), rem.pos as int);
                            Ok::<(int, Seq<O::V>), E::V>((q, res.deep_view() + vs))
                        }),
                    ensures
                        rem.wf(),
                        rem.src@ == input.src@,
                        input.pos <= rem.pos,
                        self.spec_parse(input.s(), input.pos as int) == Ok::<
                            (int, Seq<O::V>),
                            E::V,
                        >((rem.pos as int, res.deep_view())),
                    decreases input.s().len() - rem.pos,
                {
                    match self.p.parse(rem) {
                        Ok((new_rem, out)) => {
                            if new_rem.pos <= rem.pos {
                                proof {
                                    assert(res.deep_view() + spec_repeat(
                                        &self.p,
                                        input.s(),
                                        rem.pos as int,
                                    ).1 =~= res.deep_view());
                                }
                                break;
                            }
                            proof {
                                let src = input.s();
                                let tail = spec_repeat(&self.p, src, new_rem.pos as int);
                                assert(spec_repeat(&self.p, src, rem.pos as int) == (
                                    tail.0,
                                    seq![out.deep_view()] + tail.1,
                                ));
                                lemma_deep_view_push(res@, out);
                                assert(res.deep_view().push(out.deep_view()) + tail.1
                                    =~= res.deep_view() + (seq![out.deep_view()] + tail.1));
                            }
                            res.push(out);
                            rem = new_rem;
                        },
                        Err(_) => {
                            proof {
                                assert(res.deep_view() + spec_repeat(
                                    &self.p,
                                    input.s(),
                                    rem.pos as int,
                                ).1 =~= res.deep_view());
                            }
                            break;
                        },
                    }
                }
                Ok((rem, res))
            },
        }
    }
}

/// Applies a parser 1 or more times; fails exactly when the very first
/// application fails, with that application's error.
pub fn one_or_more<P>(parser: P) -> (r: OneOrMoreP<P>)
    ensures
        r.p == parser,
{
    OneOrMoreP { p: parser }
}

/// Parser that applies `p` 0 or 1 time: on success it yields `Some` output,
/// on failure it yields `None` and the original, unconsumed input.
pub struct MaybeP<P> {
    /// The parser that may or may not match.
    pub p: P,
}

impl<O: DeepView, E: DeepView, P: Parser<O, E>> Parser<Option<O>, E> for MaybeP<P> {
    open spec fn spec_parse(&self, src: Seq<char>, pos: int) -> Result<(int, Option<O::V>), E::V> {
        match self.p.spec_parse(src, pos) {
            Ok((q, v)) => Ok((q, Some(v))),
            Err(_) => Ok((pos, None)),
        }
    }

    proof fn lemma_parse_bounds(&self, src: Seq<char>, pos: int) {
        self.p.lemma_parse_bounds(src, pos);
    }

    fn parse<'a>(&self, input: Input<'a>) -> (r: Result<(Input<'a>, Option<O>), E>) {
        match self.p.parse(input) {
            Ok((rem, out)) => Ok((rem, Some(out))),
            Err(_) => Ok((input, None)),
        }
    }
}

/// Applies a parser 0 or 1 time; always succeeds, returning an option.
pub fn maybe<P>(parser: P) -> (r: MaybeP<P>)
    ensures
        r.p == parser,
{
    MaybeP { p: parser }
}

/// A decision over the unconsumed input, together with its mathematical
/// meaning.  This is what the gating combinators consult.
pub trait PredFn {
    /// What the decision is, on the buffer and position.
    spec fn spec_test(&self, src: Seq<char>, pos: int) -> bool;

    /// Decide for one input, exactly as `spec_test` describes.
    fn test(&self, input: Input<'_>) -> (r: bool)
        requires
            input.wf(),
        ensures
            r == self.spec_test(input.s(), input.pos as int),
    ;
}

/// Decision that holds when the unconsumed input starts with a fixed string.
pub struct StartsWith {
    /// The characters that must come next.
    pub prefix: Vec<char>,
}

impl PredFn for StartsWith {
    open spec fn spec_test(&self, src: Seq<char>, pos: int) -> bool {
        pos + self.prefix@.len() <= src.len() && src.subrange(pos, pos + self.prefix@.len())
            == self.prefix@
    }

    fn test(&self, input: Input<'_>) -> (r: bool) {
        let n = input.src.len();
        if self.prefix.len() > n - input.pos {
            return false;
        }
        let mut i: usize = 0;
        while i < self.prefix.len()
            invariant
                input.wf(),
                input.s().len() <= usize::MAX,
                input.pos + self.prefix@.len() <= input.s().len(),
                0 <= i <= self.prefix@.len(),
                forall|j: int|
                    0 <= j < i ==> input.s()[input.pos + j] == self.prefix@[j],
            decreases self.prefix@.len() - i,
        {
            if input.src[input.pos + i] != self.prefix[i] {
                assert(input.s().subrange(
                    input.pos as int,
                    input.pos + self.prefix@.len(),
                )[i as int] != self.prefix@[i as int]);
                return false;
            }
            i = i + 1;
        }
        assert(input.s().subrange(input.pos as int, input.pos + self.prefix@.len())
            =~= self.prefix@);
        true
    }
}

/// Decision that holds when the unconsumed input starts with `prefix`.
pub fn starts_with(prefix: &str) -> (r: StartsWith)
    ensures
        r.prefix@ == prefix@,
{
    StartsWith { prefix: to_chars(prefix) }
}

/// Parser that consults a decision over the unconsumed input: when it holds,
/// `p` runs and its success is wrapped in `Some` while its failure is
/// propagated; when it does not hold, the parser succeeds with `None` and
/// the unconsumed input.
pub struct ParseIfP<P, F> {
    /// The gated parser.
    pub p: P,
    /// The decision consulted before parsing.
    pub pred: F,
}

impl<O: DeepView, E: DeepView, P: Parser<O, E>, F: PredFn> Parser<Option<O>, E> for ParseIfP<
    P,
    F,
> {
    open spec fn spec_parse(&self, src: Seq<char>, pos: int) -> Result<(int, Option<O::V>), E::V> {
        if self.pred.spec_test(src, pos) {
            match self.p.spec_parse(src, pos) {
                Ok((q, v)) => Ok((q, Some(v))),
                Err(e) => Err(e),
            }
        } else {
            Ok((pos, None))
        }
    }

    proof fn lemma_parse_bounds(&self, src: Seq<char>, pos: int) {
        self.p.lemma_parse_bounds(src, pos);
    }

    fn parse<'a>(&self, input: Input<'a>) -> (r: Result<(Input<'a>, Option<O>), E>) {
        if self.pred.test(input) {
            match self.p.parse(input) {
                Ok((rem, out)) => Ok((rem, Some(out))),
                Err(e) => Err(e),
            }
        } else {
            Ok((input, None))
        }
    }
}

/// Applies the parser only if the decision holds of the unconsumed input;
/// otherwise succeeds with `None` without parsing anything.
pub fn parse_if<P, F>(parser: P, pred: F) -> (r: ParseIfP<P, F>)
    ensures
        r.p == parser,
        r.pred == pred,
{
    ParseIfP { p: parser, pred }
}

/// Parser like `ParseIfP`, except that when the decision does not hold it
/// fails with a fixed error instead of succeeding with `None`.
pub struct ParseIfOrErrP<P, F, E> {
    /// The gated parser.
    pub p: P,
    /// The error returned when the decision does not hold.
    pub error: E,
    /// The decision consulted before parsing.
    pub pred: F,
}

impl<O: DeepView, E: Dup, P: Parser<O, E>, F: PredFn> Parser<O, E> for ParseIfOrErrP<P, F, E> {
    open spec fn spec_parse(&self, src: Seq<char>, pos: int) -> Result<(int, O::V), E::V> {
        if self.pred.spec_test(src, pos) {
            self.p.spec_parse(src, pos)
        } else {
            Err(self.error.deep_view())
        }
    }

    proof fn lemma_parse_bounds(&self, src: Seq<char>, pos: int) {
        self.p.lemma_parse_bounds(src, pos);
    }

    fn parse<'a>(&self, input: Input<'a>) -> (r: Result<(Input<'a>, O), E>) {
        if self.pred.test(input) {
            self.p.parse(input)
        } else {
            Err(self.error.dup())
        }
    }
}

/// Applies the parser only if the decision holds of the unconsumed input;
/// otherwise fails with the given error.
pub fn parse_if_or_err<P, F, E>(parser: P, error: E, pred: F) -> (r: ParseIfOrErrP<P, F, E>)
    ensures
        r.p == parser,
        r.error == error,
        r.pred == pred,
{
    ParseIfOrErrP { p: parser, error, pred }
}

/// An observer of inputs, called for its side effect before a parse.  It has
/// no mathematical meaning and must not influence a parse result.
pub trait Observer {
    /// Observe the input that is about to be parsed.
    fn observe(&self, input: Input<'_>)
        requires
            input.wf(),
    ;
}

/// Observer that does nothing.
pub struct NullObserver;

impl Observer for NullObserver {
    fn observe(&self, input: Input<'_>) {
    }
}

/// Parser that hands the pre-parse input to an observer, then behaves
/// exactly like `p`.
pub struct InjectP<P, F> {
    /// The observed parser.
    pub p: P,
    /// The observer invoked before each parse.
    pub obs: F,
}

impl<O: DeepView, E: DeepView, P: Parser<O, E>, F: Observer> Parser<O, E> for InjectP<P, F> {
    open spec fn spec_parse(&self, src: Seq<char>, pos: int) -> Result<(int, O::V), E::V> {
        self.p.spec_parse(src, pos)
    }

    proof fn lemma_parse_bounds(&self, src: Seq<char>, pos: int) {
        self.p.lemma_parse_bounds(src, pos);
    }

    fn parse<'a>(&self, input: Input<'a>) -> (r: Result<(Input<'a>, O), E>) {
        self.obs.observe(input);
        self.p.parse(input)
    }
}

/// Used for debugging: calls the given observer before applying the parser,
/// leaving the parse result untouched.
pub fn inject<P, F>(parser: P, func: F) -> (r: InjectP<P, F>)
    ensures
        r.p == parser,
        r.obs == func,
{
    InjectP { p: parser, obs: func }
}

/// The characters of a string slice, as an owned vector.
pub fn to_chars(s: &str) -> (v: Vec<char>)
    ensures
        v@ == s@,
{
    let mut out: Vec<char> = Vec::new();
    let mut it = s.chars();
    proof {
        vstd::string::axiom_spec_iter(s);
        assert(out@ + it.remaining() =~= it.remaining());
    }
    loop
        invariant
            out@ + it.remaining() == s@,
            it.decrease() is Some,
        ensures
            out@ == s@,
        decreases it.decrease()->0,
    {
        let ghost prev = it;
        match it.next() {
            Some(c) => {
                proof {
                    vstd::string::next_postcondition(&prev, &it, Some(c));
                    assert(out@.push(c) + it.remaining() =~= out@ + prev.remaining());
                }
                out.push(c);
            },
            None => {
                proof {
                    vstd::string::next_postcondition(&prev, &it, None);
                    assert(out@ + prev.remaining() =~= out@);
                }
                break;
            },
        }
    }
    out
}

/// Consumption law: when a parser succeeds, the consumed characters are
/// exactly the part of the buffer between the old and the new position, so
/// the consumed prefix and the remainder together reconstruct the input
/// with no characters invented or dropped.
pub proof fn lemma_parse_consumption<O: DeepView, E: DeepView, P: Parser<O, E>>(
    p: &P,
    src: Seq<char>,
    pos: int,
)
    requires
        0 <= pos <= src.len(),
    ensures
        p.spec_parse(src, pos) matches Ok((q, _)) ==> {
            &&& pos <= q <= src.len()
            &&& src.subrange(pos, q) + src.subrange(q, src.len() as int) == src.subrange(
                pos,
                src.len() as int,
            )
        },
{
    p.lemma_parse_bounds(src, pos);
    if let Ok((q, _)) = p.spec_parse(src, pos) {
        assert(src.subrange(pos, q) + src.subrange(q, src.len() as int) =~= src.subrange(
            pos,
            src.len() as int,
        ));
    }
}

/// Left bias of alternation: wherever the first alternative succeeds, the
/// alternation returns exactly the first alternative's result.
pub proof fn lemma_or_left_bias<O: DeepView, E: DeepView, PA: Parser<O, E>, PB: Parser<O, E>>(
    orp: &OrP<PA, PB>,
    src: Seq<char>,
    pos: int,
)
    requires
        orp.pa.spec_parse(src, pos) is Ok,
    ensures
        orp.spec_parse(src, pos) == orp.pa.spec_parse(src, pos),
{
}

/// Totality of repetition: the zero-or-more repetition of any parser never
/// fails, on any input.
pub proof fn lemma_while_total<O: DeepView, E: DeepView, P: Parser<O, E>>(
    w: &WhileP<P>,
    src: Seq<char>,
    pos: int,
)
    ensures
        w.spec_parse(src, pos) is Ok,
{
}

/// Non-emptiness of the one-or-more repetition: whenever it succeeds, it
/// collected at least one output.
pub proof fn lemma_one_or_more_nonempty<O: DeepView, E: DeepView, P: Parser<O, E>>(
    p: &OneOrMoreP<P>,
    src: Seq<char>,
    pos: int,
)
    ensures
        p.spec_parse(src, pos) matches Ok((_, vs)) ==> vs.len() >= 1,
{
}

/// The optional parser absorbs failure: when its sub-parser fails on an
/// input, it succeeds with `None` and the original, unconsumed input.
pub proof fn lemma_maybe_keeps_input<O: DeepView, E: DeepView, P: Parser<O, E>>(
    m: &MaybeP<P>,
    src: Seq<char>,
    pos: int,
)
    requires
        m.p.spec_parse(src, pos) is Err,
    ensures
        m.spec_parse(src, pos) == Ok::<(int, Option<O::V>), E::V>((pos, None)),
{
}

} // verus!
