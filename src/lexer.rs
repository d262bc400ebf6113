//! A cursor over the text being lexed, and the glue that turns a
//! classifying function into a stream of tokens that carry their length.
use crate::text::{
    char_len, lemma_split_encoding, lemma_utf8_len_bounds, lemma_utf8_len_concat,
    lemma_utf8_len_push, on_boundary, split_first, starts_with, str_len, utf8_len,
};
use vstd::prelude::*;
use vstd::utf8::*;

pub mod consumed;

pub use self::consumed::Consumed;

verus! {

broadcast use vstd::utf8::group_utf8_lib;

/// An error that can occur when lexing.
#[derive(Debug, Clone, Copy, PartialEq, Eq, Structural)]
pub enum Error {
    /// An invalid token was detected.
    UnexpectedInput,
    /// The end of the input was reached in the middle of a token.
    UnexpectedEOF,
}

/// A position in the text being lexed: the whole text, and what is left
/// of it. All advancing goes through the methods below, which only ever
/// move forward by whole characters.
#[derive(Clone, Copy)]
pub struct State<'a> {
    source: &'a str,
    rest: &'a str,
}

/// The encoding of a prefix is no longer than that of the whole text.
proof fn lemma_prefix_len(s: Seq<char>, k: int)
    requires
        0 <= k <= s.len(),
    ensures
        utf8_len(s.take(k)) + utf8_len(s.skip(k)) == utf8_len(s),
{
    assert(s =~= s.take(k) + s.skip(k));
    lemma_utf8_len_concat(s.take(k), s.skip(k));
}

impl<'a> State<'a> {
    /// What is left is a suffix of the whole text, whose encoding fits in a `u32`.
    #[verifier::type_invariant]
    closed spec fn inv(self) -> bool {
        &&& utf8_len(self.source@) <= u32::MAX
        &&& self.rest@.len() <= self.source@.len()
        &&& self.rest@ == self.source@.skip(self.source@.len() - self.rest@.len())
    }

    /// The whole text this state walks over.
    pub closed spec fn source_text(self) -> Seq<char> {
        self.source@
    }

    /// The text that is left to be lexed.
    pub closed spec fn rest_text(self) -> Seq<char> {
        self.rest@
    }

    /// Number of characters consumed so far.
    pub open spec fn pos(self) -> nat {
        (self.source_text().len() - self.rest_text().len()) as nat
    }

    /// Number of bytes consumed so far.
    pub open spec fn byte_pos(self) -> nat {
        utf8_len(self.source_text().take(self.pos() as int))
    }

    /// What every state satisfies: what is left is the text past the first
    /// `pos()` characters, and the text's encoding fits in a `u32`.
    pub open spec fn valid(self) -> bool {
        &&& self.rest_text().len() <= self.source_text().len()
        &&& self.rest_text() == self.source_text().skip(self.pos() as int)
        &&& utf8_len(self.source_text()) <= u32::MAX
    }

    /// Shows the facts of `valid` for a state.
    proof fn lemma_inv(self)
        requires
            self.inv(),
        ensures
            self.valid(),
            self.byte_pos() + utf8_len(self.rest_text()) == utf8_len(self.source_text()),
    {
        lemma_prefix_len(self.source@, self.pos() as int);
    }

    /// Construct a new state ready to eat away `input`.
    pub fn new(input: &'a str) -> (r: Self)
        requires
            utf8_len(input@) <= u32::MAX,
        ensures
            r.valid(),
            r.source_text() == input@,
            r.rest_text() == input@,
    {
        assert(input@.skip(0) =~= input@);
        State { source: input, rest: input }
    }

    /// Return the remaining string to be lexed.
    pub fn remaining(&self) -> (r: &'a str)
        ensures
            self.valid(),
            r@ == self.rest_text(),
    {
        proof {
            use_type_invariant(self);
            self.lemma_inv();
        }
        self.rest
    }

    /// Return the first character of the remaining string to be lexed,
    /// or an unexpected end of input error.
    pub fn peek(self) -> (r: Result<char, Error>)
        ensures
            self.valid(),
            self.rest_text().len() == 0 ==> r == Err::<char, Error>(Error::UnexpectedEOF),
            self.rest_text().len() > 0 ==> r == Ok::<char, Error>(self.rest_text()[0]),
    {
        proof {
            use_type_invariant(&self);
            self.lemma_inv();
        }
        match split_first(self.rest) {
            Some((c, _)) => Ok(c),
            None => Err(Error::UnexpectedEOF),
        }
    }

    /// Moves ahead to `k` characters further, given the text that is then left.
    fn advance(&mut self, k: Ghost<int>, rest: &'a str)
        requires
            0 <= k@ <= old(self).rest_text().len(),
            rest@ == old(self).rest_text().skip(k@),
        ensures
            old(self).valid(),
            final(self).valid(),
            final(self).source_text() == old(self).source_text(),
            final(self).rest_text() == rest@,
            final(self).pos() == old(self).pos() + k@,
            final(self).byte_pos() == old(self).byte_pos() + utf8_len(
                old(self).rest_text().take(k@),
            ),
    {
        proof {
            use_type_invariant(&*self);
            let s = self.source@;
            let p = s.len() - self.rest@.len();
            assert(rest@ =~= s.skip(p + k@));
            assert(s.take(p + k@) =~= s.take(p) + self.rest@.take(k@));
            lemma_utf8_len_concat(s.take(p), self.rest@.take(k@));
            self.lemma_inv();
        }
        self.rest = rest;
        proof {
            use_type_invariant(&*self);
            self.lemma_inv();
        }
    }

    /// Consume `len` bytes, which must end on a character boundary of the
    /// remaining text.
    pub fn consume(&mut self, len: u32)
        requires
            on_boundary(old(self).rest_text(), len as nat),
        ensures
            old(self).valid(),
            final(self).valid(),
            final(self).source_text() == old(self).source_text(),
            old(self).pos() <= final(self).pos(),
            final(self).rest_text() == old(self).rest_text().skip(
                final(self).pos() - old(self).pos(),
            ),
            utf8_len(old(self).rest_text().take(final(self).pos() - old(self).pos())) == len,
            final(self).byte_pos() == old(self).byte_pos() + len,
    {
        let ghost r = self.rest@;
        let ghost k = choose|k: int| 0 <= k <= r.len() && #[trigger] utf8_len(r.take(k)) == len;
        proof {
            lemma_split_encoding(r, k);
        }
        let (_, rest) = self.rest.split_at(len as usize);
        proof {
            assert(rest@ == decode_utf8(encode_utf8(rest@)));
        }
        self.advance(Ghost(k), rest);
    }

    /// Consume the first character. There must be one: peek first.
    pub fn bump(&mut self)
        requires
            old(self).rest_text().len() > 0,
        ensures
            old(self).valid(),
            final(self).valid(),
            final(self).source_text() == old(self).source_text(),
            final(self).rest_text() == old(self).rest_text().drop_first(),
            final(self).pos() == old(self).pos() + 1,
            final(self).byte_pos() == old(self).byte_pos() + crate::text::char_width(
                old(self).rest_text()[0],
            ),
    {
        if let Some((_, rest)) = split_first(self.rest) {
            proof {
                assert(self.rest@.skip(1) =~= self.rest@.drop_first());
                assert(self.rest@.take(1) =~= seq![self.rest@[0]]);
                crate::text::lemma_utf8_len_single(self.rest@[0]);
            }
            self.advance(Ghost(1), rest);
        }
    }

    /// Consume `s` if the remaining input starts with it. The record tells
    /// how much was consumed: all of `s`, or nothing.
    pub fn take(&mut self, s: &str) -> (r: Consumed)
        ensures
            old(self).valid(),
            final(self).valid(),
            final(self).source_text() == old(self).source_text(),
            starts_with(old(self).rest_text(), s@) ==> {
                &&& final(self).rest_text() == old(self).rest_text().skip(s@.len() as int)
                &&& final(self).pos() == old(self).pos() + s@.len()
                &&& final(self).byte_pos() == old(self).byte_pos() + utf8_len(s@)
                &&& r.count() == s@.len()
                &&& r.width() == utf8_len(s@)
            },
            !starts_with(old(self).rest_text(), s@) ==> {
                &&& *final(self) == *old(self)
                &&& r.count() == 0
                &&& r.width() == 0
            },
    {
        proof {
            use_type_invariant(&*self);
            self.lemma_inv();
            lemma_utf8_len_bounds(self.rest@);
        }
        let ghost t = self.rest@;
        let mut a = s;
        let mut b = self.rest;
        let mut n: usize = 0;
        loop
            invariant
                *self == *old(self),
                old(self).valid(),
                t == self.rest@,
                0 <= n <= s@.len(),
                n <= t.len(),
                t.len() <= u32::MAX,
                utf8_len(t) <= u32::MAX,
                a@ == s@.skip(n as int),
                b@ == t.skip(n as int),
                t.take(n as int) == s@.take(n as int),
            decreases a@.len(),
        {
            match split_first(a) {
                None => {
                    proof {
                        assert(s@.take(n as int) =~= s@);
                        lemma_prefix_len(t, n as int);
                        lemma_utf8_len_bounds(s@);
                    }
                    let bytes = str_len(s);
                    self.advance(Ghost(n as int), b);
                    return Consumed::new(n, bytes);
                },
                Some((c, a2)) => {
                    match split_first(b) {
                        None => {
                            return Consumed::zero();
                        },
                        Some((d, b2)) => {
                            if c != d {
                                proof {
                                    assert(s@[n as int] == c);
                                    if s@.len() <= t.len() {
                                        assert(t.take(s@.len() as int)[n as int] == d);
                                    }
                                }
                                return Consumed::zero();
                            }
                            proof {
                                assert(t.take(n + 1) =~= s@.take(n + 1)) by {
                                    assert(t.take(n + 1) =~= t.take(n as int).push(d));
                                    assert(s@.take(n + 1) =~= s@.take(n as int).push(c));
                                }
                                assert(a2@ =~= s@.skip(n + 1));
                                assert(b2@ =~= t.skip(n + 1));
                            }
                            a = a2;
                            b = b2;
                            n = n + 1;
                        },
                    }
                },
            }
        }
    }

    /// Consume as many characters as possible that meet `predicate`. The
    /// record tells how many characters, and bytes, were consumed.
    pub fn take_while<F>(&mut self, predicate: F) -> (r: Consumed)
        where
            F: Fn(char) -> bool,
        requires
            forall|c: char| predicate.requires((c,)),
        ensures
            old(self).valid(),
            final(self).valid(),
            final(self).source_text() == old(self).source_text(),
            old(self).pos() <= final(self).pos(),
            r.count() <= old(self).rest_text().len(),
            r.count() == final(self).pos() - old(self).pos(),
            r.width() == utf8_len(old(self).rest_text().take(r.count() as int)),
            final(self).byte_pos() == old(self).byte_pos() + r.width(),
            final(self).rest_text() == old(self).rest_text().skip(r.count() as int),
            forall|i: int|
                0 <= i < r.count() ==> predicate.ensures((old(self).rest_text()[i],), true),
            r.count() < old(self).rest_text().len() ==> predicate.ensures(
                (old(self).rest_text()[r.count() as int],),
                false,
            ),
    {
        proof {
            use_type_invariant(&*self);
            lemma_prefix_len(self.source@, self.pos() as int);
            lemma_utf8_len_bounds(self.rest@);
        }
        let ghost t = self.rest@;
        let mut b = self.rest;
        let mut n: usize = 0;
        let mut bytes: u32 = 0;
        loop
            invariant
                forall|c: char| predicate.requires((c,)),
                0 <= n <= t.len(),
                t.len() <= utf8_len(t) <= u32::MAX,
                b@ == t.skip(n as int),
                bytes == utf8_len(t.take(n as int)),
                forall|i: int| 0 <= i < n ==> predicate.ensures((t[i],), true),
            ensures
                0 <= n <= t.len(),
                b@ == t.skip(n as int),
                bytes == utf8_len(t.take(n as int)),
                forall|i: int| 0 <= i < n ==> predicate.ensures((t[i],), true),
                n < t.len() ==> predicate.ensures((t[n as int],), false),
            decreases b@.len(),
        {
            match split_first(b) {
                None => {
                    break ;
                },
                Some((c, b2)) => {
                    if !predicate(c) {
                        break ;
                    }
                    proof {
                        assert(t.take(n + 1) =~= t.take(n as int).push(c));
                        lemma_utf8_len_push(t.take(n as int), c);
                        lemma_prefix_len(t, n + 1);
                        assert(b2@ =~= t.skip(n + 1));
                    }
                    bytes = bytes + char_len(c);
                    n = n + 1;
                    b = b2;
                },
            }
        }
        proof {
            lemma_utf8_len_bounds(t.take(n as int));
        }
        self.advance(Ghost(n as int), b);
        Consumed::new(n, bytes)
    }

    /// How many bytes this state is ahead of `prev`, an earlier state over
    /// the same text.
    pub fn sub(self, prev: Self) -> (r: u32)
        requires
            self.source_text() == prev.source_text(),
            prev.pos() <= self.pos(),
        ensures
            self.valid(),
            prev.valid(),
            r == self.byte_pos() - prev.byte_pos(),
            r == utf8_len(prev.rest_text()) - utf8_len(self.rest_text()),
    {
        proof {
            use_type_invariant(&self);
            use_type_invariant(&prev);
            lemma_prefix_len(self.source@, self.pos() as int);
            lemma_prefix_len(prev.source@, prev.pos() as int);
            if prev.pos() < self.pos() {
                crate::text::lemma_utf8_len_prefix_monotonic(
                    self.source_text(),
                    prev.pos() as int,
                    self.pos() as int,
                );
            }
        }
        str_len(prev.rest) - str_len(self.rest)
    }
}


impl<'a> Default for State<'a> {
    /// A state over the empty text.
    fn default() -> (r: Self)
        ensures
            r.valid(),
            r.source_text() == Seq::<char>::empty(),
            r.rest_text() == Seq::<char>::empty(),
    {
        proof {
            reveal_strlit("");
        }
        State::new("")
    }
}

/// A token that knows how many bytes of the source text it covers.
pub trait Token {
    /// Number of bytes the token covers.
    spec fn token_len(&self) -> nat;

    /// Return the length this token took in the source string. It may vary
    /// between tokens of the same kind.
    fn len(&self) -> (r: u32)
        ensures
            r as nat == self.token_len(),
    ;
}

impl<T> Token for (T, u32) {
    open spec fn token_len(&self) -> nat {
        self.1 as nat
    }

    fn len(&self) -> (r: u32) {
        self.1
    }
}

/// How the outcome of a classifying function is paired with the number of
/// bytes it consumed.
pub trait Attach: Sized {
    /// The token that results.
    type Output;

    /// True when `out` is what this outcome gives, attached to `len` bytes.
    spec fn attaches(self, len: u32, out: Self::Output) -> bool;

    /// Attach the length of the text consumed to this outcome.
    fn attach(self, len: u32) -> (r: Self::Output)
        ensures
            self.attaches(len, r),
    ;
}

/// A success is kept as it is; an error becomes a token of its own, made
/// by the kind's conversion from [`Error`], and still covers the text consumed.
impl<T: From<Error>> Attach for Result<T, Error> {
    type Output = (T, u32);

    open spec fn attaches(self, len: u32, out: (T, u32)) -> bool {
        &&& out.1 == len
        &&& match self {
            Ok(v) => out.0 == v,
            Err(e) => call_ensures(T::from, (e,), out.0),
        }
    }

    fn attach(self, len: u32) -> (r: (T, u32)) {
        match self {
            Ok(success) => (success, len),
            Err(err) => (T::from(err), len),
        }
    }
}

/// Runs one step of a lexer: `f` classifies the token at the start of what
/// `start` has left, and the result is attached to the number of bytes it
/// consumed. There is no token when nothing is left. `f` must consume at
/// least one character, else the lexer would loop forever.
pub fn wrap<'a, F, R>(start: State<'a>, f: F) -> (out: Option<R::Output>)
    where
        F: FnOnce(&mut State<'a>) -> R,
        R: Attach,
    requires
        start.rest_text().len() > 0 ==> forall|st: &mut State<'a>|
            *st == start ==> #[trigger] f.requires((st,)),
        start.rest_text().len() > 0 ==> forall|st: &mut State<'a>, r: R|
            *st == start && #[trigger] f.ensures((st,), r) ==> {
                &&& final(st).source_text() == start.source_text()
                &&& final(st).pos() > start.pos()
            },
    ensures
        start.rest_text().len() == 0 <==> out is None,
        out matches Some(o) ==> exists|st: &mut State<'a>, r: R|
            {
                &&& *st == start
                &&& #[trigger] f.ensures((st,), r)
                &&& final(st).valid()
                &&& final(st).source_text() == start.source_text()
                &&& final(st).rest_text() == start.rest_text().skip(final(st).pos() - start.pos())
                &&& 0 < final(st).byte_pos() - start.byte_pos() <= utf8_len(start.rest_text())
                &&& utf8_len(start.rest_text().take(final(st).pos() - start.pos()))
                    == final(st).byte_pos() - start.byte_pos()
                &&& on_boundary(
                    start.rest_text(),
                    (final(st).byte_pos() - start.byte_pos()) as nat,
                )
                &&& r.attaches((final(st).byte_pos() - start.byte_pos()) as u32, o)
            },
{
    if start.remaining().is_empty() {
        return None;
    }
    let mut state = start;
    let output = f(&mut state);
    proof {
        use_type_invariant(&state);
        use_type_invariant(&start);
        state.lemma_inv();
        start.lemma_inv();
        crate::text::lemma_utf8_len_prefix_monotonic(
            state.source_text(),
            start.pos() as int,
            state.pos() as int,
        );
        let src = start.source_text();
        let k = state.pos() - start.pos();
        assert(src.take(state.pos() as int) =~= src.take(start.pos() as int)
            + start.rest_text().take(k));
        lemma_utf8_len_concat(src.take(start.pos() as int), start.rest_text().take(k));
        assert(state.rest_text() =~= start.rest_text().skip(k));
        lemma_prefix_len(start.rest_text(), k);
        assert(on_boundary(start.rest_text(), (state.byte_pos() - start.byte_pos()) as nat));
    }
    let len = state.sub(start);
    Some(output.attach(len))
}


/// True when `f` can drive a [`Tokens`] sequence: on any text that fits in
/// a `u32` of bytes, it gives no token exactly when the text is empty, and
/// otherwise a token that covers at least one whole character.
pub open spec fn lexes<F, T>(f: F) -> bool
    where
        F: Fn(&str) -> Option<T>,
        T: Token,
{
    &&& forall|s: &str| utf8_len(s@) <= u32::MAX ==> #[trigger] f.requires((s,))
    &&& forall|s: &str, r: Option<T>|
        utf8_len(s@) <= u32::MAX && #[trigger] f.ensures((s,), r) ==> {
            &&& (r is None <==> s@.len() == 0)
            &&& (r matches Some(t) ==> 0 < t.token_len() && on_boundary(s@, t.token_len()))
        }
}

/// The tokens that repeated calls of a lexing function carve out of a
/// text, one at a time, each call on what the previous ones left.
pub struct Tokens<'a, F, T> {
    rest: &'a str,
    f: F,
    input: Ghost<Seq<char>>,
    texts: Ghost<Seq<Seq<char>>>,
    kind: core::marker::PhantomData<T>,
}

/// Lex `input` by calling `f` repeatedly until it returns `None`: take a
/// token from the remaining string, stop if there is none, else advance
/// past the token's length and repeat.
pub fn into_iter<'a, F, T>(input: &'a str, f: F) -> (r: Tokens<'a, F, T>)
    where
        F: Fn(&str) -> Option<T>,
        T: Token,
    requires
        utf8_len(input@) <= u32::MAX,
        lexes(f),
    ensures
        r.wf(),
        r.input_text() == input@,
        r.rest_text() == input@,
        r.yielded() == Seq::<Seq<char>>::empty(),
{
    Tokens {
        rest: input,
        f,
        input: Ghost(input@),
        texts: Ghost(Seq::empty()),
        kind: core::marker::PhantomData,
    }
}

impl<'a, F, T> Tokens<'a, F, T>
    where
        F: Fn(&str) -> Option<T>,
        T: Token,
{
    /// The whole text being lexed.
    pub closed spec fn input_text(&self) -> Seq<char> {
        self.input@
    }

    /// The text that no token has covered yet.
    pub closed spec fn rest_text(&self) -> Seq<char> {
        self.rest@
    }

    /// The text of each token yielded so far, in order.
    pub closed spec fn yielded(&self) -> Seq<Seq<char>> {
        self.texts@
    }

    /// The yielded texts, then the rest, make up the input; each yielded
    /// text holds at least one character.
    pub closed spec fn wf(&self) -> bool {
        &&& lexes(self.f)
        &&& utf8_len(self.input@) <= u32::MAX
        &&& self.texts@.flatten() + self.rest@ == self.input@
        &&& forall|i: int| 0 <= i < self.texts@.len() ==> (#[trigger] self.texts@[i]).len() > 0
        &&& self.texts@.len() <= self.texts@.flatten().len()
    }

    /// Yield the next token, or `None` once the input is used up.
    pub fn next(&mut self) -> (r: Option<T>)
        requires
            old(self).wf(),
        ensures
            final(self).wf(),
            final(self).input_text() == old(self).input_text(),
            old(self).rest_text().len() == 0 <==> r is None,
            r is None ==> *final(self) == *old(self),
            r matches Some(t) ==> {
                let k = old(self).rest_text().len() - final(self).rest_text().len();
                &&& 0 < k
                &&& final(self).rest_text() == old(self).rest_text().skip(k)
                &&& t.token_len() == utf8_len(old(self).rest_text().take(k))
                &&& final(self).yielded() == old(self).yielded().push(
                    old(self).rest_text().take(k),
                )
            },
    {
        proof {
            assert(self.input@ =~= self.texts@.flatten() + self.rest@);
            lemma_utf8_len_concat(self.texts@.flatten(), self.rest@);
        }
        let r = (self.f)(self.rest);
        match r {
            None => None,
            Some(t) => {
                let len = t.len();
                let ghost s = self.rest@;
                let ghost k = choose|k: int|
                    0 <= k <= s.len() && #[trigger] utf8_len(s.take(k)) == len;
                proof {
                    lemma_split_encoding(s, k);
                    assert(k > 0) by {
                        if k == 0 {
                            assert(s.take(0) =~= Seq::<char>::empty());
                        }
                    }
                }
                let (_, rest) = self.rest.split_at(len as usize);
                proof {
                    assert(rest@ == decode_utf8(encode_utf8(rest@)));
                    let old_texts = self.texts@;
                    self.texts@ = old_texts.push(s.take(k));
                    old_texts.lemma_flatten_push(s.take(k));
                    assert(s =~= s.take(k) + s.skip(k));
                    assert(self.texts@.flatten() + rest@ =~= self.input@);
                    assert forall|i: int| 0 <= i < self.texts@.len() implies (
                    #[trigger] self.texts@[i]).len() > 0 by {
                        if i < old_texts.len() {
                            assert(self.texts@[i] == old_texts[i]);
                        }
                    }
                }
                self.rest = rest;
                Some(t)
            },
        }
    }

    /// Whatever has been yielded so far, followed by what is left, is the
    /// input: no text is lost, duplicated or reordered. Once the sequence
    /// has ended, the yielded texts alone make up the input.
    pub proof fn lemma_lossless(&self)
        requires
            self.wf(),
        ensures
            self.yielded().flatten() + self.rest_text() == self.input_text(),
            self.rest_text().len() == 0 ==> self.yielded().flatten() == self.input_text(),
    {
        if self.rest@.len() == 0 {
            assert(self.texts@.flatten() + self.rest@ =~= self.texts@.flatten());
        }
    }

    /// No more tokens are yielded than the input has characters.
    pub proof fn lemma_bounded(&self)
        requires
            self.wf(),
        ensures
            self.yielded().len() <= self.input_text().len(),
    {
    }

    /// Every yielded token covers at least one character.
    pub proof fn lemma_progress(&self)
        requires
            self.wf(),
        ensures
            forall|i: int| 0 <= i < self.yielded().len() ==> #[trigger] self.yielded()[i].len() > 0,
    {
    }
}


/// Sum of the byte lengths in `lens`.
pub open spec fn byte_sum(lens: Seq<u32>) -> nat
    decreases lens.len(),
{
    if lens.len() == 0 {
        0
    } else {
        byte_sum(lens.drop_last()) + lens.last() as nat
    }
}

/// The number of characters of `s` whose encoding takes `n` bytes.
pub open spec fn char_index(s: Seq<char>, n: nat) -> int {
    choose|k: int| 0 <= k <= s.len() && #[trigger] utf8_len(s.take(k)) == n
}

/// True when laying the runs of `lens` bytes end to end from the start of
/// `s` cuts it only between characters, and stays within it.
pub open spec fn runs_fit(s: Seq<char>, lens: Seq<u32>) -> bool {
    forall|i: int| 0 <= i <= lens.len() ==> on_boundary(s, #[trigger] byte_sum(lens.take(i)))
}

/// The text of the `i`-th run when runs of `lens` bytes are laid end to end
/// from the start of `s`.
pub open spec fn run_text(s: Seq<char>, lens: Seq<u32>, i: int) -> Seq<char> {
    s.subrange(
        char_index(s, byte_sum(lens.take(i))),
        char_index(s, byte_sum(lens.take(i + 1))),
    )
}

/// Turns tokens that carry their length, such as those of [`Tokens`], into
/// tokens that carry the text they cover in `input`, by keeping a running
/// offset and slicing each token's length from there.
pub fn string_slices<'a, T>(input: &'a str, items: Vec<(T, u32)>) -> (r: Vec<(T, &'a str)>)
    requires
        runs_fit(input@, items@.map_values(|x: (T, u32)| x.1)),
    ensures
        r.len() == items.len(),
        forall|i: int|
            0 <= i < r.len() ==> {
                &&& (#[trigger] r[i]).0 == items[i].0
                &&& r[i].1@ == run_text(input@, items@.map_values(|x: (T, u32)| x.1), i)
            },
        r@.map_values(|x: (T, &'a str)| x.1@).flatten() == input@.take(
            char_index(input@, byte_sum(items@.map_values(|x: (T, u32)| x.1))),
        ),
        (forall|i: int| 0 <= i < items.len() ==> #[trigger] items[i].1 > 0) ==> r.len()
            <= input@.len(),
        byte_sum(items@.map_values(|x: (T, u32)| x.1)) == utf8_len(input@) ==> r@.map_values(
            |x: (T, &'a str)| x.1@,
        ).flatten() == input@,
{
    let ghost s = input@;
    let ghost lens = items@.map_values(|x: (T, u32)| x.1);
    let mut out: Vec<(T, &'a str)> = Vec::new();
    let mut remaining = input;
    let ghost mut at: int = 0;
    proof {
        assert(lens.take(0) =~= Seq::<u32>::empty());
        assert(s.take(0) =~= Seq::<char>::empty());
        assert(out@.map_values(|x: (T, &'a str)| x.1@) =~= Seq::<Seq<char>>::empty());
        assert(s.skip(0) =~= s);
    }
    for item in it: items
        invariant
            runs_fit(s, lens),
            lens == it.seq().map_values(|x: (T, u32)| x.1),
            s == input@,
            0 <= at <= s.len(),
            utf8_len(s.take(at)) == byte_sum(lens.take(it.index() as int)),
            remaining@ == s.skip(at),
            out.len() == it.index(),
            out@.map_values(|x: (T, &'a str)| x.1@).flatten() == s.take(at),
            (forall|j: int| 0 <= j < lens.len() ==> #[trigger] lens[j] > 0) ==> out.len() <= at,
            forall|j: int|
                0 <= j < out.len() ==> {
                    &&& (#[trigger] out[j]).0 == it.seq()[j].0
                    &&& out[j].1@ == run_text(s, lens, j)
                },
    {
        let (token, len) = item;
        let ghost i = it.index() as int;
        let ghost next = char_index(s, byte_sum(lens.take(i + 1)));
        proof {
            assert(lens.take(i + 1).drop_last() =~= lens.take(i));
            assert(lens[i] == len);
            assert(on_boundary(s, byte_sum(lens.take(i + 1))));
            let here = char_index(s, byte_sum(lens.take(i)));
            assert(on_boundary(s, byte_sum(lens.take(i))));
            crate::text::lemma_boundary_unique(s, here, at);
            if next < at {
                crate::text::lemma_utf8_len_prefix_monotonic(s, next, at);
            }
            let piece = s.subrange(at, next);
            assert(s.take(next) =~= s.take(at) + piece);
            lemma_utf8_len_concat(s.take(at), piece);
            assert(remaining@.take(next - at) =~= piece);
            assert(remaining@.skip(next - at) =~= s.skip(next));
            lemma_split_encoding(remaining@, next - at);
        }
        let (text, rest) = remaining.split_at(len as usize);
        proof {
            assert(text@ == decode_utf8(encode_utf8(text@)));
            assert(rest@ == decode_utf8(encode_utf8(rest@)));
        }
        let ghost before = out@.map_values(|x: (T, &'a str)| x.1@);
        out.push((token, text));
        remaining = rest;
        proof {
            assert(out@.map_values(|x: (T, &'a str)| x.1@) =~= before.push(text@));
            before.lemma_flatten_push(text@);
            assert(s.take(next) =~= s.take(at) + s.subrange(at, next));
            if next == at {
                assert(s.subrange(at, next) =~= Seq::<char>::empty());
                assert(encode_utf8(Seq::<char>::empty()).len() == 0);
            }
            at = next;
        }
    }
    proof {
        let total = byte_sum(lens);
        assert(lens.take(lens.len() as int) =~= lens);
        let end = char_index(s, total);
        assert(on_boundary(s, byte_sum(lens.take(lens.len() as int))));
        crate::text::lemma_boundary_unique(s, end, at);
        if total == utf8_len(s) {
            assert(s.take(s.len() as int) =~= s);
            crate::text::lemma_boundary_unique(s, at, s.len() as int);
        }
    }
    out
}

} // verus!
