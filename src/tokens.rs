use core::marker::PhantomData;
use vstd::prelude::*;
use vstd::laws_eq::obeys_concrete_eq;
use vstd::std_specs::cmp::PartialEqSpec;
use vstd::string::StringSliceAdditionalSpecFns;
use vstd::utf8::*;

use crate::cursor::{boundary, next_of, read_at, tokenizes, tokens_from, Span, Tokenizer};
use crate::window::{lemma_resume, lemma_window_tokens, reads_locally, shift_back};

verus! {

broadcast use group_utf8_lib;

/// A boundary of `text` is a boundary of each of its prefixes that reach it.
proof fn lemma_prefix_boundary(text: Seq<u8>, i: int, j: int)
    requires
        valid_utf8(text),
        boundary(text, i),
        boundary(text, j),
        i <= j,
    ensures
        boundary(text.subrange(0, j), i),
{
    let head = text.subrange(0, j);
    assert(valid_utf8(head));
    if 0 < i < j {
        assert(head[i] == text[i]);
        is_char_boundary_iff_not_is_continuation_byte(text, i);
        is_char_boundary_iff_not_is_continuation_byte(head, i);
    } else if i == j {
        assert(head.len() == j);
        is_char_boundary_start_end_of_seq(head);
    }
}

/// The part `[start, end)` of `source`.
pub fn slice<'i>(source: &'i str, start: usize, end: usize) -> (r: &'i str)
    requires
        start <= end,
        boundary(source.spec_bytes(), start as int),
        boundary(source.spec_bytes(), end as int),
    ensures
        r.spec_bytes() == source.spec_bytes().subrange(start as int, end as int),
{
    proof {
        lemma_prefix_boundary(source.spec_bytes(), start as int, end as int);
    }
    let (head, _) = source.split_at(end);
    let (_, r) = head.split_at(start);
    proof {
        assert(r.spec_bytes() =~= source.spec_bytes().subrange(start as int, end as int));
    }
    r
}

/// From a boundary, the tokens ahead are the one read there and those after it.
pub proof fn lemma_unfold<'i, L: Tokenizer<'i>>(source: &'i str, offset: usize)
    requires
        tokenizes::<L>(),
        boundary(source.spec_bytes(), offset as int),
    ensures
        tokens_from::<L>(source, offset) == (match next_of::<L>(source, offset) {
            Some((t, span)) => seq![(t, span)] + tokens_from::<L>(source, span.end),
            None => Seq::empty(),
        }),
{
}

/// More tokens are needed than are left.
#[derive(Clone, Copy, Debug, PartialEq, Eq, Structural)]
pub struct NeedMore;

/// The tokens read from `offset` on start at or after it, each ending
/// before the next one starts.
pub proof fn lemma_tokens_after<'i, L: Tokenizer<'i>>(source: &'i str, offset: usize)
    requires
        tokenizes::<L>(),
        boundary(source.spec_bytes(), offset as int),
    ensures
        forall|k: int|
            0 <= k < tokens_from::<L>(source, offset).len() ==> {
                &&& offset <= (#[trigger] tokens_from::<L>(source, offset)[k]).1.start
                &&& tokens_from::<L>(source, offset)[k].1.start < tokens_from::<L>(source, offset)[k].1.end
                &&& tokens_from::<L>(source, offset)[k].1.end <= source.spec_bytes().len()
            },
        forall|j: int, k: int|
            0 <= j < k < tokens_from::<L>(source, offset).len() ==> (#[trigger] tokens_from::<L>(
                source,
                offset,
            )[j]).1.end <= (#[trigger] tokens_from::<L>(source, offset)[k]).1.start,
    decreases source.spec_bytes().len() - offset,
{
    lemma_unfold::<L>(source, offset);
    if let Some((t, span)) = next_of::<L>(source, offset) {
        lemma_tokens_after::<L>(source, span.end);
        let all = tokens_from::<L>(source, offset);
        let later = tokens_from::<L>(source, span.end);
        assert forall|k: int| 0 < k < all.len() implies #[trigger] all[k] == later[k - 1] by {}
        assert forall|j: int, k: int| 0 <= j < k < all.len() implies (#[trigger] all[j]).1.end <= (
        #[trigger] all[k]).1.start by {
            if j > 0 {
                assert(all[j] == later[j - 1]);
            }
            assert(all[k] == later[k - 1]);
        }
    }
}

/// A token stream over a borrowed source text, read through a tokenizer on
/// demand.
///
/// Every operation leaves `self` as it was or hands back a new value, so a
/// copy made by `clone` is a saved position to return to.
pub struct Tokens<'i, L: Tokenizer<'i>> {
    source: &'i str,
    at: Span,
    tokenizer: PhantomData<L>,
}

impl<'i, L: Tokenizer<'i>> Tokens<'i, L> {
    #[verifier::type_invariant]
    spec fn inv(self) -> bool {
        self.wf()
    }

    /// The stream stands between two tokens of a text that fits in memory,
    /// read by a tokenizer that behaves as one.
    pub closed spec fn wf(self) -> bool {
        let text = self.source.spec_bytes();
        &&& text.len() <= usize::MAX
        &&& self.at.start <= self.at.end
        &&& boundary(text, self.at.start as int)
        &&& boundary(text, self.at.end as int)
        &&& tokenizes::<L>()
    }

    /// The whole source text.
    pub closed spec fn source_spec(&self) -> &'i str {
        self.source
    }

    /// The bytes of the whole source text.
    pub open spec fn text(&self) -> Seq<u8> {
        self.source_spec().spec_bytes()
    }

    /// The span of the token consumed last (`0..0` before the first).
    pub closed spec fn at(&self) -> Span {
        self.at
    }

    /// The tokens not yet consumed, each with its span in the source text.
    pub open spec fn rest(&self) -> Seq<(L::Token, Span)> {
        tokens_from::<L>(self.source_spec(), self.at().end)
    }

    /// The number of bytes after the token consumed last.
    pub open spec fn len_spec(&self) -> nat {
        (self.text().len() - self.at().end) as nat
    }

    /// The bytes after the token consumed last.
    pub open spec fn remaining(&self) -> Seq<u8> {
        self.text().subrange(self.at().end as int, self.text().len() as int)
    }

    /// A stream over `input`, before its first token.
    pub fn new(input: &'i str) -> (r: Self)
        requires
            tokenizes::<L>(),
        ensures
            r.wf(),
            r.source_spec() == input,
            r.at() == (Span { start: 0, end: 0 }),
            r.rest() == tokens_from::<L>(input, 0),
            r.len_spec() == input.spec_bytes().len(),
    {
        // The length of a byte slice fits in a `usize`.
        let _ = input.as_bytes().len();
        proof {
            is_char_boundary_start_end_of_seq(input.spec_bytes());
        }
        Tokens { source: input, at: Span { start: 0, end: 0 }, tokenizer: PhantomData }
    }

    /// The number of bytes of the source text after the token consumed last.
    pub fn len(&self) -> (r: usize)
        ensures
            r == self.len_spec(),
    {
        proof {
            use_type_invariant(self);
        }
        self.source.len() - self.at.end
    }

    /// Whether no byte follows the token consumed last.
    pub fn is_empty(&self) -> (r: bool)
        ensures
            r == (self.len_spec() == 0),
    {
        self.len() == 0
    }

    /// The next token and the text it was read from, without consuming it.
    pub fn peek(&self) -> (r: Option<(L::Token, &'i str)>)
        ensures
            self.rest().len() == 0 ==> r is None,
            self.rest().len() > 0 ==> {
                let (t, span) = self.rest()[0];
                &&& r is Some
                &&& r.unwrap().0 == t
                &&& r.unwrap().1.spec_bytes() == self.text().subrange(span.start as int, span.end as int)
            },
    {
        proof {
            use_type_invariant(self);
        }
        let next = read_at::<L>(self.source, self.at.end);
        proof {
            lemma_unfold::<L>(self.source, self.at.end);
        }
        match next {
            Some((t, span)) => Some((t, slice(self.source, span.start, span.end))),
            None => None,
        }
    }

    /// The stream past its next token; at the end of the text, the stream
    /// past any trailing skipped text.
    pub closed spec fn advance_spec(self) -> Self {
        let at = match next_of::<L>(self.source, self.at.end) {
            Some((_, span)) => span,
            None => Span { start: self.source.spec_bytes().len() as usize, end: self.source.spec_bytes().len() as usize },
        };
        Tokens { source: self.source, at, tokenizer: PhantomData }
    }

    /// The stream after `n` advances.
    pub open spec fn advance_n(self, n: nat) -> Self
        decreases n,
    {
        if n == 0 {
            self
        } else {
            self.advance_spec().advance_n((n - 1) as nat)
        }
    }

    /// What one advance does to the model of a valid stream.
    pub proof fn lemma_advance(self)
        requires
            self.wf(),
        ensures
            self.advance_spec().wf(),
            self.advance_spec().source_spec() == self.source_spec(),
            self.rest().len() > 0 ==> {
                &&& self.advance_spec().rest() == self.rest().drop_first()
                &&& self.advance_spec().at() == self.rest()[0].1
            },
            self.rest().len() == 0 ==> {
                &&& self.advance_spec().rest() == self.rest()
                &&& self.advance_spec().at() == (Span {
                    start: self.text().len() as usize,
                    end: self.text().len() as usize,
                })
            },
    {
        lemma_unfold::<L>(self.source, self.at.end);
        is_char_boundary_start_end_of_seq(self.source.spec_bytes());
    }

    /// After `n` advances, none past the tokens ahead, the `n` first of them
    /// are consumed and the stream ends where the last of those ends.
    pub proof fn lemma_advance_n(self, n: nat)
        requires
            self.wf(),
            n <= self.rest().len(),
        ensures
            self.advance_n(n).wf(),
            self.advance_n(n).source_spec() == self.source_spec(),
            self.advance_n(n).rest() == self.rest().skip(n as int),
            n > 0 ==> self.advance_n(n).at() == self.rest()[n - 1].1,
        decreases n,
    {
        if n > 0 {
            self.lemma_advance();
            let next = self.advance_spec();
            next.lemma_advance_n((n - 1) as nat);
            assert(next.rest().skip(n - 1) =~= self.rest().skip(n as int));
            if n > 1 {
                assert(next.rest()[n - 2] == self.rest()[n - 1]);
            }
        } else {
            assert(self.rest().skip(0) =~= self.rest());
        }
    }

    /// Advancing past each of the tokens ahead leaves none ahead, and no byte
    /// when the text ends with the last of them (or, with none ahead, where
    /// the stream stands); one advance more changes neither.
    pub proof fn lemma_drain(self)
        requires
            self.wf(),
            self.rest().len() > 0 ==> self.rest().last().1.end == self.text().len(),
            self.rest().len() == 0 ==> self.at().end == self.text().len(),
        ensures
            self.advance_n(self.rest().len()).rest().len() == 0,
            self.advance_n(self.rest().len()).len_spec() == 0,
            self.advance_n(self.rest().len() + 1).rest().len() == 0,
            self.advance_n(self.rest().len() + 1).len_spec() == 0,
    {
        let n = self.rest().len();
        self.lemma_advance_n(n);
        let done = self.advance_n(n);
        done.lemma_advance();
        self.lemma_advance_n_plus(n);
    }

    /// `n + 1` advances are `n` advances and one more.
    pub proof fn lemma_advance_n_plus(self, n: nat)
        ensures
            self.advance_n(n + 1) == self.advance_n(n).advance_spec(),
        decreases n,
    {
        let next = self.advance_spec();
        if n > 0 {
            next.lemma_advance_n_plus((n - 1) as nat);
            assert(self.advance_n(n + 1) == next.advance_n(n));
            assert(self.advance_n(n) == next.advance_n((n - 1) as nat));
        } else {
            assert(next.advance_n(0) == next);
        }
    }

    /// The token `k` places ahead starts where `slice_index(k)` says, counted
    /// from the end of the token consumed last: the offset that `position`
    /// gives when that token is the first to satisfy its predicate.
    pub proof fn lemma_position_is_slice_index(self, k: nat)
        requires
            self.wf(),
            k < self.rest().len(),
        ensures
            self.at().end <= self.rest()[k as int].1.start,
            self.slice_index_spec(k) == Ok::<usize, NeedMore>((self.rest()[k as int].1.start - self.at().end) as usize),
    {
        lemma_tokens_after::<L>(self.source, self.at.end);
    }

    /// Where `slice_index(count)` gives `o`, the first `count` tokens ahead
    /// lie within the `o` bytes after the token consumed last, the text that
    /// `take(o)` reads, and the token after them starts right after those
    /// bytes, where the text that `take_split(o).1` reads starts.
    pub proof fn lemma_slice_index_cut(self, count: nat)
        requires
            self.wf(),
            count <= self.rest().len(),
        ensures
            self.slice_index_spec(count) is Ok,
            forall|k: int|
                0 <= k < count ==> {
                    &&& self.at().end <= (#[trigger] self.rest()[k]).1.start
                    &&& self.rest()[k].1.end <= self.at().end + self.slice_index_spec(count)->Ok_0
                },
            count < self.rest().len() ==> self.rest()[count as int].1.start == self.at().end
                + self.slice_index_spec(count)->Ok_0,
            self.at().end + self.slice_index_spec(count)->Ok_0 <= self.text().len(),
    {
        lemma_tokens_after::<L>(self.source, self.at.end);
        if count < self.rest().len() {
            assert forall|k: int| 0 <= k < count implies (#[trigger] self.rest()[k]).1.end <= self.rest()[count as int].1.start by {}
        }
    }

    /// Where `slice_index(count)` gives `o` and the tokenizer reads locally,
    /// the text that `take(o)` reads holds the first `count` tokens ahead,
    /// and the text that `take_split(o).1` reads holds the tokens after
    /// them, each with its span counted from where that text starts.
    pub proof fn lemma_slice_index_take(self, count: nat, head: &'i str, tail: &'i str)
        requires
            self.wf(),
            reads_locally::<L>(),
            count <= self.rest().len(),
            head.spec_bytes() == self.remaining().subrange(0, self.slice_index_spec(count)->Ok_0 as int),
            tail.spec_bytes() == self.remaining().subrange(
                self.slice_index_spec(count)->Ok_0 as int,
                self.len_spec() as int,
            ),
        ensures
            tokens_from::<L>(head, 0) == shift_back(self.rest().take(count as int), self.at().end as int),
            tokens_from::<L>(tail, 0) == shift_back(
                self.rest().skip(count as int),
                self.at().end + self.slice_index_spec(count)->Ok_0,
            ),
    {
        let text = self.source.spec_bytes();
        let b = self.at.end;
        self.lemma_slice_index_cut(count);
        let o = self.slice_index_spec(count)->Ok_0;
        let c = (b + o) as usize;
        lemma_tokens_after::<L>(self.source, b);
        assert(boundary(text, c as int)) by {
            is_char_boundary_start_end_of_seq(text);
        }
        assert(head.spec_bytes() =~= text.subrange(b as int, c as int));
        assert(tail.spec_bytes() =~= text.subrange(c as int, text.len() as int));
        lemma_window_tokens::<L>(self.source, head, b, 0, count);
        let e = if count == 0 { b } else { self.rest()[count - 1].1.end };
        self.lemma_advance_n(count);
        assert(tokens_from::<L>(self.source, e) == self.rest().skip(count as int));
        lemma_resume::<L>(self.source, e, c);
        let after = tokens_from::<L>(self.source, c);
        lemma_tokens_after::<L>(self.source, c);
        lemma_window_tokens::<L>(self.source, tail, c, 0, after.len());
        assert(after.take(after.len() as int) =~= after);
    }

    /// The stream past its next token; at the end of the text, the stream
    /// moved past any trailing skipped text.
    pub fn advance(self) -> (r: Self)
        ensures
            r.wf(),
            r == self.advance_spec(),
            r.source_spec() == self.source_spec(),
            self.rest().len() > 0 ==> {
                &&& r.rest() == self.rest().drop_first()
                &&& r.at() == self.rest()[0].1
            },
            self.rest().len() == 0 ==> {
                &&& r.rest() == self.rest()
                &&& r.at() == (Span {
                    start: self.text().len() as usize,
                    end: self.text().len() as usize,
                })
            },
    {
        proof {
            use_type_invariant(&self);
        }
        let next = read_at::<L>(self.source, self.at.end);
        proof {
            lemma_unfold::<L>(self.source, self.at.end);
        }
        match next {
            Some((_, span)) => Tokens { source: self.source, at: span, tokenizer: PhantomData },
            None => {
                let end = self.source.len();
                proof {
                    is_char_boundary_start_end_of_seq(self.source.spec_bytes());
                }
                Tokens { source: self.source, at: Span { start: end, end }, tokenizer: PhantomData }
            },
        }
    }

    /// Where the token `k` places ahead starts, counted from the end of the
    /// token consumed last; where none is left, the number of bytes left;
    /// further on, nothing.
    pub open spec fn slice_index_spec(&self, count: nat) -> Result<usize, NeedMore> {
        if count < self.rest().len() {
            Ok((self.rest()[count as int].1.start - self.at().end) as usize)
        } else if count == self.rest().len() {
            Ok(self.len_spec() as usize)
        } else {
            Err(NeedMore)
        }
    }

    /// The offset, from the end of the token consumed last, after which the
    /// first `count` tokens ahead end: the start of the next token, or the
    /// end of the text when exactly `count` are left. Fewer than `count`
    /// tokens ahead give `NeedMore`.
    pub fn slice_index(&self, count: usize) -> (r: Result<usize, NeedMore>)
        ensures
            r == self.slice_index_spec(count as nat),
            r is Err <==> count > self.rest().len(),
    {
        proof {
            use_type_invariant(self);
        }
        let mut offset = self.at.end;
        let mut seen: usize = 0;
        loop
            invariant
                tokenizes::<L>(),
                self.at.end <= offset,
                boundary(self.source.spec_bytes(), offset as int),
                seen <= count,
                seen <= self.rest().len(),
                tokens_from::<L>(self.source, offset) == self.rest().skip(seen as int),
            decreases self.source.spec_bytes().len() - offset,
        {
            let next = read_at::<L>(self.source, offset);
            proof {
                lemma_unfold::<L>(self.source, offset);
            }
            match next {
                Some((_, span)) => {
                    proof {
                        assert(self.rest().skip(seen as int).len() > 0);
                        assert(self.rest()[seen as int] == self.rest().skip(seen as int)[0]);
                        assert(self.rest().skip(seen as int).drop_first() =~= self.rest().skip(seen + 1));
                    }
                    if seen == count {
                        return Ok(span.start - self.at.end);
                    }
                    seen = seen + 1;
                    offset = span.end;
                },
                None => {
                    proof {
                        assert(self.rest().skip(seen as int).len() == 0);
                    }
                    if seen == count {
                        return Ok(self.len());
                    }
                    return Err(NeedMore);
                },
            }
        }
    }

    /// The offset, from the end of the token consumed last, of the first
    /// token ahead on which `predicate` holds; nothing when it holds on none.
    pub fn position<P: Fn((L::Token, Span)) -> bool>(&self, predicate: P) -> (r: Option<usize>)
        requires
            forall|x: (L::Token, Span)| predicate.requires((x,)),
        ensures
            match r {
                Some(o) => exists|k: int|
                    0 <= k < self.rest().len() && o == self.rest()[k].1.start - self.at().end
                        && predicate.ensures((self.rest()[k],), true) && forall|j: int|
                        0 <= j < k ==> predicate.ensures((#[trigger] self.rest()[j],), false),
                None => forall|j: int|
                    0 <= j < self.rest().len() ==> predicate.ensures((#[trigger] self.rest()[j],), false),
            },
    {
        proof {
            use_type_invariant(self);
        }
        let mut offset = self.at.end;
        let ghost mut seen: int = 0;
        loop
            invariant
                tokenizes::<L>(),
                self.at.end <= offset,
                boundary(self.source.spec_bytes(), offset as int),
                0 <= seen <= self.rest().len(),
                tokens_from::<L>(self.source, offset) == self.rest().skip(seen),
                forall|x: (L::Token, Span)| predicate.requires((x,)),
                forall|j: int| 0 <= j < seen ==> predicate.ensures((#[trigger] self.rest()[j],), false),
            decreases self.source.spec_bytes().len() - offset,
        {
            let next = read_at::<L>(self.source, offset);
            proof {
                lemma_unfold::<L>(self.source, offset);
            }
            match next {
                Some((t, span)) => {
                    proof {
                        assert(self.rest().skip(seen).len() > 0);
                        assert(self.rest()[seen] == self.rest().skip(seen)[0]);
                        assert(self.rest().skip(seen).drop_first() =~= self.rest().skip(seen + 1));
                    }
                    if predicate((t, span)) {
                        return Some(span.start - self.at.end);
                    }
                    proof {
                        seen = seen + 1;
                    }
                    offset = span.end;
                },
                None => {
                    proof {
                        assert(self.rest().skip(seen).len() == 0);
                    }
                    return None;
                },
            }
        }
    }

    /// The source text and the end of the token consumed last.
    pub(crate) fn position_parts(&self) -> (r: (&'i str, usize))
        ensures
            r.0 == self.source_spec(),
            r.1 == self.at().end,
            boundary(r.0.spec_bytes(), r.1 as int),
            tokenizes::<L>(),
    {
        proof {
            use_type_invariant(self);
        }
        (self.source, self.at.end)
    }

    /// The number of bytes of the source text after the token consumed last.
    pub fn input_len(&self) -> (r: usize)
        ensures
            r == self.len_spec(),
    {
        self.len()
    }

    /// The text after the token consumed last.
    pub fn remainder(&self) -> (r: &'i str)
        ensures
            r.spec_bytes() == self.remaining(),
    {
        proof {
            use_type_invariant(self);
            is_char_boundary_start_end_of_seq(self.source.spec_bytes());
        }
        slice(self.source, self.at.end, self.source.len())
    }

    /// A stream over the empty text.
    pub fn default() -> (r: Self)
        requires
            tokenizes::<L>(),
        ensures
            r.text().len() == 0,
            r.at() == (Span { start: 0, end: 0 }),
            r.rest().len() == 0,
    {
        let empty = "";
        proof {
            reveal_strlit("");
            assert(empty.spec_bytes() =~= Seq::<u8>::empty());
        }
        Self::new(empty)
    }

    /// A copy that goes on independently.
    pub fn clone(&self) -> (r: Self)
        ensures
            r == *self,
    {
        proof {
            use_type_invariant(self);
        }
        Tokens { source: self.source, at: self.at, tokenizer: PhantomData }
    }

    /// A new stream over the first `count` bytes after the token consumed
    /// last, tokenized afresh: its spans count from the start of that text.
    pub fn take(&self, count: usize) -> (r: Self)
        requires
            count <= self.len_spec(),
            boundary(self.text(), self.at().end + count),
        ensures
            r.wf(),
            r.text() == self.remaining().subrange(0, count as int),
            r.at() == (Span { start: 0, end: 0 }),
            r.rest() == tokens_from::<L>(r.source_spec(), 0),
    {
        proof {
            use_type_invariant(self);
        }
        let head = slice(self.source, self.at.end, self.at.end + count);
        proof {
            assert(head.spec_bytes() =~= self.remaining().subrange(0, count as int));
        }
        Self::new(head)
    }

    /// Two new streams, over the first `count` bytes after the token
    /// consumed last and over the bytes after those, each tokenized afresh.
    pub fn take_split(&self, count: usize) -> (r: (Self, Self))
        requires
            count <= self.len_spec(),
            boundary(self.text(), self.at().end + count),
        ensures
            r.0.wf(),
            r.1.wf(),
            r.0.text() == self.remaining().subrange(0, count as int),
            r.1.text() == self.remaining().subrange(count as int, self.len_spec() as int),
            r.0.at() == (Span { start: 0, end: 0 }),
            r.1.at() == (Span { start: 0, end: 0 }),
            r.0.rest() == tokens_from::<L>(r.0.source_spec(), 0),
            r.1.rest() == tokens_from::<L>(r.1.source_spec(), 0),
    {
        proof {
            use_type_invariant(self);
            is_char_boundary_start_end_of_seq(self.source.spec_bytes());
        }
        let cut = self.at.end + count;
        let head = slice(self.source, self.at.end, cut);
        let tail = slice(self.source, cut, self.source.len());
        proof {
            assert(head.spec_bytes() =~= self.remaining().subrange(0, count as int));
            assert(tail.spec_bytes() =~= self.remaining().subrange(count as int, self.len_spec() as int));
        }
        (Self::new(head), Self::new(tail))
    }
}

/// The two sequences hold equal tokens, one for one; their spans may differ.
pub open spec fn same_tokens<T: PartialEq>(a: Seq<(T, Span)>, b: Seq<(T, Span)>) -> bool {
    &&& a.len() == b.len()
    &&& forall|i: int| 0 <= i < a.len() ==> (#[trigger] a[i]).0.eq_spec(&b[i].0)
}

impl<'i, L: Tokenizer<'i>> PartialEq for Tokens<'i, L> where L::Token: PartialEq {
    /// Whether the tokens ahead are equal, one for one, wherever they stand.
    fn eq(&self, other: &Self) -> (r: bool) {
        proof {
            use_type_invariant(self);
            use_type_invariant(other);
        }
        let mut a = self.at.end;
        let mut b = other.at.end;
        let ghost mut seen: int = 0;
        loop
            invariant
                tokenizes::<L>(),
                boundary(self.source.spec_bytes(), a as int),
                boundary(other.source.spec_bytes(), b as int),
                0 <= seen <= self.rest().len(),
                0 <= seen <= other.rest().len(),
                tokens_from::<L>(self.source, a) == self.rest().skip(seen),
                tokens_from::<L>(other.source, b) == other.rest().skip(seen),
                <L::Token as PartialEqSpec>::obeys_eq_spec() ==> forall|j: int|
                    0 <= j < seen ==> (#[trigger] self.rest()[j]).0.eq_spec(&other.rest()[j].0),
            decreases self.source.spec_bytes().len() - a,
        {
            let x = read_at::<L>(self.source, a);
            let y = read_at::<L>(other.source, b);
            proof {
                lemma_unfold::<L>(self.source, a);
                lemma_unfold::<L>(other.source, b);
            }
            match (x, y) {
                (Some((t, s)), Some((u, v))) => {
                    proof {
                        assert(self.rest().skip(seen).len() > 0);
                        assert(other.rest().skip(seen).len() > 0);
                        assert(self.rest()[seen] == self.rest().skip(seen)[0]);
                        assert(other.rest()[seen] == other.rest().skip(seen)[0]);
                        assert(self.rest().skip(seen).drop_first() =~= self.rest().skip(seen + 1));
                        assert(other.rest().skip(seen).drop_first() =~= other.rest().skip(seen + 1));
                    }
                    if !(t == u) {
                        return false;
                    }
                    proof {
                        seen = seen + 1;
                    }
                    a = s.end;
                    b = v.end;
                },
                (None, None) => {
                    proof {
                        assert(self.rest().skip(seen).len() == 0);
                        assert(other.rest().skip(seen).len() == 0);
                    }
                    return true;
                },
                _ => {
                    proof {
                        assert(self.rest().skip(seen).len() != other.rest().skip(seen).len());
                    }
                    return false;
                },
            }
        }
    }
}

impl<'i, L: Tokenizer<'i>> vstd::std_specs::cmp::PartialEqSpecImpl for Tokens<'i, L> where L::Token: PartialEq {
    open spec fn obeys_eq_spec() -> bool {
        <L::Token as PartialEqSpec>::obeys_eq_spec()
    }

    open spec fn eq_spec(&self, other: &Self) -> bool {
        same_tokens(self.rest(), other.rest())
    }
}

/// Streams whose tokens ahead are the same values, one for one, are equal
/// under `==`, whatever texts they read and wherever those tokens stand,
/// for a token type whose `==` is equality of values.
pub proof fn lemma_eq_by_tokens<'i, L: Tokenizer<'i>>(a: Tokens<'i, L>, b: Tokens<'i, L>) where
    L::Token: PartialEq,

    requires
        obeys_concrete_eq::<L::Token>(),
        a.rest().len() == b.rest().len(),
        forall|i: int| 0 <= i < a.rest().len() ==> (#[trigger] a.rest()[i]).0 == b.rest()[i].0,
    ensures
        <Tokens<'i, L> as PartialEqSpec>::obeys_eq_spec(),
        a.eq_spec(&b),
{
    reveal(obeys_concrete_eq);
}

} // verus!
