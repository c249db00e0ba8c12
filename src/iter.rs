use core::marker::PhantomData;
use vstd::prelude::*;
use vstd::string::StringSliceAdditionalSpecFns;
use vstd::utf8::*;

use crate::cursor::{boundary, read_at, tokenizes, tokens_from, Span, Tokenizer};
use crate::tokens::{lemma_unfold, Tokens};

verus! {

broadcast use group_utf8_lib;

/// Reads the tokens ahead of a stream one by one, each with its span.
pub struct SpannedIter<'i, L: Tokenizer<'i>> {
    source: &'i str,
    offset: usize,
    tokenizer: PhantomData<L>,
}

/// Reads the tokens ahead of a stream one by one, each with its span and
/// with where it starts, counted from where the reading began.
pub struct IndexIterator<'i, L: Tokenizer<'i>> {
    source: &'i str,
    offset: usize,
    base: usize,
    tokenizer: PhantomData<L>,
}

impl<'i, L: Tokenizer<'i>> SpannedIter<'i, L> {
    #[verifier::type_invariant]
    spec fn inv(self) -> bool {
        &&& boundary(self.source.spec_bytes(), self.offset as int)
        &&& tokenizes::<L>()
    }

    /// The tokens still to come.
    pub closed spec fn rest(&self) -> Seq<(L::Token, Span)> {
        tokens_from::<L>(self.source, self.offset)
    }

    /// The next token with its span.
    pub fn next(&mut self) -> (r: Option<(L::Token, Span)>)
        ensures
            old(self).rest().len() == 0 ==> r is None && final(self).rest().len() == 0,
            old(self).rest().len() > 0 ==> {
                &&& r == Some(old(self).rest()[0])
                &&& final(self).rest() == old(self).rest().drop_first()
            },
    {
        proof {
            use_type_invariant(&*self);
        }
        let next = read_at::<L>(self.source, self.offset);
        proof {
            lemma_unfold::<L>(self.source, self.offset);
        }
        match next {
            Some((t, span)) => {
                self.offset = span.end;
                Some((t, span))
            },
            None => None,
        }
    }
}

impl<'i, L: Tokenizer<'i>> IndexIterator<'i, L> {
    #[verifier::type_invariant]
    spec fn inv(self) -> bool {
        &&& self.base <= self.offset
        &&& boundary(self.source.spec_bytes(), self.offset as int)
        &&& tokenizes::<L>()
    }

    /// The tokens still to come.
    pub closed spec fn rest(&self) -> Seq<(L::Token, Span)> {
        tokens_from::<L>(self.source, self.offset)
    }

    /// Where the reading began: offsets count from here.
    pub closed spec fn base(&self) -> usize {
        self.base
    }

    /// The next token with its span, after where it starts, counted from
    /// where the reading began.
    pub fn next(&mut self) -> (r: Option<(usize, (L::Token, Span))>)
        ensures
            final(self).base() == old(self).base(),
            old(self).rest().len() == 0 ==> r is None && final(self).rest().len() == 0,
            old(self).rest().len() > 0 ==> {
                let (t, span) = old(self).rest()[0];
                &&& r == Some(((span.start - old(self).base()) as usize, (t, span)))
                &&& final(self).rest() == old(self).rest().drop_first()
            },
    {
        proof {
            use_type_invariant(&*self);
        }
        let next = read_at::<L>(self.source, self.offset);
        proof {
            lemma_unfold::<L>(self.source, self.offset);
        }
        match next {
            Some((t, span)) => {
                self.offset = span.end;
                Some((span.start - self.base, (t, span)))
            },
            None => None,
        }
    }
}

impl<'i, L: Tokenizer<'i>> Tokens<'i, L> {
    /// Reads the tokens ahead, each with where it starts, counted from the
    /// end of the token consumed last.
    pub fn iter_indices(&self) -> (r: IndexIterator<'i, L>)
        ensures
            r.rest() == self.rest(),
            r.base() == self.at().end,
    {
        let (source, offset) = self.position_parts();
        IndexIterator { source, offset, base: offset, tokenizer: PhantomData }
    }

    /// Reads the tokens ahead, each with its span.
    pub fn iter_elements(&self) -> (r: SpannedIter<'i, L>)
        ensures
            r.rest() == self.rest(),
    {
        let (source, offset) = self.position_parts();
        SpannedIter { source, offset, tokenizer: PhantomData }
    }
}

} // verus!
