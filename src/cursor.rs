use vstd::prelude::*;
use vstd::string::StringSliceAdditionalSpecFns;
use vstd::utf8::is_char_boundary;

verus! {

/// A half-open byte range `[start, end)` of the source text.
#[derive(Clone, Copy, Debug, PartialEq, Eq, Structural)]
pub struct Span {
    pub start: usize,
    pub end: usize,
}

/// A position of `text` between two characters.
pub open spec fn boundary(text: Seq<u8>, i: int) -> bool {
    0 <= i <= text.len() && is_char_boundary(text, i)
}

/// A tokenizer: reads the token that comes next from a byte offset of a
/// source text. Its only state is the offset, so resuming it is free.
///
/// What a stream promises holds where `tokenizes` holds of its tokenizer;
/// streams are made only under that condition.
pub trait Tokenizer<'i> {
    type Token;

    /// The first token that starts at or after byte `offset` of `source`,
    /// with its span; nothing when only skipped text is left.
    fn next_at(source: &'i str, offset: usize) -> Option<(Self::Token, Span)>;
}

/// What `next_at` gives for `source` and `offset`.
pub open spec fn next_of<'i, L: Tokenizer<'i>>(source: &'i str, offset: usize) -> Option<(L::Token, Span)> {
    choose|r: Option<(L::Token, Span)>| call_ensures(L::next_at, (source, offset), r)
}

/// `next_at` depends on its arguments alone, and from a character boundary
/// it reads a token of at least one byte, between two later boundaries.
pub open spec fn tokenizes<'i, L: Tokenizer<'i>>() -> bool {
    &&& forall|source: &'i str, offset: usize|
        #![trigger next_of::<L>(source, offset)]
        boundary(source.spec_bytes(), offset as int) ==> (next_of::<L>(source, offset) matches Some(
            (_, span),
        ) ==> {
            &&& offset <= span.start < span.end
            &&& boundary(source.spec_bytes(), span.start as int)
            &&& boundary(source.spec_bytes(), span.end as int)
        })
    &&& forall|source: &'i str, offset: usize, r: Option<(L::Token, Span)>|
        #![trigger call_ensures(L::next_at, (source, offset), r)]
        boundary(source.spec_bytes(), offset as int) && call_ensures(L::next_at, (source, offset), r)
            ==> r == next_of::<L>(source, offset)
}

/// The tokens that `source` holds from byte `offset` on, each with its span.
pub open spec fn tokens_from<'i, L: Tokenizer<'i>>(source: &'i str, offset: usize) -> Seq<(L::Token, Span)>
    decreases source.spec_bytes().len() - offset,
{
    if offset >= source.spec_bytes().len() {
        Seq::empty()
    } else {
        match next_of::<L>(source, offset) {
            Some((t, span)) => if offset < span.end <= source.spec_bytes().len() {
                seq![(t, span)] + tokens_from::<L>(source, span.end)
            } else {
                Seq::empty()
            },
            None => Seq::empty(),
        }
    }
}

/// Reads the token after `offset`, stating what was read.
pub fn read_at<'i, L: Tokenizer<'i>>(source: &'i str, offset: usize) -> (r: Option<(L::Token, Span)>)
    requires
        tokenizes::<L>(),
        boundary(source.spec_bytes(), offset as int),
    ensures
        r == next_of::<L>(source, offset),
        r matches Some((_, span)) ==> {
            &&& offset <= span.start < span.end
            &&& boundary(source.spec_bytes(), span.start as int)
            &&& boundary(source.spec_bytes(), span.end as int)
        },
{
    let f = L::next_at;
    f(source, offset)
}

} // verus!
