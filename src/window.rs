use vstd::prelude::*;
use vstd::string::StringSliceAdditionalSpecFns;
use vstd::utf8::*;

use crate::cursor::{boundary, next_of, tokenizes, tokens_from, Span, Tokenizer};
use crate::tokens::{lemma_tokens_after, lemma_unfold};

verus! {

/// `toks` with each span moved `d` bytes back.
pub open spec fn shift_back<T>(toks: Seq<(T, Span)>, d: int) -> Seq<(T, Span)> {
    toks.map_values(|x: (T, Span)| (x.0, Span { start: (x.1.start - d) as usize, end: (x.1.end - d) as usize }))
}

/// `window` holds the bytes of `text` from `from` on, `window.len()` of them.
pub open spec fn window_of(text: Seq<u8>, window: Seq<u8>, from: int) -> bool {
    0 <= from && from + window.len() <= text.len() && window == text.subrange(from, from + window.len())
}

/// What the tokenizer reads in a window of a text it reads in the text
/// itself: a token that ends within the window is read alike (its span moved
/// by where the window starts), and where the next token of the text starts
/// past the window, the window holds none.
#[verifier::opaque]
pub open spec fn reads_windows<'i, L: Tokenizer<'i>>() -> bool {
    forall|text: &'i str, window: &'i str, k: usize, j: usize|
        #![trigger next_of::<L>(window, k), next_of::<L>(text, j)]
        k <= j && window_of(text.spec_bytes(), window.spec_bytes(), j - k) && boundary(
            window.spec_bytes(),
            k as int,
        ) && boundary(text.spec_bytes(), j as int) ==> {
            let from = j - k;
            let end = from + window.spec_bytes().len();
            &&& match next_of::<L>(text, j) {
                Some((t, span)) => span.end <= end ==> next_of::<L>(window, k) == Some(
                    (t, Span { start: (span.start - from) as usize, end: (span.end - from) as usize }),
                ),
                None => true,
            }
            &&& match next_of::<L>(text, j) {
                Some((_, span)) => span.start >= end ==> next_of::<L>(window, k) is None,
                None => next_of::<L>(window, k) is None,
            }
        }
}

/// Reading on from within the skipped text before a token reads that same
/// token.
#[verifier::opaque]
pub open spec fn resumes<'i, L: Tokenizer<'i>>() -> bool {
    forall|text: &'i str, from: usize, at: usize|
        #![trigger next_of::<L>(text, from), next_of::<L>(text, at)]
        from <= at && boundary(text.spec_bytes(), from as int) && boundary(text.spec_bytes(), at as int)
            && (next_of::<L>(text, from) matches Some((_, span)) ==> at <= span.start) ==> next_of::<L>(
            text,
            at,
        ) == next_of::<L>(text, from)
}

/// The tokenizer reads a window of a text as the text itself, and resumes
/// alike from anywhere in skipped text.
pub open spec fn reads_locally<'i, L: Tokenizer<'i>>() -> bool {
    reads_windows::<L>() && resumes::<L>()
}

/// Reading on from within the skipped text before the next token reads the
/// same tokens.
pub proof fn lemma_resume<'i, L: Tokenizer<'i>>(text: &'i str, from: usize, at: usize)
    requires
        tokenizes::<L>(),
        resumes::<L>(),
        from <= at,
        boundary(text.spec_bytes(), from as int),
        boundary(text.spec_bytes(), at as int),
        tokens_from::<L>(text, from).len() > 0 ==> at <= tokens_from::<L>(text, from)[0].1.start,
    ensures
        tokens_from::<L>(text, at) == tokens_from::<L>(text, from),
{
    reveal(resumes);
    lemma_unfold::<L>(text, from);
    lemma_unfold::<L>(text, at);
}

/// A boundary of `text` inside a window that starts and ends on boundaries
/// is a boundary of the window.
pub proof fn lemma_window_boundary(text: Seq<u8>, from: int, end: int, i: int)
    requires
        valid_utf8(text),
        boundary(text, from),
        boundary(text, end),
        boundary(text, i),
        from <= i <= end,
    ensures
        valid_utf8(text.subrange(from, end)),
        boundary(text.subrange(from, end), i - from),
{
    broadcast use group_utf8_lib;

    let tail = text.subrange(from, text.len() as int);
    assert(valid_utf8(tail));
    assert(text.subrange(from, end) =~= tail.subrange(0, end - from));
    assert(is_char_boundary(tail, end - from)) by {
        if from < end < text.len() {
            assert(tail[end - from] == text[end]);
            is_char_boundary_iff_not_is_continuation_byte(text, end);
            is_char_boundary_iff_not_is_continuation_byte(tail, end - from);
        } else if end == text.len() {
            is_char_boundary_start_end_of_seq(tail);
        }
    }
    let w = tail.subrange(0, end - from);
    assert(valid_utf8(w));
    if from < i < end {
        assert(w[i - from] == text[i]);
        is_char_boundary_iff_not_is_continuation_byte(text, i);
        is_char_boundary_iff_not_is_continuation_byte(w, i - from);
    } else if i == end {
        is_char_boundary_start_end_of_seq(w);
    }
}

/// One read in a window, as the text reads it.
proof fn lemma_window_step<'i, L: Tokenizer<'i>>(text: &'i str, window: &'i str, k: usize, j: usize)
    requires
        reads_windows::<L>(),
        k <= j,
        window_of(text.spec_bytes(), window.spec_bytes(), j - k),
        boundary(window.spec_bytes(), k as int),
        boundary(text.spec_bytes(), j as int),
    ensures
        ({
            let from = j - k;
            let end = from + window.spec_bytes().len();
            &&& match next_of::<L>(text, j) {
                Some((t, span)) => span.end <= end ==> next_of::<L>(window, k) == Some(
                    (t, Span { start: (span.start - from) as usize, end: (span.end - from) as usize }),
                ),
                None => true,
            }
            &&& match next_of::<L>(text, j) {
                Some((_, span)) => span.start >= end ==> next_of::<L>(window, k) is None,
                None => next_of::<L>(window, k) is None,
            }
        }),
{
    reveal(reads_windows);
    assert(next_of::<L>(window, k) == next_of::<L>(window, k) && next_of::<L>(text, j) == next_of::<L>(text, j));
}

/// A window of a text, read from `k`, holds the tokens of the text read from
/// `from + k` that come before the `m`-th, spans moved back by `from`, where
/// the `m`-th (if any) starts past the window and those before it end
/// within it.
pub proof fn lemma_window_tokens<'i, L: Tokenizer<'i>>(
    text: &'i str,
    window: &'i str,
    from: usize,
    k: usize,
    m: nat,
)
    requires
        tokenizes::<L>(),
        reads_windows::<L>(),
        window_of(text.spec_bytes(), window.spec_bytes(), from as int),
        boundary(text.spec_bytes(), from as int),
        boundary(text.spec_bytes(), from + window.spec_bytes().len()),
        k <= window.spec_bytes().len(),
        boundary(text.spec_bytes(), from + k),
        from + k <= usize::MAX,
        m <= tokens_from::<L>(text, (from + k) as usize).len(),
        m > 0 ==> tokens_from::<L>(text, (from + k) as usize)[m - 1].1.end <= from
            + window.spec_bytes().len(),
        m < tokens_from::<L>(text, (from + k) as usize).len() ==> tokens_from::<L>(
            text,
            (from + k) as usize,
        )[m as int].1.start >= from + window.spec_bytes().len(),
    ensures
        tokens_from::<L>(window, k) == shift_back(
            tokens_from::<L>(text, (from + k) as usize).take(m as int),
            from as int,
        ),
    decreases window.spec_bytes().len() - k,
{
    let t = text.spec_bytes();
    let end = from + window.spec_bytes().len();
    let j = (from + k) as usize;
    encode_utf8_valid_utf8(text@);
    lemma_window_boundary(t, from as int, end, j as int);
    assert(window.spec_bytes() =~= t.subrange(from as int, end));
    lemma_unfold::<L>(text, j);
    lemma_unfold::<L>(window, k);
    lemma_window_step::<L>(text, window, k, j);
    lemma_tokens_after::<L>(text, j);
    let all = tokens_from::<L>(text, j);
    if m == 0 {
        assert(next_of::<L>(text, j) matches Some((_, span)) ==> span.start >= end);
        assert(next_of::<L>(window, k) is None);
        assert(shift_back(all.take(0), from as int) =~= Seq::<(L::Token, Span)>::empty());
    } else {
        let (tok, span) = next_of::<L>(text, j)->Some_0;
        assert(all[0] == (tok, span));
        assert(span.end <= all[m - 1].1.end);
        let inner = (span.end - from) as usize;
        let later = tokens_from::<L>(text, span.end);
        assert(later =~= all.drop_first());
        lemma_window_tokens::<L>(text, window, from, inner, (m - 1) as nat);
        assert(shift_back(all.take(m as int), from as int) =~= seq![
            (tok, Span { start: (span.start - from) as usize, end: (span.end - from) as usize }),
        ] + shift_back(later.take(m - 1), from as int));
    }
}

} // verus!
