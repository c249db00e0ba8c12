use logos_nom_bridge::{
    parse_token, parse_token_with, parse_variant, parse_variant_with, NeedMore, Span, Tokenizer,
    Tokens,
};

#[derive(Clone, Debug, PartialEq, Eq)]
enum Token {
    Plus,
    Minus,
    Number(i64),
    Error,
}

/// Arithmetic tokens; blanks between them are skipped.
struct Arith;

impl<'i> Tokenizer<'i> for Arith {
    type Token = Token;

    fn next_at(source: &'i str, offset: usize) -> Option<(Token, Span)> {
        let bytes = source.as_bytes();
        let mut i = offset;
        while i < bytes.len() && (bytes[i] == b' ' || bytes[i] == b'\t' || bytes[i] == b'\n') {
            i += 1;
        }
        if i == bytes.len() {
            return None;
        }
        let start = i;
        let token = match bytes[i] {
            b'+' => {
                i += 1;
                Token::Plus
            }
            b'-' if !(i + 1 < bytes.len() && bytes[i + 1].is_ascii_digit()) => {
                i += 1;
                Token::Minus
            }
            b'-' | b'0'..=b'9' => {
                i += 1;
                while i < bytes.len() && bytes[i].is_ascii_digit() {
                    i += 1;
                }
                Token::Number(source[start..i].parse().unwrap())
            }
            _ => {
                i += source[i..].chars().next().unwrap().len_utf8();
                Token::Error
            }
        };
        Some((token, Span { start, end: i }))
    }
}

type Input<'i> = Tokens<'i, Arith>;

fn number(t: Token) -> Option<i64> {
    match t {
        Token::Number(n) => Some(n),
        _ => None,
    }
}

fn advance_times(mut t: Input<'_>, n: usize) -> Input<'_> {
    for _ in 0..n {
        t = t.advance();
    }
    t
}

#[test]
fn new_length_is_source_length() {
    for s in ["", "10 + 3 - 4", "  7", "é + 1", "1 "] {
        let t: Input<'_> = Tokens::new(s);
        assert_eq!(t.len(), s.len());
        assert_eq!(t.input_len(), s.len());
        assert_eq!(t.is_empty(), s.is_empty());
    }
}

#[test]
fn advance_counts_bytes_after_last_token() {
    let t: Input<'_> = Tokens::new("10 + 3 - 4");
    let t = t.advance();
    assert_eq!(t.len(), 8);
    assert_eq!(t.remainder(), " + 3 - 4");
    let t = t.advance();
    assert_eq!(t.len(), 6);
}

#[test]
fn draining_all_tokens_leaves_nothing() {
    let t: Input<'_> = Tokens::new("10 + 3 - 4");
    let done = advance_times(t, 5);
    assert_eq!(done.len(), 0);
    assert!(done.is_empty());
    assert!(done.peek().is_none());
    let again = done.clone().advance();
    assert_eq!(again.len(), 0);
    assert!(again == done);
}

#[test]
fn advance_at_end_skips_trailing_blanks() {
    let t: Input<'_> = Tokens::new("1  ");
    let t = t.advance();
    assert_eq!(t.len(), 2);
    assert!(t.peek().is_none());
    let t = t.advance();
    assert_eq!(t.len(), 0);
    let t = t.advance();
    assert_eq!(t.len(), 0);
}

#[test]
fn peek_is_idempotent() {
    let t: Input<'_> = Tokens::new("10 + 3 - 4");
    let first = t.peek();
    let second = t.peek();
    assert_eq!(first, Some((Token::Number(10), "10")));
    assert_eq!(first, second);
    assert_eq!(t.len(), 10);
    let t = t.advance();
    assert_eq!(t.peek(), Some((Token::Plus, "+")));
}

#[test]
fn position_is_offset_of_first_match() {
    let t: Input<'_> = Tokens::new("10 + 3 - 4");
    assert_eq!(t.position(|(tok, _)| tok == Token::Minus), Some(7));
    assert_eq!(t.slice_index(3), Ok(7));
    assert_eq!(t.position(|(tok, _)| number(tok).is_some()), Some(0));
    assert_eq!(t.position(|(tok, _)| tok == Token::Error), None);
    let t = t.advance();
    assert_eq!(t.position(|(tok, _)| tok == Token::Minus), Some(5));
    assert_eq!(t.slice_index(2), Ok(5));
}

#[test]
fn slice_index_needs_enough_tokens() {
    let t: Input<'_> = Tokens::new("10 + 3 - 4");
    assert_eq!(t.slice_index(0), Ok(0));
    assert_eq!(t.slice_index(1), Ok(3));
    assert_eq!(t.slice_index(4), Ok(9));
    assert_eq!(t.slice_index(5), Ok(10));
    assert_eq!(t.slice_index(6), Err(NeedMore));
    let empty: Input<'_> = Tokens::new("");
    assert_eq!(empty.slice_index(0), Ok(0));
    assert_eq!(empty.slice_index(1), Err(NeedMore));
}

#[test]
fn slice_index_then_take_keeps_count_tokens() {
    let t: Input<'_> = Tokens::new("10 + 3 - 4");
    let o = t.slice_index(3).unwrap();
    let head = t.take(o);
    assert_eq!(head.remainder(), "10 + 3 ");
    assert_eq!(advance_times(head.clone(), 3).peek(), None);
    assert_eq!(advance_times(head, 2).peek(), Some((Token::Number(3), "3")));
    let (head, tail) = t.take_split(o);
    assert_eq!(head.remainder(), "10 + 3 ");
    assert_eq!(tail.remainder(), "- 4");
    assert_eq!(tail.peek(), Some((Token::Minus, "-")));
    let mut spans = tail.iter_elements();
    assert_eq!(spans.next(), Some((Token::Minus, Span { start: 0, end: 1 })));
    assert_eq!(spans.next(), Some((Token::Number(4), Span { start: 2, end: 3 })));
    assert_eq!(spans.next(), None);
}

#[test]
fn take_counts_from_current_position() {
    let t: Input<'_> = Tokens::new("10 + 3 - 4").advance();
    let o = t.slice_index(2).unwrap();
    assert_eq!(o, 5);
    let (head, tail) = t.take_split(o);
    assert_eq!(head.remainder(), " + 3 ");
    assert_eq!(tail.peek(), Some((Token::Minus, "-")));
    assert_eq!(t.take(o).remainder(), " + 3 ");
}

#[test]
fn equality_compares_tokens_only() {
    let a: Input<'_> = Tokens::new("1 + 2");
    let b: Input<'_> = Tokens::new("1+2");
    let c: Input<'_> = Tokens::new("7   1   +  2").advance();
    let d: Input<'_> = Tokens::new("1 + 3");
    let e: Input<'_> = Tokens::new("1 +");
    assert!(a == b);
    assert!(a == c);
    assert!(a != d);
    assert!(a != e);
    assert!(Tokens::<Arith>::default() == Tokens::new("   "));
}

#[test]
fn iterators_read_tokens_ahead() {
    let t: Input<'_> = Tokens::new("10 + 3").advance();
    let mut it = t.iter_indices();
    assert_eq!(it.next(), Some((1, (Token::Plus, Span { start: 3, end: 4 }))));
    assert_eq!(it.next(), Some((3, (Token::Number(3), Span { start: 5, end: 6 }))));
    assert_eq!(it.next(), None);
    let mut el = t.iter_elements();
    assert_eq!(el.next(), Some((Token::Plus, Span { start: 3, end: 4 })));
    assert_eq!(el.next(), Some((Token::Number(3), Span { start: 5, end: 6 })));
    assert_eq!(el.next(), None);
    assert_eq!(t.len(), 4);
}

#[test]
fn default_is_empty() {
    let t = Tokens::<Arith>::default();
    assert_eq!(t.len(), 0);
    assert!(t.is_empty());
    assert!(t.peek().is_none());
}

#[test]
fn token_matcher_on_expression() {
    let input: Input<'_> = Tokens::new("10 + 3 - 4");
    let failed = parse_token(input.clone(), &Token::Plus).err().unwrap();
    assert!(failed.input == input);
    assert_eq!(failed.input.len(), 10);
    let after_number = input.advance();
    let (rest, s) = parse_token(after_number, &Token::Plus).ok().unwrap();
    assert_eq!(s, "+");
    assert_eq!(rest.peek(), Some((Token::Number(3), "3")));
    assert_eq!(rest.len(), 6);
}

#[test]
fn token_matcher_custom_error() {
    let input: Input<'_> = Tokens::new("- 4");
    let r = parse_token_with(input, &Token::Plus, |i, t| (i.len(), t.clone()));
    assert_eq!(r.err(), Some((3, Token::Plus)));
    let (rest, s) = parse_token_with(Tokens::<Arith>::new("- 4"), &Token::Minus, |_, _| 0).ok().unwrap();
    assert_eq!(s, "-");
    assert_eq!(rest.peek(), Some((Token::Number(4), "4")));
}

#[test]
fn variant_matcher_extracts_number() {
    let input: Input<'_> = Tokens::new("10 + 3");
    let (rest, n) = parse_variant(input, number).ok().unwrap();
    assert_eq!(n, 10);
    assert_eq!(rest.peek(), Some((Token::Plus, "+")));
    let failed = parse_variant(rest.clone(), number).err().unwrap();
    assert!(failed.input == rest);
}

#[test]
fn variant_matcher_fails_on_depleted_stream() {
    let input: Input<'_> = Tokens::new("10 + 3 - 4");
    let done = advance_times(input, 5);
    let failed = parse_variant(done, number).err().unwrap();
    assert!(failed.input.is_empty());
    let r = parse_variant_with(Tokens::<Arith>::new(""), number, |i| i.len() + 100);
    assert_eq!(r.err(), Some(100));
}
