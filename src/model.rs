//! The scan as mathematics: what the scanner makes of a byte sequence.
use vstd::prelude::*;
use vstd::utf8::*;

use crate::token::TokenType;

verus! {

pub const NEWLINE: u8 = 10;
pub const SPACE: u8 = 32;
pub const HASH: u8 = 35;
pub const TAB: u8 = 9;
pub const CARRIAGE_RETURN: u8 = 13;
pub const STAR: u8 = 42;
pub const PLUS: u8 = 43;
pub const DASH: u8 = 45;
pub const DOT: u8 = 46;
pub const DIGIT_ZERO: u8 = 48;
pub const DIGIT_NINE: u8 = 57;

/// Bytes that separate blocks and produce no token.
pub open spec fn is_blank_byte(c: u8) -> bool {
    c == TAB || c == NEWLINE || c == CARRIAGE_RETURN || c == SPACE
}

pub open spec fn is_digit_byte(c: u8) -> bool {
    DIGIT_ZERO <= c <= DIGIT_NINE
}

/// A bullet that opens an unordered list item when a space follows it.
pub open spec fn is_bullet_byte(c: u8) -> bool {
    c == STAR || c == PLUS || c == DASH
}

/// The first newline at or after `i`, or the end of the input.
pub open spec fn line_end(b: Seq<u8>, i: int) -> int
    decreases b.len() - i,
{
    if 0 <= i < b.len() && b[i] != NEWLINE {
        line_end(b, i + 1)
    } else {
        i
    }
}

/// The number of consecutive `#` bytes from `i` on.
pub open spec fn hash_run(b: Seq<u8>, i: int) -> nat
    decreases b.len() - i,
{
    if 0 <= i < b.len() && b[i] == HASH {
        1 + hash_run(b, i + 1)
    } else {
        0
    }
}

/// The number of consecutive ASCII digits from `i` on.
pub open spec fn digit_run(b: Seq<u8>, i: int) -> nat
    decreases b.len() - i,
{
    if 0 <= i < b.len() && is_digit_byte(b[i]) {
        1 + digit_run(b, i + 1)
    } else {
        0
    }
}

/// The end of the span `[s, e)` once its trailing run of `#` is cut off.
pub open spec fn strip_hashes(b: Seq<u8>, s: int, e: int) -> int
    decreases e - s,
{
    if s < e && b[e - 1] == HASH {
        strip_hashes(b, s, e - 1)
    } else {
        e
    }
}

/// A classified line: its kind, the offset of its lead byte, and the span
/// `[start, end)` of its text before any trimming.
pub struct Lexeme {
    pub kind: TokenType,
    pub lead: int,
    pub start: int,
    pub end: int,
}

/// Unicode `White_Space`, the characters that `str::trim` removes.
pub open spec fn is_white_space(c: char) -> bool {
    ||| c == ' '
    ||| ('\t' <= c && c <= '\r')
    ||| c == '\u{85}'
    ||| c == '\u{a0}'
    ||| c == '\u{1680}'
    ||| ('\u{2000}' <= c && c <= '\u{200a}')
    ||| c == '\u{2028}'
    ||| c == '\u{2029}'
    ||| c == '\u{202f}'
    ||| c == '\u{205f}'
    ||| c == '\u{3000}'
}

pub open spec fn trim_start_ws(s: Seq<char>) -> Seq<char>
    decreases s.len(),
{
    if s.len() > 0 && is_white_space(s[0]) {
        trim_start_ws(s.drop_first())
    } else {
        s
    }
}

pub open spec fn trim_end_ws(s: Seq<char>) -> Seq<char>
    decreases s.len(),
{
    if s.len() > 0 && is_white_space(s.last()) {
        trim_end_ws(s.drop_last())
    } else {
        s
    }
}

/// `s` without its leading and trailing white space.
pub open spec fn trim_ws(s: Seq<char>) -> Seq<char> {
    trim_end_ws(trim_start_ws(s))
}

/// What the line whose lead byte stands at `i` becomes; `None` for a blank byte,
/// which is skipped.
pub open spec fn classify(b: Seq<u8>, i: int) -> Option<Lexeme> {
    let c = b[i];
    let eol = line_end(b, i);
    if c == HASH {
        let k = hash_run(b, i);
        if k <= 6 && i + k < b.len() && b[i + k] == SPACE {
            Some(Lexeme { kind: TokenType::H(k as usize), lead: i, start: i + k + 1, end: strip_hashes(b, i + k + 1, eol) })
        } else {
            Some(Lexeme { kind: TokenType::P, lead: i, start: i, end: eol })
        }
    } else if is_bullet_byte(c) && i + 1 < b.len() && b[i + 1] == SPACE {
        Some(Lexeme { kind: TokenType::ULItem, lead: i, start: i + 2, end: eol })
    } else if is_blank_byte(c) {
        None
    } else if is_digit_byte(c) {
        let k = digit_run(b, i);
        if i + k + 1 < b.len() && b[i + k] == DOT && b[i + k + 1] == SPACE {
            Some(Lexeme { kind: TokenType::OLItem, lead: i, start: i + k + 2, end: eol })
        } else {
            Some(Lexeme { kind: TokenType::P, lead: i, start: i, end: eol })
        }
    } else {
        Some(Lexeme { kind: TokenType::P, lead: i, start: i, end: eol })
    }
}

/// The lexemes of the input from the lead byte at `i` to the end.
pub open spec fn lexemes_from(b: Seq<u8>, i: int) -> Seq<Lexeme>
    decreases b.len() - i,
{
    if 0 <= i < b.len() {
        proof {
            lemma_line_end(b, i);
        }
        match classify(b, i) {
            Some(l) => seq![l] + lexemes_from(b, line_end(b, i)),
            None => lexemes_from(b, i + 1),
        }
    } else {
        seq![]
    }
}

/// The lexemes of the whole input.
pub open spec fn lexemes(b: Seq<u8>) -> Seq<Lexeme> {
    lexemes_from(b, 0)
}

/// The text of a lexeme: its span decoded, and for a header trimmed of white space.
pub open spec fn lexeme_text(b: Seq<u8>, l: Lexeme) -> Seq<char> {
    let raw = decode_utf8(b.subrange(l.start, l.end));
    if l.kind is H {
        trim_ws(raw)
    } else {
        raw
    }
}

/// The token that a lexeme becomes.
pub open spec fn token_of(b: Seq<u8>, l: Lexeme) -> (TokenType, Seq<char>) {
    (l.kind, lexeme_text(b, l))
}

/// The end-of-input token, with empty text.
pub open spec fn end_token() -> (TokenType, Seq<char>) {
    (TokenType::EOF, Seq::empty())
}

/// The tokens for the lexemes from the lead byte at `i` on, without the end-of-input token.
pub open spec fn tokens_from(b: Seq<u8>, i: int) -> Seq<(TokenType, Seq<char>)> {
    lexemes_from(b, i).map_values(|l: Lexeme| token_of(b, l))
}

/// The whole token sequence that a scan of `b` produces.
pub open spec fn scan_tokens(b: Seq<u8>) -> Seq<(TokenType, Seq<char>)> {
    tokens_from(b, 0).push(end_token())
}

/// Where the line that holds offset `i` ends, and that no newline comes before.
pub proof fn lemma_line_end(b: Seq<u8>, i: int)
    requires
        0 <= i <= b.len(),
    ensures
        i <= line_end(b, i) <= b.len(),
        line_end(b, i) < b.len() ==> b[line_end(b, i)] == NEWLINE,
        forall|p: int| i <= p < line_end(b, i) ==> b[p] != NEWLINE,
    decreases b.len() - i,
{
    if i < b.len() && b[i] != NEWLINE {
        lemma_line_end(b, i + 1);
    }
}

/// Bytes that are no newline do not move the end of the line.
pub proof fn lemma_line_end_skip(b: Seq<u8>, i: int, j: int)
    requires
        0 <= i <= j <= b.len(),
        forall|p: int| i <= p < j ==> b[p] != NEWLINE,
    ensures
        line_end(b, i) == line_end(b, j),
    decreases j - i,
{
    if i < j {
        lemma_line_end_skip(b, i + 1, j);
    }
}

} // verus!
