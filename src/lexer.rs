//! The scanner: one pass over the input that classifies each line into a token.
use vstd::prelude::*;
use vstd::string::StringSliceAdditionalSpecFns;
use vstd::utf8::*;

use crate::boundary::{lemma_boundary_after_ascii, lemma_boundary_at_ascii, lemma_boundary_in_suffix};
use crate::model::{
    classify, digit_run, end_token, hash_run, is_bullet_byte, is_digit_byte,
    lemma_line_end, line_end, strip_hashes, token_of, tokens_from, trim_ws, Lexeme, CARRIAGE_RETURN,
    DASH, DIGIT_NINE, DIGIT_ZERO, DOT, HASH, NEWLINE, PLUS, SPACE, STAR, TAB,
};
use crate::token::{Token, TokenType};

verus! {

broadcast use vstd::utf8::encode_utf8_valid_utf8;

/// Relies on `str::trim`: the result is the argument without its leading and
/// trailing Unicode `White_Space` characters.
pub assume_specification[ str::trim ](s: &str) -> (r: &str)
    ensures
        r@ == trim_ws(s@),
;

/// Scans a source text into block tokens.
pub struct Lexer<'a> {
    source: &'a str,
    bytes: &'a [u8],
    tokens: Vec<Token<'a>>,
    current: usize,
    start: usize,
}

/// The offset of the first newline at or after `i`, or the length.
fn find_line_end(bytes: &[u8], i: usize) -> (r: usize)
    requires
        i <= bytes@.len(),
    ensures
        r == line_end(bytes@, i as int),
{
    let mut j: usize = i;
    while j < bytes.len() && bytes[j] != NEWLINE
        invariant
            i <= j <= bytes@.len(),
            line_end(bytes@, j as int) == line_end(bytes@, i as int),
        decreases bytes@.len() - j,
    {
        j = j + 1;
    }
    j
}

/// The number of consecutive `#` bytes from `i` on.
fn count_hashes(bytes: &[u8], i: usize) -> (r: usize)
    requires
        i <= bytes@.len(),
    ensures
        r == hash_run(bytes@, i as int),
        i + r <= bytes@.len(),
{
    let mut j: usize = i;
    while j < bytes.len() && bytes[j] == HASH
        invariant
            i <= j <= bytes@.len(),
            hash_run(bytes@, i as int) == (j - i) + hash_run(bytes@, j as int),
        decreases bytes@.len() - j,
    {
        j = j + 1;
    }
    j - i
}

/// The number of consecutive ASCII digits from `i` on.
fn count_digits(bytes: &[u8], i: usize) -> (r: usize)
    requires
        i <= bytes@.len(),
    ensures
        r == digit_run(bytes@, i as int),
        i + r <= bytes@.len(),
{
    let mut j: usize = i;
    while j < bytes.len() && is_ascii_digit(bytes[j])
        invariant
            i <= j <= bytes@.len(),
            digit_run(bytes@, i as int) == (j - i) + digit_run(bytes@, j as int),
        decreases bytes@.len() - j,
    {
        j = j + 1;
    }
    j - i
}

/// The end of `[s, e)` once its trailing run of `#` is cut off.
fn strip_trailing_hashes(bytes: &[u8], s: usize, e: usize) -> (r: usize)
    requires
        s <= e <= bytes@.len(),
    ensures
        r == strip_hashes(bytes@, s as int, e as int),
        s <= r <= e,
        r < e ==> bytes@[r as int] == HASH,
{
    let mut end: usize = e;
    while end > s && bytes[end - 1] == HASH
        invariant
            s <= end <= e <= bytes@.len(),
            strip_hashes(bytes@, s as int, end as int) == strip_hashes(bytes@, s as int, e as int),
            end < e ==> bytes@[end as int] == HASH,
        decreases end,
    {
        end = end - 1;
    }
    end
}

fn is_ascii_digit(c: u8) -> (r: bool)
    ensures
        r == is_digit_byte(c),
{
    DIGIT_ZERO <= c && c <= DIGIT_NINE
}

/// The end of a line that starts a character.
proof fn lemma_line_end_boundary(b: Seq<u8>, i: int)
    requires
        valid_utf8(b),
        0 <= i <= b.len(),
    ensures
        is_char_boundary(b, line_end(b, i)),
{
    lemma_line_end(b, i);
    if line_end(b, i) < b.len() {
        lemma_boundary_at_ascii(b, line_end(b, i));
    } else {
        is_char_boundary_start_end_of_seq(b);
    }
}

/// One step of the scan, as the token sequence sees it.
proof fn lemma_tokens_step(b: Seq<u8>, i: int)
    requires
        0 <= i < b.len(),
    ensures
        classify(b, i) is Some ==> tokens_from(b, i) == seq![token_of(b, classify(b, i)->Some_0)]
            + tokens_from(b, line_end(b, i)),
        classify(b, i) is None ==> tokens_from(b, i) == tokens_from(b, i + 1),
{
    let f = |l: Lexeme| token_of(b, l);
    if let Some(l) = classify(b, i) {
        let rest = crate::model::lexemes_from(b, line_end(b, i));
        assert((seq![l] + rest).map_values(f) =~= seq![f(l)] + rest.map_values(f));
    }
}

proof fn lemma_hash_run(b: Seq<u8>, i: int)
    requires
        0 <= i <= b.len(),
    ensures
        i + hash_run(b, i) <= b.len(),
        forall|p: int| i <= p < i + hash_run(b, i) ==> b[p] == HASH,
    decreases b.len() - i,
{
    if i < b.len() && b[i] == HASH {
        lemma_hash_run(b, i + 1);
    }
}

proof fn lemma_digit_run(b: Seq<u8>, i: int)
    requires
        0 <= i <= b.len(),
    ensures
        i + digit_run(b, i) <= b.len(),
        forall|p: int| i <= p < i + digit_run(b, i) ==> is_digit_byte(b[p]),
    decreases b.len() - i,
{
    if i < b.len() && is_digit_byte(b[i]) {
        lemma_digit_run(b, i + 1);
    }
}

impl<'a> Lexer<'a> {
    /// The input as bytes.
    pub closed spec fn input(&self) -> Seq<u8> {
        self.bytes@
    }

    /// The offset where the scan stands.
    pub closed spec fn position(&self) -> int {
        self.current as int
    }

    /// The tokens produced so far.
    pub closed spec fn emitted(&self) -> Seq<(TokenType, Seq<char>)> {
        self.tokens@.map_values(|t: Token<'a>| t@)
    }

    /// The cursors lie within the input, and the bytes are those of the source text.
    spec fn inv(&self) -> bool {
        &&& self.bytes@ == self.source.spec_bytes()
        &&& self.start <= self.current <= self.bytes@.len() <= usize::MAX
    }

    /// A lexer between two lines: the cursor starts a character.
    pub closed spec fn wf(&self) -> bool {
        &&& self.inv()
        &&& is_char_boundary(self.bytes@, self.current as int)
    }

    /// `self` is `pre` after the line whose lead byte is at `pre.start` became a token.
    spec fn took_line(&self, pre: &Self) -> bool {
        let b = pre.bytes@;
        let s = pre.start as int;
        &&& self.inv()
        &&& self.bytes@ == b
        &&& self.source == pre.source
        &&& classify(b, s) is Some
        &&& self.current == line_end(b, s)
        &&& self.emitted() == pre.emitted().push(token_of(b, classify(b, s)->Some_0))
    }

    /// A lexer at the start of `source`, with no tokens yet.
    #[must_use]
    pub fn new(source: &'a str) -> (r: Self)
        ensures
            r.wf(),
            r.input() == source.spec_bytes(),
            r.position() == 0,
            r.emitted() == Seq::<(TokenType, Seq<char>)>::empty(),
    {
        let bytes = source.as_bytes();
        assert(bytes@.len() == bytes.len());
        let r = Self { source, bytes, tokens: Vec::new(), current: 0, start: 0 };
        assert(r.emitted() =~= Seq::<(TokenType, Seq<char>)>::empty());
        r
    }

    /// The tokens produced so far.
    pub fn tokens(&self) -> (r: &Vec<Token<'a>>)
        ensures
            r@.map_values(|t: Token<'a>| t@) == self.emitted(),
    {
        &self.tokens
    }

    /// Gives up the lexer for the tokens it produced.
    pub fn into_tokens(self) -> (r: Vec<Token<'a>>)
        ensures
            r@.map_values(|t: Token<'a>| t@) == self.emitted(),
    {
        self.tokens
    }

    /// Scans the rest of the input, then adds the end-of-input token.
    pub fn scan(&mut self)
        requires
            old(self).wf(),
        ensures
            final(self).wf(),
            final(self).input() == old(self).input(),
            final(self).position() == old(self).input().len(),
            final(self).emitted() == old(self).emitted() + tokens_from(
                old(self).input(),
                old(self).position(),
            ).push(end_token()),
    {
        let ghost b = self.bytes@;
        let ghost emitted0 = self.emitted();
        let ghost pos0 = self.current as int;
        while !self.is_at_end()
            invariant
                self.wf(),
                self.bytes@ == b,
                self.emitted() + tokens_from(b, self.current as int) == emitted0 + tokens_from(b, pos0),
            decreases b.len() - self.current,
        {
            self.start = self.current;
            let ghost pre = *self;
            let ghost s = self.start as int;
            let c = self.advance();
            if c == HASH {
                self.header();
            } else if c == STAR || c == DASH || c == PLUS {
                if self.peek() == SPACE {
                    self.unordered_list_item();
                } else {
                    self.paragraph();
                }
            } else if c == TAB || c == NEWLINE || c == CARRIAGE_RETURN || c == SPACE {
                // blank bytes only separate blocks
            } else if is_ascii_digit(c) {
                self.ordered_list_item();
            } else {
                self.paragraph();
            }
            proof {
                lemma_tokens_step(b, s);
                if classify(b, s) is Some {
                    lemma_line_end(b, s);
                    lemma_line_end_boundary(b, s);
                    let t = token_of(b, classify(b, s)->Some_0);
                    assert(pre.emitted().push(t) + tokens_from(b, self.current as int) =~= pre.emitted()
                        + (seq![t] + tokens_from(b, self.current as int)));
                } else {
                    lemma_boundary_after_ascii(b, s + 1);
                }
            }
        }
        let end = self.slice(self.current, self.current);
        self.add_token_with_text(TokenType::EOF, end);
        proof {
            assert(b.subrange(self.current as int, self.current as int) =~= Seq::<u8>::empty());
            assert(tokens_from(b, self.current as int) =~= Seq::empty());
            assert(self.emitted() =~= (emitted0 + tokens_from(b, pos0)).push(end_token()));
        }
    }

    /// The text of the bytes `[s, e)` of the input.
    fn slice(&self, s: usize, e: usize) -> (r: &'a str)
        requires
            self.inv(),
            s <= e <= self.bytes@.len(),
            is_char_boundary(self.bytes@, s as int),
            is_char_boundary(self.bytes@, e as int),
        ensures
            r@ == decode_utf8(self.bytes@.subrange(s as int, e as int)),
    {
        let ghost b = self.bytes@;
        proof {
            lemma_boundary_in_suffix(b, s as int, e as int);
        }
        let (_, tail) = self.source.split_at(s);
        assert(tail.spec_bytes() =~= b.subrange(s as int, b.len() as int));
        let (text, _) = tail.split_at(e - s);
        assert(text.spec_bytes() =~= b.subrange(s as int, e as int));
        proof {
            encode_utf8_decode_utf8(text@);
        }
        text
    }

    fn add_token(&mut self, token_type: TokenType)
        requires
            old(self).inv(),
            is_char_boundary(old(self).bytes@, old(self).start as int),
            is_char_boundary(old(self).bytes@, old(self).current as int),
        ensures
            final(self).emitted() == old(self).emitted().push(
                (token_type, decode_utf8(old(self).bytes@.subrange(old(self).start as int, old(self).current as int))),
            ),
            final(self).bytes == old(self).bytes,
            final(self).source == old(self).source,
            final(self).current == old(self).current,
            final(self).start == old(self).start,
    {
        let text = self.slice(self.start, self.current);
        self.add_token_with_text(token_type, text);
    }

    fn add_token_with_text(&mut self, token_type: TokenType, text: &'a str)
        ensures
            final(self).emitted() == old(self).emitted().push((token_type, text@)),
            final(self).bytes == old(self).bytes,
            final(self).source == old(self).source,
            final(self).current == old(self).current,
            final(self).start == old(self).start,
    {
        self.tokens.push(Token { token_type, text });
        assert(self.emitted() =~= old(self).emitted().push((token_type, text@)));
    }

    fn is_at_end(&self) -> (r: bool)
        ensures
            r == (self.current >= self.bytes@.len()),
    {
        self.current >= self.bytes.len()
    }

    fn advance(&mut self) -> (r: u8)
        requires
            old(self).inv(),
            old(self).current < old(self).bytes@.len(),
        ensures
            r == old(self).bytes@[old(self).current as int],
            final(self).current == old(self).current + 1,
            final(self).inv(),
            final(self).bytes == old(self).bytes,
            final(self).source == old(self).source,
            final(self).tokens == old(self).tokens,
            final(self).start == old(self).start,
    {
        let prev = self.current;
        self.current = self.current + 1;
        self.bytes[prev]
    }

    /// Moves the cursor forward to `to`.
    fn advance_to(&mut self, to: usize)
        requires
            old(self).inv(),
            old(self).current <= to <= old(self).bytes@.len(),
        ensures
            final(self).current == to,
            final(self).inv(),
            final(self).bytes == old(self).bytes,
            final(self).source == old(self).source,
            final(self).tokens == old(self).tokens,
            final(self).start == old(self).start,
    {
        self.current = to;
    }

    fn advance_start(&mut self, num: usize)
        requires
            old(self).inv(),
            old(self).start + num <= old(self).current,
        ensures
            final(self).start == old(self).start + num,
            final(self).inv(),
            final(self).bytes == old(self).bytes,
            final(self).source == old(self).source,
            final(self).tokens == old(self).tokens,
            final(self).current == old(self).current,
    {
        self.start = self.start + num;
    }

    fn byte_at(&self, at: usize) -> (r: u8)
        requires
            at < self.bytes@.len(),
        ensures
            r == self.bytes@[at as int],
    {
        self.bytes[at]
    }

    /// The byte under the cursor, or NUL at the end of the input.
    fn peek(&self) -> (r: u8)
        ensures
            r == (if self.current < self.bytes@.len() {
                self.bytes@[self.current as int]
            } else {
                0u8
            }),
    {
        if !self.is_at_end() {
            self.byte_at(self.current)
        } else {
            0
        }
    }

    /// A line that is no other block: the whole of it is the text.
    fn paragraph(&mut self)
        requires
            old(self).inv(),
            old(self).current == old(self).start + 1,
            is_char_boundary(old(self).bytes@, old(self).start as int),
            classify(old(self).bytes@, old(self).start as int) == Some(
                Lexeme {
                    kind: TokenType::P,
                    lead: old(self).start as int,
                    start: old(self).start as int,
                    end: line_end(old(self).bytes@, old(self).start as int),
                },
            ),
        ensures
            final(self).took_line(old(self)),
    {
        let ghost b = self.bytes@;
        let ghost s = self.start as int;
        proof {
            lemma_line_end(b, s);
            lemma_line_end_boundary(b, s);
        }
        let eol = find_line_end(self.bytes, self.current);
        self.advance_to(eol);
        self.add_token(TokenType::P);
    }

    /// A line led by `#`: a header of level 1 to 6 when a space follows the
    /// hashes, else a paragraph.
    fn header(&mut self)
        requires
            old(self).inv(),
            old(self).current == old(self).start + 1,
            is_char_boundary(old(self).bytes@, old(self).start as int),
            old(self).bytes@[old(self).start as int] == HASH,
        ensures
            final(self).took_line(old(self)),
    {
        let ghost b = self.bytes@;
        let ghost s = self.start as int;
        proof {
            lemma_line_end(b, s);
            lemma_hash_run(b, s);
            lemma_line_end_boundary(b, s);
        }
        let num_of_hashtags = 1 + count_hashes(self.bytes, self.current);
        let eol = find_line_end(self.bytes, self.current);
        self.advance_to(eol);
        let after = self.start + num_of_hashtags;
        if num_of_hashtags <= 6 && after < self.bytes.len() && self.byte_at(after) == SPACE {
            proof {
                lemma_boundary_after_ascii(b, after + 1);
            }
            self.advance_start(num_of_hashtags + 1);
            let end = strip_trailing_hashes(self.bytes, self.start, self.current);
            proof {
                if end < self.current {
                    lemma_boundary_at_ascii(b, end as int);
                }
            }
            let text = self.slice(self.start, end).trim();
            self.add_token_with_text(TokenType::H(num_of_hashtags), text);
        } else {
            self.add_token(TokenType::P);
        }
    }

    /// A line led by a bullet and a space: the rest of the line is the text.
    fn unordered_list_item(&mut self)
        requires
            old(self).inv(),
            old(self).current == old(self).start + 1,
            old(self).current < old(self).bytes@.len(),
            is_bullet_byte(old(self).bytes@[old(self).start as int]),
            old(self).bytes@[old(self).current as int] == SPACE,
        ensures
            final(self).took_line(old(self)),
    {
        let ghost b = self.bytes@;
        let ghost s = self.start as int;
        proof {
            lemma_line_end(b, s);
            lemma_line_end_boundary(b, s);
            lemma_boundary_after_ascii(b, s + 2);
        }
        let eol = find_line_end(self.bytes, self.current);
        self.advance_to(eol);
        self.advance_start(2);
        self.add_token(TokenType::ULItem);
    }

    /// A line led by a digit: an ordered list item when the digits are followed
    /// by `.` and a space, else a paragraph.
    fn ordered_list_item(&mut self)
        requires
            old(self).inv(),
            old(self).current == old(self).start + 1,
            is_char_boundary(old(self).bytes@, old(self).start as int),
            is_digit_byte(old(self).bytes@[old(self).start as int]),
        ensures
            final(self).took_line(old(self)),
    {
        let ghost b = self.bytes@;
        let ghost s = self.start as int;
        proof {
            lemma_line_end(b, s);
            lemma_digit_run(b, s);
            lemma_line_end_boundary(b, s);
        }
        let num_of_digits = 1 + count_digits(self.bytes, self.current);
        let eol = find_line_end(self.bytes, self.current);
        self.advance_to(eol);
        let after = self.start + num_of_digits;
        if after < self.bytes.len() - 1 && self.byte_at(after) == DOT && self.byte_at(after + 1)
            == SPACE {
            proof {
                lemma_boundary_after_ascii(b, after + 2);
            }
            self.advance_start(num_of_digits + 2);
            self.add_token(TokenType::OLItem);
        } else {
            self.add_token(TokenType::P);
        }
    }
}

} // verus!
