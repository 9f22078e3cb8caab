//! Laws of the scan, proved over the model that `Lexer::scan` and `marky_str` meet.
use vstd::prelude::*;
use vstd::utf8::decode_utf8;

use crate::model::{
    classify, digit_run, end_token, hash_run, is_bullet_byte, is_digit_byte, lemma_line_end,
    lemma_line_end_skip, lexemes, lexemes_from, line_end, scan_tokens, strip_hashes, token_of, tokens_from,
    trim_ws, Lexeme, DOT, HASH, NEWLINE, SPACE,
};
use crate::token::TokenType;

verus! {

/// The input made of the lines before, one line, and what follows it.
pub open spec fn with_line(pre: Seq<u8>, line: Seq<u8>, post: Seq<u8>) -> Seq<u8> {
    pre + line + post
}

/// `pre` ends where a line starts, `line` holds no newline, and `post` starts
/// with the newline that ends it, if anything follows.
pub open spec fn is_whole_line(pre: Seq<u8>, line: Seq<u8>, post: Seq<u8>) -> bool {
    &&& (pre.len() == 0 || pre.last() == NEWLINE)
    &&& forall|p: int| 0 <= p < line.len() ==> line[p] != NEWLINE
    &&& (post.len() == 0 || post[0] == NEWLINE)
}

/// `n` copies of the byte `c`.
pub open spec fn repeat(c: u8, n: nat) -> Seq<u8> {
    Seq::new(n, |_p: int| c)
}

proof fn lemma_lexemes_from(b: Seq<u8>, i: int)
    requires
        0 <= i,
    ensures
        forall|k: int|
            0 <= k < lexemes_from(b, i).len() ==> i <= (#[trigger] lexemes_from(b, i)[k]).lead
                < b.len() && lexemes_from(b, i)[k].kind != TokenType::EOF,
        forall|k: int|
            0 <= k < lexemes_from(b, i).len() - 1 ==> lexemes_from(b, i)[k].lead < (
            #[trigger] lexemes_from(b, i)[k + 1]).lead,
    decreases b.len() - i,
{
    if 0 <= i < b.len() {
        lemma_line_end(b, i);
        match classify(b, i) {
            Some(l) => {
                let le = line_end(b, i);
                lemma_lexemes_from(b, le);
                let rest = lexemes_from(b, le);
                assert(lexemes_from(b, i) == seq![l] + rest);
                assert(le > i && l.lead == i);
                assert forall|k: int| 1 <= k < lexemes_from(b, i).len() implies lexemes_from(b, i)[k]
                    == rest[k - 1] by {}
                assert forall|k: int| 0 <= k < lexemes_from(b, i).len() - 1 implies lexemes_from(b, i)[k].lead
                    < #[trigger] lexemes_from(b, i)[k + 1].lead by {
                    assert(lexemes_from(b, i)[k + 1] == rest[k]);
                    if k > 0 {
                        assert(lexemes_from(b, i)[k] == rest[k - 1]);
                        assert(rest[k - 1].lead < rest[(k - 1) + 1].lead);
                    } else {
                        assert(le <= rest[0].lead);
                    }
                }
            },
            None => {
                lemma_lexemes_from(b, i + 1);
            },
        }
    }
}

/// The scan from `i` reaches `j` when `j` starts a line: from there on it is the
/// scan from `j`.
proof fn lemma_line_start_reached(b: Seq<u8>, i: int, j: int) -> (n: int)
    requires
        0 <= i <= j <= b.len(),
        i == j || b[j - 1] == NEWLINE,
    ensures
        0 <= n <= lexemes_from(b, i).len(),
        lexemes_from(b, j) == lexemes_from(b, i).skip(n),
    decreases j - i,
{
    if i == j {
        assert(lexemes_from(b, i).skip(0) =~= lexemes_from(b, i));
        0
    } else {
        lemma_line_end(b, i);
        match classify(b, i) {
            Some(l) => {
                let le = line_end(b, i);
                assert(le < j);
                let m = lemma_line_start_reached(b, le, j);
                assert(lexemes_from(b, i) == seq![l] + lexemes_from(b, le));
                assert(lexemes_from(b, i).skip(m + 1) =~= lexemes_from(b, le).skip(m));
                m + 1
            },
            None => lemma_line_start_reached(b, i + 1, j),
        }
    }
}

/// The token of a line that starts at `j` stands in the scan.
proof fn lemma_line_token(b: Seq<u8>, j: int) -> (n: int)
    requires
        0 <= j < b.len(),
        j == 0 || b[j - 1] == NEWLINE,
        classify(b, j) is Some,
    ensures
        0 <= n < scan_tokens(b).len() - 1,
        scan_tokens(b)[n] == token_of(b, classify(b, j)->Some_0),
{
    let n = lemma_line_start_reached(b, 0, j);
    lemma_line_end(b, j);
    let l = classify(b, j)->Some_0;
    assert(lexemes_from(b, j) == seq![l] + lexemes_from(b, line_end(b, j)));
    assert(lexemes_from(b, j)[0] == l);
    assert(lexemes(b).skip(n)[0] == lexemes(b)[n]);
    assert(scan_tokens(b)[n] == tokens_from(b, 0)[n]);
    n
}

/// Where the line of an input built by `with_line` lies.
proof fn lemma_whole_line(pre: Seq<u8>, line: Seq<u8>, post: Seq<u8>)
    requires
        is_whole_line(pre, line, post),
    ensures
        ({
            let b = with_line(pre, line, post);
            let j = pre.len() as int;
            let e = j + line.len();
            &&& line_end(b, j) == e
            &&& b.subrange(j, e) == line
            &&& forall|p: int| 0 <= p < line.len() ==> b[j + p] == line[p]
            &&& (e < b.len() ==> b[e] == NEWLINE)
            &&& (j == 0 || b[j - 1] == NEWLINE)
        }),
{
    let b = with_line(pre, line, post);
    let j = pre.len() as int;
    let e = j + line.len();
    assert forall|p: int| 0 <= p < line.len() implies b[j + p] == line[p] by {}
    assert(b.subrange(j, e) =~= line);
    lemma_line_end_skip(b, j, e);
}

proof fn lemma_hash_run_exact(b: Seq<u8>, i: int, k: nat)
    requires
        0 <= i,
        i + k <= b.len(),
        forall|p: int| i <= p < i + k ==> b[p] == HASH,
        i + k < b.len() ==> b[i + k] != HASH,
    ensures
        hash_run(b, i) == k,
    decreases k,
{
    if k > 0 {
        lemma_hash_run_exact(b, i + 1, (k - 1) as nat);
    }
}

proof fn lemma_hash_run_at_least(b: Seq<u8>, i: int, k: nat)
    requires
        0 <= i,
        i + k <= b.len(),
        forall|p: int| i <= p < i + k ==> b[p] == HASH,
    ensures
        hash_run(b, i) >= k,
    decreases k,
{
    if k > 0 {
        lemma_hash_run_at_least(b, i + 1, (k - 1) as nat);
    }
}

proof fn lemma_digit_run_exact(b: Seq<u8>, i: int, k: nat)
    requires
        0 <= i,
        i + k <= b.len(),
        forall|p: int| i <= p < i + k ==> is_digit_byte(b[p]),
        i + k < b.len() ==> !is_digit_byte(b[i + k]),
    ensures
        digit_run(b, i) == k,
    decreases k,
{
    if k > 0 {
        lemma_digit_run_exact(b, i + 1, (k - 1) as nat);
    }
}

/// Cutting the trailing `#` run of a copy of `t` placed at `s` in `b`.
proof fn lemma_strip_hashes_shift(b: Seq<u8>, t: Seq<u8>, s: int, x: int)
    requires
        0 <= s,
        s + t.len() <= b.len(),
        0 <= x <= t.len(),
        forall|p: int| 0 <= p < t.len() ==> b[s + p] == t[p],
    ensures
        strip_hashes(b, s, s + x) == s + strip_hashes(t, 0, x),
    decreases x,
{
    if x > 0 && t[x - 1] == HASH {
        lemma_strip_hashes_shift(b, t, s, x - 1);
    }
}

proof fn lemma_strip_hashes(t: Seq<u8>, s: int, e: int)
    requires
        s <= e <= t.len(),
        0 <= s,
    ensures
        s <= strip_hashes(t, s, e) <= e,
        forall|p: int| strip_hashes(t, s, e) <= p < e ==> t[p] == HASH,
        strip_hashes(t, s, e) > s ==> t[strip_hashes(t, s, e) - 1] != HASH,
    decreases e - s,
{
    if s < e && t[e - 1] == HASH {
        lemma_strip_hashes(t, s, e - 1);
    }
}

/// The scan ends with the end-of-input token, and no other token is one.
pub proof fn law_one_end_token(b: Seq<u8>)
    ensures
        scan_tokens(b).len() >= 1,
        scan_tokens(b).last() == end_token(),
        forall|k: int| 0 <= k < scan_tokens(b).len() - 1 ==> scan_tokens(b)[k].0 != TokenType::EOF,
{
    lemma_lexemes_from(b, 0);
    assert forall|k: int| 0 <= k < scan_tokens(b).len() - 1 implies scan_tokens(b)[k].0
        != TokenType::EOF by {
        assert(scan_tokens(b)[k] == token_of(b, lexemes(b)[k]));
    }
}

/// Tokens come in the order of the lead bytes of their lines, each strictly after
/// the one before; token `k` is the token of lexeme `k`.
pub proof fn law_source_order(b: Seq<u8>)
    ensures
        scan_tokens(b).len() == lexemes(b).len() + 1,
        forall|k: int| 0 <= k < lexemes(b).len() ==> scan_tokens(b)[k] == token_of(b, #[trigger] lexemes(b)[k]),
        forall|k: int| 0 <= k < lexemes(b).len() ==> 0 <= (#[trigger] lexemes(b)[k]).lead < b.len(),
        forall|k: int| 0 <= k < lexemes(b).len() - 1 ==> lexemes(b)[k].lead < (#[trigger] lexemes(b)[k + 1]).lead,
{
    lemma_lexemes_from(b, 0);
}

/// A line of one to six `#`, a space and a text is a header of that level; its
/// text is the text without its trailing run of `#`, trimmed of white space.
pub proof fn law_header_line(pre: Seq<u8>, k: nat, text: Seq<u8>, post: Seq<u8>)
    requires
        1 <= k <= 6,
        is_whole_line(pre, repeat(HASH, k) + seq![SPACE] + text, post),
    ensures
        exists|n: int, m: int|
            #![trigger scan_tokens(with_line(pre, repeat(HASH, k) + seq![SPACE] + text, post))[n], text.subrange(0, m)]
            0 <= m <= text.len() && (forall|p: int| m <= p < text.len() ==> text[p] == HASH) && (m
                == 0 || text[m - 1] != HASH) && 0 <= n < scan_tokens(
                with_line(pre, repeat(HASH, k) + seq![SPACE] + text, post),
            ).len() && scan_tokens(with_line(pre, repeat(HASH, k) + seq![SPACE] + text, post))[n] == (
                TokenType::H(k as usize),
                trim_ws(decode_utf8(text.subrange(0, m))),
            ),
{
    let line = repeat(HASH, k) + seq![SPACE] + text;
    let b = with_line(pre, line, post);
    let j = pre.len() as int;
    lemma_whole_line(pre, line, post);
    assert forall|p: int| 0 <= p < k implies #[trigger] b[j + p] == HASH by {
        assert(line[p] == HASH);
    }
    assert(line[k as int] == SPACE);
    assert forall|p: int| 0 <= p < text.len() implies #[trigger] b[j + k + 1 + p] == text[p] by {
        assert(line[k + 1 + p] == text[p]);
    }
    let m = lemma_header_text(b, j, k, text);
    let n = lemma_line_token(b, j);
    assert(scan_tokens(b)[n] == (TokenType::H(k as usize), trim_ws(decode_utf8(text.subrange(0, m)))));
}

/// The header lexeme of a line of `k` hashes, a space and `text`, laid out at `j` in `b`.
proof fn lemma_header_text(b: Seq<u8>, j: int, k: nat, text: Seq<u8>) -> (m: int)
    requires
        1 <= k <= 6,
        0 <= j,
        j + k + 1 + text.len() <= b.len(),
        forall|p: int| 0 <= p < k ==> #[trigger] b[j + p] == HASH,
        b[j + k] == SPACE,
        forall|p: int| 0 <= p < text.len() ==> #[trigger] b[j + k + 1 + p] == text[p],
        line_end(b, j) == j + k + 1 + text.len(),
    ensures
        0 <= m <= text.len(),
        forall|p: int| m <= p < text.len() ==> text[p] == HASH,
        m == 0 || text[m - 1] != HASH,
        classify(b, j) == Some(
            Lexeme { kind: TokenType::H(k as usize), lead: j, start: j + k + 1, end: j + k + 1 + m },
        ),
        b.subrange(j + k + 1, j + k + 1 + m) == text.subrange(0, m),
{
    let s = j + k + 1;
    assert forall|p: int| j <= p < j + k implies b[p] == HASH by {
        assert(b[j + (p - j)] == HASH);
    }
    lemma_hash_run_exact(b, j, k);
    assert forall|p: int| 0 <= p < text.len() implies b[s + p] == text[p] by {
        assert(b[j + k + 1 + p] == text[p]);
    }
    lemma_strip_hashes_shift(b, text, s, text.len() as int);
    lemma_strip_hashes(text, 0, text.len() as int);
    let m = strip_hashes(text, 0, text.len() as int);
    assert(b.subrange(s, s + m) =~= text.subrange(0, m));
    m
}

/// A line led by seven or more `#` is a paragraph of the whole line.
pub proof fn law_long_hash_run(pre: Seq<u8>, k: nat, rest: Seq<u8>, post: Seq<u8>)
    requires
        k >= 7,
        is_whole_line(pre, repeat(HASH, k) + rest, post),
    ensures
        scan_tokens(with_line(pre, repeat(HASH, k) + rest, post)).contains((TokenType::P, decode_utf8(repeat(HASH, k) + rest))),
{
    let line = repeat(HASH, k) + rest;
    let b = with_line(pre, line, post);
    let j = pre.len() as int;
    lemma_whole_line(pre, line, post);
    assert forall|p: int| j <= p < j + k implies b[p] == HASH by {
        assert(b[p] == line[p - j]);
    }
    lemma_hash_run_at_least(b, j, k);
    let n = lemma_line_token(b, j);
    assert(scan_tokens(b)[n] == token_of(b, classify(b, j)->Some_0));
}

/// A line of a bullet (`*`, `-` or `+`), a space and a text is an unordered list
/// item with that text.
pub proof fn law_bullet_line(pre: Seq<u8>, c: u8, text: Seq<u8>, post: Seq<u8>)
    requires
        is_bullet_byte(c),
        is_whole_line(pre, seq![c, SPACE] + text, post),
    ensures
        scan_tokens(with_line(pre, seq![c, SPACE] + text, post)).contains((TokenType::ULItem, decode_utf8(text))),
{
    let line = seq![c, SPACE] + text;
    let b = with_line(pre, line, post);
    let j = pre.len() as int;
    lemma_whole_line(pre, line, post);
    assert(b[j] == line[0] && b[j + 1] == line[1]);
    assert(b.subrange(j + 2, j + line.len()) =~= text);
    let n = lemma_line_token(b, j);
    assert(scan_tokens(b)[n] == token_of(b, classify(b, j)->Some_0));
}

/// A line of a bullet not followed by a space is a paragraph of the whole line.
pub proof fn law_bullet_without_space(pre: Seq<u8>, c: u8, rest: Seq<u8>, post: Seq<u8>)
    requires
        is_bullet_byte(c),
        rest.len() == 0 || rest[0] != SPACE,
        is_whole_line(pre, seq![c] + rest, post),
    ensures
        scan_tokens(with_line(pre, seq![c] + rest, post)).contains((TokenType::P, decode_utf8(seq![c] + rest))),
{
    let line = seq![c] + rest;
    let b = with_line(pre, line, post);
    let j = pre.len() as int;
    lemma_whole_line(pre, line, post);
    assert(b[j] == line[0]);
    if rest.len() > 0 {
        assert(b[j + 1] == line[1]);
    }
    let n = lemma_line_token(b, j);
    assert(scan_tokens(b)[n] == token_of(b, classify(b, j)->Some_0));
}

/// A line of digits, `.`, a space and a text is an ordered list item with that text.
pub proof fn law_numbered_line(pre: Seq<u8>, digits: Seq<u8>, text: Seq<u8>, post: Seq<u8>)
    requires
        digits.len() >= 1,
        forall|p: int| 0 <= p < digits.len() ==> is_digit_byte(digits[p]),
        is_whole_line(pre, digits + seq![DOT, SPACE] + text, post),
    ensures
        scan_tokens(with_line(pre, digits + seq![DOT, SPACE] + text, post)).contains((TokenType::OLItem, decode_utf8(text))),
{
    let line = digits + seq![DOT, SPACE] + text;
    let b = with_line(pre, line, post);
    let j = pre.len() as int;
    let d = digits.len() as int;
    lemma_whole_line(pre, line, post);
    assert forall|p: int| j <= p < j + d implies is_digit_byte(b[p]) by {
        assert(b[p] == line[p - j]);
    }
    assert(b[j + d] == line[d] && b[j + d + 1] == line[d + 1]);
    lemma_digit_run_exact(b, j, d as nat);
    assert(b.subrange(j + d + 2, j + line.len()) =~= text);
    let n = lemma_line_token(b, j);
    assert(scan_tokens(b)[n] == token_of(b, classify(b, j)->Some_0));
}

/// A line of digits followed by anything but `.` is a paragraph of the whole line.
pub proof fn law_digits_without_dot(pre: Seq<u8>, digits: Seq<u8>, rest: Seq<u8>, post: Seq<u8>)
    requires
        digits.len() >= 1,
        forall|p: int| 0 <= p < digits.len() ==> is_digit_byte(digits[p]),
        rest.len() == 0 || (rest[0] != DOT && !is_digit_byte(rest[0])),
        is_whole_line(pre, digits + rest, post),
    ensures
        scan_tokens(with_line(pre, digits + rest, post)).contains((TokenType::P, decode_utf8(digits + rest))),
{
    let line = digits + rest;
    let b = with_line(pre, line, post);
    let j = pre.len() as int;
    let d = digits.len() as int;
    lemma_whole_line(pre, line, post);
    assert forall|p: int| j <= p < j + d implies is_digit_byte(b[p]) by {
        assert(b[p] == line[p - j]);
    }
    if rest.len() > 0 {
        assert(b[j + d] == line[d]);
    }
    lemma_digit_run_exact(b, j, d as nat);
    let n = lemma_line_token(b, j);
    assert(scan_tokens(b)[n] == token_of(b, classify(b, j)->Some_0));
}

} // verus!
