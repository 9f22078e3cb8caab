//! The entry point: a text in, its block tokens out.
use vstd::prelude::*;
use vstd::string::StringSliceAdditionalSpecFns;

use crate::lexer::Lexer;
use crate::model::{scan_tokens, tokens_from};
use crate::token::{Token, TokenType};

verus! {

/// Scans `source` into its block tokens, the last of them the end-of-input token.
pub fn marky_str<'a>(source: &'a str) -> (r: Vec<Token<'a>>)
    ensures
        r@.map_values(|t: Token<'a>| t@) == scan_tokens(source.spec_bytes()),
{
    let mut lexer = Lexer::new(source);
    lexer.scan();
    let r = lexer.into_tokens();
    assert(Seq::<(TokenType, Seq<char>)>::empty() + tokens_from(source.spec_bytes(), 0)
        =~= tokens_from(source.spec_bytes(), 0));
    r
}

} // verus!
