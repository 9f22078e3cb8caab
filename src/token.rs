use vstd::prelude::*;

verus! {

/// The kind of a block token. `H` carries the header level, 1 to 6.
#[derive(PartialEq, Eq, Structural, Debug, Clone, Copy)]
pub enum TokenType {
    H(usize),
    P,
    ULItem,
    OLItem,
    EOF,
}

/// A block token: its kind and its text, a slice of the scanned input.
#[derive(PartialEq, Debug)]
pub struct Token<'a> {
    pub token_type: TokenType,
    pub text: &'a str,
}

impl<'a> View for Token<'a> {
    type V = (TokenType, Seq<char>);

    open spec fn view(&self) -> (TokenType, Seq<char>) {
        (self.token_type, self.text@)
    }
}

} // verus!
