use vstd::prelude::*;

verus! {

/// One attribute of a perception, condition or effect: either the
/// don't-care symbol `#` or a concrete token.
#[derive(Clone, Copy, PartialEq, Eq, Hash, PartialOrd, Ord, Debug, Structural)]
pub enum Symbol {
    Wildcard,
    Token(u8),
}

/// The position of a symbol in the derived order: the wildcard first, then
/// the tokens by value.
pub open spec fn symbol_rank(symbol: Symbol) -> int {
    match symbol {
        Symbol::Wildcard => 0,
        Symbol::Token(value) => value as int + 1,
    }
}

impl Symbol {
    pub fn is_wildcard(self) -> (result: bool)
        ensures
            result == (self is Wildcard),
    {
        match self {
            Symbol::Wildcard => true,
            Symbol::Token(_) => false,
        }
    }

    pub fn token(self) -> (result: Option<u8>)
        ensures
            match self {
                Symbol::Wildcard => result is None,
                Symbol::Token(value) => result == Some(value),
            },
    {
        match self {
            Symbol::Wildcard => None,
            Symbol::Token(value) => Some(value),
        }
    }

    /// The position of this symbol in the order `Ord` derives.
    pub fn rank(self) -> (result: u16)
        ensures
            result as int == symbol_rank(self),
    {
        match self {
            Symbol::Wildcard => 0,
            Symbol::Token(value) => value as u16 + 1,
        }
    }
}

/// Two symbols of the same rank are the same symbol.
pub proof fn lemma_rank_injective(a: Symbol, b: Symbol)
    ensures
        symbol_rank(a) == symbol_rank(b) <==> a == b,
{
}

} // verus!
