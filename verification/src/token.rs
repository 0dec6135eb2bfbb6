//! The tokens of a template.
use crate::fingerprint::{hashed, is_plain};
use crate::text::{any_numeric, has_numeric};
use vstd::prelude::*;
use vstd::utf8::encode_utf8;
use xxhash_rust::xxh3::Xxh3;

verus! {

/// A token of a template: a fixed text, or a place where lines differ.
#[derive(Debug)]
pub enum Token {
    Wildcard,
    Value(String),
}

/// The model of a [`Token`], with the characters of its text.
pub enum TokenView {
    Wildcard,
    Value(Seq<char>),
}

impl View for Token {
    type V = TokenView;

    open spec fn view(&self) -> TokenView {
        match self {
            Token::Wildcard => TokenView::Wildcard,
            Token::Value(s) => TokenView::Value(s@),
        }
    }
}

impl TokenView {
    /// Whether the token is a text that holds a numeric character.
    pub open spec fn has_numbers(self) -> bool {
        match self {
            TokenView::Wildcard => false,
            TokenView::Value(s) => has_numeric(s),
        }
    }

    /// What the token is written as: its text, or `<*>` for a wildcard.
    pub open spec fn text(self) -> Seq<char> {
        match self {
            TokenView::Wildcard => "<*>"@,
            TokenView::Value(s) => s,
        }
    }

    /// The bytes that stand for the token in a fingerprint: a mark for its kind, then its text.
    pub open spec fn hash_bytes(self) -> Seq<u8> {
        match self {
            TokenView::Wildcard => seq![1u8],
            TokenView::Value(s) => seq![2u8] + encode_utf8(s),
        }
    }

    /// Whether a token of a line fits: it is the same text, or the place is open.
    pub open spec fn fits(self, word: Seq<char>) -> bool {
        self == TokenView::Wildcard || self == TokenView::Value(word)
    }
}

impl Token {
    /// Whether the token is a text that holds a numeric character.
    pub fn has_numbers(&self) -> (r: bool)
        ensures
            r == self@.has_numbers(),
    {
        match self {
            Token::Wildcard => false,
            Token::Value(s) => any_numeric(s.as_str()),
        }
    }

    /// Gives the token's bytes to a hasher.
    pub fn hash(&self, hasher: &mut Xxh3)
        ensures
            hashed(*final(hasher)) == hashed(*old(hasher)) + self@.hash_bytes(),
            is_plain(*final(hasher)) == is_plain(*old(hasher)),
    {
        match self {
            Token::Wildcard => {
                hasher.update(&[1u8]);
            },
            Token::Value(s) => {
                hasher.update(&[2u8]);
                hasher.update(s.as_str().as_bytes());
                assert(hashed(*hasher) =~= hashed(*old(hasher)) + self@.hash_bytes());
            },
        }
    }

    /// What the token is written as.
    pub fn text(&self) -> (r: &str)
        ensures
            r@ == self@.text(),
    {
        match self {
            Token::Wildcard => "<*>",
            Token::Value(s) => s.as_str(),
        }
    }
}

}
