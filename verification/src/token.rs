use vstd::prelude::*;

verus! {

/// One opcode of the source language. Every character of the source maps to
/// exactly one token; characters outside the eight command characters map to
/// `Ignore` and are skipped by the structural builder.
#[derive(Debug, PartialEq, Eq, Structural, Clone, Copy)]
pub enum Token {
    Plus,
    Minus,
    Left,
    Right,
    Dot,
    Comma,
    BracketOpen,
    BracketClose,
    Ignore,
}

/// The character-to-opcode mapping: total and pure.
pub open spec fn spec_token_of(c: char) -> Token {
    if c == '+' {
        Token::Plus
    } else if c == '-' {
        Token::Minus
    } else if c == '<' {
        Token::Left
    } else if c == '>' {
        Token::Right
    } else if c == '.' {
        Token::Dot
    } else if c == ',' {
        Token::Comma
    } else if c == '[' {
        Token::BracketOpen
    } else if c == ']' {
        Token::BracketClose
    } else {
        Token::Ignore
    }
}

/// The token sequence of a whole source text.
pub open spec fn spec_tokens_of(s: Seq<char>) -> Seq<Token> {
    Seq::new(s.len(), |i: int| spec_token_of(s[i]))
}

impl Token {
    /// Maps one source character to its opcode.
    pub fn from_char(c: char) -> (t: Token)
        ensures
            t == spec_token_of(c),
    {
        match c {
            '+' => Token::Plus,
            '-' => Token::Minus,
            '<' => Token::Left,
            '>' => Token::Right,
            '.' => Token::Dot,
            ',' => Token::Comma,
            '[' => Token::BracketOpen,
            ']' => Token::BracketClose,
            _ => Token::Ignore,
        }
    }

    /// Maps one source character to its opcode.
    pub fn convert_to_token(c: char) -> (t: Token)
        ensures
            t == spec_token_of(c),
    {
        Token::from_char(c)
    }

    /// Tokenizes a whole source text, one token per character, in input order.
    pub fn tokenize(source: &str) -> (tokens: Vec<Token>)
        ensures
            tokens@ == spec_tokens_of(source@),
    {
        let n = source.unicode_len();
        let mut tokens: Vec<Token> = Vec::new();
        let mut i: usize = 0;
        while i < n
            invariant
                n == source@.len(),
                i <= n,
                tokens@ == spec_tokens_of(source@).take(i as int),
            decreases n - i,
        {
            let c = source.get_char(i);
            tokens.push(Token::from_char(c));
            proof {
                assert(tokens@ =~= spec_tokens_of(source@).take(i + 1));
            }
            i = i + 1;
        }
        proof {
            assert(tokens@ =~= spec_tokens_of(source@));
        }
        tokens
    }
}

} // verus!
