//! Human-readable messages for the errors of the front end.
//!
//! Each message is specified character by character: [`lex_message`],
//! [`parse_message`] and [`load_message`] say what the text is, and the
//! methods `message` of the error types build exactly that text.
use crate::aln::error::{LoadAlnError, LoadErrorView};
use crate::aln::lexer::{LexError, Lexeme, TokenKind, TokenView};
use crate::aln::model::Section;
use crate::aln::parser::{Expected, ParseError, ParseErrorView};
use vstd::prelude::*;
use vstd::string::*;

verus! {

/// The character of the decimal digit `d`.
pub open spec fn digit_char(d: nat) -> char {
    (d + 48) as char
}

/// The decimal numeral of `n`, without leading zeros.
pub open spec fn decimal(n: nat) -> Seq<char>
    decreases n,
{
    if n < 10 {
        seq![digit_char(n)]
    } else {
        decimal(n / 10).push(digit_char(n % 10))
    }
}

/// Appends the decimal numeral of `n` to `out`.
pub fn push_decimal(out: &mut String, n: usize)
    ensures
        final(out)@ == old(out)@ + decimal(n as nat),
    decreases n,
{
    let ghost before = out@;
    if n >= 10 {
        push_decimal(out, n / 10);
    }
    let d: u8 = (n % 10) as u8;
    let c: char = (d + 48) as char;
    out.push(c);
    assert(c == digit_char((n % 10) as nat));
    assert(out@ =~= before + decimal(n as nat));
}

/// The message of a lexical error.
pub open spec fn lex_message(e: LexError) -> Seq<char> {
    match e {
        LexError::UnexpectedChar { ch, offset } => "Unexpected character '"@ + seq![ch] + "' at "@
            + decimal(offset as nat),
        LexError::UnterminatedString { offset } => "Unterminated string starting at "@ + decimal(
            offset as nat,
        ),
    }
}

impl LexError {
    /// The message of this error: what was met, and at which byte offset.
    pub fn message(&self) -> (r: String)
        ensures
            r@ == lex_message(*self),
    {
        match self {
            LexError::UnexpectedChar { ch, offset } => {
                let mut out = String::from_str("Unexpected character '");
                out.push(*ch);
                out.append("' at ");
                push_decimal(&mut out, *offset);
                assert(out@ =~= lex_message(*self));
                out
            },
            LexError::UnterminatedString { offset } => {
                let mut out = String::from_str("Unterminated string starting at ");
                push_decimal(&mut out, *offset);
                out
            },
        }
    }
}

impl Expected {
    /// The words for what was expected.
    pub open spec fn phrase(self) -> Seq<char> {
        match self {
            Expected::At => "'@'"@,
            Expected::BlockName => "identifier after '@'"@,
            Expected::LBrace => "'{'"@,
            Expected::RBrace => "'}'"@,
            Expected::Key => "identifier key"@,
            Expected::Colon => "':'"@,
            Expected::LBracket => "'['"@,
            Expected::RBracket => "']'"@,
            Expected::Value => "value"@,
            Expected::Number => "well-formed number"@,
        }
    }

    /// The words for what was expected.
    pub fn describe(&self) -> (r: &'static str)
        ensures
            r@ == self.phrase(),
    {
        match self {
            Expected::At => "'@'",
            Expected::BlockName => "identifier after '@'",
            Expected::LBrace => "'{'",
            Expected::RBrace => "'}'",
            Expected::Key => "identifier key",
            Expected::Colon => "':'",
            Expected::LBracket => "'['",
            Expected::RBracket => "']'",
            Expected::Value => "value",
            Expected::Number => "well-formed number",
        }
    }
}

/// The words for a kind of token; text is given as it stands in the source.
pub open spec fn kind_phrase(kind: Lexeme) -> Seq<char> {
    match kind {
        Lexeme::At => "'@'"@,
        Lexeme::LBrace => "'{'"@,
        Lexeme::RBrace => "'}'"@,
        Lexeme::LBracket => "'['"@,
        Lexeme::RBracket => "']'"@,
        Lexeme::Colon => "':'"@,
        Lexeme::Comma => "','"@,
        Lexeme::Identifier(s) => "identifier "@ + s,
        Lexeme::StringLiteral(s) => "string "@ + s,
        Lexeme::NumberLiteral(s) => "number "@ + s,
        Lexeme::BoolLiteral(b) => if b {
            "true"@
        } else {
            "false"@
        },
    }
}

/// The words for what was found: the token and its offset, or the end of
/// the input.
pub open spec fn found_phrase(found: Option<TokenView>) -> Seq<char> {
    match found {
        Some(token) => kind_phrase(token.kind) + " at "@ + decimal(token.offset as nat),
        None => "end of input"@,
    }
}

/// The message of a syntax error.
pub open spec fn parse_message(e: ParseErrorView) -> Seq<char> {
    "Expected "@ + e.expected.phrase() + ", got "@ + found_phrase(e.found)
}

/// Appends the words for `kind` to `out`.
fn push_kind(out: &mut String, kind: &TokenKind)
    ensures
        final(out)@ == old(out)@ + kind_phrase(kind@),
{
    let ghost before = out@;
    match kind {
        TokenKind::At => out.append("'@'"),
        TokenKind::LBrace => out.append("'{'"),
        TokenKind::RBrace => out.append("'}'"),
        TokenKind::LBracket => out.append("'['"),
        TokenKind::RBracket => out.append("']'"),
        TokenKind::Colon => out.append("':'"),
        TokenKind::Comma => out.append("','"),
        TokenKind::Identifier(s) => {
            out.append("identifier ");
            out.append(s.as_str());
        },
        TokenKind::StringLiteral(s) => {
            out.append("string ");
            out.append(s.as_str());
        },
        TokenKind::NumberLiteral(s) => {
            out.append("number ");
            out.append(s.as_str());
        },
        TokenKind::BoolLiteral(b) => {
            if *b {
                out.append("true");
            } else {
                out.append("false");
            }
        },
    }
    assert(out@ =~= before + kind_phrase(kind@));
}

impl ParseError {
    /// The message of this error: what was expected, and what was found in
    /// its place, with its byte offset.
    pub fn message(&self) -> (r: String)
        ensures
            r@ == parse_message(self@),
    {
        let mut out = String::from_str("Expected ");
        out.append(self.expected.describe());
        out.append(", got ");
        let ghost head = out@;
        match &self.found {
            Some(token) => {
                push_kind(&mut out, &token.kind);
                out.append(" at ");
                push_decimal(&mut out, token.offset);
                assert(out@ =~= head + found_phrase(self@.found));
            },
            None => {
                out.append("end of input");
            },
        }
        assert(out@ =~= parse_message(self@));
        out
    }
}

/// The words for a missing section.
pub open spec fn missing_phrase(section: Section) -> Seq<char> {
    "Missing @"@ + section.block_name() + match section {
        Section::Separate => " components"@,
        _ => " block"@,
    }
}

/// The message of a load error: its layer, then the message of that layer.
pub open spec fn load_message(e: LoadErrorView) -> Seq<char> {
    match e {
        LoadErrorView::Lex(e) => "Lex error: "@ + lex_message(e),
        LoadErrorView::Parse(e) => "Parse error: "@ + parse_message(e),
        LoadErrorView::MissingBlock(section) => "Parse error: "@ + missing_phrase(section),
    }
}

impl LoadAlnError {
    /// The message of this error.
    pub fn message(&self) -> (r: String)
        ensures
            r@ == load_message(self@),
    {
        match self {
            LoadAlnError::Lex(e) => {
                let mut out = String::from_str("Lex error: ");
                out.append(e.message().as_str());
                out
            },
            LoadAlnError::Parse(e) => {
                let mut out = String::from_str("Parse error: ");
                out.append(e.message().as_str());
                out
            },
            LoadAlnError::MissingBlock(section) => {
                let mut out = String::from_str("Parse error: ");
                out.append("Missing @");
                out.append(section.name());
                match section {
                    Section::Separate => out.append(" components"),
                    _ => out.append(" block"),
                }
                assert(out@ =~= load_message(self@));
                out
            },
        }
    }
}

} // verus!
