//! Tokens of the ALN language and the lexer that produces them.
//!
//! The lexer is specified by [`tokens_from`], a function from the source
//! characters to either the token sequence or the first lexical error.
//! Offsets are byte offsets into the UTF-8 text, as a reader of the file
//! would count them.
use vstd::prelude::*;
use vstd::std_specs::iter::IteratorSpec;
use vstd::string::*;
use vstd::utf8::*;

verus! {

/// The lexical kind of a token.
#[derive(Debug, Clone, PartialEq)]
pub enum TokenKind {
    At,
    LBrace,
    RBrace,
    LBracket,
    RBracket,
    Colon,
    Comma,
    Identifier(String),
    StringLiteral(String),
    NumberLiteral(String),
    BoolLiteral(bool),
}

/// A token: its kind and the byte offset at which it starts.
#[derive(Debug, Clone, PartialEq)]
pub struct Token {
    pub kind: TokenKind,
    pub offset: usize,
}

/// The first lexical error of a text.
#[derive(Debug, Clone, PartialEq, Eq)]
pub enum LexError {
    UnexpectedChar { ch: char, offset: usize },
    UnterminatedString { offset: usize },
}

/// Mathematical model of a [`TokenKind`]: text is a sequence of characters.
pub enum Lexeme {
    At,
    LBrace,
    RBrace,
    LBracket,
    RBracket,
    Colon,
    Comma,
    Identifier(Seq<char>),
    StringLiteral(Seq<char>),
    NumberLiteral(Seq<char>),
    BoolLiteral(bool),
}

/// Mathematical model of a [`Token`].
pub struct TokenView {
    pub kind: Lexeme,
    pub offset: usize,
}

impl View for TokenKind {
    type V = Lexeme;

    open spec fn view(&self) -> Lexeme {
        match self {
            TokenKind::At => Lexeme::At,
            TokenKind::LBrace => Lexeme::LBrace,
            TokenKind::RBrace => Lexeme::RBrace,
            TokenKind::LBracket => Lexeme::LBracket,
            TokenKind::RBracket => Lexeme::RBracket,
            TokenKind::Colon => Lexeme::Colon,
            TokenKind::Comma => Lexeme::Comma,
            TokenKind::Identifier(s) => Lexeme::Identifier(s@),
            TokenKind::StringLiteral(s) => Lexeme::StringLiteral(s@),
            TokenKind::NumberLiteral(s) => Lexeme::NumberLiteral(s@),
            TokenKind::BoolLiteral(b) => Lexeme::BoolLiteral(*b),
        }
    }
}

impl View for Token {
    type V = TokenView;

    open spec fn view(&self) -> TokenView {
        TokenView { kind: self.kind@, offset: self.offset }
    }
}

impl Lexeme {
    /// Whether two kinds are the same variant, whatever text they carry.
    pub open spec fn same_variant(self, other: Lexeme) -> bool {
        match (self, other) {
            (Lexeme::At, Lexeme::At) => true,
            (Lexeme::LBrace, Lexeme::LBrace) => true,
            (Lexeme::RBrace, Lexeme::RBrace) => true,
            (Lexeme::LBracket, Lexeme::LBracket) => true,
            (Lexeme::RBracket, Lexeme::RBracket) => true,
            (Lexeme::Colon, Lexeme::Colon) => true,
            (Lexeme::Comma, Lexeme::Comma) => true,
            (Lexeme::Identifier(_), Lexeme::Identifier(_)) => true,
            (Lexeme::StringLiteral(_), Lexeme::StringLiteral(_)) => true,
            (Lexeme::NumberLiteral(_), Lexeme::NumberLiteral(_)) => true,
            (Lexeme::BoolLiteral(_), Lexeme::BoolLiteral(_)) => true,
            _ => false,
        }
    }
}

impl TokenKind {
    /// Whether two kinds are the same variant, whatever text they carry.
    pub fn same_variant(&self, other: &TokenKind) -> (r: bool)
        ensures
            r == self@.same_variant(other@),
    {
        match (self, other) {
            (TokenKind::At, TokenKind::At) => true,
            (TokenKind::LBrace, TokenKind::LBrace) => true,
            (TokenKind::RBrace, TokenKind::RBrace) => true,
            (TokenKind::LBracket, TokenKind::LBracket) => true,
            (TokenKind::RBracket, TokenKind::RBracket) => true,
            (TokenKind::Colon, TokenKind::Colon) => true,
            (TokenKind::Comma, TokenKind::Comma) => true,
            (TokenKind::Identifier(_), TokenKind::Identifier(_)) => true,
            (TokenKind::StringLiteral(_), TokenKind::StringLiteral(_)) => true,
            (TokenKind::NumberLiteral(_), TokenKind::NumberLiteral(_)) => true,
            (TokenKind::BoolLiteral(_), TokenKind::BoolLiteral(_)) => true,
            _ => false,
        }
    }

    /// A copy of this kind, with the same text.
    pub fn duplicate(&self) -> (r: TokenKind)
        ensures
            r@ == self@,
    {
        match self {
            TokenKind::At => TokenKind::At,
            TokenKind::LBrace => TokenKind::LBrace,
            TokenKind::RBrace => TokenKind::RBrace,
            TokenKind::LBracket => TokenKind::LBracket,
            TokenKind::RBracket => TokenKind::RBracket,
            TokenKind::Colon => TokenKind::Colon,
            TokenKind::Comma => TokenKind::Comma,
            TokenKind::Identifier(s) => TokenKind::Identifier(s.clone()),
            TokenKind::StringLiteral(s) => TokenKind::StringLiteral(s.clone()),
            TokenKind::NumberLiteral(s) => TokenKind::NumberLiteral(s.clone()),
            TokenKind::BoolLiteral(b) => TokenKind::BoolLiteral(*b),
        }
    }
}

impl Token {
    /// A copy of this token: the same kind, text and offset.
    pub fn duplicate(&self) -> (r: Token)
        ensures
            r@ == self@,
    {
        Token { kind: self.kind.duplicate(), offset: self.offset }
    }
}

/// The models of a sequence of tokens, in order.
pub open spec fn token_views(tokens: Seq<Token>) -> Seq<TokenView> {
    Seq::new(tokens.len(), |i: int| tokens[i]@)
}

/// Number of bytes that `c` occupies in UTF-8.
pub open spec fn utf8_len(c: char) -> nat {
    if (c as u32) < 0x80 {
        1
    } else if (c as u32) < 0x800 {
        2
    } else if (c as u32) < 0x10000 {
        3
    } else {
        4
    }
}

/// Byte offset of the character with index `i`: the UTF-8 length of the
/// `i` characters before it.
pub open spec fn byte_offset(s: Seq<char>, i: int) -> nat
    decreases i,
{
    if i <= 0 {
        0
    } else {
        byte_offset(s, i - 1) + utf8_len(s[i - 1])
    }
}

/// The punctuation token that `c` stands for, if any.
pub open spec fn punctuation(c: char) -> Option<Lexeme> {
    if c == '@' {
        Some(Lexeme::At)
    } else if c == '{' {
        Some(Lexeme::LBrace)
    } else if c == '}' {
        Some(Lexeme::RBrace)
    } else if c == '[' {
        Some(Lexeme::LBracket)
    } else if c == ']' {
        Some(Lexeme::RBracket)
    } else if c == ':' {
        Some(Lexeme::Colon)
    } else if c == ',' {
        Some(Lexeme::Comma)
    } else {
        None
    }
}

/// A single or a double quote.
pub open spec fn is_quote(c: char) -> bool {
    c == '"' || c == '\''
}

/// An ASCII letter.
pub open spec fn is_ascii_letter(c: char) -> bool {
    ('a' <= c && c <= 'z') || ('A' <= c && c <= 'Z')
}

/// An ASCII digit.
pub open spec fn is_ascii_digit(c: char) -> bool {
    '0' <= c && c <= '9'
}

/// First character of an identifier: an ASCII letter or an underscore.
pub open spec fn is_ident_start(c: char) -> bool {
    is_ascii_letter(c) || c == '_'
}

/// A character with the Unicode property White_Space.
pub open spec fn is_whitespace(c: char) -> bool {
    let v = c as u32;
    ||| (0x09 <= v && v <= 0x0D)
    ||| v == 0x20
    ||| v == 0x85
    ||| v == 0xA0
    ||| v == 0x1680
    ||| (0x2000 <= v && v <= 0x200A)
    ||| v == 0x2028
    ||| v == 0x2029
    ||| v == 0x202F
    ||| v == 0x205F
    ||| v == 0x3000
}

/// The three kinds of run that make up the body of a token.
#[derive(Debug, Clone, Copy)]
pub enum Run {
    /// Letters, digits, underscores and dots: the rest of an identifier.
    Identifier,
    /// Digits and dots, in any arrangement: the rest of a number.
    Number,
    /// Everything but the given closing quote: the content of a string.
    Quoted(char),
}

impl Run {
    /// Whether the run goes on over `c`.
    pub open spec fn keeps(self, c: char) -> bool {
        match self {
            Run::Identifier => is_ascii_letter(c) || is_ascii_digit(c) || c == '_' || c == '.',
            Run::Number => is_ascii_digit(c) || c == '.',
            Run::Quoted(q) => c != q,
        }
    }

    /// Executable form of [`Run::keeps`].
    pub fn accepts(&self, c: char) -> (r: bool)
        ensures
            r == self.keeps(c),
    {
        match self {
            Run::Identifier => letter(c) || digit(c) || c == '_' || c == '.',
            Run::Number => digit(c) || c == '.',
            Run::Quoted(q) => c != *q,
        }
    }
}

/// Where the run that starts at `pos` ends: the index of the first character
/// at or after `pos` that the run does not keep, or the length of `s`.
pub open spec fn run_end(s: Seq<char>, pos: int, run: Run) -> int
    decreases s.len() - pos,
{
    if 0 <= pos < s.len() && run.keeps(s[pos]) {
        run_end(s, pos + 1, run)
    } else {
        pos
    }
}

/// The kind of a word: `true` and `false` are boolean literals, every other
/// word is an identifier with its text unchanged.
pub open spec fn word_kind(text: Seq<char>) -> Lexeme {
    if text == seq!['t', 'r', 'u', 'e'] {
        Lexeme::BoolLiteral(true)
    } else if text == seq!['f', 'a', 'l', 's', 'e'] {
        Lexeme::BoolLiteral(false)
    } else {
        Lexeme::Identifier(text)
    }
}

/// `first` put in front of the tokens of `rest`, or the error of `rest`.
pub open spec fn token_then(first: TokenView, rest: Result<Seq<TokenView>, LexError>) -> Result<
    Seq<TokenView>,
    LexError,
> {
    match rest {
        Ok(tokens) => Ok(seq![first] + tokens),
        Err(e) => Err(e),
    }
}

/// The tokens of `s` from the character with index `pos` on, or the first
/// lexical error at or after `pos`.
pub open spec fn tokens_from(s: Seq<char>, pos: int) -> Result<Seq<TokenView>, LexError>
    decreases s.len() - pos,
    via tokens_from_terminates
{
    if pos < 0 || pos >= s.len() {
        Ok(Seq::empty())
    } else {
        let c = s[pos];
        let offset = byte_offset(s, pos) as usize;
        if punctuation(c) is Some {
            token_then(TokenView { kind: punctuation(c)->0, offset }, tokens_from(s, pos + 1))
        } else if is_quote(c) {
            let end = run_end(s, pos + 1, Run::Quoted(c));
            if end >= s.len() {
                Err(LexError::UnterminatedString { offset })
            } else {
                token_then(
                    TokenView { kind: Lexeme::StringLiteral(s.subrange(pos + 1, end)), offset },
                    tokens_from(s, end + 1),
                )
            }
        } else if is_whitespace(c) {
            tokens_from(s, pos + 1)
        } else if is_ident_start(c) {
            let end = run_end(s, pos + 1, Run::Identifier);
            token_then(
                TokenView { kind: word_kind(s.subrange(pos, end)), offset },
                tokens_from(s, end),
            )
        } else if is_ascii_digit(c) {
            let end = run_end(s, pos + 1, Run::Number);
            token_then(
                TokenView { kind: Lexeme::NumberLiteral(s.subrange(pos, end)), offset },
                tokens_from(s, end),
            )
        } else {
            Err(LexError::UnexpectedChar { ch: c, offset })
        }
    }
}

#[via_fn]
proof fn tokens_from_terminates(s: Seq<char>, pos: int) {
    if 0 <= pos < s.len() {
        lemma_run_end_bounds(s, pos + 1, Run::Quoted(s[pos]));
        lemma_run_end_bounds(s, pos + 1, Run::Identifier);
        lemma_run_end_bounds(s, pos + 1, Run::Number);
    }
}

/// What lexing the text `s` gives: its tokens, or its first lexical error.
pub open spec fn lex_spec(s: Seq<char>) -> Result<Seq<TokenView>, LexError> {
    tokens_from(s, 0)
}

/// The end of a run lies between its start and the end of the text.
pub proof fn lemma_run_end_bounds(s: Seq<char>, pos: int, run: Run)
    requires
        0 <= pos <= s.len(),
    ensures
        pos <= run_end(s, pos, run) <= s.len(),
    decreases s.len() - pos,
{
    if pos < s.len() && run.keeps(s[pos]) {
        lemma_run_end_bounds(s, pos + 1, run);
    }
}

/// Whether a token is no identifier with an empty text.
pub open spec fn identifier_nonempty(token: TokenView) -> bool {
    token.kind matches Lexeme::Identifier(text) ==> text.len() > 0
}

/// Whether every identifier among `tokens` has at least one character.
pub open spec fn identifiers_nonempty(tokens: Seq<TokenView>) -> bool {
    forall|i: int| 0 <= i < tokens.len() ==> identifier_nonempty(#[trigger] tokens[i])
}

proof fn lemma_identifiers_nonempty_then(first: TokenView, rest: Seq<TokenView>)
    requires
        identifier_nonempty(first),
        identifiers_nonempty(rest),
    ensures
        identifiers_nonempty(seq![first] + rest),
{
    let all = seq![first] + rest;
    assert forall|i: int| 0 <= i < all.len() implies identifier_nonempty(#[trigger] all[i]) by {
        if i > 0 {
            assert(all[i] == rest[i - 1]);
        }
    }
}

/// The lexer produces no empty identifier: every identifier token holds the
/// letter or underscore that it starts with.
pub proof fn lemma_lexed_identifiers_nonempty(s: Seq<char>, pos: int)
    requires
        0 <= pos,
    ensures
        tokens_from(s, pos) is Ok ==> identifiers_nonempty(tokens_from(s, pos)->Ok_0),
    decreases s.len() - pos,
{
    if pos < s.len() && tokens_from(s, pos) is Ok {
        let c = s[pos];
        let offset = byte_offset(s, pos) as usize;
        if punctuation(c) is Some {
            lemma_lexed_identifiers_nonempty(s, pos + 1);
            lemma_identifiers_nonempty_then(
                TokenView { kind: punctuation(c)->0, offset },
                tokens_from(s, pos + 1)->Ok_0,
            );
        } else if is_quote(c) {
            let end = run_end(s, pos + 1, Run::Quoted(c));
            lemma_run_end_bounds(s, pos + 1, Run::Quoted(c));
            lemma_lexed_identifiers_nonempty(s, end + 1);
            lemma_identifiers_nonempty_then(
                TokenView { kind: Lexeme::StringLiteral(s.subrange(pos + 1, end)), offset },
                tokens_from(s, end + 1)->Ok_0,
            );
        } else if is_whitespace(c) {
            lemma_lexed_identifiers_nonempty(s, pos + 1);
        } else if is_ident_start(c) {
            let end = run_end(s, pos + 1, Run::Identifier);
            lemma_run_end_bounds(s, pos + 1, Run::Identifier);
            lemma_lexed_identifiers_nonempty(s, end);
            assert(s.subrange(pos, end).len() == end - pos);
            lemma_identifiers_nonempty_then(
                TokenView { kind: word_kind(s.subrange(pos, end)), offset },
                tokens_from(s, end)->Ok_0,
            );
        } else {
            let end = run_end(s, pos + 1, Run::Number);
            lemma_run_end_bounds(s, pos + 1, Run::Number);
            lemma_lexed_identifiers_nonempty(s, end);
            lemma_identifiers_nonempty_then(
                TokenView { kind: Lexeme::NumberLiteral(s.subrange(pos, end)), offset },
                tokens_from(s, end)->Ok_0,
            );
        }
    }
}

/// Byte offsets grow with the index.
pub proof fn lemma_byte_offset_monotone(s: Seq<char>, i: int, j: int)
    requires
        0 <= i <= j,
    ensures
        byte_offset(s, i) <= byte_offset(s, j),
    decreases j - i,
{
    if i < j {
        lemma_byte_offset_monotone(s, i, j - 1);
    }
}

proof fn lemma_byte_offset_drop_first(s: Seq<char>, i: int)
    requires
        0 <= i < s.len(),
    ensures
        byte_offset(s, i + 1) == utf8_len(s[0]) + byte_offset(s.drop_first(), i),
    decreases i,
{
    let rest = s.drop_first();
    if i > 0 {
        lemma_byte_offset_drop_first(s, i - 1);
        assert(rest[i - 1] == s[i]);
        assert(byte_offset(s, i + 1) == byte_offset(s, i) + utf8_len(s[i]));
        assert(byte_offset(rest, i) == byte_offset(rest, i - 1) + utf8_len(rest[i - 1]));
    } else {
        assert(byte_offset(s, 1) == byte_offset(s, 0) + utf8_len(s[0]));
        assert(byte_offset(s, 0) == 0);
        assert(byte_offset(rest, 0) == 0);
    }
}

/// The byte offset of the end of a text is the length of its UTF-8 encoding.
pub proof fn lemma_byte_offset_is_encoded_len(s: Seq<char>)
    ensures
        byte_offset(s, s.len() as int) == encode_utf8(s).len(),
    decreases s.len(),
{
    if s.len() > 0 {
        lemma_byte_offset_is_encoded_len(s.drop_first());
        lemma_byte_offset_drop_first(s, s.len() - 1);
        char_is_scalar(s[0]);
    }
}

fn letter(c: char) -> (r: bool)
    ensures
        r == is_ascii_letter(c),
{
    ('a' <= c && c <= 'z') || ('A' <= c && c <= 'Z')
}

fn digit(c: char) -> (r: bool)
    ensures
        r == is_ascii_digit(c),
{
    '0' <= c && c <= '9'
}

fn whitespace(c: char) -> (r: bool)
    ensures
        r == is_whitespace(c),
{
    let v: u32 = c as u32;
    (0x09 <= v && v <= 0x0D) || v == 0x20 || v == 0x85 || v == 0xA0 || v == 0x1680 || (0x2000 <= v
        && v <= 0x200A) || v == 0x2028 || v == 0x2029 || v == 0x202F || v == 0x205F || v == 0x3000
}

fn char_width(c: char) -> (n: usize)
    ensures
        n == utf8_len(c),
{
    let v: u32 = c as u32;
    if v < 0x80 {
        1
    } else if v < 0x800 {
        2
    } else if v < 0x10000 {
        3
    } else {
        4
    }
}

fn punctuation_kind(c: char) -> (r: Option<TokenKind>)
    ensures
        r is Some == punctuation(c) is Some,
        r is Some ==> r->0@ == punctuation(c)->0,
{
    if c == '@' {
        Some(TokenKind::At)
    } else if c == '{' {
        Some(TokenKind::LBrace)
    } else if c == '}' {
        Some(TokenKind::RBrace)
    } else if c == '[' {
        Some(TokenKind::LBracket)
    } else if c == ']' {
        Some(TokenKind::RBracket)
    } else if c == ':' {
        Some(TokenKind::Colon)
    } else if c == ',' {
        Some(TokenKind::Comma)
    } else {
        None
    }
}

/// Trusted, not proved: `String::push` of the standard library appends the
/// character `c` to the end of the string and changes nothing else of it.
pub assume_specification[ String::push ](s: &mut String, c: char)
    ensures
        final(s)@ == old(s)@.push(c),
;

/// The characters of `input`, in order.
pub fn chars_of(input: &str) -> (cs: Vec<char>)
    ensures
        cs@ == input@,
{
    broadcast use group_string_axioms;

    let mut cs: Vec<char> = Vec::new();
    for c in it: input.chars()
        invariant
            it.seq() == input@,
            cs@.len() == it.index(),
            forall|j: int| 0 <= j < cs@.len() ==> cs@[j] == it.seq()[j],
    {
        cs.push(c);
    }
    assert(cs@ =~= input@);
    cs
}

/// Scans the run that starts at `pos`, collecting its characters after those
/// of `text`. Returns the text, the index at which the run ends and the byte
/// offset of that index.
fn scan_run(cs: &Vec<char>, pos: usize, offset: usize, run: Run, text: String) -> (r: (
    String,
    usize,
    usize,
))
    requires
        pos <= cs@.len(),
        offset == byte_offset(cs@, pos as int),
        byte_offset(cs@, cs@.len() as int) <= usize::MAX,
    ensures
        r.1 == run_end(cs@, pos as int, run),
        pos <= r.1 <= cs@.len(),
        r.0@ == text@ + cs@.subrange(pos as int, r.1 as int),
        r.2 == byte_offset(cs@, r.1 as int),
{
    let mut text = text;
    let ghost before = text@;
    let mut i: usize = pos;
    let mut off: usize = offset;
    while i < cs.len() && run.accepts(cs[i])
        invariant
            pos <= i <= cs@.len(),
            off == byte_offset(cs@, i as int),
            byte_offset(cs@, cs@.len() as int) <= usize::MAX,
            run_end(cs@, pos as int, run) == run_end(cs@, i as int, run),
            text@ == before + cs@.subrange(pos as int, i as int),
        decreases cs@.len() - i,
    {
        proof {
            lemma_byte_offset_monotone(cs@, i + 1, cs@.len() as int);
        }
        text.push(cs[i]);
        off = off + char_width(cs[i]);
        i = i + 1;
        assert(text@ =~= before + cs@.subrange(pos as int, i as int));
    }
    assert(text@ =~= before + cs@.subrange(pos as int, i as int));
    (text, i, off)
}

/// Whether the characters of `text` spell `true`.
fn spells_true(text: &Vec<char>, from: usize, to: usize) -> (r: bool)
    requires
        from <= to <= text@.len(),
    ensures
        r == (text@.subrange(from as int, to as int) == seq!['t', 'r', 'u', 'e']),
{
    let ghost word = text@.subrange(from as int, to as int);
    if to - from != 4 {
        assert(word.len() != seq!['t', 'r', 'u', 'e'].len());
        return false;
    }
    let r = text[from] == 't' && text[from + 1] == 'r' && text[from + 2] == 'u' && text[from + 3]
        == 'e';
    proof {
        assert(word[0] == text@[from as int]);
        assert(word[1] == text@[from + 1]);
        assert(word[2] == text@[from + 2]);
        assert(word[3] == text@[from + 3]);
        if r {
            assert(word =~= seq!['t', 'r', 'u', 'e']);
        }
    }
    r
}

/// Whether the characters of `text` spell `false`.
fn spells_false(text: &Vec<char>, from: usize, to: usize) -> (r: bool)
    requires
        from <= to <= text@.len(),
    ensures
        r == (text@.subrange(from as int, to as int) == seq!['f', 'a', 'l', 's', 'e']),
{
    let ghost word = text@.subrange(from as int, to as int);
    if to - from != 5 {
        assert(word.len() != seq!['f', 'a', 'l', 's', 'e'].len());
        return false;
    }
    let r = text[from] == 'f' && text[from + 1] == 'a' && text[from + 2] == 'l' && text[from + 3]
        == 's' && text[from + 4] == 'e';
    proof {
        assert(word[0] == text@[from as int]);
        assert(word[1] == text@[from + 1]);
        assert(word[2] == text@[from + 2]);
        assert(word[3] == text@[from + 3]);
        assert(word[4] == text@[from + 4]);
        if r {
            assert(word =~= seq!['f', 'a', 'l', 's', 'e']);
        }
    }
    r
}

/// What the tokens lexed so far and the rest of the text give together.
pub open spec fn lexed_then(done: Seq<TokenView>, rest: Result<Seq<TokenView>, LexError>) -> Result<
    Seq<TokenView>,
    LexError,
> {
    match rest {
        Ok(tokens) => Ok(done + tokens),
        Err(e) => Err(e),
    }
}

fn lex_chars(cs: &Vec<char>) -> (r: Result<Vec<Token>, LexError>)
    requires
        byte_offset(cs@, cs@.len() as int) <= usize::MAX,
    ensures
        match r {
            Ok(tokens) => lex_spec(cs@) == Ok::<Seq<TokenView>, LexError>(token_views(tokens@)),
            Err(e) => lex_spec(cs@) == Err::<Seq<TokenView>, LexError>(e),
        },
{
    let mut tokens: Vec<Token> = Vec::new();
    let mut pos: usize = 0;
    let mut off: usize = 0;
    assert(token_views(tokens@) + Seq::<TokenView>::empty() =~= Seq::<TokenView>::empty());
    while pos < cs.len()
        invariant
            pos <= cs@.len(),
            off == byte_offset(cs@, pos as int),
            byte_offset(cs@, cs@.len() as int) <= usize::MAX,
            lex_spec(cs@) == lexed_then(token_views(tokens@), tokens_from(cs@, pos as int)),
        decreases cs@.len() - pos,
    {
        let c = cs[pos];
        let ghost done = token_views(tokens@);
        let ghost s = cs@;
        proof {
            lemma_byte_offset_monotone(s, pos + 1, s.len() as int);
        }
        let width = char_width(c);
        let start = off;
        match punctuation_kind(c) {
            Some(kind) => {
                tokens.push(Token { kind, offset: start });
                pos = pos + 1;
                off = off + width;
            },
            None => {
                if c == '"' || c == '\'' {
                    let (text, end, end_off) = scan_run(
                        cs,
                        pos + 1,
                        off + width,
                        Run::Quoted(c),
                        String::new(),
                    );
                    if end >= cs.len() {
                        return Err(LexError::UnterminatedString { offset: start });
                    }
                    proof {
                        lemma_byte_offset_monotone(s, end + 1, s.len() as int);
                        assert(text@ =~= s.subrange(pos + 1, end as int));
                    }
                    tokens.push(Token { kind: TokenKind::StringLiteral(text), offset: start });
                    off = end_off + char_width(cs[end]);
                    pos = end + 1;
                } else if whitespace(c) {
                    pos = pos + 1;
                    off = off + width;
                    assert(done + Seq::<TokenView>::empty() =~= done);
                } else if letter(c) || c == '_' {
                    let mut first = String::new();
                    first.push(c);
                    let (text, end, end_off) = scan_run(
                        cs,
                        pos + 1,
                        off + width,
                        Run::Identifier,
                        first,
                    );
                    proof {
                        assert(text@ =~= s.subrange(pos as int, end as int));
                    }
                    let kind = if spells_true(cs, pos, end) {
                        TokenKind::BoolLiteral(true)
                    } else if spells_false(cs, pos, end) {
                        TokenKind::BoolLiteral(false)
                    } else {
                        TokenKind::Identifier(text)
                    };
                    tokens.push(Token { kind, offset: start });
                    pos = end;
                    off = end_off;
                } else if digit(c) {
                    let mut first = String::new();
                    first.push(c);
                    let (text, end, end_off) = scan_run(
                        cs,
                        pos + 1,
                        off + width,
                        Run::Number,
                        first,
                    );
                    proof {
                        assert(text@ =~= s.subrange(pos as int, end as int));
                    }
                    tokens.push(Token { kind: TokenKind::NumberLiteral(text), offset: start });
                    pos = end;
                    off = end_off;
                } else {
                    return Err(LexError::UnexpectedChar { ch: c, offset: start });
                }
            },
        }
        proof {
            let rest = tokens_from(s, pos as int);
            if tokens@.len() > done.len() {
                let t = tokens@[tokens@.len() - 1]@;
                assert(token_views(tokens@) =~= done + seq![t]);
                if rest is Ok {
                    assert(done + (seq![t] + rest->Ok_0) =~= (done + seq![t]) + rest->Ok_0);
                }
            }
        }
    }
    proof {
        assert(token_views(tokens@) + Seq::<TokenView>::empty() =~= token_views(tokens@));
    }
    Ok(tokens)
}

/// Lexes the whole of `input`: its tokens in order, each with the byte offset
/// at which it starts, or the first lexical error.
pub fn lex(input: &str) -> (r: Result<Vec<Token>, LexError>)
    ensures
        match r {
            Ok(tokens) => lex_spec(input@) == Ok::<Seq<TokenView>, LexError>(token_views(tokens@)),
            Err(e) => lex_spec(input@) == Err::<Seq<TokenView>, LexError>(e),
        },
{
    let cs = chars_of(input);
    // The text is held in memory as UTF-8, so every byte offset fits in `usize`.
    let encoded_len = input.as_bytes().len();
    proof {
        lemma_byte_offset_is_encoded_len(input@);
    }
    lex_chars(&cs)
}

} // verus!
