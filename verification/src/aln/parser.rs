//! Recursive-descent parser from tokens to the syntax tree.
//!
//! The grammar is
//!
//! ```text
//! File     := Block*
//! Block    := '@' Identifier Identifier* '{' (Block | KeyValue)* '}'
//! KeyValue := Identifier ':' Value
//! Value    := StringLiteral | Identifier | BoolLiteral | NumberLiteral | List
//! List     := '[' (Value (',' Value)*)? ']'
//! ```
//!
//! It is given by the spec functions [`value_at`], [`list_from`],
//! [`items_from`], [`entry_at`], [`args_at`], [`block_at`], [`body_from`]
//! and [`blocks_from`]: each says what stands at a position of the token
//! sequence and where it ends, or which error is the first one met. The
//! parser computes exactly these.
use crate::aln::ast::{
    args_view, entry_views, lemma_array_view, lemma_nested_view, value_views, AlnFile, AlnItem,
    Block, BlockArgs, BlockEntry, BlockView, EntryView, Value, ValueView,
};
use crate::aln::error::{LoadAlnError, LoadErrorView};
use crate::aln::lexer::{
    chars_of, identifier_nonempty, identifiers_nonempty, lemma_lexed_identifiers_nonempty, lex,
    lex_spec, token_views, Lexeme, Token, TokenKind, TokenView,
};
use crate::aln::number::{float_literal, is_float_literal};
use vstd::prelude::*;
use vstd::string::*;

verus! {

/// What the parser was looking for when it stopped.
#[derive(Debug, Clone, Copy, PartialEq, Eq)]
pub enum Expected {
    /// The `@` that opens a block.
    At,
    /// The identifier that names a block.
    BlockName,
    /// The `{` that opens a block's body.
    LBrace,
    /// The `}` that closes a block's body.
    RBrace,
    /// The identifier that is the key of an entry.
    Key,
    /// The `:` between a key and its value.
    Colon,
    /// The `[` that opens a list.
    LBracket,
    /// The `]` that closes a list.
    RBracket,
    /// A string, identifier, boolean, number or list.
    Value,
    /// A number literal whose text can be converted to a float.
    Number,
}

/// A syntax error: what was expected, and the token found in its place
/// (`None` at the end of the input).
#[derive(Debug, Clone, PartialEq)]
pub struct ParseError {
    pub expected: Expected,
    pub found: Option<Token>,
}

/// Mathematical model of a [`ParseError`].
pub struct ParseErrorView {
    pub expected: Expected,
    pub found: Option<TokenView>,
}

impl View for ParseError {
    type V = ParseErrorView;

    open spec fn view(&self) -> ParseErrorView {
        ParseErrorView {
            expected: self.expected,
            found: match self.found {
                Some(t) => Some(t@),
                None => None,
            },
        }
    }
}

/// The error of finding, at position `pos`, something else than `expected`.
pub open spec fn mismatch(ts: Seq<TokenView>, pos: int, expected: Expected) -> ParseErrorView {
    ParseErrorView {
        expected,
        found: if 0 <= pos < ts.len() {
            Some(ts[pos])
        } else {
            None
        },
    }
}

/// Whether the token at `pos` exists and has the variant of `kind`.
pub open spec fn kind_at(ts: Seq<TokenView>, pos: int, kind: Lexeme) -> bool {
    0 <= pos < ts.len() && ts[pos].kind.same_variant(kind)
}

/// The value that starts at `pos`, and the position behind it.
///
/// A string literal and an identifier both give a string; a number gives its
/// text if that text is a float literal and is an error otherwise; `[` opens
/// a list.
pub open spec fn value_at(ts: Seq<TokenView>, pos: int) -> Result<(ValueView, int), ParseErrorView>
    decreases ts.len() - pos, 0nat,
{
    if !(0 <= pos < ts.len()) {
        Err(mismatch(ts, pos, Expected::Value))
    } else {
        match ts[pos].kind {
            Lexeme::StringLiteral(s) => Ok((ValueView::Str(s), pos + 1)),
            Lexeme::Identifier(s) => Ok((ValueView::Str(s), pos + 1)),
            Lexeme::BoolLiteral(b) => Ok((ValueView::Bool(b), pos + 1)),
            Lexeme::NumberLiteral(text) => if is_float_literal(text) {
                Ok((ValueView::Number(text), pos + 1))
            } else {
                Err(mismatch(ts, pos, Expected::Number))
            },
            Lexeme::LBracket => match list_from(ts, pos + 1) {
                Ok((values, end)) => Ok((ValueView::Array(values), end)),
                Err(e) => Err(e),
            },
            _ => Err(mismatch(ts, pos, Expected::Value)),
        }
    }
}

/// The values of a list whose `[` stands just before `pos`, and the position
/// behind its `]`: none if `]` follows at once, else one value or more with a
/// comma between each two.
pub open spec fn list_from(ts: Seq<TokenView>, pos: int) -> Result<
    (Seq<ValueView>, int),
    ParseErrorView,
>
    decreases ts.len() - pos, 2nat,
{
    if !(0 <= pos < ts.len()) {
        Err(mismatch(ts, pos, Expected::RBracket))
    } else if ts[pos].kind is RBracket {
        Ok((Seq::empty(), pos + 1))
    } else {
        items_from(ts, pos)
    }
}

/// The values of a list from the value that starts at `pos` on, and the
/// position behind the list's `]`. Behind a value stands `]`, which closes
/// the list, or a comma and the next value; anything else is an error that
/// asks for `]`.
///
/// A value ends behind its start ([`lemma_value_advances`]), so the values
/// behind a comma are always looked at; the test for it makes the recursion
/// well-founded.
pub open spec fn items_from(ts: Seq<TokenView>, pos: int) -> Result<
    (Seq<ValueView>, int),
    ParseErrorView,
>
    decreases ts.len() - pos, 1nat,
{
    match value_at(ts, pos) {
        Err(e) => Err(e),
        Ok((value, end)) => if kind_at(ts, end, Lexeme::RBracket) {
            Ok((seq![value], end + 1))
        } else if kind_at(ts, end, Lexeme::Comma) {
            if pos <= end {
                match items_from(ts, end + 1) {
                    Ok((rest, close)) => Ok((seq![value] + rest, close)),
                    Err(e) => Err(e),
                }
            } else {
                Err(mismatch(ts, end, Expected::RBracket))
            }
        } else {
            Err(mismatch(ts, end, Expected::RBracket))
        },
    }
}

/// The list that starts with `[` at `pos`, and the position behind its `]`.
pub open spec fn list_at(ts: Seq<TokenView>, pos: int) -> Result<
    (Seq<ValueView>, int),
    ParseErrorView,
> {
    if kind_at(ts, pos, Lexeme::LBracket) {
        list_from(ts, pos + 1)
    } else {
        Err(mismatch(ts, pos, Expected::LBracket))
    }
}

/// The `key: value` entry that starts at `pos`, and the position behind it.
pub open spec fn entry_at(ts: Seq<TokenView>, pos: int) -> Result<(EntryView, int), ParseErrorView> {
    if !(0 <= pos < ts.len() && ts[pos].kind is Identifier) {
        Err(mismatch(ts, pos, Expected::Key))
    } else if !kind_at(ts, pos + 1, Lexeme::Colon) {
        Err(mismatch(ts, pos + 1, Expected::Colon))
    } else {
        match value_at(ts, pos + 2) {
            Ok((value, end)) => Ok(
                (EntryView::KeyValue { key: ts[pos].kind->Identifier_0, value }, end),
            ),
            Err(e) => Err(e),
        }
    }
}

/// The text that the identifiers from `pos` on add to a block's arguments,
/// a space before each, and the position of the first token that is no
/// identifier (the length of `ts` if there is none).
pub open spec fn args_tail(ts: Seq<TokenView>, pos: int) -> (Seq<char>, int)
    decreases ts.len() - pos,
{
    if 0 <= pos < ts.len() && ts[pos].kind is Identifier {
        let rest = args_tail(ts, pos + 1);
        (seq![' '] + ts[pos].kind->Identifier_0 + rest.0, rest.1)
    } else {
        (Seq::empty(), pos)
    }
}

/// The arguments of a block whose name stands just before `pos`, and the
/// position at which its `{` is expected. The arguments are the identifiers
/// that follow the name, none of them or more; their text is these
/// identifiers joined by single spaces.
pub open spec fn args_at(ts: Seq<TokenView>, pos: int) -> (Option<Seq<char>>, int) {
    if 0 <= pos < ts.len() && ts[pos].kind is Identifier {
        let rest = args_tail(ts, pos + 1);
        (Some(ts[pos].kind->Identifier_0 + rest.0), rest.1)
    } else {
        (None, pos)
    }
}

/// The block that starts with `@` at `pos`, and the position behind its `}`.
pub open spec fn block_at(ts: Seq<TokenView>, pos: int) -> Result<(BlockView, int), ParseErrorView>
    decreases ts.len() - pos, 0nat,
    via block_at_terminates
{
    if !kind_at(ts, pos, Lexeme::At) {
        Err(mismatch(ts, pos, Expected::At))
    } else if !(pos + 1 < ts.len() && ts[pos + 1].kind is Identifier) {
        Err(mismatch(ts, pos + 1, Expected::BlockName))
    } else {
        let args = args_at(ts, pos + 2);
        if !kind_at(ts, args.1, Lexeme::LBrace) {
            Err(mismatch(ts, args.1, Expected::LBrace))
        } else {
            match body_from(ts, args.1 + 1) {
                Ok((body, end)) => Ok(
                    (BlockView { name: ts[pos + 1].kind->Identifier_0, args: args.0, body }, end),
                ),
                Err(e) => Err(e),
            }
        }
    }
}

/// The entry or nested block that starts at `pos` in a block's body.
pub open spec fn member_at(ts: Seq<TokenView>, pos: int) -> Result<(EntryView, int), ParseErrorView>
    decreases ts.len() - pos, 1nat,
{
    if kind_at(ts, pos, Lexeme::At) {
        match block_at(ts, pos) {
            Ok((block, end)) => Ok((EntryView::NestedBlock(block), end)),
            Err(e) => Err(e),
        }
    } else {
        entry_at(ts, pos)
    }
}

/// The entries of a body whose `{` stands just before `pos`, and the position
/// behind its `}`.
///
/// An entry ends behind its start ([`lemma_block_advances`]), so the rest of
/// the body is always looked at; the test for it makes the recursion
/// well-founded.
pub open spec fn body_from(ts: Seq<TokenView>, pos: int) -> Result<
    (Seq<EntryView>, int),
    ParseErrorView,
>
    decreases ts.len() - pos, 2nat,
{
    if !(0 <= pos < ts.len()) {
        Err(mismatch(ts, pos, Expected::RBrace))
    } else if ts[pos].kind is RBrace {
        Ok((Seq::empty(), pos + 1))
    } else {
        match member_at(ts, pos) {
            Err(e) => Err(e),
            Ok((entry, next)) => if pos < next <= ts.len() {
                match body_from(ts, next) {
                    Ok((rest, close)) => Ok((seq![entry] + rest, close)),
                    Err(e) => Err(e),
                }
            } else {
                Err(mismatch(ts, pos, Expected::Key))
            },
        }
    }
}

/// The blocks that the tokens from `pos` to the end of `ts` make up. Every
/// token belongs to one of them: what does not start a block is an error.
///
/// A block ends behind its start ([`lemma_block_advances`]), so the rest of
/// the tokens is always looked at; the test for it makes the recursion
/// well-founded.
pub open spec fn blocks_from(ts: Seq<TokenView>, pos: int) -> Result<Seq<BlockView>, ParseErrorView>
    decreases ts.len() - pos,
{
    if !(0 <= pos < ts.len()) {
        Ok(Seq::empty())
    } else {
        match block_at(ts, pos) {
            Err(e) => Err(e),
            Ok((block, next)) => if pos < next <= ts.len() {
                match blocks_from(ts, next) {
                    Ok(rest) => Ok(seq![block] + rest),
                    Err(e) => Err(e),
                }
            } else {
                Err(mismatch(ts, pos, Expected::At))
            },
        }
    }
}

/// What parsing the token sequence `ts` gives: the blocks of the document,
/// or the first syntax error.
pub open spec fn parse_spec(ts: Seq<TokenView>) -> Result<Seq<BlockView>, ParseErrorView> {
    blocks_from(ts, 0)
}

/// Block arguments end at or behind their start, within the tokens.
pub proof fn lemma_args_tail_bounds(ts: Seq<TokenView>, pos: int)
    requires
        0 <= pos,
    ensures
        pos <= args_tail(ts, pos).1,
        pos <= ts.len() ==> args_tail(ts, pos).1 <= ts.len(),
    decreases ts.len() - pos,
{
    if 0 <= pos < ts.len() && ts[pos].kind is Identifier {
        lemma_args_tail_bounds(ts, pos + 1);
    }
}

#[via_fn]
proof fn block_at_terminates(ts: Seq<TokenView>, pos: int) {
    if 0 <= pos {
        lemma_args_tail_bounds(ts, pos + 3);
    }
}

/// A value or a list that was parsed ends behind its start and within the
/// token sequence.
pub proof fn lemma_value_advances(ts: Seq<TokenView>, pos: int)
    ensures
        value_at(ts, pos) is Ok ==> pos < value_at(ts, pos)->Ok_0.1 <= ts.len(),
        list_from(ts, pos) is Ok ==> pos < list_from(ts, pos)->Ok_0.1 <= ts.len(),
        items_from(ts, pos) is Ok ==> pos < items_from(ts, pos)->Ok_0.1 <= ts.len(),
    decreases ts.len() - pos, 2nat,
{
    lemma_value_only_advances(ts, pos);
    if value_at(ts, pos) is Ok {
        let end = value_at(ts, pos)->Ok_0.1;
        if kind_at(ts, end, Lexeme::Comma) {
            lemma_value_advances(ts, end + 1);
        }
    }
}

proof fn lemma_value_only_advances(ts: Seq<TokenView>, pos: int)
    ensures
        value_at(ts, pos) is Ok ==> pos < value_at(ts, pos)->Ok_0.1 <= ts.len(),
    decreases ts.len() - pos, 1nat,
{
    if 0 <= pos < ts.len() && ts[pos].kind is LBracket {
        lemma_value_advances(ts, pos + 1);
    }
}

/// A block or a body that was parsed ends behind its start and within the
/// token sequence.
pub proof fn lemma_block_advances(ts: Seq<TokenView>, pos: int)
    ensures
        block_at(ts, pos) is Ok ==> pos < block_at(ts, pos)->Ok_0.1 <= ts.len(),
        member_at(ts, pos) is Ok ==> pos < member_at(ts, pos)->Ok_0.1 <= ts.len(),
        body_from(ts, pos) is Ok ==> pos < body_from(ts, pos)->Ok_0.1 <= ts.len(),
    decreases ts.len() - pos, 2nat,
{
    lemma_block_only_advances(ts, pos);
    if 0 <= pos < ts.len() {
        lemma_value_advances(ts, pos + 2);
        if !(ts[pos].kind is RBrace) && member_at(ts, pos) is Ok {
            let next = member_at(ts, pos)->Ok_0.1;
            if pos < next <= ts.len() {
                lemma_block_advances(ts, next);
            }
        }
    }
}

proof fn lemma_block_only_advances(ts: Seq<TokenView>, pos: int)
    ensures
        block_at(ts, pos) is Ok ==> pos < block_at(ts, pos)->Ok_0.1 <= ts.len(),
    decreases ts.len() - pos, 1nat,
{
    if kind_at(ts, pos, Lexeme::At) && pos + 1 < ts.len() {
        let open = args_at(ts, pos + 2).1;
        lemma_args_tail_bounds(ts, pos + 3);
        if kind_at(ts, open, Lexeme::LBrace) {
            lemma_block_advances(ts, open + 1);
        }
    }
}

/// What the values parsed so far and the rest of a list give together.
pub open spec fn list_then(
    done: Seq<ValueView>,
    rest: Result<(Seq<ValueView>, int), ParseErrorView>,
) -> Result<(Seq<ValueView>, int), ParseErrorView> {
    match rest {
        Ok((values, end)) => Ok((done + values, end)),
        Err(e) => Err(e),
    }
}

/// What the entries parsed so far and the rest of a body give together.
pub open spec fn body_then(
    done: Seq<EntryView>,
    rest: Result<(Seq<EntryView>, int), ParseErrorView>,
) -> Result<(Seq<EntryView>, int), ParseErrorView> {
    match rest {
        Ok((entries, end)) => Ok((done + entries, end)),
        Err(e) => Err(e),
    }
}

/// What the blocks parsed so far and the rest of a document give together.
pub open spec fn blocks_then(
    done: Seq<BlockView>,
    rest: Result<Seq<BlockView>, ParseErrorView>,
) -> Result<Seq<BlockView>, ParseErrorView> {
    match rest {
        Ok(blocks) => Ok(done + blocks),
        Err(e) => Err(e),
    }
}

/// A cursor over an immutable token buffer.
pub struct Parser<'a> {
    pub tokens: &'a [Token],
    pub pos: usize,
}

impl<'a> Parser<'a> {
    /// The models of the tokens, in order.
    pub open spec fn stream(&self) -> Seq<TokenView> {
        token_views(self.tokens@)
    }

    /// The cursor lies within the buffer or at its end.
    pub open spec fn wf(&self) -> bool {
        self.pos <= self.tokens@.len()
    }

    /// A parser at the start of `tokens`.
    pub fn new(tokens: &'a [Token]) -> (p: Parser<'a>)
        ensures
            p.tokens@ == tokens@,
            p.pos == 0,
            p.wf(),
    {
        Parser { tokens, pos: 0 }
    }

    /// Whether the cursor is at the end of the buffer.
    pub fn eof(&self) -> (r: bool)
        ensures
            r == (self.pos >= self.tokens@.len()),
    {
        self.pos >= self.tokens.len()
    }

    /// The token under the cursor, if there is one.
    pub fn peek(&self) -> (r: Option<&'a Token>)
        ensures
            match r {
                Some(t) => self.pos < self.tokens@.len() && *t == self.tokens@[self.pos as int],
                None => self.pos >= self.tokens@.len(),
            },
    {
        if self.pos < self.tokens.len() {
            Some(&self.tokens[self.pos])
        } else {
            None
        }
    }

    /// Whether the token under the cursor has the variant of `kind`.
    pub fn peek_is(&self, kind: &TokenKind) -> (r: bool)
        ensures
            r == kind_at(self.stream(), self.pos as int, kind@),
    {
        match self.peek() {
            Some(t) => t.kind.same_variant(kind),
            None => false,
        }
    }

    /// The token under the cursor, which moves on by one; `None`, and the
    /// cursor stays, at the end of the buffer.
    pub fn next(&mut self) -> (r: Option<&'a Token>)
        ensures
            final(self).tokens@ == old(self).tokens@,
            match r {
                Some(t) => old(self).pos < old(self).tokens@.len() && *t == old(self).tokens@[old(
                    self,
                ).pos as int] && final(self).pos == old(self).pos + 1,
                None => old(self).pos >= old(self).tokens@.len() && final(self).pos == old(
                    self,
                ).pos,
            },
    {
        let r = self.peek();
        if r.is_some() {
            self.advance();
        }
        r
    }

    /// Takes the token under the cursor if it has the variant of `kind`; the
    /// error says what was `expected` and what stands there otherwise. The
    /// cursor moves past the token looked at, if there is one.
    pub fn expect(&mut self, kind: &TokenKind, expected: Expected) -> (r: Result<(), ParseError>)
        ensures
            final(self).tokens@ == old(self).tokens@,
            final(self).pos == if old(self).pos < old(self).tokens@.len() {
                old(self).pos + 1
            } else {
                old(self).pos as int
            },
            match r {
                Ok(_) => kind_at(old(self).stream(), old(self).pos as int, kind@),
                Err(e) => !kind_at(old(self).stream(), old(self).pos as int, kind@) && e@
                    == mismatch(old(self).stream(), old(self).pos as int, expected),
            },
    {
        match self.next() {
            Some(t) => {
                if t.kind.same_variant(kind) {
                    Ok(())
                } else {
                    Err(ParseError { expected, found: Some(t.duplicate()) })
                }
            },
            None => Err(ParseError { expected, found: None }),
        }
    }

    /// Moves the cursor past the token under it.
    fn advance(&mut self)
        requires
            old(self).pos < old(self).tokens@.len(),
        ensures
            final(self).tokens@ == old(self).tokens@,
            final(self).pos == old(self).pos + 1,
    {
        let len = self.tokens.len();
        self.pos = self.pos + 1;
    }

    /// The error of finding something else than `expected` at index `at`.
    fn error_at(&self, at: usize, expected: Expected) -> (e: ParseError)
        ensures
            e@ == mismatch(self.stream(), at as int, expected),
    {
        if at < self.tokens.len() {
            ParseError { expected, found: Some(self.tokens[at].duplicate()) }
        } else {
            ParseError { expected, found: None }
        }
    }

    /// Parses the value under the cursor.
    pub fn parse_value(&mut self) -> (r: Result<Value, ParseError>)
        ensures
            final(self).tokens@ == old(self).tokens@,
            old(self).wf() ==> final(self).wf(),
            match r {
                Ok(v) => value_at(old(self).stream(), old(self).pos as int) == Ok::<
                    (ValueView, int),
                    ParseErrorView,
                >((v@, final(self).pos as int)),
                Err(e) => value_at(old(self).stream(), old(self).pos as int) == Err::<
                    (ValueView, int),
                    ParseErrorView,
                >(e@),
            },
        decreases old(self).tokens@.len() - old(self).pos, 1nat,
    {
        let start = self.pos;
        proof {
            lemma_value_advances(self.stream(), start as int);
        }
        if self.peek_is(&TokenKind::LBracket) {
            match self.parse_list() {
                Ok(list) => {
                    proof {
                        lemma_array_view(list);
                    }
                    return Ok(Value::Array(list));
                },
                Err(e) => {
                    return Err(e);
                },
            }
        }
        match self.next() {
            Some(t) => match &t.kind {
                TokenKind::StringLiteral(s) => Ok(Value::Str(s.clone())),
                TokenKind::Identifier(id) => Ok(Value::Str(id.clone())),
                TokenKind::BoolLiteral(b) => Ok(Value::Bool(*b)),
                TokenKind::NumberLiteral(text) => {
                    let cs = chars_of(text.as_str());
                    if float_literal(&cs) {
                        Ok(Value::Number(text.clone()))
                    } else {
                        Err(self.error_at(start, Expected::Number))
                    }
                },
                _ => Err(self.error_at(start, Expected::Value)),
            },
            None => Err(self.error_at(start, Expected::Value)),
        }
    }

    /// Parses the list whose `[` is under the cursor.
    #[verifier::loop_isolation(false)]
    pub fn parse_list(&mut self) -> (r: Result<Vec<Value>, ParseError>)
        ensures
            final(self).tokens@ == old(self).tokens@,
            old(self).wf() ==> final(self).wf(),
            match r {
                Ok(values) => list_at(old(self).stream(), old(self).pos as int) == Ok::<
                    (Seq<ValueView>, int),
                    ParseErrorView,
                >((value_views(values@), final(self).pos as int)),
                Err(e) => list_at(old(self).stream(), old(self).pos as int) == Err::<
                    (Seq<ValueView>, int),
                    ParseErrorView,
                >(e@),
            },
        decreases old(self).tokens@.len() - old(self).pos, 0nat,
    {
        let ghost ts = self.stream();
        let ghost start = self.pos as int;
        match self.expect(&TokenKind::LBracket, Expected::LBracket) {
            Ok(_) => {},
            Err(e) => {
                return Err(e);
            },
        }
        let mut values: Vec<Value> = Vec::new();
        if self.eof() {
            return Err(self.error_at(self.pos, Expected::RBracket));
        }
        if self.peek_is(&TokenKind::RBracket) {
            self.advance();
            assert(value_views(values@) =~= Seq::<ValueView>::empty());
            return Ok(values);
        }
        assert(value_views(values@) + items_from(ts, start + 1)->Ok_0.0 =~= items_from(
            ts,
            start + 1,
        )->Ok_0.0);
        loop
            invariant
                old(self).wf() ==> self.wf(),
                self.tokens@ == old(self).tokens@,
                ts == old(self).stream(),
                start == old(self).pos,
                start < self.pos,
                list_from(ts, start + 1) == list_then(
                    value_views(values@),
                    items_from(ts, self.pos as int),
                ),
            decreases ts.len() - self.pos,
        {
            let ghost done = value_views(values@);
            let ghost here = self.pos as int;
            let value = match self.parse_value() {
                Ok(v) => v,
                Err(e) => {
                    return Err(e);
                },
            };
            let ghost item = value@;
            proof {
                lemma_value_advances(ts, here);
            }
            values.push(value);
            assert(value_views(values@) =~= done + seq![item]);
            if self.peek_is(&TokenKind::RBracket) {
                self.advance();
                return Ok(values);
            }
            if !self.peek_is(&TokenKind::Comma) {
                return Err(self.error_at(self.pos, Expected::RBracket));
            }
            self.advance();
            proof {
                let rest = items_from(ts, self.pos as int);
                if rest is Ok {
                    assert(done + (seq![item] + rest->Ok_0.0) =~= (done + seq![item])
                        + rest->Ok_0.0);
                }
            }
        }
    }

    /// Parses the `key: value` entry under the cursor.
    pub fn parse_entry(&mut self) -> (r: Result<BlockEntry, ParseError>)
        ensures
            final(self).tokens@ == old(self).tokens@,
            old(self).wf() ==> final(self).wf(),
            match r {
                Ok(entry) => entry_at(old(self).stream(), old(self).pos as int) == Ok::<
                    (EntryView, int),
                    ParseErrorView,
                >((entry@, final(self).pos as int)),
                Err(e) => entry_at(old(self).stream(), old(self).pos as int) == Err::<
                    (EntryView, int),
                    ParseErrorView,
                >(e@),
            },
    {
        let start = self.pos;
        let key = match self.next() {
            Some(t) => match &t.kind {
                TokenKind::Identifier(id) => id.clone(),
                _ => {
                    return Err(self.error_at(start, Expected::Key));
                },
            },
            None => {
                return Err(self.error_at(start, Expected::Key));
            },
        };
        match self.expect(&TokenKind::Colon, Expected::Colon) {
            Ok(_) => {},
            Err(e) => {
                return Err(e);
            },
        }
        match self.parse_value() {
            Ok(value) => Ok(BlockEntry::KeyValue { key, value }),
            Err(e) => Err(e),
        }
    }

    /// The text of the identifier under the cursor, if one stands there.
    fn peek_identifier(&self) -> (r: Option<&'a String>)
        ensures
            match r {
                Some(id) => self.pos < self.tokens@.len() && self.stream()[self.pos as int].kind
                    == Lexeme::Identifier(id@),
                None => !(self.pos < self.tokens@.len() && self.stream()[self.pos as int].kind
                    is Identifier),
            },
    {
        match self.peek() {
            Some(t) => match &t.kind {
                TokenKind::Identifier(id) => Some(id),
                _ => None,
            },
            None => None,
        }
    }

    /// Parses the arguments of a block whose name was just taken: the
    /// identifiers under the cursor, none of them or more.
    #[verifier::loop_isolation(false)]
    pub fn parse_args(&mut self) -> (r: Option<BlockArgs>)
        ensures
            final(self).tokens@ == old(self).tokens@,
            old(self).wf() ==> final(self).wf(),
            args_at(old(self).stream(), old(self).pos as int) == (
                args_view(r),
                final(self).pos as int,
            ),
    {
        let ghost ts = self.stream();
        let ghost start = self.pos as int;
        let mut text = match self.peek_identifier() {
            Some(raw) => raw.clone(),
            None => {
                return None;
            },
        };
        let ghost head = text@;
        let ghost mut tail = Seq::<char>::empty();
        self.advance();
        assert(tail + args_tail(ts, start + 1).0 =~= args_tail(ts, start + 1).0);
        let mut next = self.peek_identifier();
        while next.is_some()
            invariant
                old(self).wf() ==> self.wf(),
                self.tokens@ == old(self).tokens@,
                ts == old(self).stream(),
                start == old(self).pos,
                start < self.pos,
                text@ == head + tail,
                args_tail(ts, start + 1) == (
                    tail + args_tail(ts, self.pos as int).0,
                    args_tail(ts, self.pos as int).1,
                ),
                match next {
                    Some(id) => self.pos < ts.len() && ts[self.pos as int].kind
                        == Lexeme::Identifier(id@),
                    None => !(self.pos < ts.len() && ts[self.pos as int].kind is Identifier),
                },
            decreases ts.len() - self.pos,
        {
            let id = next.unwrap();
            let ghost before = tail;
            let ghost piece = seq![' '] + id@;
            let ghost rest = args_tail(ts, self.pos + 1);
            text.push(' ');
            text.append(id.as_str());
            proof {
                tail = before + piece;
                assert(text@ =~= head + tail);
            }
            self.advance();
            next = self.peek_identifier();
            assert(tail + rest.0 =~= before + (piece + rest.0));
        }
        assert(tail + Seq::<char>::empty() =~= tail);
        assert(text@ =~= head + args_tail(ts, start + 1).0);
        Some(BlockArgs { raw: text })
    }

    /// Parses the block whose `@` is under the cursor.
    #[verifier::loop_isolation(false)]
    pub fn parse_block(&mut self) -> (r: Result<Block, ParseError>)
        ensures
            final(self).tokens@ == old(self).tokens@,
            old(self).wf() ==> final(self).wf(),
            match r {
                Ok(block) => block_at(old(self).stream(), old(self).pos as int) == Ok::<
                    (BlockView, int),
                    ParseErrorView,
                >((block@, final(self).pos as int)),
                Err(e) => block_at(old(self).stream(), old(self).pos as int) == Err::<
                    (BlockView, int),
                    ParseErrorView,
                >(e@),
            },
        decreases old(self).tokens@.len() - old(self).pos,
    {
        let ghost ts = self.stream();
        let ghost start = self.pos as int;
        match self.expect(&TokenKind::At, Expected::At) {
            Ok(_) => {},
            Err(e) => {
                return Err(e);
            },
        }
        let name_at = self.pos;
        let name = match self.next() {
            Some(t) => match &t.kind {
                TokenKind::Identifier(id) => id.clone(),
                _ => {
                    return Err(self.error_at(name_at, Expected::BlockName));
                },
            },
            None => {
                return Err(self.error_at(name_at, Expected::BlockName));
            },
        };
        let args = self.parse_args();
        let ghost open = self.pos as int;
        proof {
            lemma_args_tail_bounds(ts, start + 3);
        }
        match self.expect(&TokenKind::LBrace, Expected::LBrace) {
            Ok(_) => {},
            Err(e) => {
                return Err(e);
            },
        }
        let mut body: Vec<BlockEntry> = Vec::new();
        assert(entry_views(body@) + body_from(ts, open + 1)->Ok_0.0 =~= body_from(
            ts,
            open + 1,
        )->Ok_0.0);
        loop
            invariant
                old(self).wf() ==> self.wf(),
                self.tokens@ == old(self).tokens@,
                ts == old(self).stream(),
                start == old(self).pos,
                start < open < self.pos,
                body_from(ts, open + 1) == body_then(
                    entry_views(body@),
                    body_from(ts, self.pos as int),
                ),
            decreases ts.len() - self.pos,
        {
            let ghost done = entry_views(body@);
            let ghost here = self.pos as int;
            if self.eof() {
                return Err(self.error_at(self.pos, Expected::RBrace));
            }
            if self.peek_is(&TokenKind::RBrace) {
                self.advance();
                assert(done + Seq::<EntryView>::empty() =~= done);
                return Ok(Block { name, args, body });
            }
            proof {
                lemma_block_advances(ts, here);
            }
            let entry = if self.peek_is(&TokenKind::At) {
                match self.parse_block() {
                    Ok(nested) => {
                        proof {
                            lemma_nested_view(nested);
                        }
                        BlockEntry::NestedBlock(nested)
                    },
                    Err(e) => {
                        return Err(e);
                    },
                }
            } else {
                match self.parse_entry() {
                    Ok(entry) => entry,
                    Err(e) => {
                        return Err(e);
                    },
                }
            };
            body.push(entry);
            proof {
                let last = body@[body@.len() - 1]@;
                let rest = body_from(ts, self.pos as int);
                assert(entry_views(body@) =~= done + seq![last]);
                if rest is Ok {
                    assert(done + (seq![last] + rest->Ok_0.0) =~= (done + seq![last])
                        + rest->Ok_0.0);
                }
            }
        }
    }

    /// Parses blocks until the cursor reaches the end of the buffer.
    #[verifier::loop_isolation(false)]
    pub fn parse_file(&mut self) -> (r: Result<AlnFile, ParseError>)
        ensures
            final(self).tokens@ == old(self).tokens@,
            old(self).wf() ==> final(self).wf(),
            match r {
                Ok(file) => blocks_from(old(self).stream(), old(self).pos as int) == Ok::<
                    Seq<BlockView>,
                    ParseErrorView,
                >(file@) && final(self).pos >= old(self).tokens@.len(),
                Err(e) => blocks_from(old(self).stream(), old(self).pos as int) == Err::<
                    Seq<BlockView>,
                    ParseErrorView,
                >(e@),
            },
    {
        let ghost ts = self.stream();
        let ghost start = self.pos as int;
        let mut items: Vec<AlnItem> = Vec::new();
        assert((AlnFile { items })@ + blocks_from(ts, start)->Ok_0 =~= blocks_from(ts, start)->Ok_0);
        while !self.eof()
            invariant
                old(self).wf() ==> self.wf(),
                self.tokens@ == old(self).tokens@,
                ts == old(self).stream(),
                blocks_from(ts, start) == blocks_then(
                    (AlnFile { items })@,
                    blocks_from(ts, self.pos as int),
                ),
            decreases ts.len() - self.pos,
        {
            let ghost done = (AlnFile { items })@;
            let ghost here = self.pos as int;
            proof {
                lemma_block_advances(ts, here);
            }
            let block = match self.parse_block() {
                Ok(block) => block,
                Err(e) => {
                    return Err(e);
                },
            };
            let ghost last = block@;
            items.push(AlnItem::Block(block));
            proof {
                let rest = blocks_from(ts, self.pos as int);
                assert((AlnFile { items })@ =~= done + seq![last]);
                if rest is Ok {
                    assert(done + (seq![last] + rest->Ok_0) =~= (done + seq![last]) + rest->Ok_0);
                }
            }
        }
        assert((AlnFile { items })@ + Seq::<BlockView>::empty() =~= (AlnFile { items })@);
        Ok(AlnFile { items })
    }
}

/// Parses a whole token sequence into a document. Every token is consumed:
/// tokens that do not belong to a well-formed block are a syntax error.
pub fn parse_tokens(tokens: &[Token]) -> (r: Result<AlnFile, ParseError>)
    ensures
        match r {
            Ok(file) => parse_spec(token_views(tokens@)) == Ok::<Seq<BlockView>, ParseErrorView>(
                file@,
            ),
            Err(e) => parse_spec(token_views(tokens@)) == Err::<Seq<BlockView>, ParseErrorView>(
                e@,
            ),
        },
{
    let mut parser = Parser::new(tokens);
    parser.parse_file()
}

/// What parsing the text `s` gives: the blocks of the document, or the first
/// error, which is lexical if the text cannot be split into tokens and
/// syntactic otherwise.
pub open spec fn document_spec(s: Seq<char>) -> Result<Seq<BlockView>, LoadErrorView> {
    match lex_spec(s) {
        Err(e) => Err(LoadErrorView::Lex(e)),
        Ok(tokens) => match parse_spec(tokens) {
            Err(e) => Err(LoadErrorView::Parse(e)),
            Ok(blocks) => Ok(blocks),
        },
    }
}

/// Lexes and parses a whole text. The result is a function of the text
/// alone: the same text gives the same document, or the same error, on every
/// call.
pub fn parse_document(text: &str) -> (r: Result<AlnFile, LoadAlnError>)
    ensures
        match r {
            Ok(file) => document_spec(text@) == Ok::<Seq<BlockView>, LoadErrorView>(file@),
            Err(e) => document_spec(text@) == Err::<Seq<BlockView>, LoadErrorView>(e@),
        },
{
    let tokens = match lex(text) {
        Ok(tokens) => tokens,
        Err(e) => {
            return Err(LoadAlnError::Lex(e));
        },
    };
    match parse_tokens(tokens.as_slice()) {
        Ok(file) => Ok(file),
        Err(e) => Err(LoadAlnError::Parse(e)),
    }
}

/// A block is named by the identifier behind its `@`, and an entry has the
/// identifier before its `:` as its key. Among tokens that hold no empty
/// identifier, as those of the lexer do
/// ([`lemma_lexed_identifiers_nonempty`]), the name of every block and the
/// key of every entry is therefore not empty.
pub proof fn lemma_names_nonempty(ts: Seq<TokenView>, pos: int)
    requires
        identifiers_nonempty(ts),
    ensures
        block_at(ts, pos) is Ok ==> block_at(ts, pos)->Ok_0.0.name.len() > 0,
        entry_at(ts, pos) is Ok ==> entry_at(ts, pos)->Ok_0.0 is KeyValue && entry_at(
            ts,
            pos,
        )->Ok_0.0->key.len() > 0,
{
    if block_at(ts, pos) is Ok {
        assert(identifier_nonempty(ts[pos + 1]));
    }
    if entry_at(ts, pos) is Ok {
        assert(identifier_nonempty(ts[pos]));
    }
}

/// The tokens that a document is parsed from hold no empty identifier.
pub proof fn lemma_document_tokens_nonempty(text: Seq<char>)
    requires
        lex_spec(text) is Ok,
    ensures
        identifiers_nonempty(lex_spec(text)->Ok_0),
{
    lemma_lexed_identifiers_nonempty(text, 0);
}

/// Parsing is deterministic: two documents parsed from the same text are
/// structurally equal.
pub proof fn lemma_parse_deterministic(text: Seq<char>, first: AlnFile, second: AlnFile)
    requires
        document_spec(text) == Ok::<Seq<BlockView>, LoadErrorView>(first@),
        document_spec(text) == Ok::<Seq<BlockView>, LoadErrorView>(second@),
    ensures
        first@ == second@,
{
}

/// Tokens that follow the blocks of a document and do not start with `@` are
/// a syntax error: the parser asks for `@` and reports the first of them.
pub proof fn lemma_trailing_tokens_rejected(ts: Seq<TokenView>, pos: int)
    requires
        0 <= pos < ts.len(),
        !(ts[pos].kind is At),
    ensures
        blocks_from(ts, pos) == Err::<Seq<BlockView>, ParseErrorView>(
            mismatch(ts, pos, Expected::At),
        ),
{
}

/// A document that parses ends with the `}` of its last block: behind it no
/// token is left over.
pub proof fn lemma_parse_ends_with_block(ts: Seq<TokenView>, pos: int)
    requires
        0 <= pos < ts.len(),
        blocks_from(ts, pos) is Ok,
    ensures
        ts[pos].kind is At,
        ts[ts.len() - 1].kind is RBrace,
    decreases ts.len() - pos,
{
    lemma_block_advances(ts, pos);
    lemma_block_closes(ts, pos);
    let next = block_at(ts, pos)->Ok_0.1;
    if next < ts.len() {
        lemma_parse_ends_with_block(ts, next);
    }
}

/// A block, and a body, that was parsed ends with `}`.
pub proof fn lemma_block_closes(ts: Seq<TokenView>, pos: int)
    ensures
        block_at(ts, pos) is Ok ==> 0 < block_at(ts, pos)->Ok_0.1 <= ts.len() && ts[block_at(
            ts,
            pos,
        )->Ok_0.1 - 1].kind is RBrace,
        body_from(ts, pos) is Ok ==> 0 < body_from(ts, pos)->Ok_0.1 <= ts.len() && ts[body_from(
            ts,
            pos,
        )->Ok_0.1 - 1].kind is RBrace,
    decreases ts.len() - pos, 1nat,
{
    lemma_block_advances(ts, pos);
    if kind_at(ts, pos, Lexeme::At) && pos + 1 < ts.len() {
        let open = args_at(ts, pos + 2).1;
        lemma_args_tail_bounds(ts, pos + 3);
        if kind_at(ts, open, Lexeme::LBrace) {
            lemma_block_closes(ts, open + 1);
        }
    }
    if 0 <= pos < ts.len() && !(ts[pos].kind is RBrace) && member_at(ts, pos) is Ok {
        let next = member_at(ts, pos)->Ok_0.1;
        if pos < next <= ts.len() {
            lemma_block_closes(ts, next);
        }
    }
}

/// Parsing a value, or the rest of a list, looks at no token behind its
/// end: with more tokens appended it gives the same value and the same end.
pub proof fn lemma_value_stable(ts: Seq<TokenView>, more: Seq<TokenView>, pos: int)
    ensures
        value_at(ts, pos) is Ok ==> value_at(ts + more, pos) == value_at(ts, pos),
        list_from(ts, pos) is Ok ==> list_from(ts + more, pos) == list_from(ts, pos),
        items_from(ts, pos) is Ok ==> items_from(ts + more, pos) == items_from(ts, pos),
    decreases ts.len() - pos, 2nat,
{
    let ext = ts + more;
    if 0 <= pos < ts.len() {
        assert(ext[pos] == ts[pos]);
    }
    lemma_value_only_stable(ts, more, pos);
    if value_at(ts, pos) is Ok {
        lemma_value_advances(ts, pos);
        let end = value_at(ts, pos)->Ok_0.1;
        if end < ts.len() {
            assert(ext[end] == ts[end]);
            if kind_at(ts, end, Lexeme::Comma) {
                lemma_value_stable(ts, more, end + 1);
            }
        }
    }
}

proof fn lemma_value_only_stable(ts: Seq<TokenView>, more: Seq<TokenView>, pos: int)
    ensures
        value_at(ts, pos) is Ok ==> value_at(ts + more, pos) == value_at(ts, pos),
    decreases ts.len() - pos, 1nat,
{
    if 0 <= pos < ts.len() {
        assert((ts + more)[pos] == ts[pos]);
        if ts[pos].kind is LBracket {
            lemma_value_stable(ts, more, pos + 1);
        }
    }
}

/// Block arguments that end before the last token are the same with more
/// tokens appended.
pub proof fn lemma_args_stable(ts: Seq<TokenView>, more: Seq<TokenView>, pos: int)
    requires
        0 <= pos,
        args_tail(ts, pos).1 < ts.len(),
    ensures
        args_tail(ts + more, pos) == args_tail(ts, pos),
    decreases ts.len() - pos,
{
    lemma_args_tail_bounds(ts, pos);
    assert((ts + more)[pos] == ts[pos]);
    if ts[pos].kind is Identifier {
        lemma_args_tail_bounds(ts, pos + 1);
        lemma_args_stable(ts, more, pos + 1);
    }
}

/// Parsing a block, an entry or the rest of a body looks at no token behind
/// its end: with more tokens appended it gives the same tree and the same
/// end.
pub proof fn lemma_block_stable(ts: Seq<TokenView>, more: Seq<TokenView>, pos: int)
    ensures
        block_at(ts, pos) is Ok ==> block_at(ts + more, pos) == block_at(ts, pos),
        member_at(ts, pos) is Ok ==> member_at(ts + more, pos) == member_at(ts, pos),
        body_from(ts, pos) is Ok ==> body_from(ts + more, pos) == body_from(ts, pos),
    decreases ts.len() - pos, 2nat,
{
    let ext = ts + more;
    lemma_block_only_stable(ts, more, pos);
    if 0 <= pos < ts.len() {
        assert(ext[pos] == ts[pos]);
        if pos + 1 < ts.len() {
            assert(ext[pos + 1] == ts[pos + 1]);
        }
        lemma_value_stable(ts, more, pos + 2);
        if !(ts[pos].kind is RBrace) && member_at(ts, pos) is Ok {
            lemma_block_advances(ts, pos);
            let next = member_at(ts, pos)->Ok_0.1;
            if pos < next <= ts.len() {
                lemma_block_stable(ts, more, next);
            }
        }
    }
}

proof fn lemma_block_only_stable(ts: Seq<TokenView>, more: Seq<TokenView>, pos: int)
    ensures
        block_at(ts, pos) is Ok ==> block_at(ts + more, pos) == block_at(ts, pos),
    decreases ts.len() - pos, 1nat,
{
    let ext = ts + more;
    if kind_at(ts, pos, Lexeme::At) && pos + 1 < ts.len() && ts[pos + 1].kind is Identifier {
        assert(ext[pos] == ts[pos]);
        assert(ext[pos + 1] == ts[pos + 1]);
        let open = args_at(ts, pos + 2).1;
        lemma_args_tail_bounds(ts, pos + 3);
        if kind_at(ts, open, Lexeme::LBrace) {
            assert(ext[pos + 2] == ts[pos + 2]);
            assert(ext[open] == ts[open]);
            if ts[pos + 2].kind is Identifier {
                lemma_args_stable(ts, more, pos + 3);
            }
            assert(args_at(ext, pos + 2) == args_at(ts, pos + 2));
            lemma_block_stable(ts, more, open + 1);
        }
    }
}

/// A result with its end position moved on by `by`.
pub open spec fn moved<T>(r: Result<(T, int), ParseErrorView>, by: int) -> Result<
    (T, int),
    ParseErrorView,
> {
    match r {
        Ok((tree, end)) => Ok((tree, end + by)),
        Err(e) => Err(e),
    }
}

/// What stands at a position does not depend on the tokens before it:
/// behind a prefix, a value or list parses as it does alone, with its end
/// moved on by the length of the prefix.
pub proof fn lemma_value_moves(before: Seq<TokenView>, ts: Seq<TokenView>, pos: int)
    requires
        0 <= pos,
    ensures
        value_at(before + ts, before.len() + pos) == moved(value_at(ts, pos), before.len() as int),
        list_from(before + ts, before.len() + pos) == moved(
            list_from(ts, pos),
            before.len() as int,
        ),
        items_from(before + ts, before.len() + pos) == moved(
            items_from(ts, pos),
            before.len() as int,
        ),
    decreases ts.len() - pos, 2nat,
{
    let all = before + ts;
    let by = before.len() as int;
    lemma_value_only_moves(before, ts, pos);
    if pos < ts.len() {
        assert(all[by + pos] == ts[pos]);
    }
    if value_at(ts, pos) is Ok {
        lemma_value_advances(ts, pos);
        let end = value_at(ts, pos)->Ok_0.1;
        if end < ts.len() {
            assert(all[by + end] == ts[end]);
        }
        if kind_at(ts, end, Lexeme::Comma) {
            lemma_value_moves(before, ts, end + 1);
        }
    }
}

proof fn lemma_value_only_moves(before: Seq<TokenView>, ts: Seq<TokenView>, pos: int)
    requires
        0 <= pos,
    ensures
        value_at(before + ts, before.len() + pos) == moved(value_at(ts, pos), before.len() as int),
    decreases ts.len() - pos, 1nat,
{
    if pos < ts.len() {
        assert((before + ts)[before.len() + pos] == ts[pos]);
        if ts[pos].kind is LBracket {
            lemma_value_moves(before, ts, pos + 1);
        }
    }
}

/// Behind a prefix, block arguments read as they do alone.
pub proof fn lemma_args_move(before: Seq<TokenView>, ts: Seq<TokenView>, pos: int)
    requires
        0 <= pos,
    ensures
        args_tail(before + ts, before.len() + pos) == (
            args_tail(ts, pos).0,
            args_tail(ts, pos).1 + before.len(),
        ),
    decreases ts.len() - pos,
{
    if pos < ts.len() {
        assert((before + ts)[before.len() + pos] == ts[pos]);
        if ts[pos].kind is Identifier {
            lemma_args_move(before, ts, pos + 1);
        }
    }
}

/// Behind a prefix, a `key: value` entry parses as it does alone, with its
/// end moved on by the length of the prefix.
pub proof fn lemma_entry_moves(before: Seq<TokenView>, ts: Seq<TokenView>, pos: int)
    requires
        0 <= pos,
    ensures
        entry_at(before + ts, before.len() + pos) == moved(entry_at(ts, pos), before.len() as int),
{
    let all = before + ts;
    let by = before.len() as int;
    if pos < ts.len() {
        assert(all[by + pos] == ts[pos]);
    }
    if pos + 1 < ts.len() {
        assert(all[by + pos + 1] == ts[pos + 1]);
    }
    lemma_value_moves(before, ts, pos + 2);
}

/// Behind a prefix, a block, an entry or the rest of a body parses as it
/// does alone, with its end moved on by the length of the prefix.
pub proof fn lemma_block_moves(before: Seq<TokenView>, ts: Seq<TokenView>, pos: int)
    requires
        0 <= pos,
    ensures
        block_at(before + ts, before.len() + pos) == moved(block_at(ts, pos), before.len() as int),
        member_at(before + ts, before.len() + pos) == moved(
            member_at(ts, pos),
            before.len() as int,
        ),
        body_from(before + ts, before.len() + pos) == moved(
            body_from(ts, pos),
            before.len() as int,
        ),
    decreases ts.len() - pos, 2nat,
{
    let all = before + ts;
    let by = before.len() as int;
    lemma_block_only_moves(before, ts, pos);
    lemma_entry_moves(before, ts, pos);
    if pos < ts.len() {
        assert(all[by + pos] == ts[pos]);
        assert(member_at(all, by + pos) == moved(member_at(ts, pos), by));
        if !(ts[pos].kind is RBrace) && member_at(ts, pos) is Ok {
            lemma_block_advances(ts, pos);
            let next = member_at(ts, pos)->Ok_0.1;
            if pos < next <= ts.len() {
                lemma_block_moves(before, ts, next);
            }
        }
    }
}

proof fn lemma_block_only_moves(before: Seq<TokenView>, ts: Seq<TokenView>, pos: int)
    requires
        0 <= pos,
    ensures
        block_at(before + ts, before.len() + pos) == moved(block_at(ts, pos), before.len() as int),
    decreases ts.len() - pos, 1nat,
{
    let all = before + ts;
    let by = before.len() as int;
    if pos < ts.len() {
        assert(all[by + pos] == ts[pos]);
    }
    if pos + 1 < ts.len() {
        assert(all[by + pos + 1] == ts[pos + 1]);
    }
    if kind_at(ts, pos, Lexeme::At) && pos + 1 < ts.len() && ts[pos + 1].kind is Identifier {
        if pos + 2 < ts.len() {
            assert(all[by + pos + 2] == ts[pos + 2]);
        }
        lemma_args_move(before, ts, pos + 3);
        lemma_args_tail_bounds(ts, pos + 3);
        let open = args_at(ts, pos + 2).1;
        assert(args_at(all, by + pos + 2) == (args_at(ts, pos + 2).0, open + by));
        if open < ts.len() {
            assert(all[by + open] == ts[open]);
        }
        if kind_at(ts, open, Lexeme::LBrace) {
            lemma_block_moves(before, ts, open + 1);
        }
    }
}

/// Behind a prefix, the rest of a document parses as it does alone.
pub proof fn lemma_blocks_move(before: Seq<TokenView>, ts: Seq<TokenView>, pos: int)
    requires
        0 <= pos,
    ensures
        blocks_from(before + ts, before.len() + pos) == blocks_from(ts, pos),
    decreases ts.len() - pos,
{
    if pos < ts.len() {
        lemma_block_moves(before, ts, pos);
        if block_at(ts, pos) is Ok {
            lemma_block_advances(ts, pos);
            lemma_blocks_move(before, ts, block_at(ts, pos)->Ok_0.1);
        }
    }
}

/// Parsing goes block by block to the end of the tokens: behind a document
/// that parses, more tokens are parsed as a document of their own. The whole
/// parses exactly if they do, to the blocks of both in order; if they do
/// not, the whole fails with their error.
pub proof fn lemma_parse_concat(ts: Seq<TokenView>, more: Seq<TokenView>, pos: int)
    requires
        0 <= pos <= ts.len(),
        blocks_from(ts, pos) is Ok,
    ensures
        blocks_from(ts + more, pos) == blocks_then(blocks_from(ts, pos)->Ok_0, parse_spec(more)),
    decreases ts.len() - pos,
{
    let all = ts + more;
    let tail = parse_spec(more);
    if pos < ts.len() {
        lemma_block_stable(ts, more, pos);
        lemma_block_advances(ts, pos);
        let block = block_at(ts, pos)->Ok_0.0;
        let next = block_at(ts, pos)->Ok_0.1;
        lemma_parse_concat(ts, more, next);
        let rest = blocks_from(ts, next)->Ok_0;
        if tail is Ok {
            assert(seq![block] + (rest + tail->Ok_0) =~= (seq![block] + rest) + tail->Ok_0);
        }
    } else {
        lemma_blocks_move(ts, more, 0);
        if tail is Ok {
            assert(Seq::<BlockView>::empty() + tail->Ok_0 =~= tail->Ok_0);
        }
    }
}

/// A successful parse consumes every token: tokens behind the last block of
/// a document that are no blocks themselves make the whole a syntax error.
pub proof fn lemma_trailing_tokens_fail(ts: Seq<TokenView>, more: Seq<TokenView>)
    requires
        parse_spec(ts) is Ok,
        parse_spec(more) is Err,
    ensures
        parse_spec(ts + more) == Err::<Seq<BlockView>, ParseErrorView>(parse_spec(more)->Err_0),
{
    lemma_parse_concat(ts, more, 0);
}

} // verus!
