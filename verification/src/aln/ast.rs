//! Syntax tree of an ALN document, and the mathematical model of each node.
use vstd::prelude::*;

verus! {

/// A parsed document: its top-level items in source order.
#[derive(Debug, PartialEq)]
pub struct AlnFile {
    pub items: Vec<AlnItem>,
}

/// A top-level item of a document.
#[derive(Debug, PartialEq)]
pub enum AlnItem {
    Block(Block),
}

/// A named, brace-delimited group of entries.
#[derive(Debug, PartialEq)]
pub struct Block {
    pub name: String,
    pub args: Option<BlockArgs>,
    pub body: Vec<BlockEntry>,
}

/// Free-form text between a block's name and its opening brace.
#[derive(Debug, Clone, PartialEq)]
pub struct BlockArgs {
    pub raw: String,
}

/// One element of a block's body.
#[derive(Debug, PartialEq)]
pub enum BlockEntry {
    KeyValue { key: String, value: Value },
    NestedBlock(Block),
    List(Vec<Value>),
}

/// A value. A number is kept as the text of its literal, which has the
/// syntax of a decimal floating-point literal (see
/// [`crate::aln::number::is_float_literal`]); a caller that wants the
/// 64-bit float converts that text.
#[derive(Debug, PartialEq)]
pub enum Value {
    Str(String),
    Bool(bool),
    Number(String),
    Array(Vec<Value>),
    Object(Vec<(String, Value)>),
}

/// Mathematical model of a [`Value`].
pub enum ValueView {
    Str(Seq<char>),
    Bool(bool),
    Number(Seq<char>),
    Array(Seq<ValueView>),
    Object(Seq<(Seq<char>, ValueView)>),
}

/// Mathematical model of a [`BlockEntry`].
pub enum EntryView {
    KeyValue { key: Seq<char>, value: ValueView },
    NestedBlock(BlockView),
    List(Seq<ValueView>),
}

/// Mathematical model of a [`Block`].
pub struct BlockView {
    pub name: Seq<char>,
    pub args: Option<Seq<char>>,
    pub body: Seq<EntryView>,
}

impl View for Value {
    type V = ValueView;

    open spec fn view(&self) -> ValueView
        decreases self,
    {
        match self {
            Value::Str(s) => ValueView::Str(s@),
            Value::Bool(b) => ValueView::Bool(*b),
            Value::Number(text) => ValueView::Number(text@),
            Value::Array(items) => ValueView::Array(
                Seq::new(
                    items.len() as nat,
                    |i: int|
                        if 0 <= i < items.len() {
                            items[i]@
                        } else {
                            ValueView::Bool(false)
                        },
                ),
            ),
            Value::Object(fields) => ValueView::Object(
                Seq::new(
                    fields.len() as nat,
                    |i: int|
                        if 0 <= i < fields.len() {
                            (fields[i].0@, fields[i].1@)
                        } else {
                            (Seq::empty(), ValueView::Bool(false))
                        },
                ),
            ),
        }
    }
}

/// The models of a sequence of values, in order.
pub open spec fn value_views(values: Seq<Value>) -> Seq<ValueView> {
    Seq::new(values.len(), |i: int| values[i]@)
}

/// The model of an optional argument text.
pub open spec fn args_view(args: Option<BlockArgs>) -> Option<Seq<char>> {
    match args {
        Some(args) => Some(args.raw@),
        None => None,
    }
}

/// The model of an entry.
pub open spec fn entry_view(entry: BlockEntry) -> EntryView
    decreases entry,
{
    match entry {
        BlockEntry::KeyValue { key, value } => EntryView::KeyValue { key: key@, value: value@ },
        BlockEntry::NestedBlock(block) => EntryView::NestedBlock(
            BlockView {
                name: block.name@,
                args: args_view(block.args),
                body: Seq::new(
                    block.body.len() as nat,
                    |i: int|
                        if 0 <= i < block.body.len() {
                            entry_view(block.body[i])
                        } else {
                            EntryView::List(Seq::empty())
                        },
                ),
            },
        ),
        BlockEntry::List(values) => EntryView::List(value_views(values@)),
    }
}

impl View for BlockEntry {
    type V = EntryView;

    open spec fn view(&self) -> EntryView {
        entry_view(*self)
    }
}

/// The models of a sequence of entries, in order.
pub open spec fn entry_views(entries: Seq<BlockEntry>) -> Seq<EntryView> {
    Seq::new(entries.len(), |i: int| entries[i]@)
}

impl View for Block {
    type V = BlockView;

    open spec fn view(&self) -> BlockView {
        BlockView {
            name: self.name@,
            args: args_view(self.args),
            body: entry_views(self.body@),
        }
    }
}

/// The model of an array is the array of its items' models.
pub proof fn lemma_array_view(items: Vec<Value>)
    ensures
        Value::Array(items)@ == ValueView::Array(value_views(items@)),
{
    assert(Value::Array(items)@->Array_0 =~= value_views(items@));
}

/// The model of a nested block is the nested model of that block.
pub proof fn lemma_nested_view(block: Block)
    ensures
        BlockEntry::NestedBlock(block)@ == EntryView::NestedBlock(block@),
{
    let b = BlockEntry::NestedBlock(block)@->NestedBlock_0;
    assert(b.body =~= entry_views(block.body@));
}

impl View for AlnItem {
    type V = BlockView;

    open spec fn view(&self) -> BlockView {
        match self {
            AlnItem::Block(block) => block@,
        }
    }
}

impl View for AlnFile {
    type V = Seq<BlockView>;

    open spec fn view(&self) -> Seq<BlockView> {
        Seq::new(self.items@.len(), |i: int| self.items@[i]@)
    }
}

} // verus!
