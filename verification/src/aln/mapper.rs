//! Best-effort extraction of an update plan from a parsed document.
//!
//! Extraction is lenient on purpose: inside a section, a key that is not
//! known, or a known key whose value has another shape than its field, is
//! passed over, and the field keeps its default. Only a missing section is
//! an error.
use crate::aln::ast::{
    entry_views, lemma_array_view, value_views, AlnFile, AlnItem, Block, BlockEntry, BlockView,
    EntryView, Value, ValueView,
};
use crate::aln::error::{LoadAlnError, LoadErrorView};
use crate::aln::model::{
    texts, AlnComponentConfig, AlnInteropConfig, AlnRegoExecConfig, AlnRenderConfig,
    AlnUpdatePlan, Section, PLAN_VERSION,
};
use crate::aln::parser::{document_spec, parse_document};
use vstd::prelude::*;
use vstd::string::*;
use vstd::utf8::*;

verus! {

/// The name of the root block that holds an update plan.
pub const ROOT_BLOCK: &'static str = "ALN_UPDATE_SYSTEM";

/// The string that the entry gives to the field `key`, if it gives one: the
/// entry is `key: value` and the value is a string.
pub open spec fn entry_str(entry: EntryView, key: Seq<char>) -> Option<Seq<char>> {
    match entry {
        EntryView::KeyValue { key: k, value: ValueView::Str(s) } => if k == key {
            Some(s)
        } else {
            None
        },
        _ => None,
    }
}

/// The boolean that the entry gives to the field `key`, if it gives one.
pub open spec fn entry_bool(entry: EntryView, key: Seq<char>) -> Option<bool> {
    match entry {
        EntryView::KeyValue { key: k, value: ValueView::Bool(b) } => if k == key {
            Some(b)
        } else {
            None
        },
        _ => None,
    }
}

/// The strings among `values`, in order; values of other shapes are dropped.
pub open spec fn strings_of(values: Seq<ValueView>) -> Seq<Seq<char>>
    decreases values.len(),
{
    if values.len() == 0 {
        Seq::empty()
    } else {
        strings_of(values.drop_last()) + match values.last() {
            ValueView::Str(s) => seq![s],
            _ => Seq::empty(),
        }
    }
}

/// The strings that the entry adds to the list field `key`: those of its
/// array if the entry is `key: [..]`, none otherwise.
pub open spec fn entry_strings(entry: EntryView, key: Seq<char>) -> Seq<Seq<char>> {
    match entry {
        EntryView::KeyValue { key: k, value: ValueView::Array(values) } => if k == key {
            strings_of(values)
        } else {
            Seq::empty()
        },
        _ => Seq::empty(),
    }
}

/// The value of the string field `key`: that of the last entry which gives
/// one, the empty string if none does.
pub open spec fn str_field(body: Seq<EntryView>, key: Seq<char>) -> Seq<char>
    decreases body.len(),
{
    if body.len() == 0 {
        Seq::empty()
    } else {
        match entry_str(body.last(), key) {
            Some(s) => s,
            None => str_field(body.drop_last(), key),
        }
    }
}

/// The value of the boolean field `key`: that of the last entry which gives
/// one, `true` if none does.
pub open spec fn bool_field(body: Seq<EntryView>, key: Seq<char>) -> bool
    decreases body.len(),
{
    if body.len() == 0 {
        true
    } else {
        match entry_bool(body.last(), key) {
            Some(b) => b,
            None => bool_field(body.drop_last(), key),
        }
    }
}

/// The value of the list field `key`: the strings of every entry `key: [..]`,
/// in order.
pub open spec fn list_field(body: Seq<EntryView>, key: Seq<char>) -> Seq<Seq<char>>
    decreases body.len(),
{
    if body.len() == 0 {
        Seq::empty()
    } else {
        list_field(body.drop_last(), key) + entry_strings(body.last(), key)
    }
}

/// The last block named `name` that is nested directly in `body`.
pub open spec fn last_nested(body: Seq<EntryView>, name: Seq<char>) -> Option<BlockView>
    decreases body.len(),
{
    if body.len() == 0 {
        None
    } else {
        match body.last() {
            EntryView::NestedBlock(block) => if block.name == name {
                Some(block)
            } else {
                last_nested(body.drop_last(), name)
            },
            _ => last_nested(body.drop_last(), name),
        }
    }
}

/// The section named `name` of a document: the last block of that name
/// nested directly in a root block named `ALN_UPDATE_SYSTEM`.
pub open spec fn find_section(blocks: Seq<BlockView>, name: Seq<char>) -> Option<BlockView>
    decreases blocks.len(),
{
    if blocks.len() == 0 {
        None
    } else if blocks.last().name == ROOT_BLOCK@ && last_nested(blocks.last().body, name) is Some {
        last_nested(blocks.last().body, name)
    } else {
        find_section(blocks.drop_last(), name)
    }
}

/// The first section, in the order `SEPARATE`, `INTEROP`, `RENDER_IN_FRAME`,
/// `EXEC_REGO_POLICY`, that the document lacks.
pub open spec fn missing_section(blocks: Seq<BlockView>) -> Option<Section> {
    if find_section(blocks, Section::Separate.block_name()) is None {
        Some(Section::Separate)
    } else if find_section(blocks, Section::Interop.block_name()) is None {
        Some(Section::Interop)
    } else if find_section(blocks, Section::RenderInFrame.block_name()) is None {
        Some(Section::RenderInFrame)
    } else if find_section(blocks, Section::ExecRegoPolicy.block_name()) is None {
        Some(Section::ExecRegoPolicy)
    } else {
        None
    }
}

/// Whether `config` is what the entries `body` of a `SEPARATE` block give.
pub open spec fn components_of(config: AlnComponentConfig, body: Seq<EntryView>) -> bool {
    &&& config.game_engine@ == str_field(body, "game_engine"@)
    &&& config.ai_chat_ui@ == str_field(body, "ai_chat_ui"@)
    &&& texts(config.renderers@) == list_field(body, "renderers"@)
}

/// Whether `config` is what the entries `body` of an `INTEROP` block give.
pub open spec fn interop_of(config: AlnInteropConfig, body: Seq<EntryView>) -> bool {
    &&& config.cross_link@ == str_field(body, "cross_link"@)
    &&& config.maintain_func == bool_field(body, "maintain_func"@)
    &&& config.enable_lan@ == str_field(body, "enable_lan"@)
}

/// Whether `config` is what the entries `body` of a `RENDER_IN_FRAME` block
/// give.
pub open spec fn render_of(config: AlnRenderConfig, body: Seq<EntryView>) -> bool {
    &&& config.mode@ == str_field(body, "mode"@)
    &&& config.merge_sources == bool_field(body, "merge_sources"@)
    &&& texts(config.playable_platforms@) == list_field(body, "playable_platforms"@)
}

/// Whether `config` is what the entries `body` of an `EXEC_REGO_POLICY`
/// block give.
pub open spec fn rego_exec_of(config: AlnRegoExecConfig, body: Seq<EntryView>) -> bool {
    &&& config.always_active == bool_field(body, "always_active"@)
    &&& config.policy@ == str_field(body, "policy"@)
    &&& texts(config.features@) == list_field(body, "features"@)
}

/// Whether `plan` is the update plan of the document `blocks`: the fixed
/// version, and each part extracted from the section of its name.
pub open spec fn plan_of(plan: AlnUpdatePlan, blocks: Seq<BlockView>) -> bool {
    &&& plan.version@ == PLAN_VERSION@
    &&& find_section(blocks, Section::Separate.block_name()) matches Some(b) && components_of(
        plan.components,
        b.body,
    )
    &&& find_section(blocks, Section::Interop.block_name()) matches Some(b) && interop_of(
        plan.interop,
        b.body,
    )
    &&& find_section(blocks, Section::RenderInFrame.block_name()) matches Some(b) && render_of(
        plan.render,
        b.body,
    )
    &&& find_section(blocks, Section::ExecRegoPolicy.block_name()) matches Some(b)
        && rego_exec_of(plan.rego_exec, b.body)
}

/// Whether two texts are the same.
pub fn text_eq(a: &str, b: &str) -> (r: bool)
    ensures
        r == (a@ == b@),
{
    let x = a.as_bytes();
    let y = b.as_bytes();
    proof {
        encode_utf8_decode_utf8(a@);
        encode_utf8_decode_utf8(b@);
    }
    if x.len() != y.len() {
        return false;
    }
    let mut i: usize = 0;
    while i < x.len()
        invariant
            x@ == encode_utf8(a@),
            y@ == encode_utf8(b@),
            x@.len() == y@.len(),
            i <= x@.len(),
            forall|j: int| 0 <= j < i ==> x@[j] == y@[j],
        decreases x@.len() - i,
    {
        if x[i] != y[i] {
            return false;
        }
        i = i + 1;
    }
    assert(x@ =~= y@);
    true
}

/// The value of the string field `key` among the entries `body`.
pub fn string_field(body: &Vec<BlockEntry>, key: &str) -> (r: String)
    ensures
        r@ == str_field(entry_views(body@), key@),
{
    let ghost views = entry_views(body@);
    let mut found = String::new();
    let mut i: usize = 0;
    assert(views.take(0) =~= Seq::<EntryView>::empty());
    while i < body.len()
        invariant
            i <= body@.len(),
            views == entry_views(body@),
            found@ == str_field(views.take(i as int), key@),
        decreases body@.len() - i,
    {
        proof {
            assert(views.take(i + 1).drop_last() =~= views.take(i as int));
            assert(views.take(i + 1).last() == body@[i as int]@);
        }
        match &body[i] {
            BlockEntry::KeyValue { key: k, value: Value::Str(s) } => {
                if text_eq(k.as_str(), key) {
                    found = s.clone();
                }
            },
            _ => {},
        }
        i = i + 1;
    }
    assert(views.take(i as int) =~= views);
    found
}

/// The value of the boolean field `key` among the entries `body`.
pub fn flag_field(body: &Vec<BlockEntry>, key: &str) -> (r: bool)
    ensures
        r == bool_field(entry_views(body@), key@),
{
    let ghost views = entry_views(body@);
    let mut found = true;
    let mut i: usize = 0;
    assert(views.take(0) =~= Seq::<EntryView>::empty());
    while i < body.len()
        invariant
            i <= body@.len(),
            views == entry_views(body@),
            found == bool_field(views.take(i as int), key@),
        decreases body@.len() - i,
    {
        proof {
            assert(views.take(i + 1).drop_last() =~= views.take(i as int));
            assert(views.take(i + 1).last() == body@[i as int]@);
        }
        match &body[i] {
            BlockEntry::KeyValue { key: k, value: Value::Bool(b) } => {
                if text_eq(k.as_str(), key) {
                    found = *b;
                }
            },
            _ => {},
        }
        i = i + 1;
    }
    assert(views.take(i as int) =~= views);
    found
}

/// Appends the strings among `values` to `out`.
fn push_strings(values: &Vec<Value>, out: &mut Vec<String>)
    ensures
        texts(final(out)@) == texts(old(out)@) + strings_of(value_views(values@)),
{
    let ghost views = value_views(values@);
    let ghost before = texts(out@);
    let mut i: usize = 0;
    assert(views.take(0) =~= Seq::<ValueView>::empty());
    assert(before + Seq::<Seq<char>>::empty() =~= before);
    while i < values.len()
        invariant
            i <= values@.len(),
            views == value_views(values@),
            texts(out@) == before + strings_of(views.take(i as int)),
        decreases values@.len() - i,
    {
        let ghost sofar = strings_of(views.take(i as int));
        let ghost had = out@;
        proof {
            assert(views.take(i + 1).drop_last() =~= views.take(i as int));
            assert(views.take(i + 1).last() == values@[i as int]@);
        }
        match &values[i] {
            Value::Str(s) => {
                out.push(s.clone());
                assert(texts(out@) =~= texts(had) + seq![s@]);
                assert(texts(out@) =~= before + (sofar + seq![s@]));
            },
            _ => {
                assert(texts(out@) =~= before + (sofar + Seq::<Seq<char>>::empty()));
            },
        }
        i = i + 1;
    }
    assert(views.take(i as int) =~= views);
}

/// The value of the list field `key` among the entries `body`.
pub fn strings_field(body: &Vec<BlockEntry>, key: &str) -> (r: Vec<String>)
    ensures
        texts(r@) == list_field(entry_views(body@), key@),
{
    let ghost views = entry_views(body@);
    let mut found: Vec<String> = Vec::new();
    let mut i: usize = 0;
    assert(views.take(0) =~= Seq::<EntryView>::empty());
    assert(texts(found@) =~= Seq::<Seq<char>>::empty());
    while i < body.len()
        invariant
            i <= body@.len(),
            views == entry_views(body@),
            texts(found@) == list_field(views.take(i as int), key@),
        decreases body@.len() - i,
    {
        let ghost sofar = texts(found@);
        proof {
            assert(views.take(i + 1).drop_last() =~= views.take(i as int));
            assert(views.take(i + 1).last() == body@[i as int]@);
        }
        match &body[i] {
            BlockEntry::KeyValue { key: k, value: Value::Array(values) } => {
                proof {
                    lemma_array_view(*values);
                }
                if text_eq(k.as_str(), key) {
                    push_strings(values, &mut found);
                } else {
                    assert(sofar + Seq::<Seq<char>>::empty() =~= sofar);
                }
            },
            _ => {
                assert(sofar + Seq::<Seq<char>>::empty() =~= sofar);
            },
        }
        i = i + 1;
    }
    assert(views.take(i as int) =~= views);
    found
}

/// Extracts the component configuration from a `SEPARATE` block.
pub fn map_components(block: &Block) -> (r: AlnComponentConfig)
    ensures
        components_of(r, block@.body),
{
    AlnComponentConfig {
        game_engine: string_field(&block.body, "game_engine"),
        ai_chat_ui: string_field(&block.body, "ai_chat_ui"),
        renderers: strings_field(&block.body, "renderers"),
    }
}

/// Extracts the interop configuration from an `INTEROP` block.
pub fn map_interop(block: &Block) -> (r: AlnInteropConfig)
    ensures
        interop_of(r, block@.body),
{
    AlnInteropConfig {
        cross_link: string_field(&block.body, "cross_link"),
        maintain_func: flag_field(&block.body, "maintain_func"),
        enable_lan: string_field(&block.body, "enable_lan"),
    }
}

/// Extracts the render configuration from a `RENDER_IN_FRAME` block.
pub fn map_render(block: &Block) -> (r: AlnRenderConfig)
    ensures
        render_of(r, block@.body),
{
    AlnRenderConfig {
        mode: string_field(&block.body, "mode"),
        merge_sources: flag_field(&block.body, "merge_sources"),
        playable_platforms: strings_field(&block.body, "playable_platforms"),
    }
}

/// Extracts the policy configuration from an `EXEC_REGO_POLICY` block.
pub fn map_rego_exec(block: &Block) -> (r: AlnRegoExecConfig)
    ensures
        rego_exec_of(r, block@.body),
{
    AlnRegoExecConfig {
        always_active: flag_field(&block.body, "always_active"),
        policy: string_field(&block.body, "policy"),
        features: strings_field(&block.body, "features"),
    }
}

/// The last block named `name` nested directly in `body`.
pub fn nested_block<'a>(body: &'a Vec<BlockEntry>, name: &str) -> (r: Option<&'a Block>)
    ensures
        match r {
            Some(block) => last_nested(entry_views(body@), name@) == Some(block@),
            None => last_nested(entry_views(body@), name@) is None,
        },
{
    let ghost views = entry_views(body@);
    let mut i: usize = body.len();
    assert(views.take(i as int) =~= views);
    while i > 0
        invariant
            i <= body@.len(),
            views == entry_views(body@),
            last_nested(views, name@) == last_nested(views.take(i as int), name@),
        decreases i,
    {
        proof {
            assert(views.take(i as int).drop_last() =~= views.take(i - 1));
            assert(views.take(i as int).last() == body@[i - 1]@);
        }
        i = i - 1;
        match &body[i] {
            BlockEntry::NestedBlock(block) => {
                proof {
                    crate::aln::ast::lemma_nested_view(*block);
                }
                if text_eq(block.name.as_str(), name) {
                    return Some(block);
                }
            },
            _ => {},
        }
    }
    assert(views.take(0) =~= Seq::<EntryView>::empty());
    None
}

/// The section named `name` of the document `file`.
pub fn section<'a>(file: &'a AlnFile, name: &str) -> (r: Option<&'a Block>)
    ensures
        match r {
            Some(block) => find_section(file@, name@) == Some(block@),
            None => find_section(file@, name@) is None,
        },
{
    let ghost blocks = file@;
    let mut i: usize = file.items.len();
    assert(blocks.take(i as int) =~= blocks);
    while i > 0
        invariant
            i <= file.items@.len(),
            blocks == file@,
            find_section(blocks, name@) == find_section(blocks.take(i as int), name@),
        decreases i,
    {
        proof {
            assert(blocks.take(i as int).drop_last() =~= blocks.take(i - 1));
            assert(blocks.take(i as int).last() == file.items@[i - 1]@);
        }
        i = i - 1;
        match &file.items[i] {
            AlnItem::Block(block) => {
                if text_eq(block.name.as_str(), ROOT_BLOCK) {
                    let found = nested_block(&block.body, name);
                    if found.is_some() {
                        return found;
                    }
                }
            },
        }
    }
    assert(blocks.take(0) =~= Seq::<BlockView>::empty());
    None
}

/// What loading the text `s` gives when it fails: the error of parsing it,
/// or the first section that its document lacks; `None` when it succeeds.
pub open spec fn load_error(s: Seq<char>) -> Option<LoadErrorView> {
    match document_spec(s) {
        Err(e) => Some(e),
        Ok(blocks) => match missing_section(blocks) {
            Some(section) => Some(LoadErrorView::MissingBlock(section)),
            None => None,
        },
    }
}

impl AlnUpdatePlan {
    /// Maps a parsed document to its update plan.
    ///
    /// Fails exactly when one of the four sections is missing, and names the
    /// first one that is. The plan's version is [`PLAN_VERSION`] whatever
    /// `version` the document gives.
    pub fn from_file(file: &AlnFile) -> (r: Result<AlnUpdatePlan, LoadAlnError>)
        ensures
            match r {
                Ok(plan) => missing_section(file@) is None && plan_of(plan, file@),
                Err(e) => missing_section(file@) is Some && e@ == LoadErrorView::MissingBlock(
                    missing_section(file@)->0,
                ),
            },
    {
        let components = match section(file, Section::Separate.name()) {
            Some(block) => map_components(block),
            None => {
                return Err(LoadAlnError::MissingBlock(Section::Separate));
            },
        };
        let interop = match section(file, Section::Interop.name()) {
            Some(block) => map_interop(block),
            None => {
                return Err(LoadAlnError::MissingBlock(Section::Interop));
            },
        };
        let render = match section(file, Section::RenderInFrame.name()) {
            Some(block) => map_render(block),
            None => {
                return Err(LoadAlnError::MissingBlock(Section::RenderInFrame));
            },
        };
        let rego_exec = match section(file, Section::ExecRegoPolicy.name()) {
            Some(block) => map_rego_exec(block),
            None => {
                return Err(LoadAlnError::MissingBlock(Section::ExecRegoPolicy));
            },
        };
        Ok(
            AlnUpdatePlan {
                version: String::from_str(PLAN_VERSION),
                components,
                interop,
                render,
                rego_exec,
            },
        )
    }

    /// Lexes, parses and maps a whole text to its update plan.
    pub fn from_source(text: &str) -> (r: Result<AlnUpdatePlan, LoadAlnError>)
        ensures
            match r {
                Ok(plan) => load_error(text@) is None && document_spec(text@) is Ok && plan_of(
                    plan,
                    document_spec(text@)->Ok_0,
                ),
                Err(e) => load_error(text@) == Some(e@),
            },
    {
        match parse_document(text) {
            Ok(file) => AlnUpdatePlan::from_file(&file),
            Err(e) => Err(e),
        }
    }
}

/// An entry that gives the string field `key` nothing leaves it as it was:
/// another key, or a value that is no string, is passed over.
pub proof fn lemma_str_field_ignores(body: Seq<EntryView>, entry: EntryView, key: Seq<char>)
    requires
        entry_str(entry, key) is None,
    ensures
        str_field(body.push(entry), key) == str_field(body, key),
{
    assert(body.push(entry).drop_last() =~= body);
}

/// An entry that gives the boolean field `key` nothing leaves it as it was:
/// another key, or a value that is no boolean, is passed over.
pub proof fn lemma_bool_field_ignores(body: Seq<EntryView>, entry: EntryView, key: Seq<char>)
    requires
        entry_bool(entry, key) is None,
    ensures
        bool_field(body.push(entry), key) == bool_field(body, key),
{
    assert(body.push(entry).drop_last() =~= body);
}

/// An entry that is no `key: [..]` adds nothing to the list field `key`.
pub proof fn lemma_list_field_ignores(body: Seq<EntryView>, entry: EntryView, key: Seq<char>)
    requires
        !(entry matches EntryView::KeyValue { key: k, value: ValueView::Array(_) } && k == key),
    ensures
        list_field(body.push(entry), key) == list_field(body, key),
{
    assert(body.push(entry).drop_last() =~= body);
    assert(list_field(body, key) + Seq::<Seq<char>>::empty() =~= list_field(body, key));
}

/// A body in which no entry gives the field `key` a value of its shape
/// leaves the field at its default: the empty string, `true`, the empty list.
pub proof fn lemma_fields_default(body: Seq<EntryView>, key: Seq<char>)
    ensures
        (forall|i: int| 0 <= i < body.len() ==> entry_str(#[trigger] body[i], key) is None)
            ==> str_field(body, key) == Seq::<char>::empty(),
        (forall|i: int| 0 <= i < body.len() ==> entry_bool(#[trigger] body[i], key) is None)
            ==> bool_field(body, key),
        (forall|i: int|
            0 <= i < body.len() ==> entry_strings(#[trigger] body[i], key) == Seq::<
                Seq<char>,
            >::empty()) ==> list_field(body, key) == Seq::<Seq<char>>::empty(),
    decreases body.len(),
{
    if body.len() > 0 {
        let front = body.drop_last();
        lemma_fields_default(front, key);
        assert(forall|i: int| 0 <= i < front.len() ==> front[i] == body[i]);
        assert(body.last() == body[body.len() - 1]);
        assert(Seq::<Seq<char>>::empty() + Seq::<Seq<char>>::empty() =~= Seq::<
            Seq<char>,
        >::empty());
    }
}

/// The plan of a document carries the fixed version, and a document has a
/// plan exactly if it lacks no section.
pub proof fn lemma_plan_version_fixed(plan: AlnUpdatePlan, blocks: Seq<BlockView>)
    requires
        plan_of(plan, blocks),
    ensures
        plan.version@ == PLAN_VERSION@,
        missing_section(blocks) is None,
{
}

} // verus!
