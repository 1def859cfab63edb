use aln_system_update_orchestrator::aln::ast::{Block, BlockEntry, Value};
use aln_system_update_orchestrator::aln::error::LoadAlnError;
use aln_system_update_orchestrator::aln::lexer::{LexError, Token, TokenKind};
use aln_system_update_orchestrator::aln::mapper::{
    flag_field, map_components, map_interop, map_rego_exec, map_render, nested_block, section,
    string_field, strings_field, text_eq,
};
use aln_system_update_orchestrator::aln::model::{
    AlnComponentConfig, AlnInteropConfig, AlnRegoExecConfig, AlnRenderConfig, Section,
    PLAN_VERSION,
};
use aln_system_update_orchestrator::aln::parser::{parse_document, Expected, ParseError};
use aln_system_update_orchestrator::aln::AlnUpdatePlan;

const UPDATE_SYSTEM: &str = "
@ALN_UPDATE_SYSTEM v1.7 {
    version: \"9.9.9\"
    @SEPARATE {
        game_engine: \"unreal\"
        ai_chat_ui: chat_panel
        renderers: [\"vulkan\", \"metal\"]
    }
    @INTEROP {
        cross_link: \"enabled\"
        maintain_func: false
        enable_lan: \"full_with_configs\"
    }
    @RENDER_IN_FRAME {
        mode: \"hybrid\"
        merge_sources: true
        playable_platforms: [\"pc\", \"console\", \"mobile\"]
    }
    @EXEC_REGO_POLICY {
        always_active: true
        policy: \"aln_system_update.update\"
        features: [\"audit\", \"rollback\"]
    }
}
";

fn body_of(text: &str) -> Vec<BlockEntry> {
    let mut file = parse_document(&format!("@B {{ {text} }}")).expect("text should parse");
    match file.items.remove(0) {
        aln_system_update_orchestrator::aln::ast::AlnItem::Block(block) => block.body,
    }
}

fn block_of(text: &str) -> Block {
    Block { name: "B".to_string(), args: None, body: body_of(text) }
}

fn strings(items: &[&str]) -> Vec<String> {
    items.iter().map(|s| s.to_string()).collect()
}

#[test]
fn parses_update_system_file() {
    let plan = AlnUpdatePlan::from_source(UPDATE_SYSTEM).expect("failed to parse ALN file");
    assert_eq!(plan.version, "1.0.1.7");
    assert!(!plan.components.renderers.is_empty());
}

#[test]
fn plan_version_is_fixed_whatever_the_document_says() {
    let plan = AlnUpdatePlan::from_source(UPDATE_SYSTEM).unwrap();
    assert_eq!(plan.version, "1.0.1.7");
    assert_eq!(PLAN_VERSION, "1.0.1.7");
    let bare = "@ALN_UPDATE_SYSTEM { @SEPARATE{} @INTEROP{} @RENDER_IN_FRAME{} @EXEC_REGO_POLICY{} }";
    assert_eq!(AlnUpdatePlan::from_source(bare).unwrap().version, "1.0.1.7");
}

#[test]
fn plan_holds_every_section() {
    let plan = AlnUpdatePlan::from_source(UPDATE_SYSTEM).unwrap();
    assert_eq!(
        plan.components,
        AlnComponentConfig {
            game_engine: "unreal".to_string(),
            ai_chat_ui: "chat_panel".to_string(),
            renderers: strings(&["vulkan", "metal"]),
        }
    );
    assert_eq!(
        plan.interop,
        AlnInteropConfig {
            cross_link: "enabled".to_string(),
            maintain_func: false,
            enable_lan: "full_with_configs".to_string(),
        }
    );
    assert_eq!(
        plan.render,
        AlnRenderConfig {
            mode: "hybrid".to_string(),
            merge_sources: true,
            playable_platforms: strings(&["pc", "console", "mobile"]),
        }
    );
    assert_eq!(
        plan.rego_exec,
        AlnRegoExecConfig {
            always_active: true,
            policy: "aln_system_update.update".to_string(),
            features: strings(&["audit", "rollback"]),
        }
    );
}

#[test]
fn empty_sections_give_the_defaults() {
    let bare = "@ALN_UPDATE_SYSTEM { @SEPARATE{} @INTEROP{} @RENDER_IN_FRAME{} @EXEC_REGO_POLICY{} }";
    let plan = AlnUpdatePlan::from_source(bare).unwrap();
    assert_eq!(
        plan.components,
        AlnComponentConfig { game_engine: String::new(), ai_chat_ui: String::new(), renderers: vec![] }
    );
    assert_eq!(
        plan.interop,
        AlnInteropConfig { cross_link: String::new(), maintain_func: true, enable_lan: String::new() }
    );
    assert_eq!(
        plan.render,
        AlnRenderConfig { mode: String::new(), merge_sources: true, playable_platforms: vec![] }
    );
    assert_eq!(
        plan.rego_exec,
        AlnRegoExecConfig { always_active: true, policy: String::new(), features: vec![] }
    );
}

#[test]
fn missing_interop_block_is_named() {
    let text = "@ALN_UPDATE_SYSTEM { @SEPARATE{} @RENDER_IN_FRAME{} @EXEC_REGO_POLICY{} }";
    assert_eq!(
        AlnUpdatePlan::from_source(text),
        Err(LoadAlnError::MissingBlock(Section::Interop))
    );
    assert_eq!(Section::Interop.name(), "INTEROP");
}

#[test]
fn first_missing_section_is_reported() {
    let load = |text: &str| AlnUpdatePlan::from_source(text);
    assert_eq!(load(""), Err(LoadAlnError::MissingBlock(Section::Separate)));
    assert_eq!(load("@OTHER { @SEPARATE{} }"), Err(LoadAlnError::MissingBlock(Section::Separate)));
    assert_eq!(
        load("@ALN_UPDATE_SYSTEM { @INTEROP{} }"),
        Err(LoadAlnError::MissingBlock(Section::Separate))
    );
    assert_eq!(
        load("@ALN_UPDATE_SYSTEM { @SEPARATE{} @INTEROP{} @EXEC_REGO_POLICY{} }"),
        Err(LoadAlnError::MissingBlock(Section::RenderInFrame))
    );
    assert_eq!(
        load("@ALN_UPDATE_SYSTEM { @SEPARATE{} @INTEROP{} @RENDER_IN_FRAME{} }"),
        Err(LoadAlnError::MissingBlock(Section::ExecRegoPolicy))
    );
    assert_eq!(Section::Separate.name(), "SEPARATE");
    assert_eq!(Section::RenderInFrame.name(), "RENDER_IN_FRAME");
    assert_eq!(Section::ExecRegoPolicy.name(), "EXEC_REGO_POLICY");
}

#[test]
fn sections_must_be_nested_directly_in_the_root_block() {
    let text = "@ALN_UPDATE_SYSTEM { @WRAP { @SEPARATE{} } @INTEROP{} @RENDER_IN_FRAME{} @EXEC_REGO_POLICY{} }";
    assert_eq!(
        AlnUpdatePlan::from_source(text),
        Err(LoadAlnError::MissingBlock(Section::Separate))
    );
}

#[test]
fn load_errors_keep_their_layer() {
    assert_eq!(
        AlnUpdatePlan::from_source("@ALN_UPDATE_SYSTEM { ; }"),
        Err(LoadAlnError::Lex(LexError::UnexpectedChar { ch: ';', offset: 21 }))
    );
    assert_eq!(
        AlnUpdatePlan::from_source("@ALN_UPDATE_SYSTEM { version: 1.0.1.7 }"),
        Err(LoadAlnError::Parse(ParseError {
            expected: Expected::Number,
            found: Some(Token { kind: TokenKind::NumberLiteral("1.0.1.7".to_string()), offset: 30 }),
        }))
    );
}

#[test]
fn mismatched_value_shape_leaves_the_default() {
    let interop = map_interop(&block_of("maintain_func: \"yes\" cross_link: true enable_lan: [a]"));
    assert_eq!(
        interop,
        AlnInteropConfig { cross_link: String::new(), maintain_func: true, enable_lan: String::new() }
    );
    let render = map_render(&block_of("mode: 1 merge_sources: no playable_platforms: pc"));
    assert_eq!(
        render,
        AlnRenderConfig { mode: String::new(), merge_sources: true, playable_platforms: vec![] }
    );
}

#[test]
fn mismatched_value_does_not_undo_an_earlier_one() {
    let interop = map_interop(&block_of("maintain_func: false maintain_func: \"yes\""));
    assert!(!interop.maintain_func);
    let components = map_components(&block_of("game_engine: a game_engine: 1 game_engine: [b]"));
    assert_eq!(components.game_engine, "a");
}

#[test]
fn unknown_keys_and_nested_blocks_are_ignored() {
    let rego = map_rego_exec(&block_of("other: 1 @features { policy: p } Policy: q policy: r"));
    assert_eq!(
        rego,
        AlnRegoExecConfig { always_active: true, policy: "r".to_string(), features: vec![] }
    );
}

#[test]
fn last_value_of_a_field_wins() {
    let body = body_of("k: a k: b j: c f: true f: false");
    assert_eq!(string_field(&body, "k"), "b");
    assert_eq!(string_field(&body, "j"), "c");
    assert_eq!(string_field(&body, "x"), "");
    assert!(!flag_field(&body, "f"));
    assert!(flag_field(&body, "k"));
}

#[test]
fn list_field_keeps_strings_only() {
    let body = body_of("l: [a, 1, true, 'b', [c], d]");
    assert_eq!(strings_field(&body, "l"), strings(&["a", "b", "d"]));
    assert_eq!(strings_field(&body, "m"), strings(&[]));
}

#[test]
fn list_field_collects_every_entry_of_its_key() {
    let body = body_of("l: [a] m: [x] l: b l: [c, d]");
    assert_eq!(strings_field(&body, "l"), strings(&["a", "c", "d"]));
}

#[test]
fn object_values_match_no_field() {
    let body = vec![
        BlockEntry::KeyValue {
            key: "k".to_string(),
            value: Value::Object(vec![("k".to_string(), Value::Str("v".to_string()))]),
        },
        BlockEntry::List(vec![Value::Str("k".to_string())]),
    ];
    assert_eq!(string_field(&body, "k"), "");
    assert!(flag_field(&body, "k"));
    assert_eq!(strings_field(&body, "k"), strings(&[]));
}

#[test]
fn last_section_of_a_name_wins() {
    let text = "
        @ALN_UPDATE_SYSTEM {
            @SEPARATE { game_engine: first }
            @SEPARATE { game_engine: second }
            @INTEROP{} @RENDER_IN_FRAME{} @EXEC_REGO_POLICY{}
        }
        @ALN_UPDATE_SYSTEM { @INTEROP { cross_link: later } }
        @OTHER { @SEPARATE { game_engine: elsewhere } }
    ";
    let plan = AlnUpdatePlan::from_source(text).unwrap();
    assert_eq!(plan.components.game_engine, "second");
    assert_eq!(plan.interop.cross_link, "later");
}

#[test]
fn section_lookup_finds_the_last_match() {
    let file = parse_document("@ALN_UPDATE_SYSTEM { @S { a: 1 } @T{} @S { a: 2 } }").unwrap();
    let found = section(&file, "S").expect("section S");
    assert_eq!(found.body, body_of("a: 2"));
    assert!(section(&file, "U").is_none());
    let body = body_of("@N { a: 1 } k: v @N { a: 2 } @M{}");
    assert_eq!(nested_block(&body, "N").expect("block N").body, body_of("a: 2"));
    assert!(nested_block(&body, "k").is_none());
}

#[test]
fn from_file_maps_a_parsed_document() {
    let file = parse_document(UPDATE_SYSTEM).unwrap();
    assert_eq!(AlnUpdatePlan::from_file(&file), AlnUpdatePlan::from_source(UPDATE_SYSTEM));
}

#[test]
fn text_eq_compares_whole_texts() {
    assert!(text_eq("", ""));
    assert!(text_eq("INTEROP", "INTEROP"));
    assert!(!text_eq("INTEROP", "INTEROp"));
    assert!(!text_eq("INTEROP", "INTEROP "));
    assert!(text_eq("\u{e9}\u{20AC}", "\u{e9}\u{20AC}"));
    assert!(!text_eq("\u{e9}", "e"));
}
