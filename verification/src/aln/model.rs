//! The typed update plan that a document is mapped to.
use vstd::prelude::*;

verus! {

/// The version that every update plan carries, whatever its document says.
pub const PLAN_VERSION: &'static str = "1.0.1.7";

/// An update plan: the four sections of an `ALN_UPDATE_SYSTEM` block.
#[derive(Debug, Clone, PartialEq)]
pub struct AlnUpdatePlan {
    pub version: String,
    pub components: AlnComponentConfig,
    pub interop: AlnInteropConfig,
    pub render: AlnRenderConfig,
    pub rego_exec: AlnRegoExecConfig,
}

/// The `SEPARATE` section.
#[derive(Debug, Clone, PartialEq)]
pub struct AlnComponentConfig {
    pub game_engine: String,
    pub ai_chat_ui: String,
    pub renderers: Vec<String>,
}

/// The `INTEROP` section.
#[derive(Debug, Clone, PartialEq)]
pub struct AlnInteropConfig {
    pub cross_link: String,
    pub maintain_func: bool,
    pub enable_lan: String,
}

/// The `RENDER_IN_FRAME` section.
#[derive(Debug, Clone, PartialEq)]
pub struct AlnRenderConfig {
    pub mode: String,
    pub merge_sources: bool,
    pub playable_platforms: Vec<String>,
}

/// The `EXEC_REGO_POLICY` section.
#[derive(Debug, Clone, PartialEq)]
pub struct AlnRegoExecConfig {
    pub always_active: bool,
    pub policy: String,
    pub features: Vec<String>,
}

/// One of the four sections that an update plan needs.
#[derive(Debug, Clone, Copy, PartialEq, Eq)]
pub enum Section {
    Separate,
    Interop,
    RenderInFrame,
    ExecRegoPolicy,
}

impl Section {
    /// The name of the block that holds this section.
    pub open spec fn block_name(self) -> Seq<char> {
        match self {
            Section::Separate => "SEPARATE"@,
            Section::Interop => "INTEROP"@,
            Section::RenderInFrame => "RENDER_IN_FRAME"@,
            Section::ExecRegoPolicy => "EXEC_REGO_POLICY"@,
        }
    }

    /// The name of the block that holds this section.
    pub fn name(&self) -> (r: &'static str)
        ensures
            r@ == self.block_name(),
    {
        match self {
            Section::Separate => "SEPARATE",
            Section::Interop => "INTEROP",
            Section::RenderInFrame => "RENDER_IN_FRAME",
            Section::ExecRegoPolicy => "EXEC_REGO_POLICY",
        }
    }
}

/// The texts of a sequence of strings, in order.
pub open spec fn texts(strings: Seq<String>) -> Seq<Seq<char>> {
    Seq::new(strings.len(), |i: int| strings[i]@)
}

} // verus!
