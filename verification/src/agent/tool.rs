//! Tools: their descriptions, their results, and the list of those that are known.

use crate::agent::seam::ToolSchema;
use crate::agent::types::prefixed;
use crate::json::{Json, JsonV};
use crate::text;
use vstd::prelude::*;

verus! {

/// The description of a tool. Only the name, the description and the parameters are
/// shown to the model.
#[derive(Debug, PartialEq, Eq)]
pub struct ToolSpec {
    pub name: String,
    pub description: String,
    /// JSON Schema of the arguments.
    pub parameters: Json,
    /// JSON Schema of the result.
    pub output_schema: Option<Json>,
    /// The time limit of one run.
    pub timeout_ms: Option<u64>,
    /// Whether the tool may run beside others; a tool that does not say so runs alone.
    pub concurrency_safe: bool,
}

impl ToolSpec {
    pub fn new(name: String, description: String, parameters: Json) -> (r: Self)
        ensures
            r.name == name,
            r.description == description,
            r.parameters == parameters,
            r.output_schema is None,
            r.timeout_ms is None,
            !r.concurrency_safe,
    {
        ToolSpec {
            name,
            description,
            parameters,
            output_schema: None,
            timeout_ms: None,
            concurrency_safe: false,
        }
    }
}

/// The result of a tool call, as the model is shown it.
#[derive(Debug, PartialEq, Eq)]
pub struct ToolResult {
    pub call_id: String,
    /// The result, or the error where `is_error` is set.
    pub content: String,
    pub is_error: bool,
}

pub struct ToolResultV {
    pub call_id: Seq<char>,
    pub content: Seq<char>,
    pub is_error: bool,
}

impl View for ToolResult {
    type V = ToolResultV;

    open spec fn view(&self) -> ToolResultV {
        ToolResultV { call_id: self.call_id@, content: self.content@, is_error: self.is_error }
    }
}

impl Clone for ToolResult {
    fn clone(&self) -> (r: Self)
        ensures
            r == *self,
    {
        ToolResult {
            call_id: self.call_id.clone(),
            content: self.content.clone(),
            is_error: self.is_error,
        }
    }
}

/// Why a tool call failed.
#[derive(Debug, PartialEq, Eq)]
pub enum ToolError {
    NotFound(String),
    InvalidArgs(String),
    Failed(String),
    Timeout { timeout_ms: u64 },
    Cancelled,
    Internal(String),
}

impl ToolError {
    pub open spec fn message(self) -> Seq<char> {
        match self {
            ToolError::NotFound(n) => "工具不存在: "@ + n@,
            ToolError::InvalidArgs(m) => "参数无效: "@ + m@,
            ToolError::Failed(m) => m@,
            ToolError::Timeout { timeout_ms } => "执行超时（"@ + text::nat_text(timeout_ms as nat)
                + "ms）"@,
            ToolError::Cancelled => "已取消"@,
            ToolError::Internal(m) => "内部错误: "@ + m@,
        }
    }

    /// The text that the model is shown.
    pub fn text(&self) -> (r: String)
        ensures
            r@ == self.message(),
    {
        match self {
            ToolError::NotFound(n) => prefixed("工具不存在: ", n),
            ToolError::InvalidArgs(m) => prefixed("参数无效: ", m),
            ToolError::Failed(m) => m.clone(),
            ToolError::Timeout { timeout_ms } => {
                let mut r = prefixed("执行超时（", &text::u64_text(*timeout_ms));
                r.push_str("ms）");
                r
            },
            ToolError::Cancelled => "已取消".to_owned(),
            ToolError::Internal(m) => prefixed("内部错误: ", m),
        }
    }
}

/// Where the events of tool runs go.
pub trait ToolEventSink {
    fn on_call(&self, call_id: &str, tool: &str, args_preview: &str);

    fn on_result(&self, call_id: &str, tool: &str, ok: bool, summary: &str, result: Option<&str>);
}

/// Drops the events.
pub struct NullSink;

impl ToolEventSink for NullSink {
    fn on_call(&self, call_id: &str, tool: &str, args_preview: &str) {
    }

    fn on_result(&self, call_id: &str, tool: &str, ok: bool, summary: &str, result: Option<&str>) {
    }
}

/// The index at or behind `i` of the tool named `name`.
pub open spec fn tool_index(specs: Seq<ToolSpec>, name: Seq<char>, i: int) -> Option<int>
    decreases specs.len() - i,
{
    if i < 0 || i >= specs.len() {
        None
    } else if specs[i].name@ == name {
        Some(i)
    } else {
        tool_index(specs, name, i + 1)
    }
}

pub struct ToolSchemaV {
    pub name: Seq<char>,
    pub description: Seq<char>,
    pub parameters: JsonV,
}

impl View for ToolSchema {
    type V = ToolSchemaV;

    open spec fn view(&self) -> ToolSchemaV {
        ToolSchemaV {
            name: self.name@,
            description: self.description@,
            parameters: self.parameters@,
        }
    }
}

pub open spec fn schemas_view(s: Seq<ToolSchema>) -> Seq<ToolSchemaV> {
    Seq::new(s.len(), |i: int| s[i]@)
}

/// The tools named by the first `n` names, as the model sees them; an unknown name is
/// passed over.
pub open spec fn schemas_named(specs: Seq<ToolSpec>, names: Seq<Seq<char>>, n: int) -> Seq<
    ToolSchemaV,
>
    decreases n,
{
    if n <= 0 {
        Seq::empty()
    } else {
        let before = schemas_named(specs, names, n - 1);
        match tool_index(specs, names[n - 1], 0) {
            Some(i) => before.push(
                ToolSchemaV {
                    name: specs[i].name@,
                    description: specs[i].description@,
                    parameters: specs[i].parameters@,
                },
            ),
            None => before,
        }
    }
}

pub open spec fn spec_names(specs: Seq<ToolSpec>) -> Seq<Seq<char>> {
    Seq::new(specs.len(), |i: int| specs[i].name@)
}

/// The tools that are known, each under its own name.
#[derive(Debug)]
pub struct HashMapToolRegistry {
    specs: Vec<ToolSpec>,
}

impl HashMapToolRegistry {
    pub closed spec fn specs(&self) -> Seq<ToolSpec> {
        self.specs@
    }

    /// No two tools have the same name.
    pub open spec fn wf(&self) -> bool {
        forall|i: int, j: int|
            0 <= i < j < self.specs().len() ==> (#[trigger] self.specs()[i]).name@ != (
            #[trigger] self.specs()[j]).name@
    }

    pub fn new() -> (r: Self)
        ensures
            r.wf(),
            r.specs().len() == 0,
    {
        HashMapToolRegistry { specs: Vec::new() }
    }

    fn position(&self, name: &String) -> (r: Option<usize>)
        ensures
            match r {
                Some(i) => tool_index(self.specs(), name@, 0) == Some(i as int) && i
                    < self.specs().len() && self.specs()[i as int].name@ == name@,
                None => tool_index(self.specs(), name@, 0) is None && forall|j: int|
                    0 <= j < self.specs().len() ==> (#[trigger] self.specs()[j]).name@ != name@,
            },
    {
        let mut i: usize = 0;
        while i < self.specs.len()
            invariant
                i <= self.specs.len(),
                tool_index(self.specs(), name@, 0) == tool_index(self.specs(), name@, i as int),
                forall|j: int| 0 <= j < i ==> (#[trigger] self.specs()[j]).name@ != name@,
            decreases self.specs.len() - i,
        {
            if self.specs[i].name == *name {
                return Some(i);
            }
            i += 1;
        }
        None
    }

    /// Adds a tool; one of the same name gives way to it.
    pub fn register(&mut self, tool: ToolSpec)
        requires
            old(self).wf(),
        ensures
            final(self).wf(),
            final(self).specs() == (match tool_index(old(self).specs(), tool.name@, 0) {
                Some(i) => old(self).specs().update(i, tool),
                None => old(self).specs().push(tool),
            }),
    {
        match self.position(&tool.name) {
            Some(i) => {
                self.specs.set(i, tool);
            },
            None => {
                self.specs.push(tool);
            },
        }
    }

    pub fn get(&self, name: &str) -> (r: Option<&ToolSpec>)
        ensures
            match r {
                Some(t) => tool_index(self.specs(), name@, 0) matches Some(i) && *t
                    == self.specs()[i] && t.name@ == name@,
                None => tool_index(self.specs(), name@, 0) is None,
            },
    {
        match self.position(&name.to_owned()) {
            Some(i) => Some(&self.specs[i]),
            None => None,
        }
    }

    pub fn names(&self) -> (r: Vec<String>)
        ensures
            text::texts(r@) == spec_names(self.specs()),
    {
        broadcast use text::lemma_texts_push;

        let mut r: Vec<String> = Vec::new();
        let mut i: usize = 0;
        assert(text::texts(r@) =~= spec_names(self.specs()).take(0));
        while i < self.specs.len()
            invariant
                i <= self.specs.len(),
                text::texts(r@) == spec_names(self.specs()).take(i as int),
            decreases self.specs.len() - i,
        {
            r.push(self.specs[i].name.clone());
            assert(spec_names(self.specs()).take(i + 1) =~= spec_names(self.specs()).take(
                i as int,
            ).push(self.specs@[i as int].name@));
            i += 1;
        }
        assert(spec_names(self.specs()).take(i as int) == spec_names(self.specs()));
        r
    }

    /// Whether the tool may run beside others; an unknown one may not.
    pub fn concurrency_safe(&self, name: &str) -> (r: bool)
        ensures
            r == (match tool_index(self.specs(), name@, 0) {
                Some(i) => self.specs()[i].concurrency_safe,
                None => false,
            }),
    {
        match self.get(name) {
            Some(t) => t.concurrency_safe,
            None => false,
        }
    }

    /// The tools that a request offers: those named, or all of them.
    pub fn assemble_tool_schemas(&self, active: Option<&Vec<String>>) -> (r: Vec<ToolSchema>)
        ensures
            schemas_view(r@) == (match active {
                Some(names) => schemas_named(
                    self.specs(),
                    text::texts(names@),
                    names@.len() as int,
                ),
                None => schemas_named(
                    self.specs(),
                    spec_names(self.specs()),
                    self.specs().len() as int,
                ),
            }),
    {
        match active {
            Some(names) => self.schemas_for(names),
            None => {
                let names = self.names();
                assert(text::texts(names@).len() == names@.len());
                self.schemas_for(&names)
            },
        }
    }

    fn schemas_for(&self, names: &Vec<String>) -> (r: Vec<ToolSchema>)
        ensures
            schemas_view(r@) == schemas_named(
                self.specs(),
                text::texts(names@),
                names@.len() as int,
            ),
    {
        let mut r: Vec<ToolSchema> = Vec::new();
        let mut i: usize = 0;
        while i < names.len()
            invariant
                i <= names.len(),
                schemas_view(r@) == schemas_named(self.specs(), text::texts(names@), i as int),
            decreases names.len() - i,
        {
            let ghost before = r@;
            if let Some(t) = self.get(&names[i]) {
                let s = ToolSchema {
                    name: t.name.clone(),
                    description: t.description.clone(),
                    parameters: t.parameters.clone(),
                };
                r.push(s);
                assert(schemas_view(r@) =~= schemas_view(before).push(s@));
            }
            i += 1;
        }
        r
    }
}

} // verus!
