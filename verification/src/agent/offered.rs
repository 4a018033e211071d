//! Which tools are offered to a model.

use crate::agent::tool;
use crate::agent::tool::{ToolError, ToolSchemaV, ToolSpec};
use crate::agent::tool_calls;
use crate::agent::tool_calls::ToolValue;
use crate::agent::types::{ToolCall, ToolCallV};
use vstd::prelude::*;

verus! {

/// Whether the model sees the tool as it is.
pub open spec fn is_schema_of(t: ToolSpec, s: ToolSchemaV) -> bool {
    s.name == t.name@ && s.description == t.description@ && s.parameters == t.parameters@
}

/// Whether a tool has the name.
pub open spec fn is_tool(specs: Seq<ToolSpec>, name: Seq<char>) -> bool {
    exists|i: int| 0 <= i < specs.len() && (#[trigger] specs[i]).name@ == name
}

proof fn lemma_tool_index(specs: Seq<ToolSpec>, name: Seq<char>, i: int)
    requires
        0 <= i,
    ensures
        match tool::tool_index(specs, name, i) {
            Some(k) => i <= k < specs.len() && specs[k].name@ == name && forall|j: int|
                i <= j < k ==> (#[trigger] specs[j]).name@ != name,
            None => forall|j: int| i <= j < specs.len() ==> (#[trigger] specs[j]).name@ != name,
        },
    decreases specs.len() - i,
{
    if i < specs.len() && specs[i].name@ != name {
        lemma_tool_index(specs, name, i + 1);
    }
}

/// The tools that are offered are those that are named, as they are, in the order of the
/// names; every name of a tool brings it, and other names bring nothing.
pub proof fn law_the_named_tools_are_offered(specs: Seq<ToolSpec>, names: Seq<Seq<char>>, n: int)
    requires
        0 <= n <= names.len(),
    ensures
        ({
            let r = tool::schemas_named(specs, names, n);
            &&& r.len() == names.take(n).filter(|x: Seq<char>| is_tool(specs, x)).len()
            &&& forall|k: int|
                0 <= k < r.len() ==> (#[trigger] r[k]).name == names.take(n).filter(
                    |x: Seq<char>| is_tool(specs, x),
                )[k] && exists|i: int| 0 <= i < specs.len() && is_schema_of(#[trigger] specs[i], r[k])
        }),
    decreases n,
{
    reveal(Seq::filter);
    let p = |x: Seq<char>| is_tool(specs, x);
    if n > 0 {
        let before = tool::schemas_named(specs, names, n - 1);
        let r = tool::schemas_named(specs, names, n);
        law_the_named_tools_are_offered(specs, names, n - 1);
        lemma_tool_index(specs, names[n - 1], 0);
        assert(names.take(n).drop_last() =~= names.take(n - 1));
        assert(names.take(n).last() == names[n - 1]);
        match tool::tool_index(specs, names[n - 1], 0) {
            Some(i) => {
                assert(specs[i].name@ == names[n - 1]);
                assert(p(names[n - 1]));
                assert(is_schema_of(specs[i], r[r.len() - 1]));
            },
            None => {
                assert(!p(names[n - 1]));
            },
        }
        assert forall|k: int| 0 <= k < r.len() implies exists|i: int|
            0 <= i < specs.len() && is_schema_of(#[trigger] specs[i], #[trigger] r[k]) by {
            if k < before.len() {
                assert(r[k] == before[k]);
            } else {
                let i = tool::tool_index(specs, names[n - 1], 0)->0;
                assert(is_schema_of(specs[i], r[k]));
            }
        }
    }
}

/// A call is answered under its own id: with what the tool gave where it ended well, and
/// else with an error that says why.
pub proof fn law_a_call_is_answered_under_its_id(
    call: ToolCallV,
    outcome: Result<ToolValue, ToolError>,
)
    ensures
        ({
            let r = tool_calls::answered(call, outcome);
            &&& r.call == call && r.result.call_id == call.id
            &&& r.result.is_error <==> outcome is Err
            &&& outcome matches Ok(v) ==> r.result.content == v.content()
            &&& outcome matches Err(e) ==> r.result.content == e.message()
        }),
{
}

/// A call may run beside others just where its tool is there and says so.
pub proof fn law_only_safe_tools_run_beside_others(specs: Seq<ToolSpec>, calls: Seq<ToolCall>, i: int)
    requires
        0 <= i < calls.len(),
        forall|a: int, b: int|
            0 <= a < b < specs.len() ==> (#[trigger] specs[a]).name@ != (#[trigger] specs[b]).name@,
    ensures
        tool_calls::safe_flags(specs, calls).len() == calls.len(),
        tool_calls::safe_flags(specs, calls)[i] <==> exists|k: int|
            0 <= k < specs.len() && (#[trigger] specs[k]).name@ == calls[i].name@
                && specs[k].concurrency_safe,
{
    lemma_tool_index(specs, calls[i].name@, 0);
    if exists|k: int|
        0 <= k < specs.len() && (#[trigger] specs[k]).name@ == calls[i].name@
            && specs[k].concurrency_safe {
        let k = choose|k: int|
            0 <= k < specs.len() && (#[trigger] specs[k]).name@ == calls[i].name@
                && specs[k].concurrency_safe;
        let j = tool::tool_index(specs, calls[i].name@, 0)->0;
        if j < k {
            assert(specs[j].name@ != specs[k].name@);
        }
    }
}

} // verus!
