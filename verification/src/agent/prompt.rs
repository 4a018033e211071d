//! The parts of a request that are put together anew for every step.

use crate::agent::hooks::RequestPatch;
use crate::json;
use crate::json::{Json, JsonV};
use crate::text;
use vstd::prelude::*;

verus! {

/// A day of the week.
#[derive(Debug, Clone, Copy, PartialEq, Eq, Structural)]
pub enum Weekday {
    Mon,
    Tue,
    Wed,
    Thu,
    Fri,
    Sat,
    Sun,
}

impl Weekday {
    pub open spec fn sign(self) -> Seq<char> {
        match self {
            Weekday::Mon => "一"@,
            Weekday::Tue => "二"@,
            Weekday::Wed => "三"@,
            Weekday::Thu => "四"@,
            Weekday::Fri => "五"@,
            Weekday::Sat => "六"@,
            Weekday::Sun => "日"@,
        }
    }

    pub fn as_str(&self) -> (r: &'static str)
        ensures
            r@ == self.sign(),
    {
        match self {
            Weekday::Mon => "一",
            Weekday::Tue => "二",
            Weekday::Wed => "三",
            Weekday::Thu => "四",
            Weekday::Fri => "五",
            Weekday::Sat => "六",
            Weekday::Sun => "日",
        }
    }
}

/// The local time: date and time to the minute, day of the week, offset from UTC.
#[derive(Debug, PartialEq, Eq)]
pub struct LocalClock {
    pub date_time: String,
    pub weekday: Weekday,
    pub offset: String,
}

/// What the model is told of the time.
pub open spec fn time_text(c: LocalClock) -> Seq<char> {
    "[当前时间] 本地时间 "@ + c.date_time@ + "（星期"@ + c.weekday.sign() + "，"@ + c.offset@
        + "）。用户说“今天/现在/明天/后天/本周/本月”等相对时间时一律以此为准，禁止自行推算或猜测日期。"@
}

/// The system prompt with the texts of the first `n` hooks that have any.
pub open spec fn prompt_with_patches(base: Seq<char>, patches: Seq<RequestPatch>, n: int) -> Seq<
    char,
>
    decreases n,
{
    if n <= 0 {
        base
    } else {
        let before = prompt_with_patches(base, patches, n - 1);
        match patches[n - 1].preamble_override {
            Some(p) => if text::trim(p@).len() == 0 {
                before
            } else {
                before + "\n\n"@ + p@
            },
            None => before,
        }
    }
}

/// What the model is told when its calls run out.
pub open spec fn budget_text(max_turns: nat, remaining: nat) -> Seq<char> {
    "\n\n[预算提醒] 本次请求的模型调用预算为 "@ + text::nat_text(max_turns) + " 轮，当前已到最后 "@
        + text::nat_text(
        if remaining == 0 {
            1
        } else {
            remaining
        },
    )
        + " 轮。请停止调用任何工具，直接基于已有信息生成最终答案；如果信息不足，请如实说明缺口。"@
}

/// The system text of a request: the time, the prompt with what the hooks add, and a
/// reminder where no more than `threshold` calls are left.
pub open spec fn system_text(
    base: Seq<char>,
    patches: Seq<RequestPatch>,
    clock: LocalClock,
    max_turns: nat,
    remaining: nat,
    threshold: nat,
) -> Seq<char> {
    let prompt = time_text(clock) + "\n\n"@ + prompt_with_patches(
        base,
        patches,
        patches.len() as int,
    );
    if remaining <= threshold {
        prompt + budget_text(max_turns, remaining)
    } else {
        prompt
    }
}

pub fn assemble_system(
    base: &str,
    patches: &Vec<RequestPatch>,
    clock: &LocalClock,
    max_turns: usize,
    remaining: usize,
    threshold: usize,
) -> (r: String)
    ensures
        r@ == system_text(
            base@,
            patches@,
            *clock,
            max_turns as nat,
            remaining as nat,
            threshold as nat,
        ),
{
    let mut prompt = base.to_owned();
    let mut i: usize = 0;
    while i < patches.len()
        invariant
            i <= patches.len(),
            prompt@ == prompt_with_patches(base@, patches@, i as int),
        decreases patches.len() - i,
    {
        if let Some(p) = &patches[i].preamble_override {
            if !text::trim_space(p).as_str().is_empty() {
                prompt.push_str("\n\n");
                prompt.push_str(p);
            }
        }
        i += 1;
    }
    let mut r = "[当前时间] 本地时间 ".to_owned();
    r.push_str(&clock.date_time);
    r.push_str("（星期");
    r.push_str(clock.weekday.as_str());
    r.push_str("，");
    r.push_str(&clock.offset);
    r.push_str(
        "）。用户说“今天/现在/明天/后天/本周/本月”等相对时间时一律以此为准，禁止自行推算或猜测日期。",
    );
    r.push_str("\n\n");
    r.push_str(&prompt);
    if remaining <= threshold {
        let mut b = "\n\n[预算提醒] 本次请求的模型调用预算为 ".to_owned();
        b.push_str(&text::u64_text(max_turns as u64));
        b.push_str(" 轮，当前已到最后 ");
        let shown: u64 = if remaining == 0 {
            1
        } else {
            remaining as u64
        };
        b.push_str(&text::u64_text(shown));
        b.push_str(
            " 轮。请停止调用任何工具，直接基于已有信息生成最终答案；如果信息不足，请如实说明缺口。",
        );
        r.push_str(&b);
    }
    r
}

/// The tools that the last of the first `n` hooks with a say narrows the request to.
pub open spec fn tools_named(patches: Seq<RequestPatch>, n: int) -> Option<Seq<Seq<char>>>
    decreases n,
{
    if n <= 0 {
        None
    } else {
        match patches[n - 1].active_tools {
            Some(names) => Some(text::texts(names@)),
            None => tools_named(patches, n - 1),
        }
    }
}

pub fn active_tools(patches: &Vec<RequestPatch>) -> (r: Option<&Vec<String>>)
    ensures
        match r {
            Some(names) => tools_named(patches@, patches@.len() as int) == Some(
                text::texts(names@),
            ),
            None => tools_named(patches@, patches@.len() as int) is None,
        },
{
    let mut i: usize = patches.len();
    while i > 0
        invariant
            i <= patches.len(),
            tools_named(patches@, patches@.len() as int) == tools_named(patches@, i as int),
        decreases i,
    {
        if let Some(names) = &patches[i - 1].active_tools {
            return Some(names);
        }
        i -= 1;
    }
    None
}

/// Two sets of extra fields put together: fields of the second replace those of the
/// first, where both are objects; else the first stays.
pub open spec fn merged(a: Option<JsonV>, b: Option<JsonV>) -> Option<JsonV> {
    match (a, b) {
        (None, _) => b,
        (Some(JsonV::Object(x)), Some(JsonV::Object(y))) => Some(
            JsonV::Object(json::with_members(x, y, y.len() as int)),
        ),
        _ => a,
    }
}

/// The extra fields that the first `n` hooks ask for.
pub open spec fn extra_fields(patches: Seq<RequestPatch>, n: int) -> Option<JsonV>
    decreases n,
{
    if n <= 0 {
        None
    } else {
        merged(extra_fields(patches, n - 1), json::opt_view(patches[n - 1].extra_params))
    }
}

fn merge(a: Option<Json>, b: Option<Json>) -> (r: Option<Json>)
    ensures
        json::opt_view(r) == merged(json::opt_view(a), json::opt_view(b)),
{
    match (a, b) {
        (None, b) => b,
        (Some(Json::Object(x)), Some(Json::Object(y))) => {
            proof {
                json::lemma_json_view(Json::Object(x));
                json::lemma_json_view(Json::Object(y));
            }
            let mut x = x;
            json::set_members(&mut x, &y);
            Some(json::object(x))
        },
        (a, _) => a,
    }
}

fn clone_opt(o: &Option<Json>) -> (r: Option<Json>)
    ensures
        json::opt_view(r) == json::opt_view(*o),
{
    match o {
        Some(j) => Some(j.clone()),
        None => None,
    }
}

pub fn extra_params(patches: &Vec<RequestPatch>) -> (r: Option<Json>)
    ensures
        json::opt_view(r) == extra_fields(patches@, patches@.len() as int),
{
    let mut r: Option<Json> = None;
    let mut i: usize = 0;
    while i < patches.len()
        invariant
            i <= patches.len(),
            json::opt_view(r) == extra_fields(patches@, i as int),
        decreases patches.len() - i,
    {
        r = merge(r, clone_opt(&patches[i].extra_params));
        i += 1;
    }
    r
}

} // verus!
