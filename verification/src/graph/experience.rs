//! Experience: events of the past, the problems and solutions in them, and how they are
//! found again.

use crate::graph::ids;
use crate::graph::model;
use crate::graph::model::{GraphNode, NodeType, Relation};
use crate::graph::store;
use crate::graph::store::{GraphStore, PropertyRow};
use crate::graph::views;
use crate::graph::views::{GraphV, NodeV};
use crate::json;
use crate::json::{FlatMember, FlatV, Scalar, ScalarV};
use crate::rows;
use crate::text;
use crate::text::CharClass;
use vstd::prelude::*;

verus! {

/// Where an event comes from.
#[derive(Debug, Clone, Copy, PartialEq, Eq, Structural)]
pub enum EventSource {
    GitCommit,
    AiOperation,
    ChatMessage,
}

impl EventSource {
    pub open spec fn name(&self) -> Seq<char> {
        match self {
            EventSource::GitCommit => "git_commit"@,
            EventSource::AiOperation => "ai_operation"@,
            EventSource::ChatMessage => "chat_message"@,
        }
    }

    /// The source of the name; an unknown name is taken for a message.
    pub open spec fn named(s: Seq<char>) -> EventSource {
        if s == "git_commit"@ {
            EventSource::GitCommit
        } else if s == "ai_operation"@ {
            EventSource::AiOperation
        } else {
            EventSource::ChatMessage
        }
    }

    pub fn as_str(&self) -> (r: &'static str)
        ensures
            r@ == self.name(),
    {
        match self {
            EventSource::GitCommit => "git_commit",
            EventSource::AiOperation => "ai_operation",
            EventSource::ChatMessage => "chat_message",
        }
    }

    pub fn from_str(s: &str) -> (r: EventSource)
        ensures
            r == EventSource::named(s@),
    {
        if text::str_eq(s, "git_commit") {
            EventSource::GitCommit
        } else if text::str_eq(s, "ai_operation") {
            EventSource::AiOperation
        } else {
            EventSource::ChatMessage
        }
    }
}

/// Every source is the one that its name stands for.
pub proof fn law_event_source_round_trip(s: EventSource)
    ensures
        EventSource::named(s.name()) == s,
{
    reveal_strlit("git_commit");
    reveal_strlit("ai_operation");
    reveal_strlit("chat_message");
    assert("git_commit"@[0] == 'g');
    assert("ai_operation"@[0] == 'a');
    assert("chat_message"@[0] == 'c');
}

/// An event.
#[derive(Debug, PartialEq, Eq)]
pub struct ExperienceEvent {
    pub id: String,
    pub source: EventSource,
    pub title: String,
    pub body: String,
    pub file_path: Option<String>,
    pub created_at: i64,
}

pub struct EventV {
    pub id: Seq<char>,
    pub source: EventSource,
    pub title: Seq<char>,
    pub body: Seq<char>,
    pub file_path: Option<Seq<char>>,
    pub created_at: i64,
}

impl ExperienceEvent {
    pub open spec fn view(&self) -> EventV {
        EventV {
            id: self.id@,
            source: self.source,
            title: self.title@,
            body: self.body@,
            file_path: store::opt_view(self.file_path),
            created_at: self.created_at,
        }
    }
}

impl Clone for ExperienceEvent {
    fn clone(&self) -> (r: Self)
        ensures
            r == *self,
    {
        ExperienceEvent {
            id: self.id.clone(),
            source: self.source,
            title: self.title.clone(),
            body: self.body.clone(),
            file_path: model::clone_opt(&self.file_path),
            created_at: self.created_at,
        }
    }
}

/// An event that is like what is asked for. The score is in millionths.
#[derive(Debug, PartialEq, Eq)]
pub struct ExperienceHit {
    pub event: ExperienceEvent,
    pub problem: String,
    pub solution: String,
    pub doc_path: Option<String>,
    pub score: u32,
}

// ---- Problems and solutions

/// The words that begin a problem, in the order in which they are looked for.
pub open spec fn problem_words() -> Seq<Seq<char>> {
    seq![
        "修复"@,
        "解决"@,
        "优化"@,
        "重构"@,
        "问题"@,
        "避免"@,
        "fix"@,
        "resolve"@,
        "fixes"@,
        "optimize"@,
        "refactor"@,
        "bug"@,
        "error"@,
        "穿透"@,
        "失败"@,
    ]
}

/// The title from the first of the words, from the `i`th on, that stands in it.
pub open spec fn from_word(title: Seq<char>, words: Seq<Seq<char>>, i: int) -> Option<Seq<char>>
    decreases words.len() - i,
{
    if i < 0 || i >= words.len() {
        None
    } else {
        match text::find(title, words[i]) {
            Some(k) => Some(text::trim(title.skip(k))),
            None => from_word(title, words, i + 1),
        }
    }
}

/// The problem that a title speaks of: from a word that begins one, else all of it.
pub open spec fn problem_in(title: Seq<char>) -> Seq<char> {
    match from_word(title, problem_words(), 0) {
        Some(p) => if p.len() > 0 {
            p
        } else {
            text::trim(title)
        },
        None => text::trim(title),
    }
}

/// The first line, from the `i`th on, that is not blank.
pub open spec fn first_line(lines: Seq<Seq<char>>, i: int) -> Seq<char>
    decreases lines.len() - i,
{
    if i < 0 || i >= lines.len() {
        Seq::empty()
    } else if text::trim(lines[i]).len() > 0 {
        text::trim(lines[i])
    } else {
        first_line(lines, i + 1)
    }
}

/// The solution: the first line of the body, or the title where there is none.
pub open spec fn solution_in(title: Seq<char>, body: Seq<char>) -> Seq<char> {
    let line = first_line(text::lines(body), 0);
    if line.len() == 0 {
        text::trim(title)
    } else {
        line
    }
}

fn words_of_problems() -> (r: Vec<&'static str>)
    ensures
        r@.len() == problem_words().len(),
        forall|i: int| 0 <= i < r@.len() ==> (#[trigger] r@[i])@ == problem_words()[i],
{
    let r: Vec<&'static str> = vec![
        "修复",
        "解决",
        "优化",
        "重构",
        "问题",
        "避免",
        "fix",
        "resolve",
        "fixes",
        "optimize",
        "refactor",
        "bug",
        "error",
        "穿透",
        "失败",
    ];
    r
}

fn problem_of(title: &str) -> (r: String)
    ensures
        r@ == problem_in(title@),
{
    let words = words_of_problems();
    let cs = text::chars_of(title);
    let ghost ws = problem_words();
    let mut i: usize = 0;
    while i < words.len()
        invariant
            i <= words.len(),
            ws == problem_words(),
            words@.len() == ws.len(),
            cs@ == title@,
            forall|k: int| 0 <= k < words@.len() ==> (#[trigger] words@[k])@ == ws[k],
            from_word(title@, ws, 0) == from_word(title@, ws, i as int),
        decreases words.len() - i,
    {
        let w = text::chars_of(words[i]);
        if let Some(k) = text::find_at(&cs, &w, 0) {
            let rest = text::slice_text(&cs, k, cs.len());
            assert(rest@ =~= title@.skip(k as int));
            let p = text::trim_space(&rest);
            if text::chars_of(&p).len() > 0 {
                return p;
            }
            return text::trim_space(title);
        }
        i += 1;
    }
    text::trim_space(title)
}

fn solution_of(title: &str, body: &str) -> (r: String)
    ensures
        r@ == solution_in(title@, body@),
{
    let ls = text::lines_of(body);
    let ghost lines = text::lines(body@);
    assert(text::texts(ls@).len() == ls@.len());
    let mut i: usize = 0;
    while i < ls.len()
        invariant
            i <= ls.len(),
            lines == text::lines(body@),
            lines == text::texts(ls@),
            first_line(lines, 0) == first_line(lines, i as int),
        decreases ls.len() - i,
    {
        let t = text::trim_space(&ls[i]);
        if text::chars_of(&t).len() > 0 {
            return t;
        }
        i += 1;
    }
    text::trim_space(title)
}

// ---- Likeness

/// The words of the first `n` parts that count.
pub open spec fn words_in(parts: Seq<Seq<char>>, n: int) -> Seq<Seq<char>>
    decreases n,
{
    if n <= 0 {
        Seq::empty()
    } else {
        let before = words_in(parts, n - 1);
        let w = text::lowercase(text::trim(parts[n - 1]));
        if text::byte_size(w) >= 2 {
            before.push(w)
        } else {
            before
        }
    }
}

/// The words of a text by which it is compared.
pub open spec fn keywords_of(s: Seq<char>) -> Seq<Seq<char>> {
    let parts = text::split_by(s, text::non_word());
    words_in(parts, parts.len() as int)
}

/// How many of the first `n` words stand in the text.
pub open spec fn word_hits(words: Seq<Seq<char>>, lower: Seq<char>, n: int) -> nat
    decreases n,
{
    if n <= 0 {
        0
    } else {
        word_hits(words, lower, n - 1) + if text::contains(lower, words[n - 1]) {
            1nat
        } else {
            0
        }
    }
}

pub open spec fn hits_in(words: Seq<Seq<char>>, s: Seq<char>) -> nat {
    word_hits(words, text::lowercase(s), words.len() as int)
}

/// Which part of the words stand in the text, in millionths.
pub open spec fn score_of(words: Seq<Seq<char>>, s: Seq<char>) -> int {
    if words.len() == 0 {
        0
    } else {
        hits_in(words, s) as int * model::WHOLE as int / words.len() as int
    }
}

fn count_hits(words: &Vec<String>, s: &str) -> (n: usize)
    ensures
        n == hits_in(text::texts(words@), s@),
        n <= words@.len(),
{
    let lower = text::to_lower(s);
    let ghost ws = text::texts(words@);
    assert(ws.len() == words@.len());
    let mut n: usize = 0;
    let mut i: usize = 0;
    while i < words.len()
        invariant
            i <= words.len(),
            ws == text::texts(words@),
            n <= i,
            n == word_hits(ws, lower@, i as int),
        decreases words.len() - i,
    {
        if text::has_text(&lower, &words[i]) {
            n += 1;
        }
        i += 1;
    }
    n
}

// ---- Names

/// One step over a byte of the hash.
pub open spec fn hash_of(bytes: Seq<u8>, n: int) -> u64
    decreases n,
{
    if n <= 0 {
        0xcbf29ce484222325
    } else {
        (hash_of(bytes, n - 1) ^ (bytes[n - 1] as u64)).wrapping_mul(0x100000001b3)
    }
}

/// The hash of a text, in hexadecimal.
pub open spec fn hash_text(s: Seq<char>) -> Seq<char> {
    let bytes = vstd::utf8::encode_utf8(s);
    text::hex_text(hash_of(bytes, bytes.len() as int) as nat)
}

fn hash_string(s: &str) -> (r: String)
    ensures
        r@ == hash_text(s@),
{
    let bytes = s.as_bytes();
    let mut h: u64 = 0xcbf29ce484222325;
    let mut i: usize = 0;
    while i < bytes.len()
        invariant
            i <= bytes.len(),
            bytes@ == vstd::utf8::encode_utf8(s@),
            h == hash_of(bytes@, i as int),
        decreases bytes.len() - i,
    {
        h = (h ^ (bytes[i] as u64)).wrapping_mul(0x100000001b3);
        i += 1;
    }
    text::u64_hex(h)
}

pub open spec fn problem_id(problem: Seq<char>) -> Seq<char> {
    "experience:problem:"@ + hash_text(problem)
}

pub open spec fn solution_id(solution: Seq<char>) -> Seq<char> {
    "experience:solution:"@ + hash_text(solution)
}

pub open spec fn event_id(id: Seq<char>) -> Seq<char> {
    "experience:event:"@ + id
}

pub open spec fn kind_meta(kind: Seq<char>, s: Seq<char>) -> Seq<char> {
    "{\"kind\":\""@ + kind + "\",\"text\":"@ + json::json_quoted(s) + "}"@
}

pub open spec fn event_meta(e: EventV) -> Seq<char> {
    "{\"kind\":\"event\",\"source\":\""@ + e.source.name() + "\",\"created_at\":"@ + text::int_text(
        if e.created_at < 1 {
            1
        } else {
            e.created_at as int
        },
    ) + "}"@
}

pub open spec fn problem_node(problem: Seq<char>) -> NodeV {
    views::plain_node(
        problem_id(problem),
        NodeType::Experience,
        text::ellipsized(problem, 80),
        None,
        Some(kind_meta("problem"@, problem)),
        None,
    )
}

pub open spec fn solution_node(solution: Seq<char>) -> NodeV {
    views::plain_node(
        solution_id(solution),
        NodeType::Experience,
        text::ellipsized(solution, 80),
        None,
        Some(kind_meta("solution"@, solution)),
        None,
    )
}

pub open spec fn event_node(e: EventV) -> NodeV {
    views::plain_node(
        event_id(e.id),
        NodeType::Experience,
        text::ellipsized(e.title, 60),
        e.file_path,
        Some(event_meta(e)),
        None,
    )
}

/// The graph with a problem, its solution, the file in which it was solved and the event.
pub open spec fn with_experience(
    g: GraphV,
    e: EventV,
    problem: Seq<char>,
    solution: Seq<char>,
    now: i64,
) -> GraphV {
    let pid = problem_id(problem);
    let sid = solution_id(solution);
    let one = views::put_node(
        views::put_node(g, problem_node(problem), now),
        solution_node(solution),
        now,
    );
    let two = views::put_whole_edge(one, pid, sid, Relation::SolvedBy, e.id, now);
    let three = match e.file_path {
        Some(f) => views::put_whole_edge(
            two,
            sid,
            ids::node_id(NodeType::Doc, f),
            Relation::ImplementedIn,
            e.id,
            now,
        ),
        None => two,
    };
    views::put_whole_edge(
        views::put_node(three, event_node(e), now),
        sid,
        event_id(e.id),
        Relation::ValidatedBy,
        e.id,
        now,
    )
}

/// Whether there is something to be written into the graph.
pub open spec fn is_experience(problem: Seq<char>, solution: Seq<char>) -> bool {
    text::trim(problem).len() > 0 && text::trim(solution).len() > 0
}

// ---- Events as text

/// The members of an event.
pub open spec fn event_members(e: EventV) -> Seq<FlatV> {
    seq![
        FlatV { key: "id"@, value: ScalarV::Text(e.id) },
        FlatV { key: "source"@, value: ScalarV::Text(e.source.name()) },
        FlatV { key: "title"@, value: ScalarV::Text(e.title) },
        FlatV { key: "body"@, value: ScalarV::Text(e.body) },
        FlatV {
            key: "file_path"@,
            value: match e.file_path {
                Some(p) => ScalarV::Text(p),
                None => ScalarV::Null,
            },
        },
        FlatV { key: "created_at"@, value: ScalarV::Number(e.created_at) },
    ]
}

/// An event as text.
pub open spec fn event_text(e: EventV) -> Seq<char> {
    json::json_flat(event_members(e))
}

/// The source of exactly this name.
pub open spec fn exact_source(s: Seq<char>) -> Option<EventSource> {
    if s == "git_commit"@ {
        Some(EventSource::GitCommit)
    } else if s == "ai_operation"@ {
        Some(EventSource::AiOperation)
    } else if s == "chat_message"@ {
        Some(EventSource::ChatMessage)
    } else {
        None
    }
}

/// The event that a text is.
pub open spec fn event_in(t: Seq<char>) -> Option<EventV> {
    let file_known = json::json_null(t, "/file_path"@) || json::json_str(t, "/file_path"@) is Some;
    let source = match json::json_str(t, "/source"@) {
        Some(s) => exact_source(s),
        None => None,
    };
    match (
        json::json_str(t, "/id"@),
        source,
        json::json_str(t, "/title"@),
        json::json_str(t, "/body"@),
        json::json_i64(t, "/created_at"@),
    ) {
        (Some(id), Some(source), Some(title), Some(body), Some(created_at)) => if file_known {
            Some(
                EventV {
                    id,
                    source,
                    title,
                    body,
                    file_path: json::json_str(t, "/file_path"@),
                    created_at,
                },
            )
        } else {
            None
        },
        _ => None,
    }
}

fn text_member(key: &str, value: &str) -> (r: FlatMember)
    ensures
        json::flat_view(r) == (FlatV { key: key@, value: ScalarV::Text(value@) }),
{
    FlatMember { key: key.to_owned(), value: Scalar::Text(value.to_owned()) }
}

fn write_event(e: &ExperienceEvent) -> (r: String)
    ensures
        r@ == event_text(e.view()),
        event_in(r@) == Some(e.view()),
{
    let mut ms: Vec<FlatMember> = Vec::new();
    ms.push(text_member("id", &e.id));
    ms.push(text_member("source", e.source.as_str()));
    ms.push(text_member("title", &e.title));
    ms.push(text_member("body", &e.body));
    match &e.file_path {
        Some(p) => {
            ms.push(text_member("file_path", p));
        },
        None => {
            ms.push(FlatMember { key: "file_path".to_owned(), value: Scalar::Null });
        },
    }
    ms.push(FlatMember { key: "created_at".to_owned(), value: Scalar::Number(e.created_at) });
    let ghost vs = event_members(e.view());
    assert(json::flat_views(ms@) =~= vs);
    let r = json::write_flat(&ms);
    proof {
        lemma_event_members(e.view());
        lemma_event_pointers();
        assert(json::reads_back(r@, vs[0]));
        assert(json::reads_back(r@, vs[1]));
        assert(json::reads_back(r@, vs[2]));
        assert(json::reads_back(r@, vs[3]));
        assert(json::reads_back(r@, vs[4]));
        assert(json::reads_back(r@, vs[5]));
        lemma_exact_source(e.source);
    }
    r
}

proof fn lemma_exact_source(s: EventSource)
    ensures
        exact_source(s.name()) == Some(s),
{
    law_event_source_round_trip(s);
    reveal_strlit("git_commit");
    reveal_strlit("ai_operation");
    reveal_strlit("chat_message");
    assert("git_commit"@[0] == 'g');
    assert("ai_operation"@[0] == 'a');
    assert("chat_message"@[0] == 'c');
}

proof fn lemma_event_pointers()
    ensures
        "/"@ + "id"@ == "/id"@,
        "/"@ + "source"@ == "/source"@,
        "/"@ + "title"@ == "/title"@,
        "/"@ + "body"@ == "/body"@,
        "/"@ + "file_path"@ == "/file_path"@,
        "/"@ + "created_at"@ == "/created_at"@,
{
    reveal_strlit("/");
    reveal_strlit("id");
    reveal_strlit("source");
    reveal_strlit("title");
    reveal_strlit("body");
    reveal_strlit("file_path");
    reveal_strlit("created_at");
    reveal_strlit("/id");
    reveal_strlit("/source");
    reveal_strlit("/title");
    reveal_strlit("/body");
    reveal_strlit("/file_path");
    reveal_strlit("/created_at");
    assert("/"@ + "id"@ =~= "/id"@);
    assert("/"@ + "source"@ =~= "/source"@);
    assert("/"@ + "title"@ =~= "/title"@);
    assert("/"@ + "body"@ =~= "/body"@);
    assert("/"@ + "file_path"@ =~= "/file_path"@);
    assert("/"@ + "created_at"@ =~= "/created_at"@);
}

proof fn lemma_event_members(e: EventV)
    ensures
        json::are_plain_members(event_members(e)),
{
    reveal_strlit("id");
    reveal_strlit("source");
    reveal_strlit("title");
    reveal_strlit("body");
    reveal_strlit("file_path");
    reveal_strlit("created_at");
    let ms = event_members(e);
    assert("id"@.len() == 2 && "source"@.len() == 6 && "title"@.len() == 5 && "body"@.len() == 4
        && "file_path"@.len() == 9 && "created_at"@.len() == 10);
    assert forall|i: int| 0 <= i < ms.len() implies json::is_plain_key((#[trigger] ms[i]).key) by {
        assert(forall|k: int| 0 <= k < ms[i].key.len() ==> (#[trigger] ms[i].key[k]) != '/' && ms[i].key[k] != '~');
    }
}

fn read_event(t: &str) -> (r: Option<ExperienceEvent>)
    ensures
        match r {
            Some(e) => event_in(t@) == Some(e.view()),
            None => event_in(t@) is None,
        },
{
    let id = json::str_at(t, "/id")?;
    let source_name = json::str_at(t, "/source")?;
    let source = if text::str_eq(&source_name, "git_commit") {
        EventSource::GitCommit
    } else if text::str_eq(&source_name, "ai_operation") {
        EventSource::AiOperation
    } else if text::str_eq(&source_name, "chat_message") {
        EventSource::ChatMessage
    } else {
        return None;
    };
    let title = json::str_at(t, "/title")?;
    let body = json::str_at(t, "/body")?;
    let created_at = json::i64_at(t, "/created_at")?;
    let file_path = json::str_at(t, "/file_path");
    if file_path.is_none() && !json::null_at(t, "/file_path") {
        return None;
    }
    Some(ExperienceEvent { id, source, title, body, file_path, created_at })
}

// ---- The table of properties

/// A property.
pub struct PropV {
    pub key: Seq<char>,
    pub value: Seq<char>,
}

pub open spec fn as_prop() -> spec_fn(PropertyRow) -> PropV {
    |p: PropertyRow| PropV { key: p.key@, value: p.value@ }
}

pub open spec fn props_view(ps: Seq<PropertyRow>) -> Seq<PropV> {
    rows::mapped(ps, as_prop())
}

pub open spec fn prop_key() -> spec_fn(PropV) -> Seq<char> {
    |p: PropV| p.key
}

/// The properties with one set.
pub open spec fn put_prop(ps: Seq<PropV>, key: Seq<char>, value: Seq<char>) -> Seq<PropV> {
    match rows::row_index(ps, prop_key(), key, 0) {
        Some(i) => ps.update(i, PropV { key, value }),
        None => ps.push(PropV { key, value }),
    }
}

/// The key under which an event stands.
pub open spec fn event_key(id: Seq<char>) -> Seq<char> {
    "exp:"@ + id
}

/// The events among the first `n` properties.
pub open spec fn events_in(ps: Seq<PropV>, n: int) -> Seq<EventV>
    decreases n,
{
    if n <= 0 {
        Seq::empty()
    } else {
        let before = events_in(ps, n - 1);
        if text::starts_with(ps[n - 1].key, "exp:"@) {
            match event_in(ps[n - 1].value) {
                Some(e) => before.push(e),
                None => before,
            }
        } else {
            before
        }
    }
}

pub open spec fn events_view(es: Seq<ExperienceEvent>) -> Seq<EventV> {
    Seq::new(es.len(), |i: int| es[i].view())
}

/// Whether two stores differ in nodes, edges, version and properties alone.
pub open spec fn same_but_properties(a: GraphStore, b: GraphStore) -> bool {
    b == (GraphStore {
        nodes: b.nodes,
        edges: b.edges,
        version: b.version,
        properties: b.properties,
        ..a
    })
}

/// An event that fits, with how many of the words it holds.
pub struct HitV {
    pub event: EventV,
    pub problem: Seq<char>,
    pub solution: Seq<char>,
    pub hits: nat,
}

pub open spec fn hit_of(words: Seq<Seq<char>>, e: EventV) -> HitV {
    let problem = problem_in(e.title);
    let solution = solution_in(e.title, e.body);
    HitV { event: e, problem, solution, hits: hits_in(words, problem + " "@ + solution) }
}

/// Whether an event is like what is asked for.
pub open spec fn is_hit(words: Seq<Seq<char>>, e: EventV) -> bool {
    let h = hit_of(words, e);
    h.problem.len() > 0 && h.solution.len() > 0 && h.hits > 0
}

/// The first `n` events that are like what is asked for.
pub open spec fn all_hits(words: Seq<Seq<char>>, es: Seq<EventV>, n: int) -> Seq<HitV>
    decreases n,
{
    if n <= 0 {
        Seq::empty()
    } else {
        let before = all_hits(words, es, n - 1);
        if is_hit(words, es[n - 1]) {
            before.push(hit_of(words, es[n - 1]))
        } else {
            before
        }
    }
}

pub open spec fn hit_keys(hs: Seq<HitV>) -> Seq<Seq<int>> {
    Seq::new(hs.len(), |i: int| seq![-(hs[i].hits as int)])
}

/// The events that are like what is asked for, the likest first, at most `limit` (1 to 50).
pub open spec fn similar(es: Seq<EventV>, problem: Seq<char>, limit: nat) -> Seq<HitV> {
    let words = keywords_of(problem);
    let hs = if words.len() == 0 {
        Seq::empty()
    } else {
        all_hits(words, es, es.len() as int)
    };
    rows::limited(
        rows::rows_at(hs, rows::order_of(hit_keys(hs))),
        if limit < 1 {
            1
        } else if limit > 50 {
            50
        } else {
            limit
        },
    )
}

/// Whether the result is what was found.
pub open spec fn is_shown_hit(r: ExperienceHit, h: HitV, words: Seq<Seq<char>>) -> bool {
    &&& r.event.view() == h.event
    &&& r.problem@ == h.problem
    &&& r.solution@ == h.solution
    &&& store::opt_view(r.doc_path) == h.event.file_path
    &&& r.score == score_of(words, h.problem + " "@ + h.solution)
}

fn kind_meta_of(kind: &str, s: &str) -> (r: String)
    ensures
        r@ == kind_meta(kind@, s@),
{
    let mut r = "{\"kind\":\"".to_owned();
    r.push_str(kind);
    r.push_str("\",\"text\":");
    let q = json::quote(s);
    r.push_str(&q);
    r.push_str("}");
    r
}

fn event_meta_of(e: &ExperienceEvent) -> (r: String)
    ensures
        r@ == event_meta(e.view()),
{
    let mut r = "{\"kind\":\"event\",\"source\":\"".to_owned();
    r.push_str(e.source.as_str());
    r.push_str("\",\"created_at\":");
    let at: i64 = if e.created_at < 1 {
        1
    } else {
        e.created_at
    };
    let t = text::i64_text(at);
    r.push_str(&t);
    r.push_str("}");
    r
}

fn prefixed_id(prefix: &str, rest: &str) -> (r: String)
    ensures
        r@ == prefix@ + rest@,
{
    let mut r = prefix.to_owned();
    r.push_str(rest);
    r
}

fn experience_node(id: &String, name: String, path: Option<String>, meta: String) -> (r: GraphNode)
    ensures
        views::node_view(r) == views::plain_node(
            id@,
            NodeType::Experience,
            name@,
            store::opt_view(path),
            Some(meta@),
            None,
        ),
{
    GraphNode {
        id: id.clone(),
        node_type: NodeType::Experience,
        name,
        path,
        meta: Some(meta),
        degree: None,
        created_at: None,
        content: None,
    }
}

impl GraphStore {
    fn write_experience(&mut self, e: &ExperienceEvent, problem: &str, solution: &str, now: i64)
        requires
            old(self).wf(),
        ensures
            final(self).wf(),
            views::graph_of(*final(self)) == with_experience(
                views::graph_of(*old(self)),
                e.view(),
                problem@,
                solution@,
                now,
            ),
            views::same_rest(*old(self), *final(self)),
    {
        let pid = prefixed_id("experience:problem:", &hash_string(problem));
        let sid = prefixed_id("experience:solution:", &hash_string(solution));
        let p = experience_node(
            &pid,
            text::ellipsize(problem, 80),
            None,
            kind_meta_of("problem", problem),
        );
        self.write_node(&p, now);
        let s = experience_node(
            &sid,
            text::ellipsize(solution, 80),
            None,
            kind_meta_of("solution", solution),
        );
        self.write_node(&s, now);
        self.write_whole_edge(&pid, &sid, Relation::SolvedBy, &e.id, now);
        if let Some(f) = &e.file_path {
            let doc = ids::node_id_for(NodeType::Doc, f);
            self.write_whole_edge(&sid, &doc, Relation::ImplementedIn, &e.id, now);
        }
        let eid = prefixed_id("experience:event:", &e.id);
        let n = experience_node(
            &eid,
            text::ellipsize(&e.title, 60),
            model::clone_opt(&e.file_path),
            event_meta_of(e),
        );
        self.write_node(&n, now);
        self.write_whole_edge(&sid, &eid, Relation::ValidatedBy, &e.id, now);
    }

    fn put_property(&mut self, key: String, value: String)
        requires
            old(self).wf(),
            key@ != store::VERSION_MARKER@,
        ensures
            final(self).wf(),
            props_view(final(self).properties@) == put_prop(
                props_view(old(self).properties@),
                key@,
                value@,
            ),
            *final(self) == (GraphStore { properties: final(self).properties, ..*old(self) }),
    {
        let ghost before = self.properties@;
        let ghost k = key;
        let ghost v = value;
        self.write_property(key, value);
        proof {
            rows::lemma_mapped_index(
                before,
                as_prop(),
                store::property_key(),
                prop_key(),
                k@,
                0,
            );
            rows::lemma_row_index(before, store::property_key(), k@, 0);
            match store::property_index(before, k@) {
                Some(i) => {
                    rows::lemma_mapped_update(
                        before,
                        as_prop(),
                        i,
                        PropertyRow { key: before[i].key, value: v },
                    );
                },
                None => {
                    rows::lemma_mapped_push(before, as_prop(), PropertyRow { key: k, value: v });
                },
            }
        }
    }
}

/// Remembers events and finds them again.
pub struct ExperienceBrain<'a> {
    pub store: &'a mut GraphStore,
}

impl<'a> ExperienceBrain<'a> {
    pub fn new(store: &'a mut GraphStore) -> (r: Self)
        ensures
            *r.store == *old(store),
            *final(r.store) == *final(store),
    {
        ExperienceBrain { store }
    }

    /// The graph as it is.
    pub open spec fn graph(&self) -> GraphStore {
        *self.store
    }

    /// Records an event, with the problem and the solution that its texts give by rules.
    pub fn record(&mut self, event: &ExperienceEvent, now: i64)
        requires
            old(self).store.wf(),
        ensures
            is_recorded(
                *old(self).store,
                *final(self).store,
                event.view(),
                problem_in(event.title@),
                solution_in(event.title@, event.body@),
                now,
            ),
            *final(final(self).store) == *final(old(self).store),
    {
        let parts = Self::rule_extract(&event.title, &event.body);
        self.record_extracted(event, &parts.0, &parts.1, now);
    }

    /// Records an event with a problem and a solution. Without one of the two the event is
    /// remembered and nothing is written into the graph.
    pub fn record_extracted(
        &mut self,
        event: &ExperienceEvent,
        problem: &str,
        solution: &str,
        now: i64,
    )
        requires
            old(self).store.wf(),
        ensures
            is_recorded(
                *old(self).store,
                *final(self).store,
                event.view(),
                problem@,
                solution@,
                now,
            ),
            *final(final(self).store) == *final(old(self).store),
    {
        let key = prefixed_id("exp:", &event.id);
        let value = write_event(event);
        proof {
            reveal_strlit("exp:");
            reveal_strlit("graph_version");
            assert(key@[0] == 'e');
        }
        self.store.put_property(key, value);
        let p = text::trim_space(problem);
        let s = text::trim_space(solution);
        if text::chars_of(&p).len() == 0 || text::chars_of(&s).len() == 0 {
            return ;
        }
        self.store.write_experience(event, problem, solution, now);
    }

    /// All events that are remembered.
    pub fn all_events(&self) -> (r: Vec<ExperienceEvent>)
        ensures
            events_view(r@) == events_in(
                props_view(self.graph().properties@),
                self.graph().properties@.len() as int,
            ),
    {
        let ghost ps = props_view(self.store.properties@);
        let mut out: Vec<ExperienceEvent> = Vec::new();
        let mut i: usize = 0;
        assert(events_view(out@) =~= Seq::empty());
        while i < self.store.properties.len()
            invariant
                i <= self.store.properties.len(),
                ps == props_view(self.store.properties@),
                events_view(out@) == events_in(ps, i as int),
            decreases self.store.properties.len() - i,
        {
            assert(ps[i as int] == as_prop()(self.store.properties@[i as int]));
            if text::has_prefix(&self.store.properties[i].key, "exp:") {
                if let Some(e) = read_event(&self.store.properties[i].value) {
                    let ghost before = out@;
                    let ghost v = e.view();
                    out.push(e);
                    assert(events_view(out@) =~= events_view(before).push(v));
                }
            }
            i += 1;
        }
        out
    }

    /// The events that are like a problem, the likest first, at most `limit` (1 to 50).
    pub fn search_similar(&self, problem: &str, limit: usize) -> (r: Vec<ExperienceHit>)
        ensures
            ({
                let es = events_in(
                    props_view(self.graph().properties@),
                    self.graph().properties@.len() as int,
                );
                let want = similar(es, problem@, limit as nat);
                &&& r@.len() == want.len()
                &&& forall|i: int|
                    0 <= i < r@.len() ==> is_shown_hit(
                        #[trigger] r@[i],
                        want[i],
                        keywords_of(problem@),
                    )
            }),
    {
        let events = self.all_events();
        let ghost es = events_view(events@);
        let words = Self::keywords(problem);
        let ghost ws = keywords_of(problem@);
        assert(text::texts(words@).len() == words@.len());
        let mut hits: Vec<ExperienceHit> = Vec::new();
        let mut keys: Vec<Vec<i128>> = Vec::new();
        let ghost mut found: Seq<HitV> = Seq::empty();
        let mut i: usize = 0;
        if words.len() > 0 {
            while i < events.len()
                invariant
                    i <= events.len(),
                    words@.len() > 0,
                    es == events_view(events@),
                    ws == text::texts(words@),
                    found == all_hits(ws, es, i as int),
                    hits@.len() == found.len(),
                    keys@.len() == found.len(),
                    forall|k: int|
                        0 <= k < found.len() ==> is_shown_hit(#[trigger] hits@[k], found[k], ws),
                    forall|k: int|
                        0 <= k < found.len() ==> rows::key_view(#[trigger] keys@[k]@) == seq![
                            -(found[k].hits as int),
                        ],
                decreases events.len() - i,
            {
                let e = &events[i];
                assert(es[i as int] == e.view());
                let parts = Self::rule_extract(&e.title, &e.body);
                let mut both = parts.0.clone();
                both.push_str(" ");
                both.push_str(&parts.1);
                let n = count_hits(&words, &both);
                let ghost h = hit_of(ws, e.view());
                assert(both@ == h.problem + " "@ + h.solution);
                if text::chars_of(&parts.0).len() > 0 && text::chars_of(&parts.1).len() > 0 && n > 0 {
                    let score = Self::score(&words, &both);
                    keys.push(rows::number_key(-(n as i128)));
                    hits.push(
                        ExperienceHit {
                            event: e.clone(),
                            problem: parts.0,
                            solution: parts.1,
                            doc_path: model::clone_opt(&e.file_path),
                            score,
                        },
                    );
                    proof {
                        found = found.push(h);
                    }
                }
                i += 1;
            }
            assert(es.len() == events@.len());
        }
        assert(rows::keys_view(keys@) =~= hit_keys(found));
        let order = rows::order_rows(&keys);
        let ghost sorted = rows::rows_at(found, rows::indices(order@));
        let max: usize = if limit < 1 {
            1
        } else if limit > 50 {
            50
        } else {
            limit
        };
        let mut r: Vec<ExperienceHit> = Vec::new();
        let mut j: usize = 0;
        while j < order.len() && j < max
            invariant
                j <= order.len(),
                j <= max,
                r@.len() == j,
                hits@.len() == found.len(),
                forall|k: int|
                    0 <= k < found.len() ==> is_shown_hit(#[trigger] hits@[k], found[k], ws),
                forall|k: int| 0 <= k < order@.len() ==> (#[trigger] order@[k]) < hits@.len(),
                sorted == rows::rows_at(found, rows::indices(order@)),
                forall|k: int| 0 <= k < j ==> is_shown_hit(#[trigger] r@[k], sorted[k], ws),
            decreases order.len() - j,
        {
            let h = &hits[order[j]];
            assert(sorted[j as int] == found[order@[j as int] as int]);
            assert(is_shown_hit(hits@[order@[j as int] as int], sorted[j as int], ws));
            r.push(
                ExperienceHit {
                    event: h.event.clone(),
                    problem: h.problem.clone(),
                    solution: h.solution.clone(),
                    doc_path: model::clone_opt(&h.doc_path),
                    score: h.score,
                },
            );
            j += 1;
        }
        r
    }

    /// The problem and the solution that the texts of an event give by rules.
    pub fn rule_extract(title: &str, body: &str) -> (r: (String, String))
        ensures
            r.0@ == problem_in(title@),
            r.1@ == solution_in(title@, body@),
    {
        (problem_of(title), solution_of(title, body))
    }

    /// The words of a text by which it is compared.
    pub fn keywords(s: &str) -> (r: Vec<String>)
        ensures
            text::texts(r@) == keywords_of(s@),
    {
        let parts = text::split_of(s, &CharClass::NonWord);
        let ghost ps = text::split_by(s@, text::non_word());
        assert(text::texts(parts@).len() == parts@.len());
        let mut out: Vec<String> = Vec::new();
        let mut i: usize = 0;
        assert(text::texts(out@) =~= Seq::empty());
        while i < parts.len()
            invariant
                i <= parts.len(),
                ps == text::texts(parts@),
                text::texts(out@) == words_in(ps, i as int),
            decreases parts.len() - i,
        {
            let t = text::trim_space(&parts[i]);
            let w = text::to_lower(&t);
            if w.as_str().len() >= 2 {
                proof {
                    text::lemma_texts_push(out@, w);
                }
                out.push(w);
            }
            i += 1;
        }
        out
    }

    /// Which part of the words stand in the text, in millionths.
    pub fn score(keywords: &Vec<String>, s: &str) -> (r: u32)
        ensures
            r == score_of(text::texts(keywords@), s@),
    {
        let n = count_hits(keywords, s);
        let total = keywords.len();
        assert(text::texts(keywords@).len() == keywords@.len());
        if total == 0 {
            return 0;
        }
        let q: u128 = n as u128 * model::WHOLE as u128 / total as u128;
        proof {
            let a = n as int;
            let t = total as int;
            let w = model::WHOLE as int;
            assert(a * w / t <= w) by (nonlinear_arith)
                requires
                    0 <= a <= t,
                    t > 0,
                    w > 0,
            ;
        }
        q as u32
    }

    /// The hash by which problems and solutions are known.
    pub fn hash(s: &str) -> (r: String)
        ensures
            r@ == hash_text(s@),
    {
        hash_string(s)
    }
}

/// Whether an event was recorded: it stands among the properties, from which it is read
/// again as it is, and where there is a problem and a solution the graph has them.
pub open spec fn is_recorded(
    before: GraphStore,
    after: GraphStore,
    e: EventV,
    problem: Seq<char>,
    solution: Seq<char>,
    now: i64,
) -> bool {
    &&& after.wf()
    &&& props_view(after.properties@) == put_prop(
        props_view(before.properties@),
        event_key(e.id),
        event_text(e),
    )
    &&& event_in(event_text(e)) == Some(e)
    &&& views::graph_of(after) == if is_experience(problem, solution) {
        with_experience(views::graph_of(before), e, problem, solution, now)
    } else {
        views::graph_of(before)
    }
    &&& same_but_properties(before, after)
}

/// What is recorded is remembered: an event that stands among the properties and can be
/// read is one of all events.
pub proof fn law_recorded_events_are_remembered(
    ps: Seq<PropV>,
    id: Seq<char>,
    value: Seq<char>,
    e: EventV,
)
    requires
        event_in(value) == Some(e),
    ensures
        events_in(
            put_prop(ps, event_key(id), value),
            put_prop(ps, event_key(id), value).len() as int,
        ).contains(e),
{
    let after = put_prop(ps, event_key(id), value);
    rows::lemma_row_index(ps, prop_key(), event_key(id), 0);
    let k = match rows::row_index(ps, prop_key(), event_key(id), 0) {
        Some(i) => i,
        None => ps.len() as int,
    };
    assert(after[k] == PropV { key: event_key(id), value });
    reveal_strlit("exp:");
    assert(event_key(id).subrange(0, "exp:"@.len() as int) =~= "exp:"@);
    lemma_event_listed(after, k, after.len() as int, e);
}

/// An event is kept once: recording it again adds nothing to what is remembered.
pub proof fn law_an_event_is_kept_once(ps: Seq<PropV>, id: Seq<char>, value: Seq<char>)
    ensures
        put_prop(put_prop(ps, event_key(id), value), event_key(id), value) == put_prop(
            ps,
            event_key(id),
            value,
        ),
{
    let k = event_key(id);
    let once = put_prop(ps, k, value);
    rows::lemma_row_index(ps, prop_key(), k, 0);
    rows::lemma_row_index(once, prop_key(), k, 0);
    let at = match rows::row_index(ps, prop_key(), k, 0) {
        Some(i) => i,
        None => ps.len() as int,
    };
    assert(once[at] == PropV { key: k, value });
    let y = rows::row_index(once, prop_key(), k, 0)->0;
    if y < at {
        assert(once[y] == ps[y]);
    }
    assert(put_prop(once, k, value) =~= once);
}

proof fn lemma_event_listed(ps: Seq<PropV>, k: int, n: int, e: EventV)
    requires
        0 <= k < n <= ps.len(),
        text::starts_with(ps[k].key, "exp:"@),
        event_in(ps[k].value) == Some(e),
    ensures
        events_in(ps, n).contains(e),
    decreases n,
{
    let before = events_in(ps, n - 1);
    let after = events_in(ps, n);
    if k == n - 1 {
        assert(after[after.len() - 1] == e);
    } else {
        lemma_event_listed(ps, k, n - 1, e);
        let x = choose|x: int| 0 <= x < before.len() && before[x] == e;
        assert(after[x] == e);
    }
}

} // verus!
