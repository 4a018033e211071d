//! JSON values, and the reading of JSON text through `serde_json`.

use crate::text;
use vstd::prelude::*;

verus! {

/// A JSON value. Numbers are kept as their JSON text, members in their order.
#[derive(Debug, PartialEq, Eq)]
pub enum Json {
    Null,
    Bool(bool),
    Number(String),
    Str(String),
    Array(Vec<Json>),
    Object(Vec<JsonMember>),
}

/// A member of a JSON object.
#[derive(Debug, PartialEq, Eq)]
pub struct JsonMember {
    pub key: String,
    pub value: Json,
}

pub enum JsonV {
    Null,
    Bool(bool),
    Number(Seq<char>),
    Str(Seq<char>),
    Array(Seq<JsonV>),
    Object(Seq<JsonMemberV>),
}

pub struct JsonMemberV {
    pub key: Seq<char>,
    pub value: JsonV,
}

impl View for Json {
    type V = JsonV;

    open spec fn view(&self) -> JsonV
        decreases self,
    {
        match self {
            Json::Null => JsonV::Null,
            Json::Bool(b) => JsonV::Bool(*b),
            Json::Number(n) => JsonV::Number(n@),
            Json::Str(s) => JsonV::Str(s@),
            Json::Array(items) => JsonV::Array(
                Seq::new(
                    items@.len(),
                    |i: int|
                        if 0 <= i < items@.len() {
                            items@[i].view()
                        } else {
                            JsonV::Null
                        },
                ),
            ),
            Json::Object(members) => JsonV::Object(
                Seq::new(
                    members@.len(),
                    |i: int|
                        if 0 <= i < members@.len() {
                            JsonMemberV { key: members@[i].key@, value: members@[i].value.view() }
                        } else {
                            JsonMemberV { key: Seq::empty(), value: JsonV::Null }
                        },
                ),
            ),
        }
    }
}

impl View for JsonMember {
    type V = JsonMemberV;

    open spec fn view(&self) -> JsonMemberV {
        JsonMemberV { key: self.key@, value: self.value@ }
    }
}

/// The views of a sequence of values.
pub open spec fn items_view(items: Seq<Json>) -> Seq<JsonV> {
    Seq::new(items.len(), |i: int| items[i]@)
}

/// The views of a sequence of members.
pub open spec fn members_view(members: Seq<JsonMember>) -> Seq<JsonMemberV> {
    Seq::new(members.len(), |i: int| members[i]@)
}

pub proof fn lemma_json_view(j: Json)
    ensures
        j matches Json::Array(items) ==> j@ == JsonV::Array(items_view(items@)),
        j matches Json::Object(members) ==> j@ == JsonV::Object(members_view(members@)),
{
    match j {
        Json::Array(items) => {
            assert(j@->Array_0 =~= items_view(items@));
        },
        Json::Object(members) => {
            assert(j@->Object_0 =~= members_view(members@));
        },
        _ => {},
    }
}

impl Clone for Json {
    fn clone(&self) -> (r: Self)
        ensures
            r@ == self@,
        decreases self,
    {
        match self {
            Json::Null => Json::Null,
            Json::Bool(b) => Json::Bool(*b),
            Json::Number(n) => Json::Number(n.clone()),
            Json::Str(s) => Json::Str(s.clone()),
            Json::Array(items) => {
                let mut out: Vec<Json> = Vec::new();
                let mut i: usize = 0;
                while i < items.len()
                    invariant
                        i <= items.len(),
                        *self == Json::Array(*items),
                        items_view(out@) == items_view(items@).take(i as int),
                    decreases items.len() - i,
                {
                    let ghost before = out@;
                    assert(decreases_to!(*self => self->Array_0));
                    assert(decreases_to!(self->Array_0 => items@));
                    assert(decreases_to!(items@ => items@[i as int]));
                    let item = items[i].clone();
                    out.push(item);
                    assert(items_view(out@) =~= items_view(before).push(item@));
                    i += 1;
                }
                assert(items_view(out@) == items_view(items@));
                let r = Json::Array(out);
                proof {
                    lemma_json_view(r);
                    lemma_json_view(*self);
                }
                r
            },
            Json::Object(members) => {
                let mut out: Vec<JsonMember> = Vec::new();
                let mut i: usize = 0;
                while i < members.len()
                    invariant
                        i <= members.len(),
                        *self == Json::Object(*members),
                        members_view(out@) == members_view(members@).take(i as int),
                    decreases members.len() - i,
                {
                    let ghost before = out@;
                    assert(decreases_to!(*self => self->Object_0));
                    assert(decreases_to!(self->Object_0 => members@));
                    assert(decreases_to!(members@ => members@[i as int]));
                    assert(decreases_to!(members@[i as int] => members@[i as int].value));
                    let m = JsonMember { key: members[i].key.clone(), value: members[i].value.clone() };
                    out.push(m);
                    assert(members_view(out@) =~= members_view(before).push(m@));
                    i += 1;
                }
                assert(members_view(out@) == members_view(members@));
                let r = Json::Object(out);
                proof {
                    lemma_json_view(r);
                    lemma_json_view(*self);
                }
                r
            },
        }
    }
}

/// The index of the member named `key`.
pub open spec fn member_index(members: Seq<JsonMemberV>, key: Seq<char>, i: int) -> Option<
    int,
>
    decreases members.len() - i,
{
    if i < 0 || i >= members.len() {
        None
    } else if members[i].key == key {
        Some(i)
    } else {
        member_index(members, key, i + 1)
    }
}

/// `members` with `key` set to `value`: in its place where it is there, else at the end.
pub open spec fn with_member(
    members: Seq<JsonMemberV>,
    key: Seq<char>,
    value: JsonV,
) -> Seq<JsonMemberV> {
    match member_index(members, key, 0) {
        Some(i) => members.update(i, JsonMemberV { key, value }),
        None => members.push(JsonMemberV { key, value }),
    }
}

/// `members` with each of the first `n` of `extra` set in turn.
pub open spec fn with_members(
    members: Seq<JsonMemberV>,
    extra: Seq<JsonMemberV>,
    n: int,
) -> Seq<JsonMemberV>
    decreases n,
{
    if n <= 0 {
        members
    } else {
        let before = with_members(members, extra, n - 1);
        with_member(before, extra[n - 1].key, extra[n - 1].value)
    }
}

/// Sets a member of an object.
pub fn set_member(members: &mut Vec<JsonMember>, key: String, value: Json)
    ensures
        members_view(final(members)@) == with_member(
            members_view(old(members)@),
            key@,
            value@,
        ),
{
    let ghost start = members_view(members@);
    let mut i: usize = 0;
    while i < members.len()
        invariant
            i <= members.len(),
            members@ == old(members)@,
            start == members_view(members@),
            member_index(start, key@, 0) == member_index(start, key@, i as int),
        decreases members.len() - i,
    {
        if members[i].key == key {
            let ghost pair = JsonMemberV { key: key@, value: value@ };
            members.set(i, JsonMember { key, value });
            assert(members_view(members@) =~= start.update(i as int, pair));
            return;
        }
        i += 1;
    }
    let ghost pair = JsonMemberV { key: key@, value: value@ };
    members.push(JsonMember { key, value });
    assert(members_view(members@) =~= start.push(pair));
}

/// Sets every member of `extra`.
pub fn set_members(members: &mut Vec<JsonMember>, extra: &Vec<JsonMember>)
    ensures
        members_view(final(members)@) == with_members(
            members_view(old(members)@),
            members_view(extra@),
            extra@.len() as int,
        ),
{
    let ghost start = members_view(members@);
    let ghost ev = members_view(extra@);
    let mut i: usize = 0;
    while i < extra.len()
        invariant
            i <= extra.len(),
            ev == members_view(extra@),
            members_view(members@) == with_members(start, ev, i as int),
        decreases extra.len() - i,
    {
        set_member(members, extra[i].key.clone(), extra[i].value.clone());
        i += 1;
    }
}

pub fn object(members: Vec<JsonMember>) -> (r: Json)
    ensures
        r@ == JsonV::Object(members_view(members@)),
{
    let r = Json::Object(members);
    proof {
        lemma_json_view(r);
    }
    r
}

pub fn array(items: Vec<Json>) -> (r: Json)
    ensures
        r@ == JsonV::Array(items_view(items@)),
{
    let r = Json::Array(items);
    proof {
        lemma_json_view(r);
    }
    r
}

pub open spec fn member(key: Seq<char>, value: JsonV) -> JsonMemberV {
    JsonMemberV { key, value }
}

/// Adds a member at the end.
pub fn put(members: &mut Vec<JsonMember>, key: &str, value: Json)
    ensures
        members_view(final(members)@) == members_view(old(members)@).push(member(key@, value@)),
{
    let ghost v = value@;
    members.push(JsonMember { key: key.to_owned(), value });
    assert(members_view(members@) =~= members_view(old(members)@).push(member(key@, v)));
}

/// The member where there is a value, else nothing.
pub open spec fn opt_member(key: Seq<char>, value: Option<JsonV>) -> Seq<JsonMemberV> {
    match value {
        Some(v) => seq![member(key, v)],
        None => Seq::empty(),
    }
}

pub open spec fn opt_view(value: Option<Json>) -> Option<JsonV> {
    match value {
        Some(v) => Some(v@),
        None => None,
    }
}

/// Adds a member at the end where there is a value for it.
pub fn put_opt(members: &mut Vec<JsonMember>, key: &str, value: Option<Json>)
    ensures
        members_view(final(members)@) == members_view(old(members)@) + opt_member(
            key@,
            opt_view(value),
        ),
{
    match value {
        Some(v) => {
            let ghost m = member(key@, v@);
            put(members, key, v);
            assert(members_view(members@) =~= members_view(old(members)@) + seq![m]);
        },
        None => {
            assert(members_view(members@) =~= members_view(old(members)@)
                + Seq::<JsonMemberV>::empty());
        },
    }
}

pub fn put_item(items: &mut Vec<Json>, value: Json)
    ensures
        items_view(final(items)@) == items_view(old(items)@).push(value@),
{
    let ghost v = value@;
    items.push(value);
    assert(items_view(items@) =~= items_view(old(items)@).push(v));
}

pub fn str_value(s: &str) -> (r: Json)
    ensures
        r@ == JsonV::Str(s@),
{
    Json::Str(s.to_owned())
}

/// What `serde_json` says against the text, `None` where it is one JSON value.
pub uninterp spec fn json_error(text: Seq<char>) -> Option<Seq<char>>;

/// Whether the value that the JSON pointer leads to is there.
pub uninterp spec fn json_has(text: Seq<char>, pointer: Seq<char>) -> bool;

/// The string that the JSON pointer leads to.
pub uninterp spec fn json_str(text: Seq<char>, pointer: Seq<char>) -> Option<Seq<char>>;

/// The unsigned number that the JSON pointer leads to.
pub uninterp spec fn json_u64(text: Seq<char>, pointer: Seq<char>) -> Option<u64>;

/// The length of the array that the JSON pointer leads to.
pub uninterp spec fn json_len(text: Seq<char>, pointer: Seq<char>) -> Option<usize>;

/// Checks that the text is one JSON value; wraps `serde_json::from_str`, whose answer
/// depends on the text alone.
#[verifier::external_body]
pub(crate) fn check_json(text: &str) -> (r: Result<(), String>)
    ensures
        match r {
            Ok(_) => json_error(text@) is None,
            Err(e) => json_error(text@) == Some(e@),
        },
{
    match serde_json::from_str::<serde_json::Value>(text) {
        Ok(_) => Ok(()),
        Err(e) => Err(e.to_string()),
    }
}

/// Whether a pointer leads to a value of the text; wraps `serde_json::Value::pointer`.
/// A text that is no JSON value holds nothing.
#[verifier::external_body]
pub(crate) fn has_at(text: &str, pointer: &str) -> (r: bool)
    ensures
        r == json_has(text@, pointer@),
        json_error(text@) is Some ==> !r,
{
    match serde_json::from_str::<serde_json::Value>(text) {
        Ok(v) => v.pointer(pointer).is_some(),
        Err(_) => false,
    }
}

/// The string at a pointer; wraps `serde_json::Value::as_str`. It is there only where
/// the pointer leads to a value.
#[verifier::external_body]
pub(crate) fn str_at(text: &str, pointer: &str) -> (r: Option<String>)
    ensures
        match r {
            Some(s) => json_str(text@, pointer@) == Some(s@) && json_has(text@, pointer@),
            None => json_str(text@, pointer@) is None,
        },
{
    let v = serde_json::from_str::<serde_json::Value>(text).ok()?;
    v.pointer(pointer)?.as_str().map(|s| s.to_string())
}

/// The unsigned number at a pointer; wraps `serde_json::Value::as_u64`. It is there only
/// where the pointer leads to a value.
#[verifier::external_body]
pub(crate) fn u64_at(text: &str, pointer: &str) -> (r: Option<u64>)
    ensures
        r == json_u64(text@, pointer@),
        r is Some ==> json_has(text@, pointer@),
{
    let v = serde_json::from_str::<serde_json::Value>(text).ok()?;
    v.pointer(pointer)?.as_u64()
}

/// The length of the array at a pointer; wraps `serde_json::Value::as_array`. It is there
/// only where the pointer leads to a value.
#[verifier::external_body]
pub(crate) fn len_at(text: &str, pointer: &str) -> (r: Option<usize>)
    ensures
        r == json_len(text@, pointer@),
        r is Some ==> json_has(text@, pointer@),
{
    let v = serde_json::from_str::<serde_json::Value>(text).ok()?;
    v.pointer(pointer)?.as_array().map(|a| a.len())
}

/// A text as a JSON string.
pub uninterp spec fn json_quoted(s: Seq<char>) -> Seq<char>;

/// The members of the JSON object that the text is, each with its value as compact JSON.
pub uninterp spec fn json_members(text: Seq<char>) -> Option<Seq<(Seq<char>, Seq<char>)>>;

pub open spec fn pairs_view(v: Seq<(String, String)>) -> Seq<(Seq<char>, Seq<char>)> {
    Seq::new(v.len(), |i: int| (v[i].0@, v[i].1@))
}

/// Writes a text as a JSON string; wraps `serde_json::Value`'s `Display`, whose output
/// depends on the text alone. Read again, it is the text.
#[verifier::external_body]
pub(crate) fn quote(s: &str) -> (r: String)
    ensures
        r@ == json_quoted(s@),
        json_str(r@, ""@) == Some(s@),
{
    serde_json::Value::from(s).to_string()
}

/// Reads the members of a JSON object, in the order in which `serde_json::Map` walks them;
/// wraps `serde_json::from_str`. A text that is no JSON object has none.
#[verifier::external_body]
pub(crate) fn read_members(text: &str) -> (r: Option<Vec<(String, String)>>)
    ensures
        match r {
            Some(v) => json_members(text@) == Some(pairs_view(v@)),
            None => json_members(text@) is None,
        },
{
    let m = serde_json::from_str::<serde_json::Map<String, serde_json::Value>>(text).ok()?;
    Some(m.into_iter().map(|(k, v)| (k, v.to_string())).collect())
}

/// The strings of the JSON array that the text is; nothing where it is no array of strings
/// alone.
pub uninterp spec fn json_strings(text: Seq<char>) -> Option<Seq<Seq<char>>>;

/// Reads a JSON array of strings; wraps `serde_json::from_str`, whose answer depends on the
/// text alone.
#[verifier::external_body]
pub(crate) fn parse_strings(text: &str) -> (r: Option<Vec<String>>)
    ensures
        match r {
            Some(v) => json_strings(text@) == Some(text::texts(v@)),
            None => json_strings(text@) is None,
        },
{
    serde_json::from_str::<Vec<String>>(text).ok()
}

/// A member of a JSON object as text.
pub open spec fn member_text(m: (Seq<char>, Seq<char>)) -> Seq<char> {
    json_quoted(m.0) + seq![':'] + m.1
}

pub open spec fn member_texts(ms: Seq<(Seq<char>, Seq<char>)>) -> Seq<Seq<char>> {
    Seq::new(ms.len(), |i: int| member_text(ms[i]))
}

/// A JSON object as text, without blanks.
pub open spec fn object_text(ms: Seq<(Seq<char>, Seq<char>)>) -> Seq<char> {
    seq!['{'] + text::join(member_texts(ms), seq![',']) + seq!['}']
}

pub open spec fn quoted_all(items: Seq<Seq<char>>) -> Seq<Seq<char>> {
    Seq::new(items.len(), |i: int| json_quoted(items[i]))
}

/// A JSON array of strings as text, without blanks.
pub open spec fn strings_text(items: Seq<Seq<char>>) -> Seq<char> {
    seq!['['] + text::join(quoted_all(items), seq![',']) + seq![']']
}

pub fn write_object(ms: &Vec<(String, String)>) -> (r: String)
    ensures
        r@ == object_text(pairs_view(ms@)),
{
    let ghost want = member_texts(pairs_view(ms@));
    let mut parts: Vec<String> = Vec::new();
    let mut i: usize = 0;
    while i < ms.len()
        invariant
            i <= ms.len(),
            parts@.len() == i,
            forall|k: int| 0 <= k < i ==> (#[trigger] parts@[k])@ == member_text((ms@[k].0@, ms@[k].1@)),
        decreases ms.len() - i,
    {
        let mut t = quote(&ms[i].0);
        let ghost q = t@;
        t.push(':');
        t.push_str(&ms[i].1);
        assert(t@ =~= q + seq![':'] + ms@[i as int].1@);
        parts.push(t);
        i += 1;
    }
    assert(text::texts(parts@) =~= want);
    let inner = text::join_of(&parts, ",");
    let mut r = "{".to_owned();
    r.push_str(&inner);
    r.push('}');
    proof {
        reveal_strlit("{");
        reveal_strlit(",");
        assert(","@ =~= seq![',']);
    }
    assert(r@ =~= object_text(pairs_view(ms@)));
    r
}

pub fn write_strings(items: &Vec<String>) -> (r: String)
    ensures
        r@ == strings_text(text::texts(items@)),
{
    let mut parts: Vec<String> = Vec::new();
    let mut i: usize = 0;
    while i < items.len()
        invariant
            i <= items.len(),
            parts@.len() == i,
            forall|k: int| 0 <= k < i ==> (#[trigger] parts@[k])@ == json_quoted(items@[k]@),
        decreases items.len() - i,
    {
        parts.push(quote(&items[i]));
        i += 1;
    }
    assert(text::texts(parts@) =~= quoted_all(text::texts(items@)));
    let inner = text::join_of(&parts, ",");
    let mut r = "[".to_owned();
    r.push_str(&inner);
    r.push(']');
    proof {
        reveal_strlit("[");
        reveal_strlit(",");
        assert(","@ =~= seq![',']);
    }
    assert(r@ =~= strings_text(text::texts(items@)));
    r
}

/// The strings of the array that the JSON pointer leads to, the first `n` of its items; an
/// item that is no string is passed over.
pub open spec fn strings_at(t: Seq<char>, pointer: Seq<char>, n: int) -> Seq<Seq<char>>
    decreases n,
{
    if n <= 0 {
        Seq::empty()
    } else {
        let before = strings_at(t, pointer, n - 1);
        match json_str(t, pointer + seq!['/'] + text::nat_text((n - 1) as nat)) {
            Some(s) => before.push(s),
            None => before,
        }
    }
}

/// All strings of the array that the JSON pointer leads to.
pub open spec fn string_list(t: Seq<char>, pointer: Seq<char>) -> Seq<Seq<char>> {
    match json_len(t, pointer) {
        Some(n) => strings_at(t, pointer, n as int),
        None => Seq::empty(),
    }
}

/// Where an item of the array at the pointer stands.
pub fn item_pointer(pointer: &str, i: usize) -> (r: String)
    ensures
        r@ == pointer@ + seq!['/'] + text::nat_text(i as nat),
{
    let mut r = pointer.to_owned();
    r.push('/');
    let n = text::u64_text(i as u64);
    r.push_str(&n);
    assert(r@ =~= pointer@ + seq!['/'] + text::nat_text(i as nat));
    r
}

pub fn read_strings(t: &str, pointer: &str) -> (r: Vec<String>)
    ensures
        text::texts(r@) == string_list(t@, pointer@),
{
    let mut out: Vec<String> = Vec::new();
    assert(text::texts(out@) =~= Seq::empty());
    let n = match len_at(t, pointer) {
        Some(n) => n,
        None => {
            return out;
        },
    };
    let mut i: usize = 0;
    while i < n
        invariant
            i <= n,
            text::texts(out@) == strings_at(t@, pointer@, i as int),
        decreases n - i,
    {
        let p = item_pointer(pointer, i);
        if let Some(s) = str_at(t, &p) {
            proof {
                text::lemma_texts_push(out@, s);
            }
            out.push(s);
        }
        i += 1;
    }
    out
}

// ---- Flat objects

/// A value of a flat object.
#[derive(Debug, PartialEq, Eq)]
pub enum Scalar {
    Text(String),
    Number(i64),
    Null,
}

pub enum ScalarV {
    Text(Seq<char>),
    Number(i64),
    Null,
}

/// A member of a flat object.
#[derive(Debug, PartialEq, Eq)]
pub struct FlatMember {
    pub key: String,
    pub value: Scalar,
}

pub struct FlatV {
    pub key: Seq<char>,
    pub value: ScalarV,
}

pub open spec fn flat_view(m: FlatMember) -> FlatV {
    FlatV {
        key: m.key@,
        value: match m.value {
            Scalar::Text(s) => ScalarV::Text(s@),
            Scalar::Number(n) => ScalarV::Number(n),
            Scalar::Null => ScalarV::Null,
        },
    }
}

pub open spec fn flat_views(ms: Seq<FlatMember>) -> Seq<FlatV> {
    Seq::new(ms.len(), |i: int| flat_view(ms[i]))
}

/// Whether a key stands in a JSON pointer as it is.
pub open spec fn is_plain_key(key: Seq<char>) -> bool {
    !key.contains('/') && !key.contains('~')
}

/// Whether no two members have the same key, and every key is plain.
pub open spec fn are_plain_members(ms: Seq<FlatV>) -> bool {
    &&& forall|i: int, j: int|
        0 <= i < j < ms.len() ==> (#[trigger] ms[i]).key != (#[trigger] ms[j]).key
    &&& forall|i: int| 0 <= i < ms.len() ==> is_plain_key((#[trigger] ms[i]).key)
}

/// Whether the member can be read in the text.
pub open spec fn reads_back(t: Seq<char>, m: FlatV) -> bool {
    let p = "/"@ + m.key;
    match m.value {
        ScalarV::Text(s) => json_str(t, p) == Some(s) && !json_null(t, p),
        ScalarV::Number(n) => json_i64(t, p) == Some(n),
        ScalarV::Null => json_null(t, p) && json_str(t, p) is None,
    }
}

/// A flat object as JSON.
pub uninterp spec fn json_flat(ms: Seq<FlatV>) -> Seq<char>;

/// The number that the JSON pointer leads to.
pub uninterp spec fn json_i64(text: Seq<char>, pointer: Seq<char>) -> Option<i64>;

/// Whether the JSON pointer leads to nothing, or to `null`.
pub uninterp spec fn json_null(text: Seq<char>, pointer: Seq<char>) -> bool;

/// The number that the JSON pointer leads to, as text.
pub uninterp spec fn json_number(text: Seq<char>, pointer: Seq<char>) -> Option<Seq<char>>;

/// The truth value that the JSON pointer leads to.
pub uninterp spec fn json_bool(text: Seq<char>, pointer: Seq<char>) -> Option<bool>;

/// The number at a pointer as text; wraps `serde_json::Value::as_number` and the `Display` of
/// the number that was read, which depend on the text alone.
#[verifier::external_body]
pub(crate) fn number_at(text: &str, pointer: &str) -> (r: Option<String>)
    ensures
        match r {
            Some(s) => json_number(text@, pointer@) == Some(s@),
            None => json_number(text@, pointer@) is None,
        },
{
    let v = serde_json::from_str::<serde_json::Value>(text).ok()?;
    v.pointer(pointer)?.as_number().map(|n| n.to_string())
}

/// The truth value at a pointer; wraps `serde_json::Value::as_bool`.
#[verifier::external_body]
pub(crate) fn bool_at(text: &str, pointer: &str) -> (r: Option<bool>)
    ensures
        r == json_bool(text@, pointer@),
{
    let v = serde_json::from_str::<serde_json::Value>(text).ok()?;
    v.pointer(pointer)?.as_bool()
}

/// Writes a flat object as JSON; wraps `serde_json::Map`'s `to_string`, whose output depends
/// on the members alone. What is written under a key that occurs once is read there again.
#[verifier::external_body]
pub(crate) fn write_flat(ms: &Vec<FlatMember>) -> (r: String)
    ensures
        r@ == json_flat(flat_views(ms@)),
        are_plain_members(flat_views(ms@)) ==> forall|i: int|
            0 <= i < ms@.len() ==> reads_back(r@, #[trigger] flat_views(ms@)[i]),
{
    let map: serde_json::Map<String, serde_json::Value> = ms.iter().map(|m| (m.key.clone(), match &m.value {
        Scalar::Text(s) => serde_json::Value::from(s.as_str()),
        Scalar::Number(n) => serde_json::Value::from(*n),
        Scalar::Null => serde_json::Value::Null,
    })).collect();
    serde_json::Value::Object(map).to_string()
}

/// The number at a pointer; wraps `serde_json::Value::as_i64`.
#[verifier::external_body]
pub(crate) fn i64_at(text: &str, pointer: &str) -> (r: Option<i64>)
    ensures
        r == json_i64(text@, pointer@),
{
    let v = serde_json::from_str::<serde_json::Value>(text).ok()?;
    v.pointer(pointer)?.as_i64()
}

/// Whether there is no value, or `null`, at a pointer; wraps `serde_json::Value::is_null`.
#[verifier::external_body]
pub(crate) fn null_at(text: &str, pointer: &str) -> (r: bool)
    ensures
        r == json_null(text@, pointer@),
{
    match serde_json::from_str::<serde_json::Value>(text) {
        Ok(v) => v.pointer(pointer).map_or(true, |x| x.is_null()),
        Err(_) => true,
    }
}

} // verus!
