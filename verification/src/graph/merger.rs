//! Entities under many names: which name means which entity.

use crate::graph::model::{GraphNode, NodeType, Relation};
use crate::graph::store;
use crate::graph::store::GraphStore;
use crate::graph::views;
use crate::graph::views::{GraphV, NodeV};
use crate::json;
use crate::rows;
use crate::text;
use crate::text::CharClass;
use vstd::prelude::*;

verus! {

/// How many nodes are looked at for one with the name of an entity.
pub const NAME_HITS: u32 = 5;

/// Whether a word says nothing about which entity is meant.
pub open spec fn is_stopword(w: Seq<char>) -> bool {
    w == "缓存"@ || w == "系统"@ || w == "框架"@ || w == "技术"@ || w == "工具"@ || w == "平台"@ || w
        == "方案"@ || w == "组件"@ || w == "模块"@ || w == "the"@ || w == "a"@ || w == "an"@ || w == "of"@ || w
        == "for"@ || w == "in"@ || w == "on"@ || w == "with"@ || w == "and"@ || w == "or"@
}

fn stopword(w: &str) -> (r: bool)
    ensures
        r == is_stopword(w@),
{
    text::str_eq(w, "缓存") || text::str_eq(w, "系统") || text::str_eq(w, "框架") || text::str_eq(w, "技术")
        || text::str_eq(w, "工具") || text::str_eq(w, "平台") || text::str_eq(w, "方案") || text::str_eq(
        w,
        "组件",
    ) || text::str_eq(w, "模块") || text::str_eq(w, "the") || text::str_eq(w, "a") || text::str_eq(w, "an")
        || text::str_eq(w, "of") || text::str_eq(w, "for") || text::str_eq(w, "in") || text::str_eq(w, "on")
        || text::str_eq(w, "with") || text::str_eq(w, "and") || text::str_eq(w, "or")
}

/// What stands between the words of a name.
pub open spec fn word_breaks() -> text::Class {
    text::space_or(seq!['，', ',', '：', ':', '（', '）', '(', ')', '-', '_', '/', '\\'])
}

/// The words of the first `n` parts that count.
pub open spec fn words_in(parts: Seq<Seq<char>>, n: int) -> Seq<Seq<char>>
    decreases n,
{
    if n <= 0 {
        Seq::empty()
    } else {
        let before = words_in(parts, n - 1);
        let w = text::trim(parts[n - 1]);
        if w.len() == 0 || is_stopword(w) {
            before
        } else {
            before.push(w)
        }
    }
}

pub open spec fn no_space() -> spec_fn(char) -> bool {
    |c: char| !text::is_space(c)
}

/// The words of a text in small letters that count.
pub open spec fn counting_words(lower: Seq<char>) -> Seq<Seq<char>> {
    let parts = text::split_by(lower, word_breaks());
    words_in(parts, parts.len() as int)
}

/// The words of a text that count, with one blank between them; a text without such words
/// stays, without blanks.
pub open spec fn joined_words(lower: Seq<char>) -> Seq<char> {
    let words = counting_words(lower);
    if words.len() == 0 {
        rows::kept(lower, no_space())
    } else {
        text::join(words, seq![' '])
    }
}

/// The name by which an entity is known: small letters, without words that say nothing, one
/// blank between words; a name of such words alone stays, without blanks.
pub open spec fn canonical(name: Seq<char>) -> Seq<char> {
    joined_words(text::lowercase(text::trim(name)))
}

fn without_spaces(s: &str) -> (r: String)
    ensures
        r@ == rows::kept(s@, no_space()),
{
    let cs = text::chars_of(s);
    let mut r = String::new();
    let mut i: usize = 0;
    assert(r@ =~= rows::kept(cs@.take(0), no_space()));
    while i < cs.len()
        invariant
            i <= cs.len(),
            r@ == rows::kept(cs@.take(i as int), no_space()),
        decreases cs.len() - i,
    {
        proof {
            assert(cs@.take(i + 1) =~= cs@.take(i as int).push(cs@[i as int]));
            rows::lemma_kept_push(cs@.take(i as int), cs@[i as int], no_space());
        }
        if !text::is_whitespace(cs[i]) {
            r.push(cs[i]);
        }
        i += 1;
    }
    assert(cs@.take(i as int) == cs@);
    r
}

/// The name by which an entity is known.
pub fn canonicalize(name: &str) -> (r: String)
    ensures
        r@ == canonical(name@),
{
    let bare = text::trim_space(name);
    join_words(&text::to_lower(&bare))
}

/// The words of a text in small letters that count, with one blank between them.
pub fn join_words(lower: &str) -> (r: String)
    ensures
        r@ == joined_words(lower@),
{
    let set: Vec<char> = vec!['，', ',', '：', ':', '（', '）', '(', ')', '-', '_', '/', '\\'];
    assert(set@ =~= seq!['，', ',', '：', ':', '（', '）', '(', ')', '-', '_', '/', '\\']);
    let parts = text::split_of(lower, &CharClass::SpaceOr(set));
    let ghost ps = text::split_by(lower@, word_breaks());
    assert(text::texts(parts@).len() == parts@.len());
    let mut words: Vec<String> = Vec::new();
    let mut i: usize = 0;
    assert(text::texts(words@) =~= Seq::empty());
    while i < parts.len()
        invariant
            i <= parts.len(),
            ps == text::texts(parts@),
            text::texts(words@) == words_in(ps, i as int),
        decreases parts.len() - i,
    {
        let w = text::trim_space(&parts[i]);
        if text::chars_of(&w).len() != 0 && !stopword(&w) {
            proof {
                text::lemma_texts_push(words@, w);
            }
            words.push(w);
        }
        i += 1;
    }
    assert(text::texts(words@).len() == words@.len());
    if words.len() == 0 {
        without_spaces(lower)
    } else {
        proof {
            reveal_strlit(" ");
            assert(" "@ =~= seq![' ']);
        }
        text::join_of(&words, " ")
    }
}

/// Whether a text is one word: it is not empty, and nothing in it stands between words.
pub open spec fn is_word(w: Seq<char>) -> bool {
    w.len() > 0 && forall|i: int| 0 <= i < w.len() ==> !word_breaks()(#[trigger] w[i])
}

/// Whether a character is one of ASCII that is in small letters.
pub open spec fn is_small(c: char) -> bool {
    c as u32 <= 127 && text::ascii_lower(c) == c
}

pub open spec fn all_small(s: Seq<char>) -> bool {
    forall|i: int| 0 <= i < s.len() ==> is_small(#[trigger] s[i])
}

proof fn lemma_parts(s: Seq<char>)
    ensures
        ({
            let parts = text::split_by(s, word_breaks());
            &&& parts.len() > 0
            &&& forall|p: int, i: int|
                0 <= p < parts.len() && 0 <= i < parts[p].len() ==> !word_breaks()(
                    #[trigger] parts[p][i],
                )
            &&& all_small(s) ==> forall|p: int| 0 <= p < parts.len() ==> all_small(
                #[trigger] parts[p],
            )
        }),
    decreases s.len(),
{
    if s.len() > 0 {
        lemma_parts(s.drop_last());
        let before = text::split_by(s.drop_last(), word_breaks());
        let parts = text::split_by(s, word_breaks());
        if all_small(s) {
            assert(all_small(s.drop_last()));
            assert(all_small(before.last()));
            assert(is_small(s.last()));
        }
        if !word_breaks()(s.last()) {
            let grown = before.last().push(s.last());
            assert forall|i: int| 0 <= i < grown.len() implies !word_breaks()(
                #[trigger] grown[i],
            ) by {
                if i < grown.len() - 1 {
                    assert(before[before.len() - 1][i] == grown[i]);
                }
            }
            assert(parts.last() == grown);
            assert forall|p: int, i: int|
                0 <= p < parts.len() && 0 <= i < parts[p].len() implies !word_breaks()(
                #[trigger] parts[p][i],
            ) by {
                if p < parts.len() - 1 {
                    assert(parts[p] == before[p]);
                    assert(!word_breaks()(before[p][i]));
                } else {
                    assert(parts[p] == grown);
                }
            }
            if all_small(s) {
                assert forall|p: int| 0 <= p < parts.len() implies all_small(
                    #[trigger] parts[p],
                ) by {
                    if p < parts.len() - 1 {
                        assert(parts[p] == before[p]);
                    }
                }
            }
        } else {
            assert forall|p: int, i: int|
                0 <= p < parts.len() && 0 <= i < parts[p].len() implies !word_breaks()(
                #[trigger] parts[p][i],
            ) by {
                assert(parts[p] == before[p]);
                assert(!word_breaks()(before[p][i]));
            }
            if all_small(s) {
                assert forall|p: int| 0 <= p < parts.len() implies all_small(
                    #[trigger] parts[p],
                ) by {
                    if p < parts.len() - 1 {
                        assert(parts[p] == before[p]);
                    }
                }
            }
        }
    }
}

proof fn lemma_unbroken_has_no_space(w: Seq<char>)
    requires
        forall|i: int| 0 <= i < w.len() ==> !word_breaks()(#[trigger] w[i]),
    ensures
        text::trim(w) == w,
{
    assert forall|i: int| 0 <= i < w.len() implies !text::is_space(#[trigger] w[i]) by {
        assert(!word_breaks()(w[i]));
    }
    text::lemma_trim_is_same(w);
}

/// What the words that count are.
proof fn lemma_words(parts: Seq<Seq<char>>, n: int)
    requires
        0 <= n <= parts.len(),
        forall|p: int, i: int|
            0 <= p < parts.len() && 0 <= i < parts[p].len() ==> !word_breaks()(
                #[trigger] parts[p][i],
            ),
    ensures
        forall|k: int|
            0 <= k < words_in(parts, n).len() ==> is_word(#[trigger] words_in(parts, n)[k])
                && !is_stopword(words_in(parts, n)[k]),
        (forall|p: int| 0 <= p < parts.len() ==> all_small(#[trigger] parts[p])) ==> forall|k: int|
            0 <= k < words_in(parts, n).len() ==> all_small(#[trigger] words_in(parts, n)[k]),
        (forall|p: int| 0 <= p < n ==> (#[trigger] parts[p]).len() > 0 && !is_stopword(parts[p]))
            ==> words_in(parts, n) == parts.take(n),
    decreases n,
{
    if n > 0 {
        lemma_words(parts, n - 1);
        let w = parts[n - 1];
        assert forall|i: int| 0 <= i < w.len() implies !word_breaks()(#[trigger] w[i]) by {
            assert(!word_breaks()(parts[n - 1][i]));
        }
        lemma_unbroken_has_no_space(w);
        assert(parts.take(n) =~= parts.take(n - 1).push(w));
        let before = words_in(parts, n - 1);
        let words = words_in(parts, n);
        assert(words == if w.len() == 0 || is_stopword(w) {
            before
        } else {
            before.push(w)
        });
        assert forall|k: int| 0 <= k < words.len() implies is_word(#[trigger] words[k])
            && !is_stopword(words[k]) by {
            if k < before.len() {
                assert(words[k] == before[k]);
            }
        }
        if forall|p: int| 0 <= p < parts.len() ==> all_small(#[trigger] parts[p]) {
            assert forall|k: int| 0 <= k < words.len() implies all_small(#[trigger] words[k]) by {
                if k < before.len() {
                    assert(words[k] == before[k]);
                } else {
                    assert(all_small(parts[n - 1]));
                }
            }
        }
    } else {
        assert(parts.take(0) =~= Seq::<Seq<char>>::empty());
    }
}

proof fn lemma_split_unbroken(x: Seq<char>, w: Seq<char>)
    requires
        forall|i: int| 0 <= i < w.len() ==> !word_breaks()(#[trigger] w[i]),
    ensures
        ({
            let before = text::split_by(x, word_breaks());
            text::split_by(x + w, word_breaks()) == before.drop_last().push(before.last() + w)
        }),
    decreases w.len(),
{
    lemma_parts(x);
    let before = text::split_by(x, word_breaks());
    if w.len() == 0 {
        assert(x + w =~= x);
        assert(before.last() + w =~= before.last());
        assert(before =~= before.drop_last().push(before.last()));
    } else {
        let init = w.drop_last();
        assert forall|i: int| 0 <= i < init.len() implies !word_breaks()(#[trigger] init[i]) by {
            assert(!word_breaks()(w[i]));
        }
        lemma_split_unbroken(x, init);
        assert((x + w).drop_last() =~= x + init);
        assert((x + w).last() == w.last());
        assert(!word_breaks()(w[w.len() - 1]));
        let mid = before.drop_last().push(before.last() + init);
        assert(mid.drop_last() =~= before.drop_last());
        assert((before.last() + init).push(w.last()) =~= before.last() + w);
    }
}

/// Words with a blank between them come apart again.
proof fn lemma_split_joined(words: Seq<Seq<char>>)
    requires
        words.len() > 0,
        forall|k: int| 0 <= k < words.len() ==> is_word(#[trigger] words[k]),
    ensures
        ({
            let r = text::join(words, seq![' ']);
            &&& text::split_by(r, word_breaks()) == words
            &&& r.len() > 0
            &&& !text::is_space(r[0])
            &&& !text::is_space(r.last())
            &&& (forall|k: int| 0 <= k < words.len() ==> all_small(#[trigger] words[k]))
                ==> all_small(r)
        }),
    decreases words.len(),
{
    let none = Seq::<char>::empty();
    let r = text::join(words, seq![' ']);
    let w = words.last();
    assert(is_word(words[words.len() - 1]));
    assert(!word_breaks()(w[0]));
    assert(!word_breaks()(w[w.len() - 1]));
    assert(word_breaks()(' '));
    if words.len() == 1 {
        lemma_split_unbroken(none, w);
        assert(none + w =~= w);
        assert(text::split_by(none, word_breaks()) == seq![none]);
        assert(seq![none].drop_last().push(w) =~= words);
        assert(all_small(words[0]) == all_small(r));
    } else {
        let front = words.drop_last();
        assert forall|k: int| 0 <= k < front.len() implies is_word(#[trigger] front[k]) by {
            assert(is_word(words[k]));
        }
        lemma_split_joined(front);
        let j = text::join(front, seq![' ']);
        let spaced = j + seq![' '];
        assert(spaced.drop_last() =~= j);
        assert(text::split_by(spaced, word_breaks()) == front.push(none));
        lemma_split_unbroken(spaced, w);
        assert(r == spaced + w);
        assert(front.push(none).drop_last() =~= front);
        assert(none + w =~= w);
        assert(front.push(w) =~= words);
        if forall|k: int| 0 <= k < words.len() ==> all_small(#[trigger] words[k]) {
            assert forall|k: int| 0 <= k < front.len() implies all_small(#[trigger] front[k]) by {
                assert(all_small(words[k]));
            }
            assert(all_small(j));
            assert(all_small(words[words.len() - 1]));
            assert forall|i: int| 0 <= i < r.len() implies is_small(#[trigger] r[i]) by {
                if i < j.len() {
                    assert(is_small(j[i]));
                } else if i > j.len() {
                    assert(is_small(w[i - j.len() - 1]));
                }
            }
        }
    }
}

/// The words of the name of an entity are words that count, none of them empty, and nothing
/// but one blank stands between two of them or at an end, whatever the name was, as long as
/// a word in it counts.
pub proof fn law_canonical_names_are_plain(name: Seq<char>)
    requires
        counting_words(text::lowercase(text::trim(name))).len() > 0,
    ensures
        ({
            let r = canonical(name);
            let words = counting_words(text::lowercase(text::trim(name)));
            &&& r == text::join(words, seq![' '])
            &&& text::split_by(r, word_breaks()) == words
            &&& forall|k: int|
                0 <= k < words.len() ==> is_word(#[trigger] words[k]) && !is_stopword(words[k])
            &&& text::trim(r) == r
        }),
{
    let lower = text::lowercase(text::trim(name));
    let parts = text::split_by(lower, word_breaks());
    lemma_parts(lower);
    lemma_words(parts, parts.len() as int);
    lemma_split_joined(counting_words(lower));
}

/// The canonical name of an ASCII name in which a word counts is in small letters and is its
/// own canonical name. Of other names this holds where small letters stay as they are.
pub proof fn law_a_canonical_name_is_its_own(name: Seq<char>)
    requires
        counting_words(text::lowercase(text::trim(name))).len() > 0,
        text::all_ascii(text::trim(name)) || text::lowercase(canonical(name)) == canonical(name),
    ensures
        text::lowercase(canonical(name)) == canonical(name),
        canonical(canonical(name)) == canonical(name),
{
    let bare = text::trim(name);
    let lower = text::lowercase(bare);
    let words = counting_words(lower);
    let r = canonical(name);
    law_canonical_names_are_plain(name);
    if text::all_ascii(bare) {
        let parts = text::split_by(lower, word_breaks());
        assert forall|i: int| 0 <= i < lower.len() implies is_small(#[trigger] lower[i]) by {
            assert(bare[i] as u32 <= 127);
            text::lemma_ascii_lower(bare[i]);
            assert(lower[i] == text::ascii_lower(bare[i]));
        }
        lemma_parts(lower);
        lemma_words(parts, parts.len() as int);
        lemma_split_joined(words);
        assert(all_small(r));
        assert forall|i: int| 0 <= i < r.len() implies (#[trigger] r[i]) as u32 <= 127 by {
            assert(is_small(r[i]));
        }
        assert(text::all_ascii(r));
        assert(text::ascii_lowercase(r) =~= r) by {
            assert forall|i: int| 0 <= i < r.len() implies text::ascii_lowercase(r)[i] == r[i] by {
                assert(is_small(r[i]));
            }
        }
    }
    assert forall|p: int, i: int|
        0 <= p < words.len() && 0 <= i < words[p].len() implies !word_breaks()(
        #[trigger] words[p][i],
    ) by {
        assert(is_word(words[p]));
    }
    lemma_words(words, words.len() as int);
    assert(words.take(words.len() as int) =~= words);
    assert(counting_words(r) == words);
}

/// Whether a text holds nothing but whitespace.
pub open spec fn is_blank(s: Seq<char>) -> bool {
    forall|i: int| 0 <= i < s.len() ==> text::is_space(#[trigger] s[i])
}

/// Only blank names have no canonical name: the canonical name is empty where the name in
/// small letters is blank. An ASCII name, a name that is in small letters already, and every
/// other name that small letters do not make blank has none only where it is blank itself.
pub proof fn law_only_blank_names_are_no_names(name: Seq<char>)
    ensures
        canonical(name).len() == 0 <==> is_blank(text::lowercase(text::trim(name))),
        text::trim(name).len() == 0 ==> canonical(name).len() == 0,
        text::all_ascii(text::trim(name)) || text::lowercase(text::trim(name)) == text::trim(name)
            || !is_blank(text::lowercase(text::trim(name))) ==> (canonical(name).len() == 0
            <==> text::trim(name).len() == 0),
        counting_words(text::lowercase(text::trim(name))).len() > 0 ==> canonical(name).len() > 0,
{
    let bare = text::trim(name);
    let lower = text::lowercase(bare);
    let words = counting_words(lower);
    let parts = text::split_by(lower, word_breaks());
    text::lemma_trim_first(name);
    rows::lemma_kept(lower, no_space());
    if bare.len() == 0 {
        assert(text::all_ascii(bare));
        assert(lower =~= Seq::<char>::empty());
    }
    if words.len() > 0 {
        law_canonical_names_are_plain(name);
        lemma_split_joined(words);
        if is_blank(lower) {
            lemma_blank_has_no_words(lower);
        }
    } else if is_blank(lower) {
        let r = canonical(name);
        if r.len() > 0 {
            assert(no_space()(r[0]));
            assert(lower.contains(r[0]));
        }
    } else {
        let i = choose|i: int| 0 <= i < lower.len() && !text::is_space(#[trigger] lower[i]);
        assert(no_space()(lower[i]));
        assert(canonical(name).contains(lower[i]));
    }
    if bare.len() > 0 && text::all_ascii(bare) {
        assert(bare[0] as u32 <= 127);
        text::lemma_ascii_lower(bare[0]);
        assert(lower[0] == text::ascii_lower(bare[0]));
    }
    if bare.len() > 0 && (text::all_ascii(bare) || lower == bare) {
        assert(!text::is_space(lower[0]));
    }
}

proof fn lemma_blank_has_no_words(s: Seq<char>)
    requires
        is_blank(s),
    ensures
        counting_words(s).len() == 0,
{
    let parts = text::split_by(s, word_breaks());
    lemma_blank_parts(s);
    lemma_no_words(parts, parts.len() as int);
}

proof fn lemma_blank_parts(s: Seq<char>)
    requires
        is_blank(s),
    ensures
        forall|p: int|
            0 <= p < text::split_by(s, word_breaks()).len() ==> (#[trigger] text::split_by(
                s,
                word_breaks(),
            )[p]).len() == 0,
    decreases s.len(),
{
    if s.len() > 0 {
        assert(text::is_space(s[s.len() - 1]));
        assert(is_blank(s.drop_last()));
        lemma_blank_parts(s.drop_last());
        let before = text::split_by(s.drop_last(), word_breaks());
        let parts = text::split_by(s, word_breaks());
        assert(word_breaks()(s.last()));
        assert(parts == before.push(Seq::<char>::empty()));
        assert forall|p: int| 0 <= p < parts.len() implies (#[trigger] parts[p]).len() == 0 by {
            if p < before.len() {
                assert(parts[p] == before[p]);
            }
        }
    } else {
        assert(text::split_by(s, word_breaks()) == seq![Seq::<char>::empty()]);
    }
}

proof fn lemma_no_words(parts: Seq<Seq<char>>, n: int)
    requires
        0 <= n <= parts.len(),
        forall|p: int| 0 <= p < parts.len() ==> (#[trigger] parts[p]).len() == 0,
    ensures
        words_in(parts, n).len() == 0,
    decreases n,
{
    if n > 0 {
        lemma_no_words(parts, n - 1);
        assert(parts[n - 1].len() == 0);
        text::lemma_trim_is_same(parts[n - 1]);
    }
}

// ---- Names and entities

/// A name and the entity that it means.
#[derive(Debug)]
pub struct AliasRow {
    pub alias: String,
    pub id: String,
}

pub struct AliasV {
    pub alias: Seq<char>,
    pub id: Seq<char>,
}

pub open spec fn alias_key() -> spec_fn(AliasV) -> Seq<char> {
    |a: AliasV| a.alias
}

pub open spec fn aliases_view(rs: Seq<AliasRow>) -> Seq<AliasV> {
    Seq::new(rs.len(), |i: int| AliasV { alias: rs[i].alias@, id: rs[i].id@ })
}

/// The entity that a name means.
pub open spec fn meant(index: Seq<AliasV>, alias: Seq<char>) -> Option<Seq<char>> {
    match rows::row_index(index, alias_key(), alias, 0) {
        Some(i) => Some(index[i].id),
        None => None,
    }
}

pub open spec fn with_alias(index: Seq<AliasV>, alias: Seq<char>, id: Seq<char>) -> Seq<AliasV> {
    match rows::row_index(index, alias_key(), alias, 0) {
        Some(i) => index.update(i, AliasV { alias, id }),
        None => index.push(AliasV { alias, id }),
    }
}

/// The index in which the first `n` names mean the entity.
pub open spec fn with_aliases(index: Seq<AliasV>, names: Seq<Seq<char>>, id: Seq<char>, n: int) -> Seq<
    AliasV,
>
    decreases n,
{
    if n <= 0 {
        index
    } else {
        with_alias(with_aliases(index, names, id, n - 1), names[n - 1], id)
    }
}

/// The names that count among the first `n` others.
pub open spec fn more_names(aliases: Seq<Seq<char>>, n: int) -> Seq<Seq<char>>
    decreases n,
{
    if n <= 0 {
        Seq::empty()
    } else {
        let before = more_names(aliases, n - 1);
        if canonical(aliases[n - 1]).len() == 0 {
            before
        } else {
            before.push(canonical(aliases[n - 1]))
        }
    }
}

/// The names under which an entity comes.
pub open spec fn names_of(name: Seq<char>, aliases: Seq<Seq<char>>) -> Seq<Seq<char>> {
    seq![canonical(name)] + more_names(aliases, aliases.len() as int)
}

pub open spec fn entity_id(c: Seq<char>) -> Seq<char> {
    "entity:"@ + c
}

/// The entity of the first of the names, from the `i`th on, that means one.
pub open spec fn first_meant(index: Seq<AliasV>, names: Seq<Seq<char>>, i: int) -> Option<Seq<char>>
    decreases names.len() - i,
{
    if i < 0 || i >= names.len() {
        None
    } else if meant(index, names[i]) is Some {
        meant(index, names[i])
    } else {
        first_meant(index, names, i + 1)
    }
}

/// The first of the names, from the `i`th on, that an entity of the graph has as its id.
pub open spec fn first_known(g: GraphV, names: Seq<Seq<char>>, i: int) -> Option<Seq<char>>
    decreases names.len() - i,
{
    if i < 0 || i >= names.len() {
        None
    } else if views::has_node(g, entity_id(names[i])) {
        Some(entity_id(names[i]))
    } else {
        first_known(g, names, i + 1)
    }
}

/// The first of the nodes, from the `i`th on, that is an entity of the name.
pub open spec fn first_named(hits: Seq<NodeV>, c: Seq<char>, i: int) -> Option<Seq<char>>
    decreases hits.len() - i,
{
    if i < 0 || i >= hits.len() {
        None
    } else if hits[i].node_type == NodeType::Entity && canonical(hits[i].name) == c {
        Some(hits[i].id)
    } else {
        first_named(hits, c, i + 1)
    }
}

/// The entity of the graph with the name.
pub open spec fn named_entity(g: GraphV, c: Seq<char>) -> Option<Seq<char>> {
    first_named(views::v_found_nodes(g.nodes, c, NAME_HITS), c, 0)
}

/// The entity of the graph that an entity of the names is: the one that a name means, one
/// with a name as its id, or one with the name.
pub open spec fn known_entity(g: GraphV, index: Seq<AliasV>, names: Seq<Seq<char>>) -> Option<
    Seq<char>,
> {
    if first_meant(index, names, 0) is Some {
        first_meant(index, names, 0)
    } else if first_known(g, names, 0) is Some {
        first_known(g, names, 0)
    } else {
        named_entity(g, names[0])
    }
}

/// The list with those of the first `n` texts that it does not have.
pub open spec fn with_missing(list: Seq<Seq<char>>, more: Seq<Seq<char>>, n: int) -> Seq<Seq<char>>
    decreases n,
{
    if n <= 0 {
        list
    } else {
        let before = with_missing(list, more, n - 1);
        if before.contains(more[n - 1]) {
            before
        } else {
            before.push(more[n - 1])
        }
    }
}

/// Where a member with the key stands or belongs, from `i` on.
pub open spec fn member_place(ms: Seq<(Seq<char>, Seq<char>)>, key: Seq<char>, i: int) -> int
    decreases ms.len() - i,
{
    if i < 0 || i >= ms.len() || ms[i].0 == key || text::text_lt(key, ms[i].0) {
        i
    } else {
        member_place(ms, key, i + 1)
    }
}

/// The members, which are in order, with one set.
pub open spec fn with_sorted_member(
    ms: Seq<(Seq<char>, Seq<char>)>,
    key: Seq<char>,
    value: Seq<char>,
) -> Seq<(Seq<char>, Seq<char>)> {
    let i = member_place(ms, key, 0);
    if i < ms.len() && ms[i].0 == key {
        ms.update(i, (key, value))
    } else {
        ms.insert(i, (key, value))
    }
}

/// What is noted of an entity, with more names.
pub open spec fn meta_with(meta: Option<Seq<char>>, names: Seq<Seq<char>>) -> Seq<char> {
    let ms = match meta {
        Some(m) => match json::json_members(m) {
            Some(ms) => ms,
            None => Seq::empty(),
        },
        None => Seq::empty(),
    };
    let known = match meta {
        Some(m) => json::string_list(m, "/aliases"@),
        None => Seq::empty(),
    };
    let all = with_missing(known, names, names.len() as int);
    json::object_text(with_sorted_member(ms, "aliases"@, json::strings_text(all)))
}

/// The node of an entity that was there, with more names.
pub open spec fn grown_entity(g: GraphV, id: Seq<char>, name: Seq<char>, names: Seq<Seq<char>>) -> NodeV {
    let was = views::find_node(g.nodes, id);
    views::plain_node(
        id,
        NodeType::Entity,
        match was {
            Some(i) => g.nodes[i].name,
            None => name,
        },
        None,
        Some(
            meta_with(
                match was {
                    Some(i) => g.nodes[i].meta,
                    None => None,
                },
                names,
            ),
        ),
        None,
    )
}

/// The node of a new entity.
pub open spec fn new_entity(name: Seq<char>, names: Seq<Seq<char>>) -> NodeV {
    views::plain_node(
        entity_id(canonical(name)),
        NodeType::Entity,
        text::trim(name),
        None,
        Some(json::object_text(seq![("aliases"@, json::strings_text(names))])),
        None,
    )
}

/// The graph with the entities of the first `n` names merged into the entity.
pub open spec fn merged_names(g: GraphV, names: Seq<Seq<char>>, id: Seq<char>, n: int, now: i64) -> GraphV
    decreases n,
{
    if n <= 0 {
        g
    } else {
        let before = merged_names(g, names, id, n - 1, now);
        let other = entity_id(names[n - 1]);
        if other != id && views::has_node(before, other) {
            views::merge_into(before, other, id, now)
        } else {
            before
        }
    }
}

/// The graph with the edge from the entity to the document that it comes from.
pub open spec fn derived(g: GraphV, id: Seq<char>, doc: Option<Seq<char>>, now: i64) -> GraphV {
    match doc {
        Some(d) => views::put_whole_edge(g, id, d, Relation::DerivedFrom, d, now),
        None => g,
    }
}

/// The graph with the entity.
pub open spec fn with_entity(
    g: GraphV,
    known: Option<Seq<char>>,
    name: Seq<char>,
    names: Seq<Seq<char>>,
    doc: Option<Seq<char>>,
    now: i64,
) -> GraphV {
    match known {
        Some(id) => derived(
            merged_names(
                views::put_node(g, grown_entity(g, id, name, names), now),
                names,
                id,
                names.len() as int,
                now,
            ),
            id,
            doc,
            now,
        ),
        None => derived(
            views::put_node(g, new_entity(name, names), now),
            entity_id(canonical(name)),
            doc,
            now,
        ),
    }
}

/// The id under which the entity stands then.
pub open spec fn entity_of(known: Option<Seq<char>>, name: Seq<char>) -> Seq<char> {
    match known {
        Some(id) => id,
        None => entity_id(canonical(name)),
    }
}

fn entity_id_of(c: &str) -> (r: String)
    ensures
        r@ == entity_id(c@),
{
    let mut r = "entity:".to_owned();
    r.push_str(c);
    r
}

fn all_names(name: &str, aliases: &Vec<String>) -> (r: Vec<String>)
    ensures
        text::texts(r@) == names_of(name@, text::texts(aliases@)),
        r@.len() > 0,
        r@[0]@ == canonical(name@),
{
    let ghost others = text::texts(aliases@);
    let mut out: Vec<String> = Vec::new();
    let first = canonicalize(name);
    let ghost head = seq![canonical(name@)];
    out.push(first);
    let mut i: usize = 0;
    assert(text::texts(out@) =~= head + more_names(others, 0));
    while i < aliases.len()
        invariant
            i <= aliases.len(),
            others == text::texts(aliases@),
            head == seq![canonical(name@)],
            text::texts(out@) == head + more_names(others, i as int),
            out@.len() > 0,
            out@[0]@ == canonical(name@),
        decreases aliases.len() - i,
    {
        let c = canonicalize(&aliases[i]);
        if text::chars_of(&c).len() != 0 {
            proof {
                text::lemma_texts_push(out@, c);
                assert(head + more_names(others, i + 1) =~= (head + more_names(
                    others,
                    i as int,
                )).push(c@));
            }
            out.push(c);
        }
        i += 1;
    }
    assert(others.len() == aliases@.len());
    out
}

fn place_of_member(ms: &Vec<(String, String)>, key: &str) -> (r: usize)
    ensures
        r == member_place(json::pairs_view(ms@), key@, 0),
        r <= ms@.len(),
{
    let ghost ps = json::pairs_view(ms@);
    let mut i: usize = 0;
    while i < ms.len()
        invariant
            i <= ms.len(),
            ps == json::pairs_view(ms@),
            member_place(ps, key@, 0) == member_place(ps, key@, i as int),
        decreases ms.len() - i,
    {
        assert(ps[i as int] == (ms@[i as int].0@, ms@[i as int].1@));
        if text::str_eq(&ms[i].0, key) || text::text_less(key, &ms[i].0) {
            return i;
        }
        i += 1;
    }
    i
}

fn set_sorted_member(ms: &mut Vec<(String, String)>, key: &str, value: String)
    ensures
        json::pairs_view(final(ms)@) == with_sorted_member(
            json::pairs_view(old(ms)@),
            key@,
            value@,
        ),
{
    let ghost before = ms@;
    let ghost ps = json::pairs_view(ms@);
    let i = place_of_member(ms, key);
    if i < ms.len() && text::str_eq(&ms[i].0, key) {
        let row = (key.to_owned(), value);
        ms.set(i, row);
        assert(json::pairs_view(ms@) =~= ps.update(i as int, (key@, value@)));
    } else {
        if i < ms.len() {
            assert(ps[i as int].0 == before[i as int].0@);
        }
        let row = (key.to_owned(), value);
        ms.insert(i, row);
        assert(json::pairs_view(ms@) =~= ps.insert(i as int, (key@, value@)));
    }
}

fn grown_meta(meta: &Option<String>, names: &Vec<String>) -> (r: String)
    ensures
        r@ == meta_with(store::opt_view(*meta), text::texts(names@)),
{
    let mut ms: Vec<(String, String)> = Vec::new();
    let mut known: Vec<String> = Vec::new();
    assert(json::pairs_view(ms@) =~= Seq::empty());
    assert(text::texts(known@) =~= Seq::empty());
    if let Some(m) = meta {
        if let Some(found) = json::read_members(m) {
            ms = found;
        }
        known = json::read_strings(m, "/aliases");
    }
    let ghost start = text::texts(known@);
    let ghost ns = text::texts(names@);
    assert(ns.len() == names@.len());
    let mut i: usize = 0;
    while i < names.len()
        invariant
            i <= names.len(),
            ns == text::texts(names@),
            text::texts(known@) == with_missing(start, ns, i as int),
        decreases names.len() - i,
    {
        text::push_distinct(&mut known, names[i].clone());
        i += 1;
    }
    let list = json::write_strings(&known);
    set_sorted_member(&mut ms, "aliases", list);
    json::write_object(&ms)
}

fn find_alias(index: &Vec<AliasRow>, alias: &String) -> (r: Option<usize>)
    ensures
        match r {
            Some(i) => rows::row_index(aliases_view(index@), alias_key(), alias@, 0) == Some(
                i as int,
            ) && i < index@.len(),
            None => rows::row_index(aliases_view(index@), alias_key(), alias@, 0) is None,
        },
{
    let ghost rs = aliases_view(index@);
    let mut i: usize = 0;
    while i < index.len()
        invariant
            i <= index.len(),
            rs == aliases_view(index@),
            rows::row_index(rs, alias_key(), alias@, 0) == rows::row_index(
                rs,
                alias_key(),
                alias@,
                i as int,
            ),
        decreases index.len() - i,
    {
        assert(rs[i as int].alias == index@[i as int].alias@);
        if index[i].alias == *alias {
            return Some(i);
        }
        i += 1;
    }
    None
}

fn first_by_alias(index: &Vec<AliasRow>, names: &Vec<String>) -> (r: Option<String>)
    ensures
        match r {
            Some(id) => first_meant(aliases_view(index@), text::texts(names@), 0) == Some(id@),
            None => first_meant(aliases_view(index@), text::texts(names@), 0) is None,
        },
{
    let ghost rs = aliases_view(index@);
    let ghost ns = text::texts(names@);
    let mut i: usize = 0;
    while i < names.len()
        invariant
            i <= names.len(),
            rs == aliases_view(index@),
            ns == text::texts(names@),
            first_meant(rs, ns, 0) == first_meant(rs, ns, i as int),
        decreases names.len() - i,
    {
        if let Some(k) = find_alias(index, &names[i]) {
            assert(rs[k as int].id == index@[k as int].id@);
            return Some(index[k].id.clone());
        }
        i += 1;
    }
    None
}

fn note_names(index: &mut Vec<AliasRow>, names: &Vec<String>, id: &String)
    ensures
        aliases_view(final(index)@) == with_aliases(
            aliases_view(old(index)@),
            text::texts(names@),
            id@,
            names@.len() as int,
        ),
{
    let ghost ns = text::texts(names@);
    let ghost start = aliases_view(index@);
    let mut i: usize = 0;
    while i < names.len()
        invariant
            i <= names.len(),
            ns == text::texts(names@),
            aliases_view(index@) == with_aliases(start, ns, id@, i as int),
        decreases names.len() - i,
    {
        let ghost before = index@;
        let row = AliasRow { alias: names[i].clone(), id: id.clone() };
        match find_alias(index, &names[i]) {
            Some(k) => {
                index.set(k, row);
                assert(aliases_view(index@) =~= aliases_view(before).update(
                    k as int,
                    AliasV { alias: names@[i as int]@, id: id@ },
                ));
            },
            None => {
                index.push(row);
                assert(aliases_view(index@) =~= aliases_view(before).push(
                    AliasV { alias: names@[i as int]@, id: id@ },
                ));
            },
        }
        i += 1;
    }
}

/// A graph and the names that came so far.
pub struct MergeV {
    pub g: GraphV,
    pub index: Seq<AliasV>,
}

/// Both after an entity came. A name of nothing changes nothing.
pub open spec fn entity_step(
    m: MergeV,
    name: Seq<char>,
    aliases: Seq<Seq<char>>,
    doc: Option<Seq<char>>,
    now: i64,
) -> MergeV {
    let names = names_of(name, aliases);
    let known = known_entity(m.g, m.index, names);
    if canonical(name).len() == 0 {
        m
    } else {
        MergeV {
            g: with_entity(m.g, known, name, names, doc, now),
            index: with_aliases(m.index, names, entity_of(known, name), names.len() as int),
        }
    }
}

pub open spec fn doc_view(doc: Option<&String>) -> Option<Seq<char>> {
    match doc {
        Some(d) => Some(d@),
        None => None,
    }
}

impl GraphStore {
    fn first_by_id(&self, names: &Vec<String>) -> (r: Option<String>)
        ensures
            match r {
                Some(id) => first_known(views::graph_of(*self), text::texts(names@), 0) == Some(
                    id@,
                ),
                None => first_known(views::graph_of(*self), text::texts(names@), 0) is None,
            },
    {
        let ghost g = views::graph_of(*self);
        let ghost ns = text::texts(names@);
        let mut i: usize = 0;
        while i < names.len()
            invariant
                i <= names.len(),
                g == views::graph_of(*self),
                ns == text::texts(names@),
                first_known(g, ns, 0) == first_known(g, ns, i as int),
            decreases names.len() - i,
        {
            let id = entity_id_of(&names[i]);
            if self.knows_node(&id) {
                return Some(id);
            }
            i += 1;
        }
        None
    }

    fn first_by_name(&self, canon: &String) -> (r: Option<String>)
        ensures
            match r {
                Some(id) => named_entity(views::graph_of(*self), canon@) == Some(id@),
                None => named_entity(views::graph_of(*self), canon@) is None,
            },
    {
        let hits = self.search_nodes(canon, NAME_HITS);
        let ghost seen = views::nodes_view(hits@);
        proof {
            views::lemma_found(self.nodes@, canon@, NAME_HITS);
        }
        let mut i: usize = 0;
        while i < hits.len()
            invariant
                i <= hits.len(),
                seen == views::nodes_view(hits@),
                named_entity(views::graph_of(*self), canon@) == first_named(
                    seen,
                    canon@,
                    i as int,
                ),
            decreases hits.len() - i,
        {
            assert(seen[i as int] == views::node_view(hits@[i as int]));
            if hits[i].node_type == NodeType::Entity && canonicalize(&hits[i].name) == *canon {
                return Some(hits[i].id.clone());
            }
            i += 1;
        }
        None
    }

    fn grow_entity(&mut self, id: &String, name: &String, names: &Vec<String>, now: i64)
        requires
            old(self).wf(),
        ensures
            final(self).wf(),
            ({
                let g = views::graph_of(*old(self));
                let ns = text::texts(names@);
                views::graph_of(*final(self)) == merged_names(
                    views::put_node(g, grown_entity(g, id@, name@, ns), now),
                    ns,
                    id@,
                    ns.len() as int,
                    now,
                )
            }),
            views::same_rest(*old(self), *final(self)),
    {
        let ghost g = views::graph_of(*self);
        let ghost ns = text::texts(names@);
        assert(ns.len() == names@.len());
        let (shown, meta) = match self.find_node(id) {
            Some(i) => (self.nodes[i].name.clone(), grown_meta(&self.nodes[i].meta, names)),
            None => (name.clone(), grown_meta(&None, names)),
        };
        let node = GraphNode {
            id: id.clone(),
            node_type: NodeType::Entity,
            name: shown,
            path: None,
            meta: Some(meta),
            degree: None,
            created_at: None,
            content: None,
        };
        proof {
            views::lemma_places(*self);
            assert(views::find_node(g.nodes, id@) == store::node_index(self.nodes@, id@));
            assert(views::node_view(node) == grown_entity(g, id@, name@, ns));
        }
        self.write_node(&node, now);
        let ghost grown = views::graph_of(*self);
        let mut i: usize = 0;
        while i < names.len()
            invariant
                i <= names.len(),
                ns == text::texts(names@),
                self.wf(),
                views::graph_of(*self) == merged_names(grown, ns, id@, i as int, now),
                views::same_rest(*old(self), *self),
            decreases names.len() - i,
        {
            let other = entity_id_of(&names[i]);
            if other != *id && self.knows_node(&other) {
                self.merge_nodes(&other, id, now);
            }
            i += 1;
        }
    }

    /// Adds an entity under its names; see [`EntityMerger::upsert_entity`].
    pub(crate) fn merge_entity(
        &mut self,
        index: &mut Vec<AliasRow>,
        name: &String,
        aliases: &Vec<String>,
        source_doc: Option<&String>,
        now: i64,
    ) -> (r: Result<String, String>)
        requires
            old(self).wf(),
        ensures
            final(self).wf(),
            (MergeV {
                g: views::graph_of(*final(self)),
                index: aliases_view(final(index)@),
            }) == entity_step(
                (MergeV { g: views::graph_of(*old(self)), index: aliases_view(old(index)@) }),
                name@,
                text::texts(aliases@),
                doc_view(source_doc),
                now,
            ),
            views::same_rest(*old(self), *final(self)),
            match r {
                Err(e) => canonical(name@).len() == 0 && e@ == "实体名为空"@ && *final(self) == *old(
                    self,
                ),
                Ok(id) => canonical(name@).len() > 0 && id@ == entity_of(
                    known_entity(
                        views::graph_of(*old(self)),
                        aliases_view(old(index)@),
                        names_of(name@, text::texts(aliases@)),
                    ),
                    name@,
                ),
            },
    {
        let names = all_names(name, aliases);
        let ghost ns = text::texts(names@);
        assert(ns.len() == names@.len());
        if text::chars_of(&names[0]).len() == 0 {
            return Err("实体名为空".to_owned());
        }
        let known = match first_by_alias(index, &names) {
            Some(id) => Some(id),
            None => match self.first_by_id(&names) {
                Some(id) => Some(id),
                None => self.first_by_name(&names[0]),
            },
        };
        let id = match known {
            Some(id) => {
                self.grow_entity(&id, name, &names, now);
                id
            },
            None => {
                let id = entity_id_of(&names[0]);
                let mut ms: Vec<(String, String)> = Vec::new();
                ms.push(("aliases".to_owned(), json::write_strings(&names)));
                assert(json::pairs_view(ms@) =~= seq![("aliases"@, json::strings_text(ns))]);
                let node = GraphNode {
                    id: id.clone(),
                    node_type: NodeType::Entity,
                    name: text::trim_space(name),
                    path: None,
                    meta: Some(json::write_object(&ms)),
                    degree: None,
                    created_at: None,
                    content: None,
                };
                assert(views::node_view(node) == new_entity(name@, ns));
                self.write_node(&node, now);
                id
            },
        };
        if let Some(doc) = source_doc {
            self.write_whole_edge(&id, doc, Relation::DerivedFrom, doc, now);
        }
        note_names(index, &names, &id);
        Ok(id)
    }
}

/// Adds entities to a graph, so that one that is there under another name is found again.
pub struct EntityMerger<'a> {
    pub store: &'a mut GraphStore,
    /// The names that came so far and what they mean.
    pub alias_index: Vec<AliasRow>,
}

impl<'a> EntityMerger<'a> {
    pub fn new(store: &'a mut GraphStore) -> (r: Self)
        ensures
            *r.store == *old(store),
            *final(r.store) == *final(store),
            r.alias_index@.len() == 0,
    {
        EntityMerger { store, alias_index: Vec::new() }
    }

    /// Adds an entity under its names. Where one of the names means an entity that is there,
    /// that one gets the names, and entities that stood under them on their own are merged
    /// into it. Returns the id of the entity. A name of nothing is refused.
    pub fn upsert_entity(
        &mut self,
        name: &String,
        aliases: &Vec<String>,
        source_doc: Option<&String>,
        now: i64,
    ) -> (r: Result<String, String>)
        requires
            old(self).store.wf(),
        ensures
            final(self).store.wf(),
            (MergeV {
                g: views::graph_of(*final(self).store),
                index: aliases_view(final(self).alias_index@),
            }) == entity_step(
                (MergeV {
                    g: views::graph_of(*old(self).store),
                    index: aliases_view(old(self).alias_index@),
                }),
                name@,
                text::texts(aliases@),
                doc_view(source_doc),
                now,
            ),
            views::same_rest(*old(self).store, *final(self).store),
            match r {
                Err(e) => canonical(name@).len() == 0 && e@ == "实体名为空"@ && *final(self).store
                    == *old(self).store,
                Ok(id) => canonical(name@).len() > 0 && id@ == entity_of(
                    known_entity(
                        views::graph_of(*old(self).store),
                        aliases_view(old(self).alias_index@),
                        names_of(name@, text::texts(aliases@)),
                    ),
                    name@,
                ),
            },
            *final(final(self).store) == *final(old(self).store),
    {
        self.store.merge_entity(&mut self.alias_index, name, aliases, source_doc, now)
    }
}

/// A name that came with an entity means that entity from then on.
pub proof fn law_a_name_keeps_its_meaning(
    index: Seq<AliasV>,
    names: Seq<Seq<char>>,
    id: Seq<char>,
    k: int,
    g: GraphV,
    later: Seq<Seq<char>>,
)
    requires
        0 <= k < names.len(),
        later.len() > 0,
        later[0] == names[k],
    ensures
        known_entity(g, with_aliases(index, names, id, names.len() as int), later) == Some(id),
{
    lemma_meant(index, names, id, names.len() as int, k);
}

proof fn lemma_meant(index: Seq<AliasV>, names: Seq<Seq<char>>, id: Seq<char>, n: int, k: int)
    requires
        0 <= k < n <= names.len(),
    ensures
        meant(with_aliases(index, names, id, n), names[k]) == Some(id),
    decreases n,
{
    let before = with_aliases(index, names, id, n - 1);
    let after = with_aliases(index, names, id, n);
    let x = names[n - 1];
    rows::lemma_row_index(before, alias_key(), x, 0);
    rows::lemma_row_index(after, alias_key(), x, 0);
    rows::lemma_row_index(before, alias_key(), names[k], 0);
    rows::lemma_row_index(after, alias_key(), names[k], 0);
    match rows::row_index(before, alias_key(), x, 0) {
        Some(i) => {
            assert(after[i] == AliasV { alias: x, id });
        },
        None => {
            assert(after[before.len() as int] == AliasV { alias: x, id });
        },
    }
    if names[k] != x {
        lemma_meant(index, names, id, n - 1, k);
        let j = rows::row_index(before, alias_key(), names[k], 0)->0;
        assert(after[j] == before[j]);
        let m = rows::row_index(after, alias_key(), names[k], 0)->0;
        assert(m < before.len() ==> before[m] == after[m]);
    } else {
        let m = rows::row_index(after, alias_key(), x, 0)->0;
        match rows::row_index(before, alias_key(), x, 0) {
            Some(i) => {
                assert(forall|j: int| 0 <= j < i ==> alias_key()(#[trigger] after[j]) == alias_key()(before[j]));
            },
            None => {},
        }
    }
}

/// A new entity is found again under its name without any memory of names.
pub proof fn law_a_new_entity_is_found_again(
    g: GraphV,
    name: Seq<char>,
    names: Seq<Seq<char>>,
    now: i64,
    later: Seq<Seq<char>>,
)
    requires
        later.len() > 0,
        later[0] == canonical(name),
    ensures
        known_entity(
            views::put_node(g, new_entity(name, names), now),
            Seq::empty(),
            later,
        ) == Some(entity_id(canonical(name))),
{
    let n = new_entity(name, names);
    let after = views::put_node(g, n, now);
    rows::lemma_row_index(g.nodes, views::nv_key(), n.id, 0);
    rows::lemma_row_index(after.nodes, views::nv_key(), n.id, 0);
    lemma_no_meaning(later, 0);
    match views::find_node(g.nodes, n.id) {
        Some(i) => {
            assert(views::nv_key()(after.nodes[i]) == n.id);
        },
        None => {
            assert(views::nv_key()(after.nodes[g.nodes.len() as int]) == n.id);
        },
    }
}

proof fn lemma_no_meaning(names: Seq<Seq<char>>, i: int)
    requires
        0 <= i,
    ensures
        first_meant(Seq::empty(), names, i) is None,
    decreases names.len() - i,
{
    if i < names.len() {
        lemma_no_meaning(names, i + 1);
        rows::lemma_row_index(Seq::<AliasV>::empty(), alias_key(), names[i], 0);
    }
}

} // verus!
