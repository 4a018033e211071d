//! Links in documents: how they are found and which file they lead to.

use crate::rows;
use crate::text;
use crate::text::CharClass;
use vstd::prelude::*;

verus! {

/// A link in Markdown: `[[target]]`, `[text](target)` or `<scheme:target>`, with the target
/// as the first group that takes part.
pub const LINK_PATTERN: &'static str =
    r"!?\[\[([^\[\]\|]+?)(?:\|[^\[\]]+?)?\]\]|!?\[(?:[^\]\\]|\\.)*\]\(([^)]+)\)|<([a-zA-Z][a-zA-Z0-9+.-]{1,31}:[^<>]+)>";

/// The groups of every match of the pattern in the text, the whole match as the first of
/// them, or nothing where the pattern is none.
pub uninterp spec fn regex_groups(pattern: Seq<char>, s: Seq<char>) -> Option<
    Seq<Seq<Option<Seq<char>>>>,
>;

pub open spec fn groups_view(g: Seq<Option<String>>) -> Seq<Option<Seq<char>>> {
    Seq::new(
        g.len(),
        |i: int|
            match g[i] {
                Some(s) => Some(s@),
                None => None,
            },
    )
}

pub open spec fn matches_view(m: Seq<Vec<Option<String>>>) -> Seq<Seq<Option<Seq<char>>>> {
    Seq::new(m.len(), |i: int| groups_view(m[i]@))
}

/// The groups of every match; wraps `regex::Regex::captures_iter`, whose matches depend on
/// the pattern and the text alone. A pattern that `regex::Regex::new` refuses has none.
#[verifier::external_body]
fn find_groups(pattern: &str, s: &str) -> (r: Option<Vec<Vec<Option<String>>>>)
    ensures
        match r {
            Some(v) => regex_groups(pattern@, s@) == Some(matches_view(v@)),
            None => regex_groups(pattern@, s@) is None,
        },
{
    let re = regex::Regex::new(pattern).ok()?;
    let all = re.captures_iter(s);
    Some(all.map(|c| c.iter().map(|g| g.map(|m| m.as_str().to_string())).collect()).collect())
}

// ---- What is not looked at

pub open spec fn opens_fence(line: Seq<char>) -> bool {
    text::starts_with(line, "```"@) || text::starts_with(line, "~~~"@)
}

/// Whether a line is a fence that is opened and closed on it.
pub open spec fn is_closed_fence(line: Seq<char>) -> bool {
    line.len() > 3 && ((text::starts_with(line, "```"@) && text::ends_with(line, "```"@)) || (
    text::starts_with(line, "~~~"@) && text::ends_with(line, "~~~"@)))
}

/// Whether the line behind the first `n` stands in a fence.
pub open spec fn in_fence(lines: Seq<Seq<char>>, n: int) -> bool
    decreases n,
{
    if n <= 0 {
        false
    } else {
        let line = text::trim_start(lines[n - 1]);
        if !is_closed_fence(line) && opens_fence(line) {
            !in_fence(lines, n - 1)
        } else {
            in_fence(lines, n - 1)
        }
    }
}

/// The first `n` lines without those in fences, each with its end.
pub open spec fn outside_fences(lines: Seq<Seq<char>>, n: int) -> Seq<char>
    decreases n,
{
    if n <= 0 {
        Seq::empty()
    } else {
        let before = outside_fences(lines, n - 1);
        if opens_fence(text::trim_start(lines[n - 1])) || in_fence(lines, n - 1) {
            before
        } else {
            before + lines[n - 1] + seq!['\n']
        }
    }
}

pub open spec fn without_blocks(s: Seq<char>) -> Seq<char> {
    outside_fences(text::lines(s), text::lines(s).len() as int)
}

pub open spec fn tick_or_end() -> text::Class {
    text::one_of(seq!['`', '\n'])
}

/// The text from `i` on without what stands between two backticks on a line.
pub open spec fn without_ticks(s: Seq<char>, i: int) -> Seq<char>
    decreases s.len() - i,
{
    if i < 0 || i >= s.len() {
        Seq::empty()
    } else if s[i] == '`' {
        match text::index_from(s, tick_or_end(), i + 1) {
            Some(k) => if k > i && k < s.len() && s[k] == '`' {
                without_ticks(s, k + 1)
            } else {
                seq![s[i]] + without_ticks(s, i + 1)
            },
            None => seq![s[i]] + without_ticks(s, i + 1),
        }
    } else {
        seq![s[i]] + without_ticks(s, i + 1)
    }
}

/// The text without the front matter, where it begins with one.
pub open spec fn without_front_matter(s: Seq<char>) -> Seq<char> {
    if text::starts_with(text::trim_start(s), "---"@) {
        match text::find(s, "\n---"@) {
            Some(i) => s.skip(i + 4),
            None => s,
        }
    } else {
        s
    }
}

/// The text in which links are looked for.
pub open spec fn link_text(s: Seq<char>) -> Seq<char> {
    without_front_matter(without_ticks(without_blocks(s), 0))
}

// ---- Targets

/// The first group from the `i`th on that takes part in a match.
pub open spec fn first_group(g: Seq<Option<Seq<char>>>, i: int) -> Option<Seq<char>>
    decreases g.len() - i,
{
    if i < 0 || i >= g.len() {
        None
    } else if g[i] is Some {
        g[i]
    } else {
        first_group(g, i + 1)
    }
}

/// The target of a match, without anchor and query.
pub open spec fn target_of(g: Seq<Option<Seq<char>>>) -> Option<Seq<char>> {
    match first_group(g, 1) {
        Some(raw) => if text::trim(raw).len() == 0 {
            None
        } else {
            Some(text::before_first(text::before_first(text::trim(raw), '#'), '?'))
        },
        None => None,
    }
}

/// The targets of the first `n` matches, each once.
pub open spec fn all_targets(m: Seq<Seq<Option<Seq<char>>>>, n: int) -> Seq<Seq<char>>
    decreases n,
{
    if n <= 0 {
        Seq::empty()
    } else {
        let before = all_targets(m, n - 1);
        match target_of(m[n - 1]) {
            Some(t) => if before.contains(t) {
                before
            } else {
                before.push(t)
            },
            None => before,
        }
    }
}

/// Whether a target is on the web.
pub open spec fn is_web(t: Seq<char>) -> bool {
    text::starts_with(t, "http://"@) || text::starts_with(t, "https://"@)
}

pub open spec fn is_external(t: Seq<char>) -> bool {
    is_web(t) || text::starts_with(t, "mailto:"@)
}

pub open spec fn internal() -> spec_fn(Seq<char>) -> bool {
    |t: Seq<char>| !is_external(t)
}

/// The matches in a text, none where the pattern is refused.
pub open spec fn link_matches(s: Seq<char>) -> Seq<Seq<Option<Seq<char>>>> {
    match regex_groups(LINK_PATTERN@, link_text(s)) {
        Some(m) => m,
        None => Seq::empty(),
    }
}

fn is_fence_line(line: &str) -> (r: bool)
    ensures
        r == opens_fence(line@),
{
    text::has_prefix(line, "```") || text::has_prefix(line, "~~~")
}

fn is_closed_fence_line(line: &str) -> (r: bool)
    ensures
        r == is_closed_fence(line@),
{
    let n = text::chars_of(line).len();
    n > 3 && ((text::has_prefix(line, "```") && text::has_suffix(line, "```")) || (
    text::has_prefix(line, "~~~") && text::has_suffix(line, "~~~")))
}

fn strip_code_blocks(s: &str) -> (r: String)
    ensures
        r@ == without_blocks(s@),
{
    let ls = text::lines_of(s);
    let ghost lines = text::lines(s@);
    assert(text::texts(ls@).len() == ls@.len());
    let mut out = String::new();
    let mut fenced = false;
    let mut i: usize = 0;
    assert(out@ =~= Seq::empty());
    while i < ls.len()
        invariant
            i <= ls.len(),
            lines == text::texts(ls@),
            fenced == in_fence(lines, i as int),
            out@ == outside_fences(lines, i as int),
        decreases ls.len() - i,
    {
        let line = text::trim_start_of(&ls[i], &CharClass::Space);
        assert(line@ == text::trim_start(lines[i as int]));
        let ghost before = out@;
        if is_closed_fence_line(&line) {
            assert(opens_fence(line@));
        } else if is_fence_line(&line) {
            fenced = !fenced;
        } else if !fenced {
            out.push_str(&ls[i]);
            out.push('\n');
            assert(out@ =~= before + lines[i as int] + seq!['\n']);
        }
        i += 1;
    }
    out
}

fn strip_inline_code(s: &str) -> (r: String)
    ensures
        r@ == without_ticks(s@, 0),
{
    let cs = text::chars_of(s);
    let mut set: Vec<char> = Vec::new();
    set.push('`');
    set.push('\n');
    assert(set@ =~= seq!['`', '\n']);
    let class = CharClass::OneOf(set);
    assert(class.class() == tick_or_end());
    let mut out = String::new();
    let mut i: usize = 0;
    assert(out@ + without_ticks(cs@, 0) =~= without_ticks(cs@, 0));
    while i < cs.len()
        invariant
            i <= cs.len(),
            cs@ == s@,
            class.class() == tick_or_end(),
            out@ + without_ticks(cs@, i as int) == without_ticks(s@, 0),
        decreases cs.len() - i,
    {
        let mut next: usize = i + 1;
        let mut keep = true;
        if cs[i] == '`' {
            if let Some(k) = text::index_at(&cs, &class, i + 1) {
                if cs[k] == '`' {
                    next = k + 1;
                    keep = false;
                }
            }
        }
        let ghost before = out@;
        if keep {
            out.push(cs[i]);
            assert(out@ + without_ticks(cs@, i + 1) =~= before + (seq![cs@[i as int]]
                + without_ticks(cs@, i + 1)));
        }
        i = next;
    }
    assert(out@ =~= out@ + without_ticks(cs@, i as int));
    out
}

fn strip_front_matter(s: &str) -> (r: String)
    ensures
        r@ == without_front_matter(s@),
{
    let head = text::trim_start_of(s, &CharClass::Space);
    if text::has_prefix(&head, "---") {
        let cs = text::chars_of(s);
        let mark = text::chars_of("\n---");
        proof {
            reveal_strlit("\n---");
        }
        match text::find_at(&cs, &mark, 0) {
            Some(i) => {
                let r = text::slice_text(&cs, i + 4, cs.len());
                assert(r@ =~= s@.skip(i + 4));
                r
            },
            None => s.to_owned(),
        }
    } else {
        s.to_owned()
    }
}

fn first_some(g: &Vec<Option<String>>) -> (r: Option<String>)
    ensures
        match r {
            Some(s) => first_group(groups_view(g@), 1) == Some(s@),
            None => first_group(groups_view(g@), 1) is None,
        },
{
    let mut i: usize = 1;
    while i < g.len()
        invariant
            1 <= i,
            first_group(groups_view(g@), 1) == first_group(groups_view(g@), i as int),
        decreases g.len() - i,
    {
        assert(groups_view(g@)[i as int] == (match g@[i as int] {
            Some(s) => Some(s@),
            None => None,
        }));
        if let Some(s) = &g[i] {
            return Some(s.clone());
        }
        i += 1;
    }
    None
}

/// The targets of the matches of a link, each once.
pub fn targets_of(m: &Vec<Vec<Option<String>>>) -> (r: Vec<String>)
    ensures
        text::texts(r@) == all_targets(matches_view(m@), m@.len() as int),
{
    let mut out: Vec<String> = Vec::new();
    let mut i: usize = 0;
    assert(text::texts(out@) =~= Seq::empty());
    while i < m.len()
        invariant
            i <= m.len(),
            text::texts(out@) == all_targets(matches_view(m@), i as int),
        decreases m.len() - i,
    {
        assert(matches_view(m@)[i as int] == groups_view(m@[i as int]@));
        if let Some(raw) = first_some(&m[i]) {
            let t = text::trim_space(&raw);
            let empty = text::chars_of(&t).len() == 0;
            if !empty {
                let a = text::before_first_of(&t, '#');
                let b = text::before_first_of(&a, '?');
                text::push_distinct(&mut out, b);
            }
        }
        i += 1;
    }
    out
}

fn is_web_target(t: &str) -> (r: bool)
    ensures
        r == is_web(t@),
{
    text::has_prefix(t, "http://") || text::has_prefix(t, "https://")
}

/// All targets of the links in a document, those outside of it too.
pub fn all_link_targets(s: &str) -> (r: Vec<String>)
    ensures
        text::texts(r@) == all_targets(link_matches(s@), link_matches(s@).len() as int),
{
    let plain = strip_code_blocks(s);
    let visible = strip_inline_code(&plain);
    let body = strip_front_matter(&visible);
    match find_groups(LINK_PATTERN, &body) {
        Some(m) => {
            assert(matches_view(m@).len() == m@.len());
            targets_of(&m)
        },
        None => {
            let out: Vec<String> = Vec::new();
            assert(text::texts(out@) =~= Seq::empty());
            out
        },
    }
}

/// The targets of the links in a document that lead to other documents, each once. Code and
/// front matter are not looked at.
pub fn extract_link_targets(s: &str) -> (r: Vec<String>)
    ensures
        text::texts(r@) == rows::kept(
            all_targets(link_matches(s@), link_matches(s@).len() as int),
            internal(),
        ),
{
    let all = all_link_targets(s);
    let ghost ts = text::texts(all@);
    let mut out: Vec<String> = Vec::new();
    let mut i: usize = 0;
    assert(text::texts(out@) =~= rows::kept(ts.take(0), internal()));
    while i < all.len()
        invariant
            i <= all.len(),
            ts == text::texts(all@),
            text::texts(out@) == rows::kept(ts.take(i as int), internal()),
        decreases all.len() - i,
    {
        proof {
            assert(ts.take(i + 1) =~= ts.take(i as int).push(ts[i as int]));
            rows::lemma_kept_push(ts.take(i as int), ts[i as int], internal());
        }
        if !is_web_target(&all[i]) && !text::has_prefix(&all[i], "mailto:") {
            proof {
                text::lemma_texts_push(out@, all@[i as int]);
            }
            out.push(all[i].clone());
        }
        i += 1;
    }
    assert(ts.take(i as int) == ts);
    out
}

// ---- Files

/// The directory that a path is in; a path at the top is in none.
pub open spec fn parent_of(rel: Seq<char>) -> Option<Seq<char>> {
    match text::last_index(rel, '/') {
        Some(i) => if i > 0 {
            Some(rel.take(i))
        } else {
            None
        },
        None => None,
    }
}

pub fn parent_dir(rel: &str) -> (r: Option<String>)
    ensures
        match r {
            Some(p) => parent_of(rel@) == Some(p@),
            None => parent_of(rel@) is None,
        },
{
    let cs = text::chars_of(rel);
    match text::last_index_of(&cs, '/') {
        Some(i) => if i > 0 {
            let p = text::slice_text(&cs, 0, i);
            assert(p@ =~= rel@.take(i as int));
            Some(p)
        } else {
            None
        },
        None => None,
    }
}

/// Whether links are looked for in a file.
pub open spec fn has_links(rel: Seq<char>) -> bool {
    let lower = text::lowercase(rel);
    text::ends_with(lower, ".md"@) || text::ends_with(lower, ".markdown"@) || text::ends_with(
        lower,
        ".mdown"@,
    ) || text::ends_with(lower, ".rst"@)
}

pub fn is_linkable(rel: &str) -> (r: bool)
    ensures
        r == has_links(rel@),
{
    let lower = text::to_lower(rel);
    text::has_suffix(&lower, ".md") || text::has_suffix(&lower, ".markdown") || text::has_suffix(
        &lower,
        ".mdown",
    ) || text::has_suffix(&lower, ".rst")
}

/// The name of a file without its directory and, in small letters, without its extension.
pub open spec fn stem_of(path: Seq<char>) -> Seq<char> {
    let name = text::lowercase(text::after_last(path, '/'));
    match text::last_index(name, '.') {
        Some(i) => if i > 0 {
            name.take(i)
        } else {
            name
        },
        None => name,
    }
}

fn stem(path: &str) -> (r: String)
    ensures
        r@ == stem_of(path@),
{
    let last = text::after_last_of(path, '/');
    let name = text::to_lower(&last);
    let cs = text::chars_of(&name);
    match text::last_index_of(&cs, '.') {
        Some(i) => if i > 0 {
            let r = text::slice_text(&cs, 0, i);
            assert(r@ =~= name@.take(i as int));
            r
        } else {
            name
        },
        None => name,
    }
}

pub open spec fn has_stem(stem: Seq<char>) -> spec_fn(Seq<char>) -> bool {
    |f: Seq<char>| stem_of(f) == stem
}

/// The path itself or, with the Markdown extension, its file; whichever is one of the files.
pub open spec fn file_or_md(files: Seq<Seq<char>>, p: Seq<char>) -> Option<Seq<char>> {
    if files.contains(p) {
        Some(p)
    } else if !text::ends_with(p, ".md"@) && files.contains(p + ".md"@) {
        Some(p + ".md"@)
    } else {
        None
    }
}

/// The path of a target seen from the directory of the document.
pub open spec fn beside(source_rel: Seq<char>, norm: Seq<char>) -> Seq<char> {
    match text::last_index(source_rel, '/') {
        Some(i) => if i > 0 {
            source_rel.take(i) + seq!['/'] + norm
        } else {
            norm
        },
        None => norm,
    }
}

/// The file that a target leads to: the path as it stands, the path from the directory of
/// the document, or the only file with the name.
pub open spec fn resolved(target: Seq<char>, source_rel: Seq<char>, files: Seq<Seq<char>>) -> Option<
    Seq<char>,
> {
    let norm = text::replace_char(target, '\\', '/');
    if text::starts_with(norm, seq!['/']) {
        None
    } else if file_or_md(files, norm) is Some {
        file_or_md(files, norm)
    } else if file_or_md(files, beside(source_rel, norm)) is Some {
        file_or_md(files, beside(source_rel, norm))
    } else {
        let same = rows::kept(text::distinct(files), has_stem(stem_of(norm)));
        if same.len() == 1 {
            Some(same[0])
        } else {
            None
        }
    }
}

fn find_file(files: &Vec<String>, p: &String) -> (r: Option<String>)
    ensures
        match r {
            Some(f) => file_or_md(text::texts(files@), p@) == Some(f@),
            None => file_or_md(text::texts(files@), p@) is None,
        },
{
    if text::lists_text(files, p) {
        return Some(p.clone());
    }
    if !text::has_suffix(p, ".md") {
        let mut with = p.clone();
        with.push_str(".md");
        if text::lists_text(files, &with) {
            return Some(with);
        }
    }
    None
}

fn only_with_stem(files: &Vec<String>, s: &String) -> (r: Option<String>)
    ensures
        ({
            let same = rows::kept(text::distinct(text::texts(files@)), has_stem(s@));
            match r {
                Some(f) => same.len() == 1 && same[0] == f@,
                None => same.len() != 1,
            }
        }),
{
    let ghost fs = text::texts(files@);
    let mut seen: Vec<String> = Vec::new();
    let mut same: Vec<String> = Vec::new();
    let mut i: usize = 0;
    assert(text::texts(seen@) =~= text::distinct(fs.take(0)));
    assert(text::texts(same@) =~= rows::kept(text::distinct(fs.take(0)), has_stem(s@)));
    while i < files.len()
        invariant
            i <= files.len(),
            fs == text::texts(files@),
            text::texts(seen@) == text::distinct(fs.take(i as int)),
            text::texts(same@) == rows::kept(text::distinct(fs.take(i as int)), has_stem(s@)),
        decreases files.len() - i,
    {
        proof {
            assert(fs.take(i + 1) =~= fs.take(i as int).push(fs[i as int]));
            text::lemma_distinct_push(fs.take(i as int), fs[i as int]);
            rows::lemma_kept_push(text::distinct(fs.take(i as int)), fs[i as int], has_stem(s@));
        }
        if !text::lists_text(&seen, &files[i]) {
            proof {
                text::lemma_texts_push(seen@, files@[i as int]);
                text::lemma_texts_push(same@, files@[i as int]);
            }
            if stem(&files[i]) == *s {
                same.push(files[i].clone());
            }
            seen.push(files[i].clone());
        }
        i += 1;
    }
    assert(fs.take(i as int) == fs);
    assert(text::texts(same@).len() == same@.len());
    if same.len() == 1 {
        assert(text::texts(same@)[0] == same@[0]@);
        Some(same[0].clone())
    } else {
        None
    }
}

/// The file that a link's target leads to, if any.
pub fn resolve_link(target: &str, source_rel: &str, all_files: &Vec<String>) -> (r: Option<String>)
    ensures
        match r {
            Some(f) => resolved(target@, source_rel@, text::texts(all_files@)) == Some(f@),
            None => resolved(target@, source_rel@, text::texts(all_files@)) is None,
        },
{
    let norm = text::replace_char_of(target, '\\', '/');
    proof {
        reveal_strlit("/");
        assert("/"@ =~= seq!['/']);
    }
    if text::has_prefix(&norm, "/") {
        return None;
    }
    if let Some(f) = find_file(all_files, &norm) {
        return Some(f);
    }
    let cs = text::chars_of(source_rel);
    let near = match text::last_index_of(&cs, '/') {
        Some(i) => if i > 0 {
            let mut p = text::slice_text(&cs, 0, i);
            assert(p@ =~= source_rel@.take(i as int));
            p.push('/');
            p.push_str(&norm);
            assert(p@ =~= beside(source_rel@, norm@));
            p
        } else {
            norm.clone()
        },
        None => norm.clone(),
    };
    if let Some(f) = find_file(all_files, &near) {
        return Some(f);
    }
    let s = stem(&norm);
    only_with_stem(all_files, &s)
}

/// A link leads only to a file that is there.
pub proof fn law_links_lead_to_files(
    target: Seq<char>,
    source_rel: Seq<char>,
    files: Seq<Seq<char>>,
)
    ensures
        resolved(target, source_rel, files) matches Some(f) ==> files.contains(f),
{
    let norm = text::replace_char(target, '\\', '/');
    let all = text::distinct(files);
    let p = has_stem(stem_of(norm));
    let same = rows::kept(all, p);
    rows::lemma_kept(all, p);
    text::lemma_distinct(files);
    if same.len() == 1 {
        assert(all.contains(same[0]));
    }
}

/// What stands in a fenced block of code is not looked at: behind the line that opens a
/// block no line counts before one that may close it.
pub proof fn law_blocks_are_not_looked_at(lines: Seq<Seq<char>>, n: int, m: int)
    requires
        0 <= n <= m <= lines.len(),
        in_fence(lines, n),
        forall|i: int| n <= i < m ==> !opens_fence(text::trim_start(#[trigger] lines[i])),
    ensures
        outside_fences(lines, m) == outside_fences(lines, n),
        in_fence(lines, m),
    decreases m - n,
{
    if m > n {
        law_blocks_are_not_looked_at(lines, n, m - 1);
        assert(!opens_fence(text::trim_start(lines[m - 1])));
    }
}

} // verus!
