//! Imports in source code, and which file of the graph they mean.

use crate::text;
use crate::text::CharClass;
use vstd::prelude::*;

verus! {

/// What stands between the first of the marks and the next mark of the same kind.
pub open spec fn between_quotes(s: Seq<char>) -> Option<Seq<char>> {
    match text::index_from(s, text::one_of(seq!['\'', '"']), 0) {
        Some(i) => match text::index_from(s, text::only(s[i]), i + 1) {
            Some(k) => Some(s.subrange(i + 1, k)),
            None => None,
        },
        None => None,
    }
}

/// What stands between angle brackets or quotation marks, whichever open first.
pub open spec fn between_brackets(s: Seq<char>) -> Option<Seq<char>> {
    match text::index_from(s, text::one_of(seq!['<', '"']), 0) {
        Some(i) => match text::index_from(
            s,
            text::only(
                if s[i] == '<' {
                    '>'
                } else {
                    '"'
                },
            ),
            i + 1,
        ) {
            Some(k) => Some(s.subrange(i + 1, k)),
            None => None,
        },
        None => None,
    }
}

/// The text behind the word, without blanks around it.
pub open spec fn behind(line: Seq<char>, word: Seq<char>) -> Seq<char> {
    text::trim(text::trim_prefix(line, word))
}

pub open spec fn without_alias(s: Seq<char>) -> Seq<char> {
    text::trim(text::before_text(text::trim(s), " as "@))
}

/// What a line without blanks in front imports.
pub open spec fn import_in(line: Seq<char>) -> Option<Seq<char>> {
    if text::starts_with(line, "import"@) && text::contains(line, " from "@) {
        match text::find(line, " from "@) {
            Some(i) => between_quotes(text::trim(line.skip(i + 6))),
            None => None,
        }
    } else if text::contains(line, "require("@) {
        between_quotes(line)
    } else if text::starts_with(line, "import "@) {
        Some(without_alias(text::before_first(behind(line, "import "@), ',')))
    } else if text::starts_with(line, "from "@) {
        Some(text::trim(text::before_first(behind(line, "from "@), ' ')))
    } else if text::starts_with(line, "use "@) {
        Some(without_alias(text::before_text(behind(line, "use "@), "::"@)))
    } else if text::starts_with(line, "import"@) {
        match between_quotes(behind(line, "import"@)) {
            Some(p) => Some(text::after_last(p, '/')),
            None => None,
        }
    } else if text::starts_with(line, "#"@) && text::contains(line, "include"@) {
        match between_brackets(line) {
            Some(p) => Some(
                text::trim_suffix(
                    text::trim_suffix(text::after_last(p, '/'), ".h"@),
                    ".hpp"@,
                ),
            ),
            None => None,
        }
    } else {
        None
    }
}

/// A name without blanks and quotation marks around it.
pub open spec fn unquoted(t: Seq<char>) -> Seq<char> {
    text::trim(
        text::trim_by(text::trim_by(text::trim(t), text::only('"')), text::only('\'')),
    )
}

/// Whether an import is one that no file of the graph can be meant by.
pub open spec fn is_foreign(t: Seq<char>) -> bool {
    t.len() == 0 || text::starts_with(t, "std::"@) || t == "react"@ || text::starts_with(t, "node:"@)
}

/// What the first `n` lines import, each name once.
pub open spec fn imports_in(lines: Seq<Seq<char>>, n: int) -> Seq<Seq<char>>
    decreases n,
{
    if n <= 0 {
        Seq::empty()
    } else {
        let before = imports_in(lines, n - 1);
        match import_in(text::trim_start(lines[n - 1])) {
            Some(raw) => if is_foreign(unquoted(raw)) || before.contains(unquoted(raw)) {
                before
            } else {
                before.push(unquoted(raw))
            },
            None => before,
        }
    }
}

fn quoted_part(s: &str) -> (r: Option<String>)
    ensures
        match r {
            Some(p) => between_quotes(s@) == Some(p@),
            None => between_quotes(s@) is None,
        },
{
    let cs = text::chars_of(s);
    let mut set: Vec<char> = Vec::new();
    set.push('\'');
    set.push('"');
    assert(set@ =~= seq!['\'', '"']);
    let class = CharClass::OneOf(set);
    match text::index_at(&cs, &class, 0) {
        Some(i) => match text::index_at(&cs, &CharClass::Only(cs[i]), i + 1) {
            Some(k) => Some(text::slice_text(&cs, i + 1, k)),
            None => None,
        },
        None => None,
    }
}

fn bracketed_part(s: &str) -> (r: Option<String>)
    ensures
        match r {
            Some(p) => between_brackets(s@) == Some(p@),
            None => between_brackets(s@) is None,
        },
{
    let cs = text::chars_of(s);
    let mut set: Vec<char> = Vec::new();
    set.push('<');
    set.push('"');
    assert(set@ =~= seq!['<', '"']);
    let class = CharClass::OneOf(set);
    match text::index_at(&cs, &class, 0) {
        Some(i) => {
            let close = if cs[i] == '<' {
                '>'
            } else {
                '"'
            };
            match text::index_at(&cs, &CharClass::Only(close), i + 1) {
                Some(k) => Some(text::slice_text(&cs, i + 1, k)),
                None => None,
            }
        },
        None => None,
    }
}

fn rest_of(line: &str, word: &str) -> (r: String)
    ensures
        r@ == behind(line@, word@),
{
    let t = text::trim_prefix_of(line, word);
    text::trim_space(&t)
}

fn drop_alias(s: &str) -> (r: String)
    ensures
        r@ == without_alias(s@),
{
    let t = text::trim_space(s);
    let u = text::before_text_of(&t, " as ");
    text::trim_space(&u)
}

fn import_of_line(line: &str) -> (r: Option<String>)
    ensures
        match r {
            Some(t) => import_in(line@) == Some(t@),
            None => import_in(line@) is None,
        },
{
    if text::has_prefix(line, "import") && text::has_text(line, " from ") {
        let cs = text::chars_of(line);
        let word = text::chars_of(" from ");
        proof {
            reveal_strlit(" from ");
        }
        return match text::find_at(&cs, &word, 0) {
            Some(i) => {
                let after = text::slice_text(&cs, i + 6, cs.len());
                assert(after@ =~= line@.skip(i + 6));
                let q = text::trim_space(&after);
                quoted_part(&q)
            },
            None => None,
        };
    }
    if text::has_text(line, "require(") {
        return quoted_part(line);
    }
    if text::has_prefix(line, "import ") {
        let rest = rest_of(line, "import ");
        let first = text::before_first_of(&rest, ',');
        return Some(drop_alias(&first));
    }
    if text::has_prefix(line, "from ") {
        let rest = rest_of(line, "from ");
        let first = text::before_first_of(&rest, ' ');
        return Some(text::trim_space(&first));
    }
    if text::has_prefix(line, "use ") {
        let rest = rest_of(line, "use ");
        let first = text::before_text_of(&rest, "::");
        return Some(drop_alias(&first));
    }
    if text::has_prefix(line, "import") {
        let rest = rest_of(line, "import");
        return match quoted_part(&rest) {
            Some(p) => Some(text::after_last_of(&p, '/')),
            None => None,
        };
    }
    if text::has_prefix(line, "#") && text::has_text(line, "include") {
        return match bracketed_part(line) {
            Some(p) => {
                let name = text::after_last_of(&p, '/');
                let a = text::trim_suffix_of(&name, ".h");
                Some(text::trim_suffix_of(&a, ".hpp"))
            },
            None => None,
        };
    }
    None
}

/// What source code imports, each name once. Python, JavaScript, TypeScript, Rust, Java, Go
/// and C are known by their lines.
pub fn extract_code_imports(content: &str) -> (r: Vec<String>)
    ensures
        text::texts(r@) == imports_in(text::lines(content@), text::lines(content@).len() as int),
{
    let ls = text::lines_of(content);
    let ghost lines = text::lines(content@);
    assert(text::texts(ls@).len() == ls@.len());
    let mut out: Vec<String> = Vec::new();
    let mut i: usize = 0;
    assert(text::texts(out@) =~= Seq::empty());
    while i < ls.len()
        invariant
            i <= ls.len(),
            lines == text::texts(ls@),
            text::texts(out@) == imports_in(lines, i as int),
        decreases ls.len() - i,
    {
        let line = text::trim_start_of(&ls[i], &CharClass::Space);
        assert(line@ == text::trim_start(lines[i as int]));
        if let Some(raw) = import_of_line(&line) {
            let a = text::trim_space(&raw);
            let b = text::trim_of(&a, &CharClass::Only('"'));
            let c = text::trim_of(&b, &CharClass::Only('\''));
            let t = text::trim_space(&c);
            let empty = text::chars_of(&t).len() == 0;
            if !(empty || text::has_prefix(&t, "std::") || text::str_eq(&t, "react")
                || text::has_prefix(&t, "node:")) {
                text::push_distinct(&mut out, t);
            }
        }
        i += 1;
    }
    out
}

// ---- Which file is meant

pub open spec fn dots_and_slashes() -> text::Class {
    text::one_of(seq!['.', '/'])
}

/// The path that an import names, without the way up.
pub open spec fn import_path(target: Seq<char>) -> Seq<char> {
    text::trim_start_by(text::replace_char(target, '\\', '/'), dots_and_slashes())
}

/// The name of a file up to its first dot, in small letters.
pub open spec fn short_stem(path: Seq<char>) -> Seq<char> {
    text::lowercase(text::before_first(text::after_last(path, '/'), '.'))
}

/// Whether a file's path ends with what is imported, with or without its extension.
pub open spec fn ends_like(norm: Seq<char>, path: Seq<char>, p: Seq<char>) -> bool {
    norm.contains('/') && (text::ends_with(path, norm) || text::ends_with(
        path,
        norm + seq!['.'] + text::after_last(p, '.'),
    ))
}

/// A file and how well it fits.
pub struct FitV {
    pub path: Seq<char>,
    pub score: nat,
}

pub open spec fn better(best: Option<FitV>, path: Seq<char>, score: nat) -> Option<FitV> {
    match best {
        Some(b) => if score > b.score {
            Some(FitV { path, score })
        } else {
            best
        },
        None => Some(FitV { path, score }),
    }
}

/// The best of the first `n` files: one whose name is that of the import, or better one
/// whose path ends like it; of several the longest path, of equally long ones the first.
pub open spec fn best_fit(norm: Seq<char>, files: Seq<Seq<char>>, n: int) -> Option<FitV>
    decreases n,
{
    if n <= 0 {
        None
    } else {
        let before = best_fit(norm, files, n - 1);
        let p = files[n - 1];
        let path = text::replace_char(p, '\\', '/');
        let size = text::byte_size(path) as nat;
        let named = if short_stem(path) == short_stem(norm) {
            better(before, p, size)
        } else {
            before
        };
        if ends_like(norm, path, p) {
            better(named, p, size + 1000)
        } else {
            named
        }
    }
}

/// The file that an import means.
pub open spec fn import_target(target: Seq<char>, files: Seq<Seq<char>>) -> Option<Seq<char>> {
    let norm = import_path(target);
    if norm.len() == 0 || short_stem(norm).len() == 0 {
        None
    } else {
        match best_fit(norm, files, files.len() as int) {
            Some(b) => Some(b.path),
            None => None,
        }
    }
}

fn short_stem_of(path: &str) -> (r: String)
    ensures
        r@ == short_stem(path@),
{
    let last = text::after_last_of(path, '/');
    let first = text::before_first_of(&last, '.');
    text::to_lower(&first)
}

fn ends_like_of(norm: &String, path: &String, p: &String) -> (r: bool)
    ensures
        r == ends_like(norm@, path@, p@),
{
    let cs = text::chars_of(norm);
    if !text::char_in('/', &cs) {
        return false;
    }
    if text::has_suffix(path, norm) {
        return true;
    }
    let mut with = norm.clone();
    with.push('.');
    let ext = text::after_last_of(p, '.');
    with.push_str(&ext);
    assert(with@ =~= norm@ + seq!['.'] + text::after_last(p@, '.'));
    text::has_suffix(path, &with)
}

/// The file of the graph that an import means, if any.
pub fn resolve_import_target(target: &str, all_paths: &Vec<String>) -> (r: Option<String>)
    ensures
        match r {
            Some(f) => import_target(target@, text::texts(all_paths@)) == Some(f@),
            None => import_target(target@, text::texts(all_paths@)) is None,
        },
{
    let slashed = text::replace_char_of(target, '\\', '/');
    let mut set: Vec<char> = Vec::new();
    set.push('.');
    set.push('/');
    assert(set@ =~= seq!['.', '/']);
    let norm = text::trim_start_of(&slashed, &CharClass::OneOf(set));
    let stem = short_stem_of(&norm);
    if text::chars_of(&norm).len() == 0 || text::chars_of(&stem).len() == 0 {
        return None;
    }
    let ghost files = text::texts(all_paths@);
    assert(files.len() == all_paths@.len());
    let mut best: Option<(usize, u128)> = None;
    let mut i: usize = 0;
    while i < all_paths.len()
        invariant
            i <= all_paths.len(),
            files == text::texts(all_paths@),
            stem@ == short_stem(norm@),
            match best {
                Some(b) => b.0 < i && best_fit(norm@, files, i as int) == Some(
                    (FitV { path: files[b.0 as int], score: b.1 as nat }),
                ) && b.1 <= usize::MAX + 1000,
                None => best_fit(norm@, files, i as int) is None,
            },
        decreases all_paths.len() - i,
    {
        let path = text::replace_char_of(&all_paths[i], '\\', '/');
        let size: u128 = path.as_str().len() as u128;
        assert(files[i as int] == all_paths@[i as int]@);
        if short_stem_of(&path) == stem {
            best = match best {
                Some(b) => if size > b.1 {
                    Some((i, size))
                } else {
                    Some(b)
                },
                None => Some((i, size)),
            };
        }
        if ends_like_of(&norm, &path, &all_paths[i]) {
            let score: u128 = size + 1000;
            best = match best {
                Some(b) => if score > b.1 {
                    Some((i, score))
                } else {
                    Some(b)
                },
                None => Some((i, score)),
            };
        }
        i += 1;
    }
    match best {
        Some(b) => Some(all_paths[b.0].clone()),
        None => None,
    }
}

/// An import means only a file that is there.
pub proof fn law_imports_mean_files(target: Seq<char>, files: Seq<Seq<char>>)
    ensures
        import_target(target, files) matches Some(f) ==> files.contains(f),
{
    lemma_best_fit(import_path(target), files, files.len() as int);
}

proof fn lemma_best_fit(norm: Seq<char>, files: Seq<Seq<char>>, n: int)
    requires
        0 <= n <= files.len(),
    ensures
        best_fit(norm, files, n) matches Some(b) ==> files.contains(b.path),
    decreases n,
{
    if n > 0 {
        lemma_best_fit(norm, files, n - 1);
        assert(files.contains(files[n - 1]));
    }
}

} // verus!
