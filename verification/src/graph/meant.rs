//! Which files links and imports mean, and which text is looked at for them.

use crate::graph::imports;
use crate::graph::links;
use crate::rows;
use crate::text;
use vstd::prelude::*;

verus! {

// ---- Links

/// Whether the target is what a match says before an anchor or a query.
pub open spec fn is_target(raw: Seq<char>, t: Seq<char>) -> bool {
    let bare = text::trim(raw);
    &&& bare.len() > 0
    &&& !t.contains('#') && !t.contains('?')
    &&& text::starts_with(bare, t)
    &&& t.len() == bare.len() || bare[t.len() as int] == '#' || bare[t.len() as int] == '?'
}

proof fn lemma_first_group(g: Seq<Option<Seq<char>>>, i: int)
    requires
        0 <= i,
    ensures
        match links::first_group(g, i) {
            Some(raw) => exists|k: int|
                i <= k < g.len() && #[trigger] g[k] == Some(raw) && forall|j: int|
                    i <= j < k ==> #[trigger] g[j] is None,
            None => forall|j: int| i <= j < g.len() ==> #[trigger] g[j] is None,
        },
    decreases g.len() - i,
{
    if i < g.len() {
        if g[i] is None {
            lemma_first_group(g, i + 1);
            if let Some(raw) = links::first_group(g, i + 1) {
                let k = choose|k: int|
                    i + 1 <= k < g.len() && #[trigger] g[k] == Some(raw) && forall|j: int|
                        i + 1 <= j < k ==> #[trigger] g[j] is None;
                assert(g[k] == Some(raw));
            }
        } else {
            assert(g[i] == links::first_group(g, i));
        }
    }
}

proof fn lemma_before_first(s: Seq<char>, c: char)
    ensures
        ({
            let r = text::before_first(s, c);
            &&& r.len() <= s.len() && r == s.take(r.len() as int)
            &&& !r.contains(c)
            &&& r.len() < s.len() ==> s[r.len() as int] == c
        }),
{
    text::law_the_first_place_is_found(s, text::only(c), 0);
    let r = text::before_first(s, c);
    assert(r =~= s.take(r.len() as int));
    if r.contains(c) {
        let j = choose|j: int| 0 <= j < r.len() && r[j] == c;
        assert(text::only(c)(s[j]));
    }
    if r.len() < s.len() {
        assert(text::only(c)(s[r.len() as int]));
    }
}

/// The target of a match is what its first group that takes part says, without blanks around
/// it, up to an anchor or a query.
pub proof fn law_a_target_ends_before_its_anchor(g: Seq<Option<Seq<char>>>)
    ensures
        match links::target_of(g) {
            Some(t) => exists|k: int|
                1 <= k < g.len() && #[trigger] g[k] is Some && is_target(g[k]->0, t) && forall|j: int|
                    1 <= j < k ==> #[trigger] g[j] is None,
            None => forall|k: int|
                1 <= k < g.len() && #[trigger] g[k] is Some && (forall|j: int|
                    1 <= j < k ==> #[trigger] g[j] is None) ==> text::trim(g[k]->0).len() == 0,
        },
{
    lemma_first_group(g, 1);
    if let Some(raw) = links::first_group(g, 1) {
        let bare = text::trim(raw);
        let k = choose|k: int|
            1 <= k < g.len() && #[trigger] g[k] == Some(raw) && forall|j: int|
                1 <= j < k ==> #[trigger] g[j] is None;
        if bare.len() > 0 {
            let one = text::before_first(bare, '#');
            let t = text::before_first(one, '?');
            lemma_before_first(bare, '#');
            lemma_before_first(one, '?');
            assert(bare.subrange(0, t.len() as int) =~= t) by {
                assert(one =~= bare.take(one.len() as int));
                assert(t =~= one.take(t.len() as int));
            }
            if t.contains('#') {
                let j = choose|j: int| 0 <= j < t.len() && t[j] == '#';
                assert(one[j] == '#');
                assert(one.contains('#'));
            }
            assert(is_target(raw, t));
        } else {
            assert forall|m: int|
                1 <= m < g.len() && #[trigger] g[m] is Some && (forall|j: int|
                    1 <= j < m ==> #[trigger] g[j] is None) implies text::trim(g[m]->0).len() == 0 by {
                if m < k {
                    assert(g[m] is None);
                }
                if k < m {
                    assert(g[k] is None);
                }
            }
        }
    }
}

/// The targets are those of the matches, each once, and none is missing.
pub proof fn law_targets_come_once(m: Seq<Seq<Option<Seq<char>>>>, n: int)
    requires
        0 <= n <= m.len(),
    ensures
        ({
            let r = links::all_targets(m, n);
            &&& r.no_duplicates()
            &&& forall|k: int|
                0 <= k < r.len() ==> exists|i: int|
                    0 <= i < n && links::target_of(#[trigger] m[i]) == Some(#[trigger] r[k])
            &&& forall|i: int|
                0 <= i < n ==> (links::target_of(#[trigger] m[i]) matches Some(t) ==> r.contains(t))
        }),
    decreases n,
{
    if n > 0 {
        let before = links::all_targets(m, n - 1);
        let r = links::all_targets(m, n);
        law_targets_come_once(m, n - 1);
        assert forall|k: int| 0 <= k < r.len() implies exists|i: int|
            0 <= i < n && links::target_of(#[trigger] m[i]) == Some(#[trigger] r[k]) by {
            if k < before.len() {
                assert(r[k] == before[k]);
            } else {
                assert(links::target_of(m[n - 1]) == Some(r[k]));
            }
        }
        assert forall|i: int| 0 <= i < n implies (links::target_of(#[trigger] m[i]) matches Some(t)
            ==> r.contains(t)) by {
            if let Some(t) = links::target_of(m[i]) {
                if before.contains(t) {
                    let k = choose|k: int| 0 <= k < before.len() && before[k] == t;
                    assert(r[k] == t);
                } else {
                    assert(r[r.len() - 1] == t);
                }
            }
        }
    }
}

/// Whether the path, as it stands or as a Markdown file, is one of the files.
pub open spec fn is_found(files: Seq<Seq<char>>, p: Seq<char>) -> bool {
    files.contains(p) || (!text::ends_with(p, ".md"@) && files.contains(p + ".md"@))
}

/// A target means the file that its path names from the top of the tree, else the one that
/// it names from the directory of the document; a file with the path comes before one that
/// has the Markdown extension besides. Else it means the only file that has its name. A path
/// from the root of the disk means nothing.
pub proof fn law_a_link_means_the_file_it_names(
    target: Seq<char>,
    dir: Seq<char>,
    name: Seq<char>,
    files: Seq<Seq<char>>,
    f: Seq<char>,
)
    requires
        !target.contains('\\'),
        !name.contains('/'),
        dir.len() > 0,
    ensures
        ({
            let source = dir + seq!['/'] + name;
            let near = dir + seq!['/'] + target;
            let r = links::resolved(target, source, files);
            if target.len() > 0 && target[0] == '/' {
                r is None
            } else {
                &&& files.contains(target) ==> r == Some(target)
                &&& !files.contains(target) && is_found(files, target) ==> r == Some(target + ".md"@)
                &&& !is_found(files, target) && files.contains(near) ==> r == Some(near)
                &&& !is_found(files, target) && !files.contains(near) && is_found(files, near) ==> r
                    == Some(near + ".md"@)
                &&& !is_found(files, target) && !is_found(files, near) && files.contains(f)
                    && links::stem_of(f) == links::stem_of(target) ==> (match r {
                    Some(x) => x == f,
                    None => exists|g: Seq<char>| #[trigger]
                        files.contains(g) && g != f && links::stem_of(g) == links::stem_of(target),
                })
                &&& r matches Some(x) ==> files.contains(x) && (x == target || x == target + ".md"@ || x
                    == near || x == near + ".md"@ || (links::stem_of(x) == links::stem_of(target)
                    && forall|g: Seq<char>| #[trigger]
                    files.contains(g) && links::stem_of(g) == links::stem_of(target) ==> g == x))
            }
        }),
{
    let source = dir + seq!['/'] + name;
    let near = dir + seq!['/'] + target;
    assert(text::replace_char(target, '\\', '/') =~= target) by {
        assert forall|i: int| 0 <= i < target.len() implies text::replace_char(target, '\\', '/')[i]
            == target[i] by {
            if target[i] == '\\' {
                assert(target.contains('\\'));
            }
        }
    }
    text::law_the_last_place_is_found(source, '/');
    let at = dir.len() as int;
    assert(source[at] == '/');
    let i = text::last_index(source, '/')->0;
    if i > at {
        assert(name[i - at - 1] == '/');
        assert(name.contains('/'));
    }
    assert(source.take(at) =~= dir);
    assert(links::beside(source, target) == near);
    if target.len() > 0 {
        assert(target.subrange(0, 1) =~= seq![target[0]]);
        if target[0] != '/' && text::starts_with(target, seq!['/']) {
            assert(seq![target[0]][0] == seq!['/'][0]);
        }
    }
    let all = text::distinct(files);
    let p = links::has_stem(links::stem_of(target));
    let same = rows::kept(all, p);
    text::lemma_distinct(files);
    rows::lemma_kept(all, p);
    rows::lemma_kept_distinct(all, p, |x: Seq<char>| x);
    let key = |x: Seq<char>| x;
    assert forall|g: Seq<char>| files.contains(g) && links::stem_of(g) == links::stem_of(target) implies same.contains(
        g,
    ) by {
        assert(all.contains(g));
        let k = choose|k: int| 0 <= k < all.len() && all[k] == g;
        assert(p(all[k]));
    }
    assert forall|k: int| 0 <= k < same.len() implies files.contains(#[trigger] same[k]) && links::stem_of(
        same[k],
    ) == links::stem_of(target) by {
        assert(p(same[k]));
        assert(all.contains(same[k]));
    }
    if same.len() == 1 {
        assert forall|g: Seq<char>| #[trigger] same.contains(g) implies g == same[0] by {}
    } else if same.contains(f) {
        let k = choose|k: int| 0 <= k < same.len() && same[k] == f;
        let o: int = if k == 0 {
            1
        } else {
            0
        };
        assert(key(same[0]) != key(same[1]));
        assert(same[o] != f) by {
            if k > 1 {
                assert(key(same[0]) != key(same[k]));
            }
        }
        assert(files.contains(same[o]));
    }
}

// ---- The text that is looked at

/// Text without backticks stays as it is, and what stands between two backticks on a line is
/// left out, with them.
pub proof fn law_what_is_ticked_is_left_out(a: Seq<char>, b: Seq<char>, c: Seq<char>)
    requires
        !a.contains('`'),
        !b.contains('`'),
        !b.contains('\n'),
    ensures
        links::without_ticks(a, 0) == a,
        links::without_ticks(a + seq!['`'] + b + seq!['`'] + c, 0) == a + links::without_ticks(
            a + seq!['`'] + b + seq!['`'] + c,
            (a.len() + b.len() + 2) as int,
        ),
{
    let s = a + seq!['`'] + b + seq!['`'] + c;
    lemma_plain(a, 0, a.len() as int);
    assert(a.subrange(0, a.len() as int) =~= a);
    assert(links::without_ticks(a, a.len() as int) =~= Seq::empty());
    let i = a.len() as int;
    assert forall|j: int| 0 <= j < i implies #[trigger] s[j] != '`' by {
        assert(s[j] == a[j]);
        assert(a.contains(a[j]));
    }
    lemma_plain_until(s, 0, i);
    assert(s.subrange(0, i) =~= a);
    let k = i + 1 + b.len();
    assert(s[i] == '`' && s[k] == '`');
    text::law_the_first_place_is_found(s, links::tick_or_end(), i + 1);
    assert forall|j: int| i + 1 <= j < k implies !links::tick_or_end()(#[trigger] s[j]) by {
        assert(s[j] == b[j - i - 1]);
        assert(b.contains(b[j - i - 1]));
        assert(seq!['`', '\n'].contains(s[j]) ==> s[j] == '`' || s[j] == '\n');
    }
    assert(seq!['`', '\n'][0] == '`');
    assert(seq!['`', '\n'].contains('`'));
    assert(links::tick_or_end()(s[k]));
    assert(text::index_from(s, links::tick_or_end(), i + 1) == Some(k));
}

proof fn lemma_plain_until(s: Seq<char>, i: int, n: int)
    requires
        0 <= i <= n <= s.len(),
        forall|j: int| i <= j < n ==> #[trigger] s[j] != '`',
    ensures
        links::without_ticks(s, i) == s.subrange(i, n) + links::without_ticks(s, n),
    decreases n - i,
{
    if i < n {
        lemma_plain_until(s, i + 1, n);
        assert(seq![s[i]] + (s.subrange(i + 1, n) + links::without_ticks(s, n)) =~= s.subrange(i, n)
            + links::without_ticks(s, n));
    } else {
        assert(s.subrange(i, n) + links::without_ticks(s, n) =~= links::without_ticks(s, n));
    }
}

proof fn lemma_plain(s: Seq<char>, i: int, n: int)
    requires
        0 <= i <= n <= s.len(),
        !s.contains('`'),
    ensures
        links::without_ticks(s, i) == s.subrange(i, n) + links::without_ticks(s, n),
{
    assert forall|j: int| i <= j < n implies #[trigger] s[j] != '`' by {
        assert(s.contains(s[j]));
    }
    lemma_plain_until(s, i, n);
}

/// A text that does not begin with dashes has no front matter; of one that does, everything
/// up to the first line that begins with dashes again is left out.
pub proof fn law_front_matter_is_left_out(s: Seq<char>, i: int)
    ensures
        !text::starts_with(text::trim_start(s), "---"@) ==> links::without_front_matter(s) == s,
        text::starts_with(text::trim_start(s), "---"@) && text::occurs_at(s, "\n---"@, i) && (forall|
            j: int,
        |
            0 <= j < i ==> !text::occurs_at(s, "\n---"@, j)) ==> links::without_front_matter(s) == s.skip(
            i + 4,
        ),
        (forall|j: int| 0 <= j ==> !text::occurs_at(s, "\n---"@, j)) ==> links::without_front_matter(s)
            == s,
{
    text::lemma_find_from(s, "\n---"@, 0);
    if let Some(k) = text::find(s, "\n---"@) {
        if text::occurs_at(s, "\n---"@, i) {
            if i < k {
                assert(!text::occurs_at(s, "\n---"@, i));
            }
        }
        assert(text::occurs_at(s, "\n---"@, k));
    } else if text::occurs_at(s, "\n---"@, i) {
        assert(!text::occurs_at(s, "\n---"@, i));
    }
}

// ---- Imports

/// What is quoted stands between a quotation mark and the next one of its kind; before it
/// stands no other.
pub proof fn law_what_is_quoted_is_between_its_marks(s: Seq<char>)
    ensures
        imports::between_quotes(s) matches Some(r) ==> exists|i: int, k: int|
            #![trigger s[i], s[k]]
            0 <= i < k < s.len() && (s[i] == '\'' || s[i] == '"') && s[k] == s[i] && r == s.subrange(
                i + 1,
                k,
            ) && !r.contains(s[i]) && (forall|j: int|
                0 <= j < i ==> #[trigger] s[j] != '\'' && s[j] != '"'),
{
    let class = text::one_of(seq!['\'', '"']);
    text::law_the_first_place_is_found(s, class, 0);
    if let Some(i) = text::index_from(s, class, 0) {
        text::law_the_first_place_is_found(s, text::only(s[i]), i + 1);
        assert(seq!['\'', '"'][0] == '\'' && seq!['\'', '"'][1] == '"');
        if let Some(k) = text::index_from(s, text::only(s[i]), i + 1) {
            let r = s.subrange(i + 1, k);
            assert(class(s[i]));
            assert(text::only(s[i])(s[k]));
            if r.contains(s[i]) {
                let j = choose|j: int| 0 <= j < r.len() && r[j] == s[i];
                assert(text::only(s[i])(s[i + 1 + j]));
            }
            assert forall|j: int| 0 <= j < i implies #[trigger] s[j] != '\'' && s[j] != '"' by {
                assert(!class(s[j]));
            }
            assert(s[i] == s[k]);
        }
    }
}

/// The imports are what the lines import, each once, but for what can mean no file.
pub proof fn law_imports_come_once(lines: Seq<Seq<char>>, n: int)
    requires
        0 <= n <= lines.len(),
    ensures
        ({
            let r = imports::imports_in(lines, n);
            &&& r.no_duplicates()
            &&& forall|k: int|
                0 <= k < r.len() ==> !imports::is_foreign(#[trigger] r[k]) && exists|i: int|
                    0 <= i < n && is_import(#[trigger] lines[i], r[k])
            &&& forall|i: int, t: Seq<char>|
                0 <= i < n && #[trigger] is_import(lines[i], t) && !imports::is_foreign(t)
                    ==> r.contains(t)
        }),
    decreases n,
{
    if n > 0 {
        let before = imports::imports_in(lines, n - 1);
        let r = imports::imports_in(lines, n);
        law_imports_come_once(lines, n - 1);
        assert forall|k: int| 0 <= k < r.len() implies !imports::is_foreign(#[trigger] r[k]) && exists|
            i: int,
        |
            0 <= i < n && is_import(#[trigger] lines[i], r[k]) by {
            if k < before.len() {
                assert(r[k] == before[k]);
            } else {
                assert(is_import(lines[n - 1], r[k]));
            }
        }
        assert forall|i: int, t: Seq<char>|
            0 <= i < n && #[trigger] is_import(lines[i], t) && !imports::is_foreign(t) implies r.contains(
            t,
        ) by {
            if before.contains(t) {
                let k = choose|k: int| 0 <= k < before.len() && before[k] == t;
                assert(r[k] == t);
            } else {
                assert(r[r.len() - 1] == t);
            }
        }
    }
}

/// Whether the line, whatever blanks are in front of it, imports the name.
pub open spec fn is_import(line: Seq<char>, t: Seq<char>) -> bool {
    imports::import_in(text::trim_start(line)) matches Some(raw) && imports::unquoted(raw) == t
}

/// How well a file fits an import, if it does: better by its length, and much better where its
/// path ends like the import.
pub open spec fn fits(norm: Seq<char>, p: Seq<char>, score: nat) -> bool {
    let path = text::replace_char(p, '\\', '/');
    ||| imports::ends_like(norm, path, p) && score == text::byte_size(path) + 1000
    ||| imports::short_stem(path) == imports::short_stem(norm) && score == text::byte_size(path)
}

/// An import means a file that fits, none that fits is better, and of equally good ones it
/// is the first; where none is meant none fits.
pub proof fn law_an_import_means_what_fits_best(norm: Seq<char>, files: Seq<Seq<char>>, n: int)
    requires
        0 <= n <= files.len(),
    ensures
        match imports::best_fit(norm, files, n) {
            Some(b) => exists|i: int|
                0 <= i < n && #[trigger] files[i] == b.path && fits(norm, files[i], b.score) && (forall|
                    k: int,
                    score: nat,
                |
                    0 <= k < n && #[trigger] fits(norm, files[k], score) ==> score < b.score || (score
                        == b.score && k >= i)),
            None => forall|k: int, score: nat|
                0 <= k < n ==> !#[trigger] fits(norm, files[k], score),
        },
    decreases n,
{
    if n > 0 {
        law_an_import_means_what_fits_best(norm, files, n - 1);
        let before = imports::best_fit(norm, files, n - 1);
        let p = files[n - 1];
        let path = text::replace_char(p, '\\', '/');
        let size = text::byte_size(path) as nat;
        let r = imports::best_fit(norm, files, n);
        assert(r matches Some(b) ==> r == before || (b.path == p && fits(norm, p, b.score)));
        assert(before is Some ==> r is Some && r->0.score >= before->0.score);
        assert forall|score: nat| #[trigger] fits(norm, p, score) implies r is Some && score <= r->0.score by {}
        if let Some(b) = r {
            if before is Some && b.score == before->0.score {
                assert(r == before);
                let i = choose|i: int|
                    0 <= i < n - 1 && #[trigger] files[i] == b.path && fits(norm, files[i], b.score) && (
                    forall|k: int, score: nat|
                        0 <= k < n - 1 && #[trigger] fits(norm, files[k], score) ==> score < b.score || (
                        score == b.score && k >= i));
                assert(files[i] == b.path);
            } else {
                assert(files[n - 1] == b.path);
            }
        }
    }
}

} // verus!
