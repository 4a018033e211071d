//! Paths in a knowledge base, and the kinds of files.

use crate::text;
use crate::text::CharClass;
use vstd::prelude::*;

verus! {

/// A path as it is compared: with slashes, without the prefix that Windows may put before
/// it and without a slash at the end; where the case of letters does not count, in small
/// letters.
pub open spec fn normal_path(p: Seq<char>, any_case: bool) -> Seq<char> {
    let s = text::trim_prefix(text::replace_char(p, '\\', '/'), "//?/"@);
    text::trim_end_by(
        if any_case {
            text::lowercase(s)
        } else {
            s
        },
        text::only('/'),
    )
}

/// Whether a path lies in a directory or is it.
pub open spec fn is_within(base: Seq<char>, child: Seq<char>, any_case: bool) -> bool {
    let b = normal_path(base, any_case);
    let c = normal_path(child, any_case);
    c == b || text::starts_with(c, b + seq!['/'])
}

/// A path as seen from a directory; what does not lie in it has none.
pub open spec fn relative(base: Seq<char>, child: Seq<char>, any_case: bool) -> Option<Seq<char>> {
    let b = normal_path(base, any_case);
    let c = normal_path(child, any_case);
    if is_within(base, child, any_case) {
        Some(text::trim_start_by(c.skip(b.len() as int), text::only('/')))
    } else {
        None
    }
}

pub fn norm_path(p: &str, any_case: bool) -> (r: String)
    ensures
        r@ == normal_path(p@, any_case),
{
    let s = text::trim_prefix_of(&text::replace_char_of(p, '\\', '/'), "//?/");
    let t = if any_case {
        text::to_lower(&s)
    } else {
        s
    };
    text::trim_end_of(&t, &CharClass::Only('/'))
}

/// Whether a path lies in a directory or is it.
pub fn path_is_within(base: &str, child: &str, any_case: bool) -> (r: bool)
    ensures
        r == is_within(base@, child@, any_case),
{
    let b = norm_path(base, any_case);
    let c = norm_path(child, any_case);
    let mut below = b.clone();
    below.push('/');
    assert(below@ =~= b@ + seq!['/']);
    c == b || text::has_prefix(&c, &below)
}

/// A path as seen from a directory.
pub fn relative_to(base: &str, child: &str, any_case: bool) -> (r: Option<String>)
    ensures
        match r {
            Some(p) => relative(base@, child@, any_case) == Some(p@),
            None => relative(base@, child@, any_case) is None,
        },
{
    if !path_is_within(base, child, any_case) {
        return None;
    }
    let b = text::chars_of(&norm_path(base, any_case));
    let c = text::chars_of(&norm_path(child, any_case));
    let rest = text::slice_text(&c, b.len(), c.len());
    assert(rest@ =~= c@.skip(b@.len() as int));
    Some(text::trim_start_of(&rest, &CharClass::Only('/')))
}

/// The paths of files in a directory as seen from it, for those that lie in it.
pub open spec fn all_relative(base: Seq<char>, files: Seq<Seq<char>>, any_case: bool, n: int) -> Seq<
    Seq<char>,
>
    decreases n,
{
    if n <= 0 {
        Seq::empty()
    } else {
        let before = all_relative(base, files, any_case, n - 1);
        match relative(base, files[n - 1], any_case) {
            Some(p) => before.push(p),
            None => before,
        }
    }
}

/// The files whose index is to be removed with a path: `files` are those below it, or the
/// path itself. A path that does not lie in the knowledge base is refused.
pub fn collect_remove_targets(
    dir_path: &str,
    abs_path: &str,
    files: &Vec<String>,
    any_case: bool,
) -> (r: Result<Vec<String>, String>)
    ensures
        match r {
            Ok(v) => is_within(dir_path@, abs_path@, any_case) && text::texts(v@) == all_relative(
                dir_path@,
                text::texts(files@),
                any_case,
                files@.len() as int,
            ),
            Err(e) => !is_within(dir_path@, abs_path@, any_case) && e@ == "路径不在知识库目录内: "@
                + abs_path@,
        },
{
    if !path_is_within(dir_path, abs_path, any_case) {
        let mut e = "路径不在知识库目录内: ".to_owned();
        e.push_str(abs_path);
        return Err(e);
    }
    let ghost fv = text::texts(files@);
    let mut out: Vec<String> = Vec::new();
    let mut i: usize = 0;
    assert(text::texts(out@) =~= Seq::empty());
    while i < files.len()
        invariant
            i <= files.len(),
            fv == text::texts(files@),
            text::texts(out@) == all_relative(dir_path@, fv, any_case, i as int),
        decreases files.len() - i,
    {
        assert(fv[i as int] == files@[i as int]@);
        if let Some(p) = relative_to(dir_path, &files[i], any_case) {
            proof {
                text::lemma_texts_push(out@, p);
            }
            out.push(p);
        }
        i += 1;
    }
    Ok(out)
}

/// Whether a document is an outline, in which a node has the text of those below it.
pub open spec fn is_outline(doc_name: Seq<char>) -> bool {
    let l = text::lowercase(doc_name);
    text::ends_with(l, ".opml"@) || text::ends_with(l, ".mm"@)
}

pub fn is_outline_doc(doc_name: &str) -> (r: bool)
    ensures
        r == is_outline(doc_name@),
{
    let l = text::to_lower(doc_name);
    text::has_suffix(&l, ".opml") || text::has_suffix(&l, ".mm")
}

/// The extension of a name: what stands behind the last dot, or the name.
pub fn extension_of(name: &str) -> (r: String)
    ensures
        r@ == text::after_last(name@, '.'),
{
    text::after_last_of(name, '.')
}

/// The kind of a file by its extension; `code` are the extensions of code.
pub open spec fn kind_of(ext: Seq<char>, code: Seq<Seq<char>>) -> Seq<char> {
    if ext == "md"@ || ext == "markdown"@ || ext == "mdown"@ || ext == "rst"@ {
        "Markdown"@
    } else if ext == "csv"@ || ext == "tsv"@ || ext == "jsonl"@ || ext == "parquet"@ || ext
        == "arrow"@ || ext == "feather"@ {
        "数据"@
    } else if code.contains(ext) {
        "代码"@
    } else {
        "其他"@
    }
}

/// The kind of a file by its extension.
pub fn classify_ext(ext: &str, code: &Vec<String>) -> (r: &'static str)
    ensures
        r@ == kind_of(ext@, text::texts(code@)),
{
    if text::str_eq(ext, "md") || text::str_eq(ext, "markdown") || text::str_eq(ext, "mdown")
        || text::str_eq(ext, "rst") {
        "Markdown"
    } else if text::str_eq(ext, "csv") || text::str_eq(ext, "tsv") || text::str_eq(ext, "jsonl")
        || text::str_eq(ext, "parquet") || text::str_eq(ext, "arrow") || text::str_eq(
        ext,
        "feather",
    ) {
        "数据"
    } else if text::lists_text(code, &ext.to_owned()) {
        "代码"
    } else {
        "其他"
    }
}

/// Whether a directory is passed over: the one with the data, and the one for what was
/// thrown away.
pub fn is_data_dir(name: &str, trash: &str) -> (r: bool)
    ensures
        r == (name@ == ".mdgo"@ || name@ == trash@),
{
    text::str_eq(name, ".mdgo") || text::str_eq(name, trash)
}

/// Whether a file is of a kind that can be indexed; `supported` are the extensions in small
/// letters. A name without a dot, or with one only at its beginning, has no extension.
pub open spec fn is_supported(name: Seq<char>, supported: Seq<Seq<char>>) -> bool {
    text::last_index(name, '.') matches Some(i) && i > 0 && supported.contains(
        text::lowercase(name.skip(i + 1)),
    )
}

/// Whether a file is of a kind that can be indexed.
pub fn is_supported_file(name: &str, supported: &Vec<String>) -> (r: bool)
    ensures
        r == is_supported(name@, text::texts(supported@)),
{
    let cs = text::chars_of(name);
    match text::last_index_of(&cs, '.') {
        Some(i) => {
            let ext = text::slice_text(&cs, i + 1, cs.len());
            assert(ext@ =~= name@.skip(i + 1));
            i > 0 && text::lists_text(supported, &text::to_lower(&ext))
        },
        None => false,
    }
}

/// What lies in a directory is named from there: put behind it again, it is the path.
pub proof fn law_relative_paths_lead_back(base: Seq<char>, child: Seq<char>, any_case: bool)
    requires
        relative(base, child, any_case) is Some,
    ensures
        ({
            let b = normal_path(base, any_case);
            let c = normal_path(child, any_case);
            let r = relative(base, child, any_case)->0;
            text::starts_with(c, b) && text::ends_with(c, r)
        }),
{
    let b = normal_path(base, any_case);
    let c = normal_path(child, any_case);
    let rest = c.skip(b.len() as int);
    if c == b {
        assert(c.subrange(0, b.len() as int) =~= b);
        assert(rest =~= Seq::<char>::empty());
    } else {
        let below = b + seq!['/'];
        assert(c.subrange(0, b.len() as int) =~= c.subrange(0, below.len() as int).subrange(
            0,
            b.len() as int,
        ));
        assert(below.subrange(0, b.len() as int) =~= b);
    }
    lemma_trimmed_is_end(rest, text::only('/'));
    let r = text::trim_start_by(rest, text::only('/'));
    assert(c.subrange(c.len() - r.len(), c.len() as int) =~= rest.subrange(
        rest.len() - r.len(),
        rest.len() as int,
    ));
}

proof fn lemma_trimmed_is_end(s: Seq<char>, class: text::Class)
    ensures
        text::trim_start_by(s, class).len() <= s.len(),
        s.subrange(s.len() - text::trim_start_by(s, class).len(), s.len() as int)
            == text::trim_start_by(s, class),
    decreases s.len(),
{
    if s.len() > 0 && class(s[0]) {
        lemma_trimmed_is_end(s.drop_first(), class);
        let t = text::trim_start_by(s, class);
        assert(s.subrange(s.len() - t.len(), s.len() as int) =~= s.drop_first().subrange(
            s.drop_first().len() - t.len(),
            s.drop_first().len() as int,
        ));
    } else {
        assert(s.subrange(0, s.len() as int) =~= s);
    }
}

} // verus!
