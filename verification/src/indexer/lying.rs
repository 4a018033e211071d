//! Where files lie, which of them count, and what all searches together find.

use crate::indexer::paths;
use crate::indexer::rank::SearchHit;
use crate::indexer::search;
use crate::text;
use vstd::prelude::*;

verus! {

/// A path is the same path with a slash behind it and with slashes of the other kind; where
/// the case of letters counts, one that needs nothing done stays as it is.
pub proof fn law_a_path_is_the_same_however_written(p: Seq<char>)
    ensures
        paths::normal_path(text::replace_char(p, '\\', '/'), false) == paths::normal_path(p, false),
        paths::normal_path(text::replace_char(p, '\\', '/'), true) == paths::normal_path(p, true),
        !p.contains('\\') && !text::starts_with(p, "//?/"@) && p.len() > 0 && p.last() != '/'
            ==> paths::normal_path(p, false) == p,
{
    let s = text::replace_char(p, '\\', '/');
    assert(text::replace_char(s, '\\', '/') =~= s);
    if !p.contains('\\') {
        assert(s =~= p) by {
            assert forall|i: int| 0 <= i < p.len() implies s[i] == p[i] by {
                assert(p.contains(p[i]));
            }
        }
    }
}

proof fn lemma_start(s: Seq<char>, c: char)
    ensures
        ({
            let r = text::trim_start_by(s, text::only(c));
            &&& r.len() <= s.len() && r == s.skip(s.len() - r.len())
            &&& r.len() > 0 ==> r[0] != c
            &&& forall|i: int| 0 <= i < s.len() - r.len() ==> #[trigger] s[i] == c
        }),
    decreases s.len(),
{
    let r = text::trim_start_by(s, text::only(c));
    if s.len() > 0 && s[0] == c {
        let rest = s.drop_first();
        lemma_start(rest, c);
        assert(rest.skip(rest.len() - r.len()) =~= s.skip(s.len() - r.len()));
        assert forall|i: int| 0 <= i < s.len() - r.len() implies #[trigger] s[i] == c by {
            if i > 0 {
                assert(rest[i - 1] == s[i]);
            }
        }
    } else {
        assert(s.skip(0) =~= s);
    }
}

/// A file has a path as seen from a directory just where it lies in it or is it: what stands
/// behind the directory and the slashes, and begins with none.
pub proof fn law_a_relative_path_is_the_rest(base: Seq<char>, child: Seq<char>, any_case: bool)
    ensures
        ({
            let b = paths::normal_path(base, any_case);
            let c = paths::normal_path(child, any_case);
            match paths::relative(base, child, any_case) {
                Some(r) => {
                    &&& r.len() > 0 ==> r[0] != '/'
                    &&& c == b && r.len() == 0 || exists|bars: Seq<char>|
                        bars.len() > 0 && (forall|i: int|
                            0 <= i < bars.len() ==> #[trigger] bars[i] == '/') && c == #[trigger] (b + bars)
                            + r
                },
                None => c != b && forall|rest: Seq<char>| c != #[trigger] (b + seq!['/'] + rest),
            }
        }),
{
    let b = paths::normal_path(base, any_case);
    let c = paths::normal_path(child, any_case);
    match paths::relative(base, child, any_case) {
        Some(r) => {
            let rest = c.skip(b.len() as int);
            lemma_start(rest, '/');
            if c == b {
                assert(rest =~= Seq::<char>::empty());
            } else {
                let front = b + seq!['/'];
                assert(c.subrange(0, front.len() as int) == front);
                assert(rest[0] == front[b.len() as int]) by {
                    assert(c.subrange(0, front.len() as int)[b.len() as int] == c[b.len() as int]);
                }
                let bars = rest.take(rest.len() - r.len());
                if r.len() == rest.len() {
                    assert(r =~= rest);
                    assert(r[0] == '/');
                }
                assert forall|i: int| 0 <= i < bars.len() implies #[trigger] bars[i] == '/' by {
                    assert(bars[i] == rest[i]);
                }
                assert(c =~= b + bars + r) by {
                    assert forall|i: int| 0 <= i < b.len() implies c[i] == b[i] by {
                        assert(c.subrange(0, front.len() as int)[i] == front[i]);
                    }
                }
            }
        },
        None => {
            assert forall|rest: Seq<char>| c != #[trigger] (b + seq!['/'] + rest) by {
                if c == b + seq!['/'] + rest {
                    let front = b + seq!['/'];
                    assert(c.subrange(0, front.len() as int) =~= front);
                }
            }
        },
    }
}

/// Of the files of a directory those that lie in it have a path as seen from it, in their
/// order.
pub proof fn law_files_are_seen_from_their_directory(
    base: Seq<char>,
    files: Seq<Seq<char>>,
    any_case: bool,
    n: int,
)
    requires
        0 <= n <= files.len(),
    ensures
        ({
            let r = paths::all_relative(base, files, any_case, n);
            &&& forall|k: int|
                0 <= k < r.len() ==> exists|i: int|
                    0 <= i < n && paths::relative(base, #[trigger] files[i], any_case) == Some(
                        #[trigger] r[k],
                    )
            &&& forall|i: int|
                0 <= i < n ==> (paths::relative(base, #[trigger] files[i], any_case) matches Some(p)
                    ==> r.contains(p))
            &&& r.len() == files.take(n).filter(
                |f: Seq<char>| paths::relative(base, f, any_case) is Some,
            ).len()
        }),
    decreases n,
{
    reveal(Seq::filter);
    let r = paths::all_relative(base, files, any_case, n);
    if n > 0 {
        let before = paths::all_relative(base, files, any_case, n - 1);
        law_files_are_seen_from_their_directory(base, files, any_case, n - 1);
        assert(files.take(n).drop_last() =~= files.take(n - 1));
        assert(files.take(n).last() == files[n - 1]);
        assert forall|k: int| 0 <= k < r.len() implies exists|i: int|
            0 <= i < n && paths::relative(base, #[trigger] files[i], any_case) == Some(#[trigger] r[k]) by {
            if k < before.len() {
                assert(r[k] == before[k]);
            } else {
                assert(paths::relative(base, files[n - 1], any_case) == Some(r[k]));
            }
        }
        assert forall|i: int| 0 <= i < n implies (paths::relative(base, #[trigger] files[i], any_case) matches Some(
            p,
        ) ==> r.contains(p)) by {
            if let Some(p) = paths::relative(base, files[i], any_case) {
                if i < n - 1 {
                    assert(before.contains(p));
                    let k = choose|k: int| 0 <= k < before.len() && before[k] == p;
                    assert(r[k] == p);
                } else {
                    assert(r[r.len() - 1] == p);
                }
            }
        }
    }
}

/// A file counts by what stands behind the last dot of its name, whatever the case; a name
/// without a dot, or with nothing before it, does not.
pub proof fn law_a_file_counts_by_its_extension(
    stem: Seq<char>,
    ext: Seq<char>,
    supported: Seq<Seq<char>>,
)
    requires
        !ext.contains('.'),
    ensures
        stem.len() > 0 ==> (paths::is_supported(stem + seq!['.'] + ext, supported)
            <==> supported.contains(text::lowercase(ext))),
        !paths::is_supported(ext, supported),
        !paths::is_supported(seq!['.'] + ext, supported),
{
    let name = stem + seq!['.'] + ext;
    text::law_the_last_place_is_found(name, '.');
    assert(name[stem.len() as int] == '.');
    let i = text::last_index(name, '.')->0;
    if i > stem.len() {
        assert(ext[i - stem.len() - 1] == '.');
        assert(ext.contains('.'));
    }
    assert(name.skip(stem.len() as int + 1) =~= ext);
    text::law_the_last_place_is_found(ext, '.');
    if let Some(k) = text::last_index(ext, '.') {
        assert(ext.contains(ext[k]));
    }
    let hidden = seq!['.'] + ext;
    text::law_the_last_place_is_found(hidden, '.');
    assert(hidden[0] == '.');
    if let Some(k) = text::last_index(hidden, '.') {
        if k > 0 {
            assert(ext[k - 1] == '.');
            assert(ext.contains('.'));
        }
    }
}

/// What all searches find is what each finds, none of it lost, and the hits of an earlier
/// search come before those of a later one.
pub proof fn law_all_searches_count(list: Seq<Option<Vec<SearchHit>>>, n: int, k: int)
    requires
        0 <= k < n <= list.len(),
    ensures
        ({
            let r = search::found_by_all(list, n);
            let front = search::found_by_all(list, k);
            match list[k] {
                Some(v) => front.len() + v@.len() <= r.len() && r.subrange(
                    front.len() as int,
                    (front.len() + v@.len()) as int,
                ) == v@,
                None => search::found_by_all(list, k + 1) == front,
            }
        }),
    decreases n,
{
    let r = search::found_by_all(list, n);
    let front = search::found_by_all(list, k);
    if k == n - 1 {
        if let Some(v) = list[k] {
            assert(r.subrange(front.len() as int, (front.len() + v@.len()) as int) =~= v@);
        } else {
            assert(r =~= front);
        }
    } else {
        law_all_searches_count(list, n - 1, k);
        let before = search::found_by_all(list, n - 1);
        if let Some(v) = list[k] {
            assert(r.subrange(front.len() as int, (front.len() + v@.len()) as int)
                =~= before.subrange(front.len() as int, (front.len() + v@.len()) as int));
        }
    }
}

} // verus!
