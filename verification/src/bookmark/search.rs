//! Searching bookmarks by words and by meaning.

use crate::bookmark::said;
use crate::bookmark::store;
use crate::bookmark::store::{BookmarkSearchHit, BookmarkStore};
use crate::rows;
use crate::text;
use vstd::prelude::*;

verus! {

/// How many vectors are looked for, for so many hits.
pub open spec fn vectors_for(limit: nat) -> nat {
    if limit * 3 > u32::MAX {
        u32::MAX as nat
    } else {
        limit * 3
    }
}

/// How many vectors are looked for, for so many hits.
pub fn vector_limit(limit: usize) -> (r: u32)
    ensures
        r == vectors_for(limit as nat),
{
    let n: u128 = limit as u128 * 3;
    if n > u32::MAX as u128 {
        u32::MAX
    } else {
        n as u32
    }
}

/// Whether a search by words found too little, so that one by meaning is made.
pub fn wants_vectors(hits: &Vec<BookmarkSearchHit>, limit: usize) -> (r: bool)
    ensures
        r == (hits@.len() < limit),
{
    hits.len() < limit
}

pub open spec fn is_hit(hits: Seq<BookmarkSearchHit>, id: Seq<char>) -> bool {
    exists|i: int| 0 <= i < hits.len() && (#[trigger] hits[i]).id@ == id
}

/// The hits of a search by words, filled up to the limit with the bookmarks of the first `n`
/// ids that a search by meaning found.
pub open spec fn filled(
    s: BookmarkStore,
    hits: Seq<BookmarkSearchHit>,
    ids: Seq<String>,
    n: int,
    limit: nat,
) -> Seq<BookmarkSearchHit>
    decreases n,
{
    if n <= 0 {
        hits
    } else {
        let before = filled(s, hits, ids, n - 1, limit);
        if before.len() >= limit || is_hit(hits, ids[n - 1]@) {
            before
        } else {
            match store::find_id(s.list_view(), ids[n - 1]@) {
                Some(i) => before.push(store::hit_of(s.rows@[i])),
                None => before,
            }
        }
    }
}

fn has_hit(hits: &Vec<BookmarkSearchHit>, n: usize, id: &String) -> (r: bool)
    requires
        n <= hits@.len(),
    ensures
        r == is_hit(hits@.take(n as int), id@),
{
    let ghost some = hits@.take(n as int);
    let mut i: usize = 0;
    while i < n
        invariant
            i <= n <= hits@.len(),
            some == hits@.take(n as int),
            forall|k: int| 0 <= k < i ==> (#[trigger] some[k]).id@ != id@,
        decreases n - i,
    {
        assert(some[i as int] == hits@[i as int]);
        if hits[i].id == *id {
            return true;
        }
        i += 1;
    }
    false
}

impl BookmarkStore {
    /// Fills the hits of a search by words up to the limit with bookmarks that a search by
    /// meaning found.
    pub fn fill_with_vectors(
        &self,
        hits: Vec<BookmarkSearchHit>,
        ids: &Vec<String>,
        limit: usize,
    ) -> (r: Vec<BookmarkSearchHit>)
        ensures
            r@ == filled(*self, hits@, ids@, ids@.len() as int, limit as nat),
            are_filled(*self, hits@, ids@, ids@.len() as int, limit as nat, r@),
    {
        proof {
            law_what_is_near_fills_up(*self, hits@, ids@, ids@.len() as int, limit as nat);
        }
        let n = hits.len();
        let ghost first = hits@;
        let mut out = hits;
        let mut i: usize = 0;
        assert(first.take(n as int) =~= first);
        while i < ids.len()
            invariant
                i <= ids.len(),
                n == first.len(),
                n <= out@.len(),
                out@.take(n as int) == first,
                out@ == filled(*self, first, ids@, i as int, limit as nat),
            decreases ids.len() - i,
        {
            if out.len() < limit && !has_hit(&out, n, &ids[i]) {
                if let Some(b) = self.get(&ids[i]) {
                    let ghost before = out@;
                    out.push(store::make_hit(&b));
                    assert(out@.take(n as int) =~= before.take(n as int));
                }
            }
            i += 1;
        }
        out
    }
}

/// A text as SQL writes one.
pub open spec fn sql_text(s: Seq<char>) -> Seq<char> {
    seq!['\''] + sql_inner(s) + seq!['\'']
}

pub open spec fn sql_inner(s: Seq<char>) -> Seq<char>
    decreases s.len(),
{
    if s.len() == 0 {
        Seq::empty()
    } else {
        sql_inner(s.drop_last()) + if s.last() == '\'' {
            seq!['\'', '\'']
        } else {
            seq![s.last()]
        }
    }
}

pub open spec fn sql_texts(ids: Seq<Seq<char>>) -> Seq<Seq<char>> {
    Seq::new(ids.len(), |i: int| sql_text(ids[i]))
}

/// What says which vectors are replaced, each bookmark once.
pub open spec fn replaced_rows(ids: Seq<Seq<char>>) -> Seq<char> {
    "bookmark_id IN ("@ + text::join(sql_texts(text::distinct(ids)), ","@) + ")"@
}

fn quote_sql(s: &str) -> (r: String)
    ensures
        r@ == sql_text(s@),
{
    let cs = text::chars_of(s);
    let mut r = "'".to_owned();
    let ghost head = r@;
    let mut i: usize = 0;
    proof {
        reveal_strlit("'");
        assert(head =~= seq!['\'']);
        assert(r@ =~= head + sql_inner(cs@.take(0)));
    }
    while i < cs.len()
        invariant
            i <= cs.len(),
            head == seq!['\''],
            r@ == head + sql_inner(cs@.take(i as int)),
        decreases cs.len() - i,
    {
        assert(cs@.take(i + 1).drop_last() =~= cs@.take(i as int));
        let ghost before = sql_inner(cs@.take(i as int));
        let c = cs[i];
        if c == '\'' {
            r.push('\'');
            r.push('\'');
            assert(r@ =~= head + (before + seq!['\'', '\'']));
        } else {
            r.push(c);
            assert(r@ =~= head + (before + seq![c]));
        }
        i += 1;
    }
    assert(cs@.take(i as int) =~= cs@);
    r.push('\'');
    assert(r@ =~= sql_text(s@));
    r
}

/// What says which vectors are replaced when those of the bookmarks are written; of none
/// nothing.
pub fn replace_predicate(ids: &Vec<String>) -> (r: Option<String>)
    ensures
        match r {
            Some(p) => ids@.len() > 0 && p@ == replaced_rows(text::texts(ids@)),
            None => ids@.len() == 0,
        },
{
    if ids.len() == 0 {
        return None;
    }
    let ghost iv = text::texts(ids@);
    let mut once: Vec<String> = Vec::new();
    let mut i: usize = 0;
    assert(text::texts(once@) =~= text::distinct(iv.take(0)));
    while i < ids.len()
        invariant
            i <= ids.len(),
            iv == text::texts(ids@),
            text::texts(once@) == text::distinct(iv.take(i as int)),
        decreases ids.len() - i,
    {
        proof {
            assert(iv[i as int] == ids@[i as int]@);
            assert(iv.take(i + 1) == iv.take(i as int).push(iv[i as int]));
            text::lemma_distinct_push(iv.take(i as int), iv[i as int]);
        }
        text::push_distinct(&mut once, ids[i].clone());
        i += 1;
    }
    assert(iv.take(i as int) == iv);
    let ghost ov = text::texts(once@);
    let mut quoted: Vec<String> = Vec::new();
    let mut j: usize = 0;
    while j < once.len()
        invariant
            j <= once.len(),
            quoted@.len() == j,
            forall|k: int| 0 <= k < j ==> (#[trigger] quoted@[k])@ == sql_text(once@[k]@),
        decreases once.len() - j,
    {
        quoted.push(quote_sql(&once[j]));
        j += 1;
    }
    assert(text::texts(quoted@) =~= sql_texts(ov));
    let mut r = "bookmark_id IN (".to_owned();
    r.push_str(&text::join_of(&quoted, ","));
    r.push_str(")");
    assert(r@ =~= replaced_rows(iv));
    Some(r)
}

/// Whether a hit shows the bookmark of the id.
pub open spec fn shows_id(s: BookmarkStore, id: Seq<char>, h: BookmarkSearchHit) -> bool {
    exists|i: int|
        0 <= i < s.rows@.len() && (#[trigger] s.rows@[i]).id@ == id && said::shows(h, s.rows@[i])
}

pub open spec fn has_id(s: BookmarkStore, id: Seq<char>) -> bool {
    exists|i: int| 0 <= i < s.rows@.len() && (#[trigger] s.rows@[i]).id@ == id
}

/// Whether hits were filled up: behind them stand bookmarks of the ids, in the order of the
/// ids and none that was a hit before, as many as there is room for; `at` tells which.
pub open spec fn are_filled_at(
    s: BookmarkStore,
    hits: Seq<BookmarkSearchHit>,
    ids: Seq<String>,
    n: int,
    limit: nat,
    r: Seq<BookmarkSearchHit>,
    at: Seq<int>,
) -> bool {
    &&& r.len() == hits.len() + at.len()
    &&& r.take(hits.len() as int) == hits
    &&& forall|j: int|
        0 <= j < at.len() ==> 0 <= #[trigger] at[j] < n && !is_hit(hits, ids[at[j]]@) && shows_id(
            s,
            ids[at[j]]@,
            r[hits.len() + j],
        )
    &&& forall|i: int, j: int| 0 <= i < j < at.len() ==> #[trigger] at[i] < #[trigger] at[j]
    &&& forall|k: int|
        0 <= k < n && r.len() < limit && !is_hit(hits, (#[trigger] ids[k])@) && has_id(s, ids[k]@)
            ==> at.contains(k)
}

pub open spec fn are_filled(
    s: BookmarkStore,
    hits: Seq<BookmarkSearchHit>,
    ids: Seq<String>,
    n: int,
    limit: nat,
    r: Seq<BookmarkSearchHit>,
) -> bool {
    exists|at: Seq<int>| #[trigger] are_filled_at(s, hits, ids, n, limit, r, at)
}

/// Hits are filled up with the bookmarks that a search by meaning found, the nearest first, as
/// far as there is room and none twice.
pub proof fn law_what_is_near_fills_up(
    s: BookmarkStore,
    hits: Seq<BookmarkSearchHit>,
    ids: Seq<String>,
    n: int,
    limit: nat,
)
    requires
        0 <= n <= ids.len(),
    ensures
        are_filled(s, hits, ids, n, limit, filled(s, hits, ids, n, limit)),
    decreases n,
{
    let r = filled(s, hits, ids, n, limit);
    if n == 0 {
        assert(hits.take(hits.len() as int) =~= hits);
        assert(are_filled_at(s, hits, ids, n, limit, r, Seq::empty()));
    } else {
        law_what_is_near_fills_up(s, hits, ids, n - 1, limit);
        let before = filled(s, hits, ids, n - 1, limit);
        let at = choose|at: Seq<int>| #[trigger]
            are_filled_at(s, hits, ids, n - 1, limit, before, at);
        let id = ids[n - 1]@;
        let all = s.list_view();
        rows::lemma_row_index(all, store::v_id(), id, 0);
        assert forall|i: int| 0 <= i < s.rows@.len() implies (#[trigger] s.rows@[i]).id@
            == all[i].id by {}
        if r.len() > before.len() {
            let i = store::find_id(all, id)->0;
            assert(all[i].id == id);
            assert(s.rows@[i].id@ == id);
            let more = at.push(n - 1);
            assert(r.take(hits.len() as int) =~= before.take(hits.len() as int));
            assert(shows_id(s, id, r.last()));
            assert forall|j: int| 0 <= j < more.len() implies 0 <= #[trigger] more[j] < n
                && !is_hit(hits, ids[more[j]]@) && shows_id(
                s,
                ids[more[j]]@,
                r[hits.len() + j],
            ) by {
                if j < at.len() {
                    assert(more[j] == at[j]);
                    assert(r[hits.len() + j] == before[hits.len() + j]);
                }
            }
            assert forall|k: int|
                0 <= k < n && r.len() < limit && !is_hit(hits, (#[trigger] ids[k])@) && has_id(
                    s,
                    ids[k]@,
                ) implies more.contains(k) by {
                if k < n - 1 {
                    assert(at.contains(k));
                    let x = choose|x: int| 0 <= x < at.len() && at[x] == k;
                    assert(more[x] == k);
                } else {
                    assert(more[at.len() as int] == k);
                }
            }
            assert(are_filled_at(s, hits, ids, n, limit, r, more));
        } else {
            assert(r == before);
            assert forall|k: int|
                0 <= k < n && r.len() < limit && !is_hit(hits, (#[trigger] ids[k])@) && has_id(
                    s,
                    ids[k]@,
                ) implies at.contains(k) by {
                if k == n - 1 {
                    let i = choose|i: int|
                        0 <= i < s.rows@.len() && (#[trigger] s.rows@[i]).id@ == id;
                    assert(store::v_id()(all[i]) == id);
                }
            }
            assert(are_filled_at(s, hits, ids, n, limit, r, at));
        }
    }
}

/// What a search by words found comes first, and filling up does not go beyond the limit
/// where that was not beyond it.
pub proof fn law_words_come_first(
    s: BookmarkStore,
    hits: Seq<BookmarkSearchHit>,
    ids: Seq<String>,
    n: int,
    limit: nat,
)
    requires
        0 <= n <= ids.len(),
        hits.len() <= limit,
    ensures
        hits.len() <= filled(s, hits, ids, n, limit).len() <= limit,
        filled(s, hits, ids, n, limit).take(hits.len() as int) == hits,
    decreases n,
{
    if n > 0 {
        law_words_come_first(s, hits, ids, n - 1, limit);
        let before = filled(s, hits, ids, n - 1, limit);
        let after = filled(s, hits, ids, n, limit);
        assert(after.take(hits.len() as int) =~= before.take(hits.len() as int));
    } else {
        assert(hits.take(hits.len() as int) =~= hits);
    }
}

} // verus!
