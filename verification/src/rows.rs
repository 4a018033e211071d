//! Rows of a table: selection, order and limit.

use crate::text;
use vstd::prelude::*;

verus! {

/// The rows for which `p` holds, in their order.
pub open spec fn kept<T>(s: Seq<T>, p: spec_fn(T) -> bool) -> Seq<T>
    decreases s.len(),
{
    if s.len() == 0 {
        Seq::empty()
    } else {
        let before = kept(s.drop_last(), p);
        if p(s.last()) {
            before.push(s.last())
        } else {
            before
        }
    }
}

/// What is kept are exactly the rows for which `p` holds.
pub proof fn lemma_kept<T>(s: Seq<T>, p: spec_fn(T) -> bool)
    ensures
        forall|i: int| 0 <= i < kept(s, p).len() ==> p(#[trigger] kept(s, p)[i]) && s.contains(kept(s, p)[i]),
        forall|i: int| 0 <= i < s.len() && p(#[trigger] s[i]) ==> kept(s, p).contains(s[i]),
        kept(s, p).len() <= s.len(),
    decreases s.len(),
{
    if s.len() > 0 {
        let before = kept(s.drop_last(), p);
        let all = kept(s, p);
        lemma_kept(s.drop_last(), p);
        assert forall|i: int| 0 <= i < all.len() implies p(#[trigger] all[i]) && s.contains(
            all[i],
        ) by {
            if i < before.len() {
                assert(all[i] == before[i]);
                let k = choose|k: int| 0 <= k < s.drop_last().len() && s.drop_last()[k] == before[i];
                assert(s[k] == all[i]);
            } else {
                assert(s[s.len() - 1] == all[i]);
            }
        }
        assert forall|i: int| 0 <= i < s.len() && p(#[trigger] s[i]) implies all.contains(s[i]) by {
            if i < s.len() - 1 {
                assert(s.drop_last()[i] == s[i]);
                let k = choose|k: int| 0 <= k < before.len() && before[k] == s[i];
                assert(all[k] == s[i]);
            } else {
                assert(all[all.len() - 1] == s[i]);
            }
        }
    }
}

/// What is kept is what a filter lets through.
pub proof fn lemma_kept_is_filter<T>(s: Seq<T>, p: spec_fn(T) -> bool)
    ensures
        kept(s, p) == s.filter(p),
    decreases s.len(),
{
    reveal(Seq::filter);
    if s.len() > 0 {
        lemma_kept_is_filter(s.drop_last(), p);
    }
}

/// Keeping is done row by row.
pub proof fn lemma_kept_push<T>(s: Seq<T>, x: T, p: spec_fn(T) -> bool)
    ensures
        kept(s.push(x), p) == (if p(x) {
            kept(s, p).push(x)
        } else {
            kept(s, p)
        }),
{
    assert(s.push(x).drop_last() == s);
}

/// What is kept has no more repetitions than the rows had.
pub proof fn lemma_kept_distinct<T, K>(s: Seq<T>, p: spec_fn(T) -> bool, key: spec_fn(T) -> K)
    requires
        forall|i: int, j: int|
            #![trigger s[i], s[j]]
            0 <= i < j < s.len() ==> key(s[i]) != key(s[j]),
    ensures
        forall|i: int, j: int|
            #![trigger kept(s, p)[i], kept(s, p)[j]]
            0 <= i < j < kept(s, p).len() ==> key(kept(s, p)[i]) != key(kept(s, p)[j]),
    decreases s.len(),
{
    if s.len() > 0 {
        let init = s.drop_last();
        let before = kept(init, p);
        let all = kept(s, p);
        assert forall|i: int, j: int|
            #![trigger init[i], init[j]]
            0 <= i < j < init.len() implies key(init[i]) != key(init[j]) by {
            assert(init[i] == s[i] && init[j] == s[j]);
        }
        lemma_kept_distinct(init, p, key);
        lemma_kept(init, p);
        assert forall|i: int, j: int|
            #![trigger all[i], all[j]]
            0 <= i < j < all.len() implies key(all[i]) != key(all[j]) by {
            if j < before.len() {
                assert(all[i] == before[i] && all[j] == before[j]);
            } else {
                assert(all[i] == before[i]);
                let k = choose|k: int| 0 <= k < init.len() && init[k] == before[i];
                assert(s[k] == before[i]);
                assert(all[j] == s[s.len() - 1]);
            }
        }
    }
}

/// Whether the key `a` comes before the key `b`: the first number that differs decides,
/// and a key comes before its continuations.
pub open spec fn key_lt(a: Seq<int>, b: Seq<int>) -> bool
    decreases a.len(),
{
    if b.len() == 0 {
        false
    } else if a.len() == 0 {
        true
    } else if a[0] != b[0] {
        a[0] < b[0]
    } else {
        key_lt(a.drop_first(), b.drop_first())
    }
}

pub proof fn lemma_key_lt_irreflexive(a: Seq<int>)
    ensures
        !key_lt(a, a),
    decreases a.len(),
{
    if a.len() > 0 {
        lemma_key_lt_irreflexive(a.drop_first());
    }
}

pub proof fn lemma_key_lt_transitive(a: Seq<int>, b: Seq<int>, c: Seq<int>)
    requires
        key_lt(a, b),
        key_lt(b, c),
    ensures
        key_lt(a, c),
    decreases a.len(),
{
    if a.len() > 0 && b.len() > 0 && c.len() > 0 && a[0] == b[0] && b[0] == c[0] {
        lemma_key_lt_transitive(a.drop_first(), b.drop_first(), c.drop_first());
    }
}

pub proof fn lemma_key_lt_total(a: Seq<int>, b: Seq<int>)
    ensures
        key_lt(a, b) || key_lt(b, a) || a == b,
    decreases a.len(),
{
    if a.len() > 0 && b.len() > 0 && a[0] == b[0] {
        lemma_key_lt_total(a.drop_first(), b.drop_first());
        if a.drop_first() == b.drop_first() {
            assert(a =~= seq![a[0]] + a.drop_first());
            assert(b =~= seq![b[0]] + b.drop_first());
        }
    } else if a.len() == 0 && b.len() == 0 {
        assert(a =~= b);
    }
}

/// How many of the first `n` rows of `order` stand before a row with the key `key` that
/// comes behind all of them in the table.
pub open spec fn insert_pos(keys: Seq<Seq<int>>, order: Seq<int>, key: Seq<int>, n: int) -> int
    decreases n,
{
    if n <= 0 {
        0
    } else if key_lt(key, keys[order[n - 1]]) {
        insert_pos(keys, order, key, n - 1)
    } else {
        n
    }
}

/// The order of the first `n` rows by their keys; rows with equal keys keep their order.
pub open spec fn order_of_first(keys: Seq<Seq<int>>, n: int) -> Seq<int>
    decreases n,
{
    if n <= 0 {
        Seq::empty()
    } else {
        let before = order_of_first(keys, n - 1);
        before.insert(insert_pos(keys, before, keys[n - 1], before.len() as int), n - 1)
    }
}

/// The order of the rows by their keys; rows with equal keys keep their order.
pub open spec fn order_of(keys: Seq<Seq<int>>) -> Seq<int> {
    order_of_first(keys, keys.len() as int)
}

/// Whether row `i` comes before row `j`.
pub open spec fn row_lt(keys: Seq<Seq<int>>, i: int, j: int) -> bool {
    key_lt(keys[i], keys[j]) || (keys[i] == keys[j] && i < j)
}

pub proof fn lemma_insert_pos(keys: Seq<Seq<int>>, order: Seq<int>, key: Seq<int>, n: int)
    requires
        0 <= n <= order.len(),
    ensures
        0 <= insert_pos(keys, order, key, n) <= n,
        insert_pos(keys, order, key, n) > 0 ==> !key_lt(
            key,
            keys[order[insert_pos(keys, order, key, n) - 1]],
        ),
        forall|k: int|
            insert_pos(keys, order, key, n) <= k < n ==> key_lt(key, keys[#[trigger] order[k]]),
    decreases n,
{
    if n > 0 && key_lt(key, keys[order[n - 1]]) {
        lemma_insert_pos(keys, order, key, n - 1);
    }
}

/// The order holds every row once, and each row comes before those behind it.
pub proof fn lemma_order_of_first(keys: Seq<Seq<int>>, n: int)
    requires
        0 <= n <= keys.len(),
    ensures
        order_of_first(keys, n).len() == n,
        forall|a: int|
            0 <= a < n ==> 0 <= #[trigger] order_of_first(keys, n)[a] < n,
        forall|x: int| 0 <= x < n ==> #[trigger] order_of_first(keys, n).contains(x),
        forall|a: int, b: int|
            0 <= a < b < n ==> row_lt(
                keys,
                #[trigger] order_of_first(keys, n)[a],
                #[trigger] order_of_first(keys, n)[b],
            ),
    decreases n,
{
    if n > 0 {
        lemma_order_of_first(keys, n - 1);
        let before = order_of_first(keys, n - 1);
        let key = keys[n - 1];
        let pos = insert_pos(keys, before, key, before.len() as int);
        lemma_insert_pos(keys, before, key, before.len() as int);
        let all = before.insert(pos, n - 1);
        assert(order_of_first(keys, n) == all);
        assert forall|x: int| 0 <= x < n implies #[trigger] all.contains(x) by {
            if x == n - 1 {
                assert(all[pos] == x);
            } else {
                assert(before.contains(x));
                let k = choose|k: int| 0 <= k < before.len() && before[k] == x;
                if k < pos {
                    assert(all[k] == x);
                } else {
                    assert(all[k + 1] == x);
                }
            }
        }
        assert forall|a: int, b: int| 0 <= a < b < n implies row_lt(
            keys,
            #[trigger] all[a],
            #[trigger] all[b],
        ) by {
            if a < pos && b < pos {
                assert(all[a] == before[a] && all[b] == before[b]);
            } else if a < pos && b == pos {
                assert(all[a] == before[a]);
                let l = before[pos - 1];
                assert(!key_lt(key, keys[l]));
                lemma_key_lt_total(key, keys[l]);
                if a < pos - 1 {
                    assert(row_lt(keys, before[a], before[pos - 1]));
                    if key_lt(keys[before[a]], keys[l]) && key_lt(keys[l], key) {
                        lemma_key_lt_transitive(keys[before[a]], keys[l], key);
                    }
                }
                assert(before[a] < n - 1);
            } else if a < pos && b > pos {
                assert(all[a] == before[a] && all[b] == before[b - 1]);
            } else if a == pos {
                assert(all[b] == before[b - 1]);
                assert(key_lt(key, keys[before[b - 1]]));
            } else {
                assert(all[a] == before[a - 1] && all[b] == before[b - 1]);
            }
        }
    }
}

/// The rows of `s` at the indices.
pub open spec fn rows_at<T>(s: Seq<T>, at: Seq<int>) -> Seq<T> {
    Seq::new(at.len(), |i: int| s[at[i]])
}

/// At most `n` rows from the start.
pub open spec fn limited<T>(s: Seq<T>, n: nat) -> Seq<T> {
    if s.len() <= n {
        s
    } else {
        s.take(n as int)
    }
}

/// What is kept is what passes any test that tells the rows apart alike.
pub proof fn lemma_kept_same<T>(s: Seq<T>, p: spec_fn(T) -> bool, q: spec_fn(T) -> bool)
    requires
        forall|i: int| 0 <= i < s.len() ==> p(#[trigger] s[i]) == q(s[i]),
    ensures
        kept(s, p) == s.filter(q),
    decreases s.len(),
{
    reveal(Seq::filter);
    if s.len() > 0 {
        let init = s.drop_last();
        assert forall|i: int| 0 <= i < init.len() implies p(#[trigger] init[i]) == q(init[i]) by {
            assert(init[i] == s[i]);
        }
        lemma_kept_same(init, p, q);
        assert(p(s[s.len() - 1]) == q(s[s.len() - 1]));
    }
}

/// The best rows, at most `limit` of them and as many as there are, the better ones first and
/// of equally good ones the earlier one; `at` tells which row each is. What is left out is no
/// better than what is taken.
pub open spec fn is_top_at<T>(
    all: Seq<T>,
    score: spec_fn(T) -> int,
    limit: nat,
    r: Seq<T>,
    at: Seq<int>,
) -> bool {
    &&& at.len() == r.len()
    &&& r.len() == if all.len() <= limit {
        all.len()
    } else {
        limit
    }
    &&& forall|i: int|
        0 <= i < at.len() ==> 0 <= #[trigger] at[i] < all.len() && r[i] == all[at[i]]
    &&& forall|i: int, j: int|
        0 <= i < j < at.len() ==> score(all[#[trigger] at[i]]) > score(all[#[trigger] at[j]]) || (
        score(all[at[i]]) == score(all[at[j]]) && at[i] < at[j])
    &&& forall|i: int, k: int|
        0 <= i < at.len() && 0 <= k < all.len() && !at.contains(k) ==> score(
            all[#[trigger] at[i]],
        ) > score(#[trigger] all[k]) || (score(all[at[i]]) == score(all[k]) && at[i] < k)
}

pub open spec fn is_top<T>(all: Seq<T>, score: spec_fn(T) -> int, limit: nat, r: Seq<T>) -> bool {
    exists|at: Seq<int>| #[trigger] is_top_at(all, score, limit, r, at)
}

/// Rows in the order of their scores, cut off at the limit, are the best ones.
pub proof fn lemma_top<T>(all: Seq<T>, score: spec_fn(T) -> int, keys: Seq<Seq<int>>, limit: nat)
    requires
        keys.len() == all.len(),
        forall|i: int| 0 <= i < all.len() ==> #[trigger] keys[i] == seq![-score(all[i])],
    ensures
        is_top(all, score, limit, limited(rows_at(all, order_of(keys)), limit)),
{
    let order = order_of(keys);
    let r = limited(rows_at(all, order), limit);
    let at = order.take(r.len() as int);
    lemma_order_of_first(keys, keys.len() as int);
    assert forall|a: int, b: int| 0 <= a < b < order.len() implies score(all[#[trigger] order[a]])
        > score(all[#[trigger] order[b]]) || (score(all[order[a]]) == score(all[order[b]])
        && order[a] < order[b]) by {
        let (x, y) = (order[a], order[b]);
        assert(row_lt(keys, x, y));
        reveal_with_fuel(key_lt, 3);
        assert(keys[x][0] == -score(all[x]));
        assert(keys[y][0] == -score(all[y]));
        assert(keys[x].drop_first().len() == 0 && keys[y].drop_first().len() == 0);
    }
    assert forall|i: int| 0 <= i < at.len() implies #[trigger] at[i] == order[i] by {}
    assert forall|i: int, k: int|
        0 <= i < at.len() && 0 <= k < all.len() && !at.contains(k) implies score(
        all[#[trigger] at[i]],
    ) > score(#[trigger] all[k]) || (score(all[at[i]]) == score(all[k]) && at[i] < k) by {
        assert(order.contains(k));
        let y = choose|y: int| 0 <= y < order.len() && order[y] == k;
        if y < at.len() {
            assert(at[y] == k);
        }
        assert(order[i] == at[i]);
    }
    assert(is_top_at(all, score, limit, r, at));
}

pub open spec fn key_view(k: Seq<i128>) -> Seq<int> {
    Seq::new(k.len(), |i: int| k[i] as int)
}

pub open spec fn keys_view(ks: Seq<Vec<i128>>) -> Seq<Seq<int>> {
    Seq::new(ks.len(), |i: int| key_view(ks[i]@))
}

pub open spec fn indices(v: Seq<usize>) -> Seq<int> {
    Seq::new(v.len(), |i: int| v[i] as int)
}

pub fn key_is_less(a: &Vec<i128>, b: &Vec<i128>) -> (r: bool)
    ensures
        r == key_lt(key_view(a@), key_view(b@)),
{
    let mut i: usize = 0;
    let ghost av = key_view(a@);
    let ghost bv = key_view(b@);
    assert(av.skip(0) == av && bv.skip(0) == bv);
    while i < a.len() && i < b.len()
        invariant
            i <= a.len(),
            i <= b.len(),
            av == key_view(a@),
            bv == key_view(b@),
            key_lt(av, bv) == key_lt(av.skip(i as int), bv.skip(i as int)),
        decreases a.len() - i,
    {
        if a[i] != b[i] {
            return a[i] < b[i];
        }
        assert(av.skip(i as int).drop_first() == av.skip(i + 1));
        assert(bv.skip(i as int).drop_first() == bv.skip(i + 1));
        i += 1;
    }
    i < b.len()
}

/// The order of rows by their keys; rows with equal keys keep their order.
pub fn order_rows(keys: &Vec<Vec<i128>>) -> (r: Vec<usize>)
    ensures
        indices(r@) == order_of(keys_view(keys@)),
        r@.len() == keys@.len(),
        forall|i: int| 0 <= i < r@.len() ==> (#[trigger] r@[i]) < keys@.len(),
{
    let ghost kv = keys_view(keys@);
    let mut r: Vec<usize> = Vec::new();
    let mut i: usize = 0;
    while i < keys.len()
        invariant
            i <= keys.len(),
            kv == keys_view(keys@),
            indices(r@) == order_of_first(kv, i as int),
            r@.len() == i,
            forall|k: int| 0 <= k < r@.len() ==> (#[trigger] r@[k]) < i,
        decreases keys.len() - i,
    {
        let ghost before = indices(r@);
        let ghost rows = r@;
        let mut pos: usize = r.len();
        while pos > 0 && key_is_less(&keys[i], &keys[r[pos - 1]])
            invariant
                i < keys.len(),
                pos <= r.len(),
                r@ == rows,
                r@.len() == i,
                before == indices(r@),
                kv == keys_view(keys@),
                forall|k: int| 0 <= k < r@.len() ==> (#[trigger] r@[k]) < i,
                insert_pos(kv, before, kv[i as int], before.len() as int) == insert_pos(
                    kv,
                    before,
                    kv[i as int],
                    pos as int,
                ),
            decreases pos,
        {
            pos -= 1;
        }
        assert(insert_pos(kv, before, kv[i as int], pos as int) == pos) by {
            if pos > 0 {
                assert(before[pos - 1] == r@[pos - 1]);
            }
        }
        r.insert(pos, i);
        assert(indices(r@) =~= before.insert(pos as int, i as int));
        i += 1;
    }
    r
}

/// The key of a text: its code points.
pub open spec fn text_key(s: Seq<char>) -> Seq<int> {
    Seq::new(s.len(), |i: int| (s[i] as u32) as int)
}

pub fn text_key_of(s: &str) -> (r: Vec<i128>)
    ensures
        key_view(r@) == text_key(s@),
{
    let cs = text::chars_of(s);
    let mut r: Vec<i128> = Vec::new();
    let mut i: usize = 0;
    while i < cs.len()
        invariant
            i <= cs.len(),
            cs@ == s@,
            key_view(r@) == text_key(s@).take(i as int),
        decreases cs.len() - i,
    {
        let ghost before = r@;
        let c: u32 = cs[i] as u32;
        r.push(c as i128);
        assert(key_view(r@) =~= key_view(before).push(c as int));
        i += 1;
    }
    assert(text_key(s@).take(i as int) == text_key(s@));
    r
}

/// The key of two numbers, the first of which decides first.
pub fn pair_key(a: i128, b: i128) -> (r: Vec<i128>)
    ensures
        key_view(r@) == seq![a as int, b as int],
{
    let mut r: Vec<i128> = Vec::new();
    r.push(a);
    r.push(b);
    assert(key_view(r@) =~= seq![a as int, b as int]);
    r
}

pub fn number_key(a: i128) -> (r: Vec<i128>)
    ensures
        key_view(r@) == seq![a as int],
{
    let mut r: Vec<i128> = Vec::new();
    r.push(a);
    assert(key_view(r@) =~= seq![a as int]);
    r
}

/// No two rows have the same key.
pub open spec fn unique<T, K>(s: Seq<T>, key: spec_fn(T) -> K) -> bool {
    forall|i: int, j: int|
        #![trigger s[i], s[j]]
        0 <= i < j < s.len() ==> key(s[i]) != key(s[j])
}

/// The first index at or behind `i` of a row with the key `k`.
pub open spec fn row_index<T, K>(s: Seq<T>, key: spec_fn(T) -> K, k: K, i: int) -> Option<int>
    decreases s.len() - i,
{
    if i < 0 || i >= s.len() {
        None
    } else if key(s[i]) == k {
        Some(i)
    } else {
        row_index(s, key, k, i + 1)
    }
}

pub proof fn lemma_row_index<T, K>(s: Seq<T>, key: spec_fn(T) -> K, k: K, i: int)
    requires
        0 <= i,
    ensures
        match row_index(s, key, k, i) {
            Some(x) => i <= x < s.len() && key(s[x]) == k && forall|y: int|
                i <= y < x ==> key(#[trigger] s[y]) != k,
            None => forall|y: int| i <= y < s.len() ==> key(#[trigger] s[y]) != k,
        },
    decreases s.len() - i,
{
    if i < s.len() && key(s[i]) != k {
        lemma_row_index(s, key, k, i + 1);
    }
}

/// Where keys are unique, a row with the key is the row with the key.
pub proof fn lemma_row_index_at<T, K>(s: Seq<T>, key: spec_fn(T) -> K, x: int)
    requires
        unique(s, key),
        0 <= x < s.len(),
    ensures
        row_index(s, key, key(s[x]), 0) == Some(x),
{
    lemma_row_index(s, key, key(s[x]), 0);
    match row_index(s, key, key(s[x]), 0) {
        Some(y) => {
            if y < x {
                assert(key(s[y]) != key(s[x]));
            }
        },
        None => {
            assert(key(s[x]) != key(s[x]));
        },
    }
}

pub proof fn lemma_unique_push<T, K>(s: Seq<T>, key: spec_fn(T) -> K, row: T)
    requires
        unique(s, key),
        row_index(s, key, key(row), 0) is None,
    ensures
        unique(s.push(row), key),
{
    lemma_row_index(s, key, key(row), 0);
    let t = s.push(row);
    assert forall|i: int, j: int| #![trigger t[i], t[j]] 0 <= i < j < t.len() implies key(t[i])
        != key(t[j]) by {
        assert(t[i] == s[i]);
        if j < s.len() {
            assert(t[j] == s[j]);
        }
    }
}

pub proof fn lemma_unique_update<T, K>(s: Seq<T>, key: spec_fn(T) -> K, x: int, row: T)
    requires
        unique(s, key),
        0 <= x < s.len(),
        key(row) == key(s[x]),
    ensures
        unique(s.update(x, row), key),
{
    let t = s.update(x, row);
    assert forall|i: int, j: int| #![trigger t[i], t[j]] 0 <= i < j < t.len() implies key(t[i])
        != key(t[j]) by {
        assert(key(t[i]) == key(s[i]));
        assert(key(t[j]) == key(s[j]));
        assert(key(s[i]) != key(s[j]));
    }
}

pub proof fn lemma_unique_kept<T, K>(s: Seq<T>, key: spec_fn(T) -> K, p: spec_fn(T) -> bool)
    requires
        unique(s, key),
    ensures
        unique(kept(s, p), key),
{
    lemma_kept_distinct(s, p, key);
}

/// Different numbers below `n` are at most `n`.
pub proof fn lemma_distinct_bounded(s: Seq<int>, n: int)
    requires
        0 <= n,
        s.no_duplicates(),
        forall|i: int| 0 <= i < s.len() ==> 0 <= #[trigger] s[i] < n,
    ensures
        s.len() <= n,
{
    s.unique_seq_to_set();
    let range = vstd::set_lib::set_int_range(0, n);
    vstd::set_lib::lemma_int_range(0, n);
    assert(s.to_set().subset_of(range));
    vstd::set_lib::lemma_len_subset(s.to_set(), range);
}

/// What the rows are seen as.
pub open spec fn mapped<T, V>(s: Seq<T>, f: spec_fn(T) -> V) -> Seq<V> {
    Seq::new(s.len(), |i: int| f(s[i]))
}

pub proof fn lemma_mapped_push<T, V>(s: Seq<T>, f: spec_fn(T) -> V, x: T)
    ensures
        mapped(s.push(x), f) == mapped(s, f).push(f(x)),
{
    assert(mapped(s.push(x), f) =~= mapped(s, f).push(f(x)));
}

pub proof fn lemma_mapped_update<T, V>(s: Seq<T>, f: spec_fn(T) -> V, i: int, x: T)
    requires
        0 <= i < s.len(),
    ensures
        mapped(s.update(i, x), f) == mapped(s, f).update(i, f(x)),
{
    assert(mapped(s.update(i, x), f) =~= mapped(s, f).update(i, f(x)));
}

/// A row stands at the same place in what the rows are seen as.
pub proof fn lemma_mapped_index<T, V, K>(
    s: Seq<T>,
    f: spec_fn(T) -> V,
    kt: spec_fn(T) -> K,
    kv: spec_fn(V) -> K,
    k: K,
    i: int,
)
    requires
        0 <= i,
        forall|t: T| #[trigger] kt(t) == kv(f(t)),
    ensures
        row_index(mapped(s, f), kv, k, i) == row_index(s, kt, k, i),
    decreases s.len() - i,
{
    if i < s.len() {
        lemma_mapped_index(s, f, kt, kv, k, i + 1);
        assert(kt(s[i]) == kv(f(s[i])));
        assert(mapped(s, f)[i] == f(s[i]));
    }
}

/// The same rows are kept in what the rows are seen as.
pub proof fn lemma_mapped_kept<T, V>(
    s: Seq<T>,
    f: spec_fn(T) -> V,
    p: spec_fn(T) -> bool,
    q: spec_fn(V) -> bool,
)
    requires
        forall|t: T| #[trigger] p(t) == q(f(t)),
    ensures
        mapped(kept(s, p), f) == kept(mapped(s, f), q),
    decreases s.len(),
{
    if s.len() > 0 {
        lemma_mapped_kept(s.drop_last(), f, p, q);
        assert(mapped(s, f).drop_last() =~= mapped(s.drop_last(), f));
        assert(p(s.last()) == q(f(s.last())));
        lemma_mapped_push(kept(s.drop_last(), p), f, s.last());
    } else {
        assert(mapped(kept(s, p), f) =~= kept(mapped(s, f), q));
    }
}

/// Keeping is done piece by piece.
pub proof fn lemma_kept_concat<T>(a: Seq<T>, b: Seq<T>, p: spec_fn(T) -> bool)
    ensures
        kept(a + b, p) == kept(a, p) + kept(b, p),
    decreases b.len(),
{
    if b.len() == 0 {
        assert(a + b =~= a);
        assert(kept(a, p) + kept(b, p) =~= kept(a, p));
    } else {
        let init = b.drop_last();
        lemma_kept_concat(a, init, p);
        assert((a + b).drop_last() =~= a + init);
        assert((a + b).last() == b.last());
        assert(kept(a + b, p) =~= kept(a, p) + kept(b, p));
    }
}

pub proof fn lemma_keep_all<T>(s: Seq<T>, p: spec_fn(T) -> bool)
    requires
        forall|i: int| 0 <= i < s.len() ==> p(#[trigger] s[i]),
    ensures
        kept(s, p) == s,
    decreases s.len(),
{
    if s.len() > 0 {
        assert forall|i: int| 0 <= i < s.drop_last().len() implies p(
            #[trigger] s.drop_last()[i],
        ) by {
            assert(s.drop_last()[i] == s[i]);
        }
        lemma_keep_all(s.drop_last(), p);
        assert(p(s[s.len() - 1]));
        assert(s.drop_last().push(s.last()) =~= s);
    }
}

pub proof fn lemma_keep_none<T>(s: Seq<T>, p: spec_fn(T) -> bool)
    requires
        forall|i: int| 0 <= i < s.len() ==> !p(#[trigger] s[i]),
    ensures
        kept(s, p) == Seq::<T>::empty(),
    decreases s.len(),
{
    if s.len() > 0 {
        assert forall|i: int| 0 <= i < s.drop_last().len() implies !p(
            #[trigger] s.drop_last()[i],
        ) by {
            assert(s.drop_last()[i] == s[i]);
        }
        lemma_keep_none(s.drop_last(), p);
        assert(!p(s[s.len() - 1]));
    }
}

/// The first row with a key is the first one among those that are kept, where it is kept.
pub proof fn lemma_kept_find<T, K>(s: Seq<T>, key: spec_fn(T) -> K, k: K, p: spec_fn(T) -> bool)
    requires
        row_index(s, key, k, 0) is Some,
        p(s[row_index(s, key, k, 0)->0]),
    ensures
        ({
            let y = row_index(kept(s, p), key, k, 0);
            &&& y is Some
            &&& 0 <= y->0 < kept(s, p).len()
            &&& kept(s, p)[y->0] == s[row_index(s, key, k, 0)->0]
        }),
    decreases s.len(),
{
    lemma_row_index(s, key, k, 0);
    let x = row_index(s, key, k, 0)->0;
    let front = s.take(x);
    let back = s.skip(x);
    assert(front + back =~= s);
    lemma_kept_concat(front, back, p);
    let a = kept(front, p);
    let b = kept(back, p);
    let all = kept(s, p);
    lemma_kept(front, p);
    lemma_kept_first(back, p);
    assert(back[0] == s[x]);
    let at = a.len() as int;
    assert(all[at] == s[x]);
    assert forall|i: int| 0 <= i < at implies key(#[trigger] all[i]) != k by {
        assert(all[i] == a[i]);
        let j = choose|j: int| 0 <= j < front.len() && front[j] == a[i];
        assert(s[j] == a[i]);
    }
    lemma_row_index(all, key, k, 0);
    let y = row_index(all, key, k, 0)->0;
    assert(key(all[at]) == k);
    if y < at {
        assert(key(all[y]) != k);
    }
}

proof fn lemma_kept_first<T>(s: Seq<T>, p: spec_fn(T) -> bool)
    requires
        s.len() > 0,
        p(s[0]),
    ensures
        kept(s, p).len() > 0,
        kept(s, p)[0] == s[0],
    decreases s.len(),
{
    if s.len() > 1 {
        assert(s.drop_last()[0] == s[0]);
        lemma_kept_first(s.drop_last(), p);
    } else {
        assert(s.last() == s[0]);
        assert(kept(s.drop_last(), p).len() == 0);
    }
}

} // verus!
