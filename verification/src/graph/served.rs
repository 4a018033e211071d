//! What the queue promises those who put documents in and those who take them out.

use crate::graph::model::{AiQueueItem, QueueStatus};
use crate::graph::queue;
use crate::graph::queue::QueueV;
use crate::graph::store;
use crate::rows;
use vstd::prelude::*;

verus! {

/// Whether an item of the directory may be handed out: it is pending, or was handed out more
/// than a minute and a half ago.
pub open spec fn is_due(item: AiQueueItem, dir: Seq<char>, now: i64) -> bool {
    &&& item.dir_path@ == dir
    &&& item.status == QueueStatus::Pending || (item.status == QueueStatus::Processing
        && item.updated_at + 90_000 < now)
}

/// Whether the first item goes before the second: it is more important, or equally important
/// and no younger.
pub open spec fn goes_before(a: AiQueueItem, b: AiQueueItem) -> bool {
    a.importance > b.importance || (a.importance == b.importance && a.created_at <= b.created_at)
}

/// Whether an item is the same but for its status and the time of its last change.
pub open spec fn is_same_task(a: AiQueueItem, b: AiQueueItem) -> bool {
    &&& a.id == b.id
    &&& a.dir_path == b.dir_path
    &&& a.rel_path == b.rel_path
    &&& a.importance == b.importance
    &&& a.attempts == b.attempts
    &&& a.created_at == b.created_at
}

pub open spec fn has_number(items: Seq<AiQueueItem>, id: i64) -> bool {
    exists|k: int| 0 <= k < items.len() && (#[trigger] items[k]).id == id
}

/// Whether the queue serves: what is handed out was due and is marked as handed out now, the
/// more important first and of equal ones the older; what is due and left waits, only where
/// the batch is full, and does not go before anything in it; all the rest stays as it was.
pub open spec fn is_served(
    before: Seq<AiQueueItem>,
    dir: Seq<char>,
    limit: u32,
    now: i64,
    after: Seq<AiQueueItem>,
    batch: Seq<AiQueueItem>,
) -> bool {
    &&& after.len() == before.len()
    &&& batch.len() <= limit
    &&& forall|k: int|
        0 <= k < batch.len() ==> {
            &&& (#[trigger] batch[k]).status == QueueStatus::Processing
            &&& batch[k].updated_at == now
            &&& has_number(before, batch[k].id)
        }
    &&& forall|a: int, b: int|
        0 <= a < b < batch.len() ==> goes_before(#[trigger] batch[a], #[trigger] batch[b])
            && batch[a].id != batch[b].id
    &&& forall|x: int|
        0 <= x < before.len() ==> is_same_task(#[trigger] after[x], before[x])
    &&& forall|x: int|
        0 <= x < before.len() && !is_due(before[x], dir, now) ==> #[trigger] after[x] == before[x]
            && !has_number(batch, before[x].id)
    &&& forall|x: int|
        0 <= x < before.len() && has_number(batch, before[x].id) ==> batch.contains(
            #[trigger] after[x],
        )
    &&& forall|x: int|
        0 <= x < before.len() && is_due(before[x], dir, now) && !has_number(batch, before[x].id)
            ==> (#[trigger] after[x]).status == QueueStatus::Pending && batch.len() == limit
    &&& forall|x: int, k: int|
        0 <= x < before.len() && is_due(before[x], dir, now) && !has_number(batch, before[x].id)
            && 0 <= k < batch.len() ==> goes_before(#[trigger] batch[k], #[trigger] before[x])
}

/// What comes next: what waits, in its order, and what is left does not go before it.
proof fn lemma_next(items: Seq<AiQueueItem>, dir: Seq<char>, limit: u32)
    requires
        rows::unique(items, store::item_key()),
    ensures
        ({
            let next = queue::next_items(items, dir, limit);
            &&& next.len() <= limit
            &&& forall|k: int|
                0 <= k < next.len() ==> queue::waits(dir)(#[trigger] next[k]) && items.contains(
                    next[k],
                )
            &&& forall|a: int, b: int|
                0 <= a < b < next.len() ==> goes_before(#[trigger] next[a], #[trigger] next[b])
                    && next[a].id != next[b].id
            &&& forall|x: int|
                0 <= x < items.len() && queue::waits(dir)(#[trigger] items[x]) && !next.contains(
                    items[x],
                ) ==> next.len() == limit
            &&& forall|x: int, k: int|
                0 <= x < items.len() && queue::waits(dir)(#[trigger] items[x]) && !next.contains(
                    items[x],
                ) && 0 <= k < next.len() ==> goes_before(#[trigger] next[k], items[x])
        }),
{
    let waiting = rows::kept(items, queue::waits(dir));
    let keys = queue::urgency_keys(waiting);
    let order = rows::order_of(keys);
    let sorted = rows::rows_at(waiting, order);
    let next = queue::next_items(items, dir, limit);
    rows::lemma_kept(items, queue::waits(dir));
    rows::lemma_kept_distinct(items, queue::waits(dir), store::item_key());
    rows::lemma_order_of_first(keys, keys.len() as int);
    assert forall|a: int, b: int| 0 <= a < b < sorted.len() implies goes_before(
        #[trigger] sorted[a],
        #[trigger] sorted[b],
    ) && sorted[a].id != sorted[b].id by {
        let (x, y) = (order[a], order[b]);
        assert(rows::row_lt(keys, x, y));
        reveal_with_fuel(rows::key_lt, 3);
        assert(keys[x] == seq![-(waiting[x].importance as int), waiting[x].created_at as int]);
        assert(keys[y] == seq![-(waiting[y].importance as int), waiting[y].created_at as int]);
        assert(keys[x].drop_first()[0] == waiting[x].created_at);
        assert(keys[y].drop_first()[0] == waiting[y].created_at);
        assert(keys[x][0] == -(waiting[x].importance as int));
        assert(keys[y][0] == -(waiting[y].importance as int));
        assert(keys[x].drop_first().drop_first().len() == 0);
        assert(keys[y].drop_first().drop_first().len() == 0);
        if x == y {
            rows::lemma_key_lt_irreflexive(keys[x]);
        }
        if x < y {
            assert(store::item_key()(waiting[x]) != store::item_key()(waiting[y]));
        } else {
            assert(store::item_key()(waiting[y]) != store::item_key()(waiting[x]));
        }
    }
    assert forall|k: int| 0 <= k < next.len() implies queue::waits(dir)(#[trigger] next[k])
        && items.contains(next[k]) by {
        assert(next[k] == sorted[k]);
        assert(sorted[k] == waiting[order[k]]);
    }
    assert forall|x: int| 0 <= x < items.len() && queue::waits(dir)(#[trigger] items[x])
        && !next.contains(items[x]) implies next.len() == limit && exists|y: int|
        next.len() <= y < sorted.len() && #[trigger] sorted[y] == items[x] by {
        let w = choose|w: int| 0 <= w < waiting.len() && waiting[w] == items[x];
        assert(order.contains(w));
        let y = choose|y: int| 0 <= y < order.len() && order[y] == w;
        assert(sorted[y] == items[x]);
        if y < next.len() {
            assert(next[y] == items[x]);
        }
    }
    assert forall|x: int, k: int|
        0 <= x < items.len() && queue::waits(dir)(#[trigger] items[x]) && !next.contains(items[x])
            && 0 <= k < next.len() implies goes_before(#[trigger] next[k], items[x]) by {
        let y = choose|y: int| next.len() <= y < sorted.len() && #[trigger] sorted[y] == items[x];
        assert(next[k] == sorted[k]);
    }
}

/// The queue serves: see [`is_served`].
#[verifier::rlimit(40)]
pub proof fn law_the_queue_serves(items: Seq<AiQueueItem>, dir: Seq<char>, limit: u32, now: i64)
    requires
        rows::unique(items, store::item_key()),
    ensures
        is_served(
            items,
            dir,
            limit,
            now,
            queue::claimed(
                queue::woken(items, dir, now),
                queue::next_items(queue::woken(items, dir, now), dir, limit),
                now,
            ),
            queue::taken(queue::next_items(queue::woken(items, dir, now), dir, limit), now),
        ),
{
    let awake = queue::woken(items, dir, now);
    let next = queue::next_items(awake, dir, limit);
    let after = queue::claimed(awake, next, now);
    let batch = queue::taken(next, now);
    assert forall|i: int, j: int|
        #![trigger awake[i], awake[j]]
        0 <= i < j < awake.len() implies store::item_key()(awake[i]) != store::item_key()(awake[j]) by {
        assert(awake[i].id == items[i].id && awake[j].id == items[j].id);
        assert(store::item_key()(items[i]) != store::item_key()(items[j]));
    }
    lemma_next(awake, dir, limit);
    assert forall|x: int| 0 <= x < items.len() implies has_number(batch, #[trigger] items[x].id)
        == next.contains(awake[x]) && queue::has_item(next, items[x].id) == next.contains(awake[x]) by {
        assert(awake[x].id == items[x].id);
        if has_number(batch, items[x].id) {
            let k = choose|k: int| 0 <= k < batch.len() && (#[trigger] batch[k]).id == items[x].id;
            assert(next[k].id == items[x].id);
            assert(queue::has_item(next, items[x].id));
        }
        if queue::has_item(next, items[x].id) {
            let k = choose|k: int| 0 <= k < next.len() && (#[trigger] next[k]).id == items[x].id;
            assert(batch[k].id == items[x].id);
            let y = choose|y: int| 0 <= y < awake.len() && awake[y] == next[k];
            assert(store::item_key()(awake[y]) == store::item_key()(awake[x]));
            assert(x == y);
        }
        if next.contains(awake[x]) {
            let k = choose|k: int| 0 <= k < next.len() && next[k] == awake[x];
            assert(batch[k].id == items[x].id);
            assert(next[k].id == items[x].id);
        }
    }
    assert forall|x: int| 0 <= x < items.len() implies queue::waits(dir)(#[trigger] awake[x])
        == is_due(items[x], dir, now) by {}
    assert forall|k: int| 0 <= k < batch.len() implies (#[trigger] batch[k]).status
        == QueueStatus::Processing && batch[k].updated_at == now && has_number(items, batch[k].id) by {
        let y = choose|y: int| 0 <= y < awake.len() && awake[y] == next[k];
        assert(items[y].id == batch[k].id);
    }
    assert forall|a: int, b: int| 0 <= a < b < batch.len() implies goes_before(
        #[trigger] batch[a],
        #[trigger] batch[b],
    ) && batch[a].id != batch[b].id by {
        assert(goes_before(next[a], next[b]));
    }
    assert forall|x: int| 0 <= x < items.len() && !is_due(items[x], dir, now) implies #[trigger] after[x]
        == items[x] && !has_number(batch, items[x].id) by {
        if next.contains(awake[x]) {
            let k = choose|k: int| 0 <= k < next.len() && next[k] == awake[x];
            assert(queue::waits(dir)(next[k]));
        }
        assert(has_number(batch, items[x].id) == next.contains(awake[x]));
    }
    assert forall|x: int| 0 <= x < items.len() && has_number(batch, items[x].id) implies batch.contains(
        #[trigger] after[x],
    ) by {
        let k = choose|k: int| 0 <= k < next.len() && next[k] == awake[x];
        assert(batch[k] == after[x]);
    }
    assert forall|x: int|
        0 <= x < items.len() && is_due(items[x], dir, now) && !has_number(batch, items[x].id) implies (
    #[trigger] after[x]).status == QueueStatus::Pending && batch.len() == limit by {
        assert(queue::waits(dir)(awake[x]));
        assert(!next.contains(awake[x]));
    }
    assert forall|x: int, k: int|
        0 <= x < items.len() && is_due(items[x], dir, now) && !has_number(batch, items[x].id) && 0 <= k
            < batch.len() implies goes_before(#[trigger] batch[k], #[trigger] items[x]) by {
        assert(queue::waits(dir)(awake[x]));
        assert(!next.contains(awake[x]));
        assert(goes_before(next[k], awake[x]));
    }
}

/// Whether one of the documents has the path.
#[verifier::opaque]
pub open spec fn is_named(docs: Seq<(String, u32)>, path: Seq<char>) -> bool {
    exists|j: int| 0 <= j < docs.len() && (#[trigger] docs[j]).0@ == path
}

/// Whether the importance is the one that the last document with the path has.
#[verifier::opaque]
pub open spec fn is_last_word(docs: Seq<(String, u32)>, path: Seq<char>, importance: u32) -> bool {
    exists|j: int|
        0 <= j < docs.len() && (#[trigger] docs[j]).0@ == path && docs[j].1 == importance && forall|k: int|
            j < k < docs.len() ==> (#[trigger] docs[k]).0@ != path
}

/// Whether the document stands in the queue.
pub open spec fn stands_in(items: Seq<AiQueueItem>, dir: Seq<char>, path: Seq<char>) -> bool {
    exists|x: int|
        0 <= x < items.len() && (#[trigger] items[x]).dir_path@ == dir && items[x].rel_path@ == path
}

/// What becomes of an item that was there: it keeps its number, its document and its age.
/// Where it is not named it stays as it was; where it is, it starts anew if that is asked for,
/// and else only if it had failed.
pub open spec fn is_taken_up(a: AiQueueItem, b: AiQueueItem, named: bool, reset: bool) -> bool {
    &&& b.id == a.id
    &&& b.dir_path@ == a.dir_path@
    &&& b.rel_path@ == a.rel_path@
    &&& b.created_at == a.created_at
    &&& !named ==> b == a
    &&& named && reset ==> b.status == QueueStatus::Pending && b.attempts == 0
    &&& named && !reset ==> b.attempts == a.attempts
    &&& named && !reset && a.status == QueueStatus::Failed ==> b.status == QueueStatus::Pending
    &&& named && !reset && a.status != QueueStatus::Failed ==> b.status == a.status
}

/// Whether the documents have come into the queue: each stands in it, with the importance
/// that was given last. One that was there keeps its number, its place and its age; it starts
/// anew where that is asked for, and else only where it had failed. One that is new waits and
/// was never tried. What no document names stays as it was.
pub open spec fn are_put_in(
    before: Seq<AiQueueItem>,
    dir: Seq<char>,
    docs: Seq<(String, u32)>,
    reset: bool,
    now: i64,
    after: Seq<AiQueueItem>,
) -> bool {
    &&& after.len() >= before.len()
    &&& forall|j: int| 0 <= j < docs.len() ==> stands_in(after, dir, (#[trigger] docs[j]).0@)
    &&& forall|x: int|
        0 <= x < after.len() && (#[trigger] after[x]).dir_path@ == dir && is_named(
            docs,
            after[x].rel_path@,
        ) ==> is_last_word(docs, after[x].rel_path@, after[x].importance) && after[x].updated_at == now
    &&& forall|x: int|
        0 <= x < before.len() ==> is_taken_up(
            before[x],
            #[trigger] after[x],
            before[x].dir_path@ == dir && is_named(docs, before[x].rel_path@),
            reset,
        )
    &&& forall|x: int|
        before.len() <= x < after.len() ==> {
            &&& (#[trigger] after[x]).dir_path@ == dir
            &&& is_named(docs, after[x].rel_path@)
            &&& after[x].status == QueueStatus::Pending
            &&& after[x].attempts == 0
            &&& after[x].created_at == now
        }
}

proof fn lemma_named_push(docs: Seq<(String, u32)>, doc: (String, u32), path: Seq<char>)
    ensures
        is_named(docs.push(doc), path) == (is_named(docs, path) || doc.0@ == path),
        doc.0@ == path ==> is_last_word(docs.push(doc), path, doc.1),
        forall|n: u32|
            doc.0@ != path && is_last_word(docs, path, n) ==> #[trigger] is_last_word(
                docs.push(doc),
                path,
                n,
            ),
{
    reveal(is_named);
    reveal(is_last_word);
    let all = docs.push(doc);
    assert(all[docs.len() as int] == doc);
    if is_named(docs, path) {
        let j = choose|j: int| 0 <= j < docs.len() && (#[trigger] docs[j]).0@ == path;
        assert(all[j].0@ == path);
    }
    if is_named(all, path) {
        let j = choose|j: int| 0 <= j < all.len() && (#[trigger] all[j]).0@ == path;
        if j < docs.len() {
            assert(docs[j].0@ == path);
        }
    }
    assert forall|n: u32| doc.0@ != path && is_last_word(docs, path, n) implies #[trigger] is_last_word(
        all,
        path,
        n,
    ) by {
        let j = choose|j: int|
            0 <= j < docs.len() && (#[trigger] docs[j]).0@ == path && docs[j].1 == n && forall|k: int|
                j < k < docs.len() ==> (#[trigger] docs[k]).0@ != path;
        assert(all[j] == docs[j]);
        assert forall|k: int| j < k < all.len() implies (#[trigger] all[k]).0@ != path by {
            if k < docs.len() {
                assert(all[k] == docs[k]);
            }
        }
    }
}

proof fn lemma_put_in(
    before: Seq<AiQueueItem>,
    dir: String,
    docs: Seq<(String, u32)>,
    doc: (String, u32),
    reset: bool,
    now: i64,
    q: QueueV,
)
    requires
        are_put_in(before, dir@, docs, reset, now, q.items),
        rows::unique(q.items, store::item_doc()),
    ensures
        are_put_in(
            before,
            dir@,
            docs.push(doc),
            reset,
            now,
            queue::with_doc(q, dir, doc, reset, now).items,
        ),
        rows::unique(queue::with_doc(q, dir, doc, reset, now).items, store::item_doc()),
{
    let all = docs.push(doc);
    let mid = q.items;
    let after = queue::with_doc(q, dir, doc, reset, now).items;
    let key = store::item_doc();
    rows::lemma_row_index(mid, key, (dir@, doc.0@), 0);
    let at: int = match rows::row_index(mid, key, (dir@, doc.0@), 0) {
        Some(i) => {
            rows::lemma_unique_update(mid, key, i, after[i]);
            i
        },
        None => {
            rows::lemma_unique_push(mid, key, after[mid.len() as int]);
            mid.len() as int
        },
    };
    assert(after[at].dir_path@ == dir@ && after[at].rel_path@ == doc.0@);
    assert forall|x: int| 0 <= x < after.len() && x != at implies #[trigger] after[x] == mid[x] && !(
    after[x].dir_path@ == dir@ && after[x].rel_path@ == doc.0@) by {
        assert(key(after[x]) != key(after[at]));
    }
    assert forall|j: int| 0 <= j < all.len() implies stands_in(after, dir@, (#[trigger] all[j]).0@) by {
        if j < docs.len() {
            assert(all[j] == docs[j]);
            let x = choose|x: int|
                0 <= x < mid.len() && (#[trigger] mid[x]).dir_path@ == dir@ && mid[x].rel_path@
                    == docs[j].0@;
            assert(after[x].rel_path@ == mid[x].rel_path@);
        } else {
            assert(after[at].rel_path@ == all[j].0@);
        }
    }
    assert forall|x: int|
        0 <= x < after.len() && (#[trigger] after[x]).dir_path@ == dir@ && is_named(
            all,
            after[x].rel_path@,
        ) implies is_last_word(all, after[x].rel_path@, after[x].importance) && after[x].updated_at
        == now by {
        lemma_named_push(docs, doc, after[x].rel_path@);
        if x != at {
            assert(after[x] == mid[x]);
        }
    }
    assert forall|x: int| 0 <= x < after.len() implies is_named(all, (#[trigger] after[x]).rel_path@)
        == (is_named(docs, after[x].rel_path@) || doc.0@ == after[x].rel_path@) by {
        lemma_named_push(docs, doc, after[x].rel_path@);
    }
    assert forall|x: int| 0 <= x < before.len() implies is_taken_up(
        before[x],
        #[trigger] after[x],
        before[x].dir_path@ == dir@ && is_named(all, before[x].rel_path@),
        reset,
    ) by {
        assert(is_taken_up(
            before[x],
            mid[x],
            before[x].dir_path@ == dir@ && is_named(docs, before[x].rel_path@),
            reset,
        ));
        lemma_named_push(docs, doc, before[x].rel_path@);
    }
    assert forall|x: int| before.len() <= x < after.len() implies (#[trigger] after[x]).dir_path@ == dir@
        && is_named(all, after[x].rel_path@) && after[x].status == QueueStatus::Pending
        && after[x].attempts == 0 && after[x].created_at == now by {
        if x < mid.len() {
            assert(mid[x].dir_path@ == dir@);
        }
    }
}

/// Documents come into the queue as [`are_put_in`] says.
pub proof fn law_documents_are_put_in(
    q: QueueV,
    dir: String,
    docs: Seq<(String, u32)>,
    reset: bool,
    now: i64,
)
    requires
        rows::unique(q.items, store::item_doc()),
    ensures
        are_put_in(
            q.items,
            dir@,
            docs,
            reset,
            now,
            queue::with_docs(q, dir, docs, docs.len() as int, reset, now).items,
        ),
{
    lemma_all_put_in(q, dir, docs, docs.len() as int, reset, now);
    assert(docs.take(docs.len() as int) == docs);
}

proof fn lemma_all_put_in(
    q: QueueV,
    dir: String,
    docs: Seq<(String, u32)>,
    n: int,
    reset: bool,
    now: i64,
)
    requires
        rows::unique(q.items, store::item_doc()),
        0 <= n <= docs.len(),
    ensures
        are_put_in(
            q.items,
            dir@,
            docs.take(n),
            reset,
            now,
            queue::with_docs(q, dir, docs, n, reset, now).items,
        ),
        rows::unique(queue::with_docs(q, dir, docs, n, reset, now).items, store::item_doc()),
    decreases n,
{
    reveal(is_named);
    if n > 0 {
        lemma_all_put_in(q, dir, docs, n - 1, reset, now);
        lemma_put_in(
            q.items,
            dir,
            docs.take(n - 1),
            docs[n - 1],
            reset,
            now,
            queue::with_docs(q, dir, docs, n - 1, reset, now),
        );
        assert(docs.take(n - 1).push(docs[n - 1]) == docs.take(n));
    }
}

/// An attempt that succeeds ends the work on an item and does not count; one that fails
/// counts, and leaves the item pending as long as fewer attempts were made than may be made.
pub proof fn law_an_attempt_ends_as_it_went(
    item: AiQueueItem,
    ok: bool,
    max_attempts: u32,
    now: i64,
)
    requires
        item.attempts < u32::MAX,
    ensures
        ({
            let r = queue::finished(item, ok, max_attempts, now);
            &&& r.id == item.id && r.dir_path == item.dir_path && r.rel_path == item.rel_path
            &&& r.importance == item.importance && r.created_at == item.created_at
            &&& r.updated_at == now
            &&& ok ==> r.status == QueueStatus::Done && r.attempts == item.attempts
            &&& !ok ==> r.attempts == item.attempts + 1 && (r.status == QueueStatus::Pending
                <==> r.attempts < max_attempts) && (r.status == QueueStatus::Failed <==> r.attempts
                >= max_attempts)
        }),
{
}

pub open spec fn is_in(dir: Seq<char>, status: QueueStatus) -> spec_fn(AiQueueItem) -> bool {
    |q: AiQueueItem| q.dir_path@ == dir && q.status == status
}

/// The items of a directory that have a status.
pub open spec fn items_in(items: Seq<AiQueueItem>, dir: Seq<char>, status: QueueStatus) -> Seq<
    AiQueueItem,
> {
    items.filter(is_in(dir, status))
}

/// The number that is told of a status is that of the items of the directory that have it.
pub proof fn law_items_are_counted(items: Seq<AiQueueItem>, dir: Seq<char>, status: QueueStatus)
    ensures
        queue::count_status(items, dir, status) == items_in(items, dir, status).len(),
{
    rows::lemma_kept_same(items, queue::has_status(dir, status), is_in(dir, status));
}

/// Of each number that is asked for the item with the number comes, once, and nothing else;
/// the items come in the order in which the numbers were first named.
pub proof fn law_items_come_by_their_numbers(items: Seq<AiQueueItem>, ids: Seq<i64>)
    ensures
        forall|k: int|
            0 <= k < queue::items_by_id(items, ids).len() ==> items.contains(
                #[trigger] queue::items_by_id(items, ids)[k],
            ) && ids.contains(queue::items_by_id(items, ids)[k].id),
        forall|x: int|
            0 <= x < items.len() && ids.contains((#[trigger] items[x]).id) ==> has_number(
                queue::items_by_id(items, ids),
                items[x].id,
            ),
        forall|a: int, b: int|
            0 <= a < b < queue::items_by_id(items, ids).len() ==> ids.index_of_first(
                (#[trigger] queue::items_by_id(items, ids)[a]).id,
            )->0 < ids.index_of_first((#[trigger] queue::items_by_id(items, ids)[b]).id)->0,
    decreases ids.len(),
{
    if ids.len() > 0 {
        let init = ids.drop_last();
        let before = queue::items_by_id(items, init);
        let all = queue::items_by_id(items, ids);
        law_items_come_by_their_numbers(items, init);
        rows::lemma_row_index(items, store::item_key(), ids.last(), 0);
        assert forall|v: i64| #[trigger] init.contains(v) implies ids.contains(v)
            && ids.index_of_first(v) == init.index_of_first(v) && ids.index_of_first(v)->0
            < init.len() by {
            init.index_of_first_ensures(v);
            ids.index_of_first_ensures(v);
            let j = init.index_of_first(v)->0;
            assert(ids[j] == init[j]);
            let i = ids.index_of_first(v)->0;
            if i < j {
                assert(init[i] == ids[i]);
            }
        }
        assert(ids[ids.len() - 1] == ids.last());
        ids.index_of_first_ensures(ids.last());
        if !init.contains(ids.last()) {
            let i = ids.index_of_first(ids.last())->0;
            if i < init.len() {
                assert(init[i] == ids[i]);
                assert(init.contains(ids.last()));
            }
        }
        assert forall|x: int| 0 <= x < items.len() && ids.contains((#[trigger] items[x]).id) implies has_number(
            all,
            items[x].id,
        ) by {
            let v = items[x].id;
            if init.contains(v) {
                let k = choose|k: int| 0 <= k < before.len() && (#[trigger] before[k]).id == v;
                assert(all[k].id == v);
            } else {
                let j = choose|j: int| 0 <= j < ids.len() && ids[j] == v;
                if j < init.len() {
                    assert(init[j] == v);
                }
                assert(v == ids.last());
                assert(store::item_key()(items[x]) == v);
                assert(all[all.len() - 1].id == v);
            }
        }
    }
}

} // verus!
