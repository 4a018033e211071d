//! The queue of documents that wait for a model to read them.
//!
//! A document stands in the queue once. It is pending, is handed out, and ends as done or,
//! after too many attempts, as failed. What was handed out and not heard of for a while is
//! pending again.

use crate::graph::model::{AiQueueItem, QueueStatus};
use crate::graph::served;
use crate::graph::store;
use crate::graph::store::{GraphStore, MetricRow};
use crate::rows;
use vstd::prelude::*;

verus! {

/// After this many milliseconds without a sign an item that was handed out is pending again.
pub const AI_QUEUE_STALE_MS: i64 = 90_000;

/// The items of the queue and the number of the next one.
pub struct QueueV {
    pub items: Seq<AiQueueItem>,
    pub next: int,
}

pub open spec fn new_item(
    next: int,
    dir: String,
    rel_path: String,
    importance: u32,
    now: i64,
) -> AiQueueItem {
    AiQueueItem {
        id: next as i64,
        dir_path: dir,
        rel_path,
        importance,
        status: QueueStatus::Pending,
        attempts: 0,
        created_at: now,
        updated_at: now,
    }
}

/// An item that is put into the queue again: what failed is tried again, and with `reset`
/// whatever it was it starts anew.
pub open spec fn refreshed(item: AiQueueItem, importance: u32, reset: bool, now: i64) -> AiQueueItem {
    AiQueueItem {
        importance,
        status: if reset || item.status == QueueStatus::Failed {
            QueueStatus::Pending
        } else {
            item.status
        },
        attempts: if reset {
            0
        } else {
            item.attempts
        },
        updated_at: now,
        ..item
    }
}

pub open spec fn with_doc(q: QueueV, dir: String, doc: (String, u32), reset: bool, now: i64) -> QueueV {
    match rows::row_index(q.items, store::item_doc(), (dir@, doc.0@), 0) {
        Some(i) => QueueV {
            items: q.items.update(i, refreshed(q.items[i], doc.1, reset, now)),
            ..q
        },
        None => QueueV {
            items: q.items.push(new_item(q.next, dir, doc.0, doc.1, now)),
            next: q.next + 1,
        },
    }
}

/// The queue with the first `n` documents put in, one behind the other.
pub open spec fn with_docs(
    q: QueueV,
    dir: String,
    docs: Seq<(String, u32)>,
    n: int,
    reset: bool,
    now: i64,
) -> QueueV
    decreases n,
{
    if n <= 0 {
        q
    } else {
        with_doc(with_docs(q, dir, docs, n - 1, reset, now), dir, docs[n - 1], reset, now)
    }
}

/// Whether an item was handed out too long ago.
pub open spec fn is_stale(item: AiQueueItem, dir: Seq<char>, now: i64) -> bool {
    item.dir_path@ == dir && item.status == QueueStatus::Processing && item.updated_at < now
        - AI_QUEUE_STALE_MS
}

pub open spec fn woken_item(item: AiQueueItem, dir: Seq<char>, now: i64) -> AiQueueItem {
    if is_stale(item, dir, now) {
        AiQueueItem { status: QueueStatus::Pending, updated_at: now, ..item }
    } else {
        item
    }
}

/// The queue with what was handed out too long ago pending again.
pub open spec fn woken(items: Seq<AiQueueItem>, dir: Seq<char>, now: i64) -> Seq<AiQueueItem> {
    Seq::new(items.len(), |i: int| woken_item(items[i], dir, now))
}

pub open spec fn waits(dir: Seq<char>) -> spec_fn(AiQueueItem) -> bool {
    |q: AiQueueItem| q.dir_path@ == dir && q.status == QueueStatus::Pending
}

/// Keys by which the more important comes first, and of equal ones the older.
pub open spec fn urgency_keys(items: Seq<AiQueueItem>) -> Seq<Seq<int>> {
    Seq::new(items.len(), |i: int| seq![-(items[i].importance as int), items[i].created_at as int])
}

/// The pending items that come next.
pub open spec fn next_items(items: Seq<AiQueueItem>, dir: Seq<char>, limit: u32) -> Seq<AiQueueItem> {
    let waiting = rows::kept(items, waits(dir));
    rows::limited(rows::rows_at(waiting, rows::order_of(urgency_keys(waiting))), limit as nat)
}

pub open spec fn handed_out(item: AiQueueItem, now: i64) -> AiQueueItem {
    AiQueueItem { status: QueueStatus::Processing, updated_at: now, ..item }
}

pub open spec fn has_item(items: Seq<AiQueueItem>, id: i64) -> bool {
    exists|i: int| 0 <= i < items.len() && (#[trigger] items[i]).id == id
}

/// The queue with the items of the batch handed out.
pub open spec fn claimed(items: Seq<AiQueueItem>, batch: Seq<AiQueueItem>, now: i64) -> Seq<AiQueueItem> {
    Seq::new(
        items.len(),
        |i: int|
            if has_item(batch, items[i].id) {
                handed_out(items[i], now)
            } else {
                items[i]
            },
    )
}

pub open spec fn taken(batch: Seq<AiQueueItem>, now: i64) -> Seq<AiQueueItem> {
    Seq::new(batch.len(), |i: int| handed_out(batch[i], now))
}

pub open spec fn item_index(items: Seq<AiQueueItem>, id: i64) -> Option<int> {
    rows::row_index(items, store::item_key(), id, 0)
}

/// The items with the numbers, in the order of the numbers; a number that no item has, and
/// one that came before, is passed over.
pub open spec fn items_by_id(items: Seq<AiQueueItem>, ids: Seq<i64>) -> Seq<AiQueueItem>
    decreases ids.len(),
{
    if ids.len() == 0 {
        Seq::empty()
    } else {
        let before = items_by_id(items, ids.drop_last());
        match item_index(items, ids.last()) {
            Some(i) => if ids.drop_last().contains(ids.last()) {
                before
            } else {
                before.push(items[i])
            },
            None => before,
        }
    }
}

pub open spec fn one_more(n: u32) -> u32 {
    if n == u32::MAX {
        n
    } else {
        (n + 1) as u32
    }
}

/// Whether a failed attempt was the last one.
pub open spec fn gives_up(item: AiQueueItem, max_attempts: u32) -> bool {
    item.attempts + 1 >= max_attempts
}

/// An item after its attempt.
pub open spec fn finished(item: AiQueueItem, ok: bool, max_attempts: u32, now: i64) -> AiQueueItem {
    AiQueueItem {
        status: if ok {
            QueueStatus::Done
        } else if gives_up(item, max_attempts) {
            QueueStatus::Failed
        } else {
            QueueStatus::Pending
        },
        attempts: if ok {
            item.attempts
        } else {
            one_more(item.attempts)
        },
        updated_at: now,
        ..item
    }
}

pub open spec fn has_status(dir: Seq<char>, status: QueueStatus) -> spec_fn(AiQueueItem) -> bool {
    |q: AiQueueItem| q.dir_path@ == dir && q.status == status
}

/// How many items of the directory have the status.
pub open spec fn count_status(items: Seq<AiQueueItem>, dir: Seq<char>, status: QueueStatus) -> nat {
    rows::kept(items, has_status(dir, status)).len()
}

impl GraphStore {
    pub open spec fn queue_view(&self) -> QueueV {
        QueueV { items: self.queue@, next: self.next_item as int }
    }

    fn find_doc_item(&self, dir_path: &String, rel_path: &String) -> (r: Option<usize>)
        ensures
            match r {
                Some(i) => rows::row_index(
                    self.queue@,
                    store::item_doc(),
                    (dir_path@, rel_path@),
                    0,
                ) == Some(i as int) && i < self.queue@.len() && self.queue@[i as int].dir_path@
                    == dir_path@ && self.queue@[i as int].rel_path@ == rel_path@,
                None => rows::row_index(self.queue@, store::item_doc(), (dir_path@, rel_path@), 0)
                    is None,
            },
    {
        let mut i: usize = 0;
        while i < self.queue.len()
            invariant
                i <= self.queue.len(),
                rows::row_index(self.queue@, store::item_doc(), (dir_path@, rel_path@), 0)
                    == rows::row_index(
                    self.queue@,
                    store::item_doc(),
                    (dir_path@, rel_path@),
                    i as int,
                ),
            decreases self.queue.len() - i,
        {
            if self.queue[i].dir_path == *dir_path && self.queue[i].rel_path == *rel_path {
                return Some(i);
            }
            i += 1;
        }
        None
    }

    fn find_item(&self, id: i64) -> (r: Option<usize>)
        ensures
            match r {
                Some(i) => item_index(self.queue@, id) == Some(i as int) && i < self.queue@.len()
                    && self.queue@[i as int].id == id,
                None => item_index(self.queue@, id) is None,
            },
    {
        let mut i: usize = 0;
        while i < self.queue.len()
            invariant
                i <= self.queue.len(),
                item_index(self.queue@, id) == rows::row_index(
                    self.queue@,
                    store::item_key(),
                    id,
                    i as int,
                ),
            decreases self.queue.len() - i,
        {
            if self.queue[i].id == id {
                return Some(i);
            }
            i += 1;
        }
        None
    }

    /// Replaces an item by one of the same number and document.
    fn set_item(&mut self, i: usize, item: AiQueueItem)
        requires
            old(self).wf(),
            i < old(self).queue@.len(),
            item.id == old(self).queue@[i as int].id,
            item.dir_path == old(self).queue@[i as int].dir_path,
            item.rel_path == old(self).queue@[i as int].rel_path,
        ensures
            final(self).wf(),
            final(self).queue@ == old(self).queue@.update(i as int, item),
            *final(self) == (GraphStore { queue: final(self).queue, ..*old(self) }),
    {
        let ghost before = self.queue@;
        proof {
            rows::lemma_unique_update(before, store::item_key(), i as int, item);
            rows::lemma_unique_update(before, store::item_doc(), i as int, item);
        }
        self.queue.set(i, item);
    }

    fn enqueue_doc(
        &mut self,
        dir_path: &String,
        rel_path: &String,
        importance: u32,
        reset_done: bool,
        now: i64,
    )
        requires
            old(self).wf(),
            old(self).next_item < i64::MAX,
        ensures
            final(self).wf(),
            final(self).queue_view() == with_doc(
                old(self).queue_view(),
                *dir_path,
                (*rel_path, importance),
                reset_done,
                now,
            ),
            old(self).next_item <= final(self).next_item <= old(self).next_item + 1,
            *final(self) == (GraphStore {
                queue: final(self).queue,
                next_item: final(self).next_item,
                ..*old(self)
            }),
    {
        match self.find_doc_item(dir_path, rel_path) {
            Some(i) => {
                let mut item = self.queue[i].clone();
                item.importance = importance;
                if reset_done || item.status == QueueStatus::Failed {
                    item.status = QueueStatus::Pending;
                }
                if reset_done {
                    item.attempts = 0;
                }
                item.updated_at = now;
                self.set_item(i, item);
            },
            None => {
                let item = AiQueueItem {
                    id: self.next_item,
                    dir_path: dir_path.clone(),
                    rel_path: rel_path.clone(),
                    importance,
                    status: QueueStatus::Pending,
                    attempts: 0,
                    created_at: now,
                    updated_at: now,
                };
                proof {
                    rows::lemma_row_index(self.queue@, store::item_key(), item.id, 0);
                    rows::lemma_unique_push(self.queue@, store::item_key(), item);
                    rows::lemma_unique_push(self.queue@, store::item_doc(), item);
                }
                self.queue.push(item);
                self.next_item = self.next_item + 1;
            },
        }
    }

    /// Puts documents into the queue, with their importance. What is there keeps its place
    /// and gets the new importance; what failed is tried again; what is done stays done,
    /// unless `reset_done` lets everything start anew. Returns how many documents there were.
    pub fn enqueue_ai_docs(
        &mut self,
        dir_path: &String,
        docs: &Vec<(String, u32)>,
        reset_done: bool,
        now: i64,
    ) -> (n: usize)
        requires
            old(self).wf(),
            old(self).next_item + docs@.len() <= i64::MAX,
        ensures
            n == docs@.len(),
            final(self).wf(),
            final(self).queue_view() == with_docs(
                old(self).queue_view(),
                *dir_path,
                docs@,
                docs@.len() as int,
                reset_done,
                now,
            ),
            served::are_put_in(
                old(self).queue@,
                dir_path@,
                docs@,
                reset_done,
                now,
                final(self).queue@,
            ),
            *final(self) == (GraphStore {
                queue: final(self).queue,
                next_item: final(self).next_item,
                ..*old(self)
            }),
    {
        proof {
            served::law_documents_are_put_in(
                self.queue_view(),
                *dir_path,
                docs@,
                reset_done,
                now,
            );
        }
        let mut i: usize = 0;
        while i < docs.len()
            invariant
                i <= docs.len(),
                self.wf(),
                old(self).next_item + docs@.len() <= i64::MAX,
                self.next_item <= old(self).next_item + i,
                self.queue_view() == with_docs(
                    old(self).queue_view(),
                    *dir_path,
                    docs@,
                    i as int,
                    reset_done,
                    now,
                ),
                *self == (GraphStore { queue: self.queue, next_item: self.next_item, ..*old(self) }),
            decreases docs.len() - i,
        {
            assert((docs@[i as int].0, docs@[i as int].1) == docs@[i as int]);
            self.enqueue_doc(dir_path, &docs[i].0, docs[i].1, reset_done, now);
            i += 1;
        }
        docs.len()
    }

    fn wake_stale(&mut self, dir_path: &String, now: i64)
        requires
            old(self).wf(),
        ensures
            final(self).wf(),
            final(self).queue@ == woken(old(self).queue@, dir_path@, now),
            *final(self) == (GraphStore { queue: final(self).queue, ..*old(self) }),
    {
        let ghost before = self.queue@;
        let mut i: usize = 0;
        while i < self.queue.len()
            invariant
                i <= self.queue.len(),
                self.wf(),
                before == old(self).queue@,
                self.queue@.len() == before.len(),
                forall|k: int|
                    0 <= k < i ==> #[trigger] self.queue@[k] == woken_item(
                        before[k],
                        dir_path@,
                        now,
                    ),
                forall|k: int| i <= k < before.len() ==> #[trigger] self.queue@[k] == before[k],
                *self == (GraphStore { queue: self.queue, ..*old(self) }),
            decreases self.queue.len() - i,
        {
            let oldest: i128 = now as i128 - AI_QUEUE_STALE_MS as i128;
            if self.queue[i].dir_path == *dir_path && self.queue[i].status
                == QueueStatus::Processing && (self.queue[i].updated_at as i128) < oldest {
                let mut item = self.queue[i].clone();
                item.status = QueueStatus::Pending;
                item.updated_at = now;
                self.set_item(i, item);
            }
            i += 1;
        }
        assert(self.queue@ =~= woken(before, dir_path@, now));
    }

    fn waiting_items(&self, dir_path: &String) -> (r: Vec<AiQueueItem>)
        ensures
            r@ == rows::kept(self.queue@, waits(dir_path@)),
    {
        let ghost all = self.queue@;
        let mut out: Vec<AiQueueItem> = Vec::new();
        let mut i: usize = 0;
        while i < self.queue.len()
            invariant
                i <= self.queue.len(),
                all == self.queue@,
                out@ == rows::kept(all.take(i as int), waits(dir_path@)),
            decreases self.queue.len() - i,
        {
            proof {
                assert(all.take(i + 1) == all.take(i as int).push(all[i as int]));
                rows::lemma_kept_push(all.take(i as int), all[i as int], waits(dir_path@));
            }
            if self.queue[i].dir_path == *dir_path && self.queue[i].status == QueueStatus::Pending {
                out.push(self.queue[i].clone());
            }
            i += 1;
        }
        assert(all.take(i as int) == all);
        out
    }

    fn batch(&self, dir_path: &String, limit: u32) -> (r: Vec<AiQueueItem>)
        ensures
            r@ == next_items(self.queue@, dir_path@, limit),
    {
        let waiting = self.waiting_items(dir_path);
        let mut keys: Vec<Vec<i128>> = Vec::new();
        let mut i: usize = 0;
        while i < waiting.len()
            invariant
                i <= waiting.len(),
                keys@.len() == i,
                forall|k: int|
                    0 <= k < i ==> rows::key_view(#[trigger] keys@[k]@) == seq![
                        -(waiting@[k].importance as int),
                        waiting@[k].created_at as int,
                    ],
            decreases waiting.len() - i,
        {
            keys.push(rows::pair_key(-(waiting[i].importance as i128), waiting[i].created_at as i128));
            i += 1;
        }
        assert(rows::keys_view(keys@) =~= urgency_keys(waiting@));
        let order = rows::order_rows(&keys);
        let ghost sorted = rows::rows_at(waiting@, rows::order_of(urgency_keys(waiting@)));
        assert forall|k: int| 0 <= k < sorted.len() implies sorted[k] == waiting@[order@[k] as int] by {
            assert(rows::indices(order@)[k] == order@[k]);
        }
        let mut out: Vec<AiQueueItem> = Vec::new();
        let mut j: usize = 0;
        while j < order.len() && j < limit as usize
            invariant
                j <= order.len(),
                j <= limit,
                order.len() == waiting.len(),
                sorted.len() == order.len(),
                forall|k: int| 0 <= k < order@.len() ==> (#[trigger] order@[k]) < waiting@.len(),
                forall|k: int|
                    0 <= k < sorted.len() ==> #[trigger] sorted[k] == waiting@[order@[k] as int],
                out@ == sorted.take(j as int),
            decreases order.len() - j,
        {
            assert(sorted.take(j + 1) =~= sorted.take(j as int).push(sorted[j as int]));
            out.push(waiting[order[j]].clone());
            j += 1;
        }
        out
    }

    /// Hands out the most important pending items, at most `limit`, of equal ones the older
    /// first. What was handed out too long ago is pending before.
    pub fn next_ai_batch(&mut self, dir_path: &String, limit: u32, now: i64) -> (r: Vec<AiQueueItem>)
        requires
            old(self).wf(),
        ensures
            final(self).wf(),
            r@ == taken(
                next_items(woken(old(self).queue@, dir_path@, now), dir_path@, limit),
                now,
            ),
            final(self).queue@ == claimed(
                woken(old(self).queue@, dir_path@, now),
                next_items(woken(old(self).queue@, dir_path@, now), dir_path@, limit),
                now,
            ),
            served::is_served(old(self).queue@, dir_path@, limit, now, final(self).queue@, r@),
            *final(self) == (GraphStore { queue: final(self).queue, ..*old(self) }),
    {
        proof {
            served::law_the_queue_serves(self.queue@, dir_path@, limit, now);
        }
        self.wake_stale(dir_path, now);
        let ghost awake = self.queue@;
        let batch = self.batch(dir_path, limit);
        let mut i: usize = 0;
        while i < self.queue.len()
            invariant
                i <= self.queue.len(),
                self.wf(),
                self.queue@.len() == awake.len(),
                forall|k: int|
                    0 <= k < i ==> #[trigger] self.queue@[k] == claimed(awake, batch@, now)[k],
                forall|k: int| i <= k < awake.len() ==> #[trigger] self.queue@[k] == awake[k],
                *self == (GraphStore { queue: self.queue, ..*old(self) }),
            decreases self.queue.len() - i,
        {
            if holds_item(&batch, self.queue[i].id) {
                let mut item = self.queue[i].clone();
                item.status = QueueStatus::Processing;
                item.updated_at = now;
                self.set_item(i, item);
            }
            i += 1;
        }
        assert(self.queue@ =~= claimed(awake, batch@, now));
        let mut out: Vec<AiQueueItem> = Vec::new();
        let mut j: usize = 0;
        while j < batch.len()
            invariant
                j <= batch.len(),
                out@ == taken(batch@, now).take(j as int),
            decreases batch.len() - j,
        {
            let mut item = batch[j].clone();
            item.status = QueueStatus::Processing;
            item.updated_at = now;
            assert(taken(batch@, now).take(j + 1) =~= taken(batch@, now).take(j as int).push(item));
            out.push(item);
            j += 1;
        }
        assert(taken(batch@, now).take(j as int) == taken(batch@, now));
        out
    }

    /// The items with the numbers, in their order.
    pub fn get_ai_items(&self, ids: &Vec<i64>) -> (r: Vec<AiQueueItem>)
        ensures
            r@ == items_by_id(self.queue@, ids@),
    {
        let mut out: Vec<AiQueueItem> = Vec::new();
        let mut i: usize = 0;
        while i < ids.len()
            invariant
                i <= ids.len(),
                out@ == items_by_id(self.queue@, ids@.take(i as int)),
            decreases ids.len() - i,
        {
            assert(ids@.take(i + 1).drop_last() == ids@.take(i as int));
            if let Some(x) = self.find_item(ids[i]) {
                if !came_before(ids, i) {
                    out.push(self.queue[x].clone());
                }
            }
            i += 1;
        }
        assert(ids@.take(i as int) == ids@);
        out
    }

    /// Reports how the attempt at an item ended. An item that is gone or that is not handed
    /// out stays as it is.
    pub fn finish_ai_item(&mut self, id: i64, ok: bool, max_attempts: u32, now: i64)
        requires
            old(self).wf(),
        ensures
            final(self).wf(),
            match item_index(old(self).queue@, id) {
                Some(i) => if old(self).queue@[i].status == QueueStatus::Processing {
                    &&& final(self).queue@ == old(self).queue@.update(
                        i,
                        finished(old(self).queue@[i], ok, max_attempts, now),
                    )
                    &&& forall|k: Seq<char>| #[trigger]
                        metric_of(final(self).metrics@, k) == if (ok && k == "worker_processed"@) || (
                        !ok && gives_up(old(self).queue@[i], max_attempts) && k
                            == "worker_failed"@) {
                            raised(metric_of(old(self).metrics@, k), 1)
                        } else {
                            metric_of(old(self).metrics@, k)
                        }
                } else {
                    *final(self) == *old(self)
                },
                None => *final(self) == *old(self),
            },
            *final(self) == (GraphStore {
                queue: final(self).queue,
                metrics: final(self).metrics,
                ..*old(self)
            }),
    {
        let i = match self.find_item(id) {
            Some(i) => i,
            None => {
                return;
            },
        };
        if self.queue[i].status != QueueStatus::Processing {
            return;
        }
        let mut item = self.queue[i].clone();
        let last = item.attempts as u64 + 1 >= max_attempts as u64;
        if ok {
            item.status = QueueStatus::Done;
        } else {
            item.status = if last {
                QueueStatus::Failed
            } else {
                QueueStatus::Pending
            };
            item.attempts = item.attempts.saturating_add(1);
        }
        item.updated_at = now;
        self.set_item(i, item);
        if ok {
            self.bump_metric("worker_processed", 1);
        } else if last {
            self.bump_metric("worker_failed", 1);
        }
    }

    /// Makes an item pending again, with a new importance.
    pub fn requeue_ai_item(&mut self, id: i64, importance: u32, now: i64)
        requires
            old(self).wf(),
        ensures
            final(self).wf(),
            final(self).queue@ == match item_index(old(self).queue@, id) {
                Some(i) => old(self).queue@.update(
                    i,
                    AiQueueItem {
                        importance,
                        status: QueueStatus::Pending,
                        updated_at: now,
                        ..old(self).queue@[i]
                    },
                ),
                None => old(self).queue@,
            },
            *final(self) == (GraphStore { queue: final(self).queue, ..*old(self) }),
    {
        if let Some(i) = self.find_item(id) {
            let mut item = self.queue[i].clone();
            item.importance = importance;
            item.status = QueueStatus::Pending;
            item.updated_at = now;
            self.set_item(i, item);
        }
    }

    fn count_items(&self, dir_path: &str, status: QueueStatus) -> (n: u64)
        ensures
            n == count_status(self.queue@, dir_path@, status),
    {
        let ghost all = self.queue@;
        let mut n: u64 = 0;
        let mut i: usize = 0;
        while i < self.queue.len()
            invariant
                i <= self.queue.len(),
                all == self.queue@,
                n <= i,
                n == rows::kept(all.take(i as int), has_status(dir_path@, status)).len(),
            decreases self.queue.len() - i,
        {
            proof {
                assert(all.take(i + 1) == all.take(i as int).push(all[i as int]));
                rows::lemma_kept_push(all.take(i as int), all[i as int], has_status(dir_path@, status));
            }
            if crate::text::str_eq(&self.queue[i].dir_path, dir_path) && self.queue[i].status
                == status {
                n += 1;
            }
            i += 1;
        }
        assert(all.take(i as int) == all);
        n
    }

    /// How many items of the directory are pending, handed out, done and failed.
    pub fn queue_stats(&self, dir_path: &str) -> (r: (u64, u64, u64, u64))
        ensures
            r.0 == count_status(self.queue@, dir_path@, QueueStatus::Pending),
            r.1 == count_status(self.queue@, dir_path@, QueueStatus::Processing),
            r.2 == count_status(self.queue@, dir_path@, QueueStatus::Done),
            r.3 == count_status(self.queue@, dir_path@, QueueStatus::Failed),
            r.0 == served::items_in(self.queue@, dir_path@, QueueStatus::Pending).len(),
            r.1 == served::items_in(self.queue@, dir_path@, QueueStatus::Processing).len(),
            r.2 == served::items_in(self.queue@, dir_path@, QueueStatus::Done).len(),
            r.3 == served::items_in(self.queue@, dir_path@, QueueStatus::Failed).len(),
    {
        proof {
            served::law_items_are_counted(self.queue@, dir_path@, QueueStatus::Pending);
            served::law_items_are_counted(self.queue@, dir_path@, QueueStatus::Processing);
            served::law_items_are_counted(self.queue@, dir_path@, QueueStatus::Done);
            served::law_items_are_counted(self.queue@, dir_path@, QueueStatus::Failed);
        }
        (
            self.count_items(dir_path, QueueStatus::Pending),
            self.count_items(dir_path, QueueStatus::Processing),
            self.count_items(dir_path, QueueStatus::Done),
            self.count_items(dir_path, QueueStatus::Failed),
        )
    }

    /// Raises a counter.
    pub fn bump_metric(&mut self, key: &str, delta: i64)
        requires
            old(self).wf(),
        ensures
            final(self).wf(),
            forall|k: Seq<char>| #[trigger]
                metric_of(final(self).metrics@, k) == if k == key@ {
                    raised(metric_of(old(self).metrics@, k), delta as int)
                } else {
                    metric_of(old(self).metrics@, k)
                },
            *final(self) == (GraphStore { metrics: final(self).metrics, ..*old(self) }),
    {
        let ghost before = self.metrics@;
        let mut i: usize = 0;
        while i < self.metrics.len()
            invariant
                i <= self.metrics.len(),
                before == self.metrics@,
                *self == *old(self),
                old(self).wf(),
                rows::row_index(before, store::metric_key(), key@, 0) == rows::row_index(
                    before,
                    store::metric_key(),
                    key@,
                    i as int,
                ),
            decreases self.metrics.len() - i,
        {
            if crate::text::str_eq(&self.metrics[i].key, key) {
                let row = MetricRow {
                    key: self.metrics[i].key.clone(),
                    value: raise(self.metrics[i].value, delta),
                };
                self.metrics.set(i, row);
                proof {
                    rows::lemma_unique_update(before, store::metric_key(), i as int, row);
                    assert forall|k: Seq<char>| #[trigger]
                        metric_of(self.metrics@, k) == if k == key@ {
                            raised(metric_of(before, k), delta as int)
                        } else {
                            metric_of(before, k)
                        } by {
                        lemma_metric_update(before, i as int, row, k);
                    }
                }
                return;
            }
            i += 1;
        }
        let row = MetricRow { key: key.to_owned(), value: raise(0, delta) };
        proof {
            rows::lemma_unique_push(before, store::metric_key(), row);
        }
        self.metrics.push(row);
        proof {
            assert forall|k: Seq<char>| #[trigger]
                metric_of(self.metrics@, k) == if k == key@ {
                    raised(metric_of(before, k), delta as int)
                } else {
                    metric_of(before, k)
                } by {
                lemma_metric_push(before, row, k);
            }
        }
    }

    /// The value of a counter; one that was never raised, or that is negative, is zero.
    pub fn get_metric(&self, key: &str) -> (r: u64)
        ensures
            r == (if metric_of(self.metrics@, key@) < 0 {
                0
            } else {
                metric_of(self.metrics@, key@)
            }),
    {
        let mut i: usize = 0;
        while i < self.metrics.len()
            invariant
                i <= self.metrics.len(),
                rows::row_index(self.metrics@, store::metric_key(), key@, 0) == rows::row_index(
                    self.metrics@,
                    store::metric_key(),
                    key@,
                    i as int,
                ),
            decreases self.metrics.len() - i,
        {
            if crate::text::str_eq(&self.metrics[i].key, key) {
                let v = self.metrics[i].value;
                return if v < 0 {
                    0
                } else {
                    v as u64
                };
            }
            i += 1;
        }
        0
    }
}

/// The value of a counter.
pub open spec fn metric_of(metrics: Seq<MetricRow>, key: Seq<char>) -> int {
    match rows::row_index(metrics, store::metric_key(), key, 0) {
        Some(i) => metrics[i].value as int,
        None => 0,
    }
}

/// A counter raised, within what a counter can hold.
pub open spec fn raised(v: int, delta: int) -> int {
    if v + delta > i64::MAX {
        i64::MAX as int
    } else if v + delta < i64::MIN {
        i64::MIN as int
    } else {
        v + delta
    }
}

fn raise(v: i64, delta: i64) -> (r: i64)
    ensures
        r == raised(v as int, delta as int),
{
    let sum: i128 = v as i128 + delta as i128;
    if sum > i64::MAX as i128 {
        i64::MAX
    } else if sum < i64::MIN as i128 {
        i64::MIN
    } else {
        sum as i64
    }
}

proof fn lemma_metric_update(metrics: Seq<MetricRow>, x: int, row: MetricRow, k: Seq<char>)
    requires
        rows::unique(metrics, store::metric_key()),
        0 <= x < metrics.len(),
        row.key == metrics[x].key,
    ensures
        metric_of(metrics.update(x, row), k) == if k == row.key@ {
            row.value as int
        } else {
            metric_of(metrics, k)
        },
        metric_of(metrics, row.key@) == metrics[x].value,
{
    let after = metrics.update(x, row);
    rows::lemma_unique_update(metrics, store::metric_key(), x, row);
    rows::lemma_row_index_at(metrics, store::metric_key(), x);
    rows::lemma_row_index_at(after, store::metric_key(), x);
    rows::lemma_row_index(metrics, store::metric_key(), k, 0);
    rows::lemma_row_index(after, store::metric_key(), k, 0);
    if k != row.key@ {
        match rows::row_index(metrics, store::metric_key(), k, 0) {
            Some(i) => {
                assert(after[i] == metrics[i]);
                rows::lemma_row_index_at(after, store::metric_key(), i);
            },
            None => {
                match rows::row_index(after, store::metric_key(), k, 0) {
                    Some(i) => {
                        assert(after[i] == metrics[i]);
                    },
                    None => {},
                }
            },
        }
    }
}

proof fn lemma_metric_push(metrics: Seq<MetricRow>, row: MetricRow, k: Seq<char>)
    requires
        rows::unique(metrics, store::metric_key()),
        rows::row_index(metrics, store::metric_key(), row.key@, 0) is None,
    ensures
        metric_of(metrics.push(row), k) == if k == row.key@ {
            row.value as int
        } else {
            metric_of(metrics, k)
        },
{
    let after = metrics.push(row);
    rows::lemma_unique_push(metrics, store::metric_key(), row);
    rows::lemma_row_index(metrics, store::metric_key(), k, 0);
    rows::lemma_row_index(after, store::metric_key(), k, 0);
    if k == row.key@ {
        rows::lemma_row_index_at(after, store::metric_key(), metrics.len() as int);
    } else {
        match rows::row_index(metrics, store::metric_key(), k, 0) {
            Some(i) => {
                assert(after[i] == metrics[i]);
                rows::lemma_row_index_at(after, store::metric_key(), i);
            },
            None => {
                match rows::row_index(after, store::metric_key(), k, 0) {
                    Some(i) => {
                        assert(i < metrics.len() ==> after[i] == metrics[i]);
                    },
                    None => {},
                }
            },
        }
    }
}

fn holds_item(items: &Vec<AiQueueItem>, id: i64) -> (r: bool)
    ensures
        r == has_item(items@, id),
{
    let mut i: usize = 0;
    while i < items.len()
        invariant
            i <= items.len(),
            forall|k: int| 0 <= k < i ==> (#[trigger] items@[k]).id != id,
        decreases items.len() - i,
    {
        if items[i].id == id {
            return true;
        }
        i += 1;
    }
    false
}

fn came_before(ids: &Vec<i64>, n: usize) -> (r: bool)
    requires
        n < ids@.len(),
    ensures
        r == ids@.take(n as int).contains(ids@[n as int]),
{
    let mut i: usize = 0;
    while i < n
        invariant
            i <= n < ids.len(),
            forall|k: int| 0 <= k < i ==> #[trigger] ids@[k] != ids@[n as int],
        decreases n - i,
    {
        if ids[i] == ids[n] {
            assert(ids@.take(n as int)[i as int] == ids@[n as int]);
            return true;
        }
        i += 1;
    }
    false
}

/// What comes next was pending, and stands in the queue.
proof fn lemma_next_items(items: Seq<AiQueueItem>, dir: Seq<char>, limit: u32)
    ensures
        forall|k: int|
            0 <= k < next_items(items, dir, limit).len() ==> waits(dir)(
                #[trigger] next_items(items, dir, limit)[k],
            ) && items.contains(next_items(items, dir, limit)[k]),
        next_items(items, dir, limit).len() <= limit,
        forall|a: int, b: int|
            0 <= a < b < next_items(items, dir, limit).len() ==> (#[trigger] next_items(
                items,
                dir,
                limit,
            )[a]).importance >= (#[trigger] next_items(items, dir, limit)[b]).importance,
        forall|x: int, k: int|
            #![trigger items[x], next_items(items, dir, limit)[k]]
            0 <= x < items.len() && waits(dir)(items[x]) && !next_items(items, dir, limit).contains(
                items[x],
            ) && 0 <= k < next_items(items, dir, limit).len() ==> items[x].importance
                <= next_items(items, dir, limit)[k].importance,
        forall|x: int|
            0 <= x < items.len() && waits(dir)(#[trigger] items[x]) && !next_items(
                items,
                dir,
                limit,
            ).contains(items[x]) ==> next_items(items, dir, limit).len() == limit,
{
    let waiting = rows::kept(items, waits(dir));
    let keys = urgency_keys(waiting);
    let order = rows::order_of(keys);
    let sorted = rows::rows_at(waiting, order);
    let next = next_items(items, dir, limit);
    rows::lemma_kept(items, waits(dir));
    rows::lemma_order_of_first(keys, keys.len() as int);
    assert forall|a: int, b: int| 0 <= a < b < sorted.len() implies (#[trigger] sorted[a]).importance
        >= (#[trigger] sorted[b]).importance by {
        assert(rows::row_lt(keys, order[a], order[b]));
        assert(keys[order[a]] == seq![
            -(waiting[order[a]].importance as int),
            waiting[order[a]].created_at as int,
        ]);
        assert(keys[order[b]] == seq![
            -(waiting[order[b]].importance as int),
            waiting[order[b]].created_at as int,
        ]);
    }
    assert forall|k: int| 0 <= k < next.len() implies waits(dir)(#[trigger] next[k])
        && items.contains(next[k]) by {
        assert(next[k] == sorted[k]);
        assert(sorted[k] == waiting[order[k]]);
    }
    assert forall|x: int| 0 <= x < items.len() && waits(dir)(#[trigger] items[x]) && !next.contains(
        items[x],
    ) implies next.len() == limit && exists|y: int| next.len() <= y < sorted.len() && #[trigger]
    sorted[y] == items[x] by {
        let w = choose|w: int| 0 <= w < waiting.len() && waiting[w] == items[x];
        assert(order.contains(w));
        let y = choose|y: int| 0 <= y < order.len() && order[y] == w;
        assert(sorted[y] == items[x]);
        if y < next.len() {
            assert(next[y] == items[x]);
        }
    }
    assert forall|x: int, k: int|
        #![trigger items[x], next[k]]
        0 <= x < items.len() && waits(dir)(items[x]) && !next.contains(items[x]) && 0 <= k
            < next.len() implies items[x].importance <= next[k].importance by {
        let y = choose|y: int| next.len() <= y < sorted.len() && #[trigger] sorted[y] == items[x];
        assert(next[k] == sorted[k]);
    }
}

/// The most important comes first: a batch is ordered by importance, holds no more than it
/// may, and whatever is left pending is no more important than anything in it and is left
/// only where the batch is full.
pub proof fn law_most_important_first(items: Seq<AiQueueItem>, dir: Seq<char>, limit: u32)
    ensures
        next_items(items, dir, limit).len() <= limit,
        forall|a: int, b: int|
            0 <= a < b < next_items(items, dir, limit).len() ==> (#[trigger] next_items(
                items,
                dir,
                limit,
            )[a]).importance >= (#[trigger] next_items(items, dir, limit)[b]).importance,
        forall|x: int, k: int|
            #![trigger items[x], next_items(items, dir, limit)[k]]
            0 <= x < items.len() && waits(dir)(items[x]) && !next_items(items, dir, limit).contains(
                items[x],
            ) && 0 <= k < next_items(items, dir, limit).len() ==> items[x].importance
                <= next_items(items, dir, limit)[k].importance,
        forall|x: int|
            0 <= x < items.len() && waits(dir)(#[trigger] items[x]) && !next_items(
                items,
                dir,
                limit,
            ).contains(items[x]) ==> next_items(items, dir, limit).len() == limit,
{
    lemma_next_items(items, dir, limit);
}

/// Only what is pending, or was handed out too long ago, is handed out: never what is done
/// or failed.
pub proof fn law_only_the_pending_is_handed_out(
    items: Seq<AiQueueItem>,
    dir: Seq<char>,
    limit: u32,
    now: i64,
    k: int,
)
    requires
        0 <= k < next_items(woken(items, dir, now), dir, limit).len(),
    ensures
        exists|x: int|
            0 <= x < items.len() && (#[trigger] items[x]).id == next_items(
                woken(items, dir, now),
                dir,
                limit,
            )[k].id && items[x].dir_path@ == dir && (items[x].status == QueueStatus::Pending
                || is_stale(items[x], dir, now)),
{
    let awake = woken(items, dir, now);
    lemma_next_items(awake, dir, limit);
    let item = next_items(awake, dir, limit)[k];
    let x = choose|x: int| 0 <= x < awake.len() && awake[x] == item;
    assert(items[x].id == item.id);
}

/// What was handed out is not handed out again before it is stale.
pub proof fn law_nothing_is_handed_out_twice(
    items: Seq<AiQueueItem>,
    dir: Seq<char>,
    limit: u32,
    now: i64,
    later: i64,
    again: u32,
    k: int,
)
    requires
        rows::unique(items, store::item_key()),
        later - AI_QUEUE_STALE_MS <= now,
        0 <= k < next_items(woken(items, dir, now), dir, limit).len(),
    ensures
        !has_item(
            next_items(
                woken(
                    claimed(
                        woken(items, dir, now),
                        next_items(woken(items, dir, now), dir, limit),
                        now,
                    ),
                    dir,
                    later,
                ),
                dir,
                again,
            ),
            next_items(woken(items, dir, now), dir, limit)[k].id,
        ),
{
    let awake = woken(items, dir, now);
    let batch = next_items(awake, dir, limit);
    let after = claimed(awake, batch, now);
    let second = next_items(woken(after, dir, later), dir, again);
    lemma_next_items(awake, dir, limit);
    lemma_next_items(woken(after, dir, later), dir, again);
    let id = batch[k].id;
    let x = choose|x: int| 0 <= x < awake.len() && awake[x] == batch[k];
    if has_item(second, id) {
        let j = choose|j: int| 0 <= j < second.len() && (#[trigger] second[j]).id == id;
        let y = choose|y: int|
            0 <= y < woken(after, dir, later).len() && woken(after, dir, later)[y] == second[j];
        assert(after[y].id == id);
        assert(awake[y].id == id);
        assert(items[y].id == id);
        assert(items[x].id == id);
        assert(x == y);
        assert(has_item(batch, awake[x].id));
        assert(after[x] == handed_out(awake[x], now));
    }
}

/// Putting documents in again leaves what is done done, unless everything starts anew; and
/// no item is lost, renumbered or moved.
pub proof fn law_done_stays_done(
    q: QueueV,
    dir: String,
    docs: Seq<(String, u32)>,
    n: int,
    reset: bool,
    now: i64,
)
    requires
        0 <= n <= docs.len(),
    ensures
        with_docs(q, dir, docs, n, reset, now).items.len() >= q.items.len(),
        forall|i: int|
            0 <= i < q.items.len() ==> (#[trigger] with_docs(q, dir, docs, n, reset, now).items[i]).id
                == q.items[i].id && with_docs(q, dir, docs, n, reset, now).items[i].created_at
                == q.items[i].created_at && with_docs(q, dir, docs, n, reset, now).items[i].rel_path
                == q.items[i].rel_path && (!reset && q.items[i].status == QueueStatus::Done
                ==> with_docs(q, dir, docs, n, reset, now).items[i].status == QueueStatus::Done),
    decreases n,
{
    if n > 0 {
        law_done_stays_done(q, dir, docs, n - 1, reset, now);
        let before = with_docs(q, dir, docs, n - 1, reset, now);
        rows::lemma_row_index(before.items, store::item_doc(), (dir@, docs[n - 1].0@), 0);
    }
}

/// The number of attempts is bounded: an item that may be tried again has attempts left, and
/// one whose attempts are used up has failed.
pub proof fn law_attempts_are_bounded(item: AiQueueItem, ok: bool, max_attempts: u32, now: i64)
    requires
        item.attempts < max_attempts,
    ensures
        finished(item, ok, max_attempts, now).attempts <= max_attempts,
        finished(item, ok, max_attempts, now).status == QueueStatus::Pending ==> finished(
            item,
            ok,
            max_attempts,
            now,
        ).attempts < max_attempts,
        !ok ==> (finished(item, ok, max_attempts, now).status == QueueStatus::Failed <==> finished(
            item,
            ok,
            max_attempts,
            now,
        ).attempts == max_attempts),
{
}

} // verus!
