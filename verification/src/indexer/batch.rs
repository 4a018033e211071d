//! How an index is built: what is taken together, how far it is, and what it holds.

use crate::graph::model::clone_opt;
use crate::indexer::paths;
use crate::indexer::rank::SearchHit;
use crate::json;
use crate::rows;
use crate::text;
use vstd::hash_set::StringHashSet;
use vstd::prelude::*;

verus! {

/// How many files are read at a time.
pub const MAX_FILES_PER_BATCH: usize = 100;

/// How many bytes a document has at least.
pub const MIN_BYTES: usize = 10;

/// How long a failed download is not tried again, in seconds.
pub const RETRY_SECONDS: u64 = 120;

/// How much later than the index a file has to be, in milliseconds.
pub const SYNC_SLACK: u64 = 1000;

pub const MIB: u64 = 1_048_576;

/// How many files of a kind there are; the share is in tenths of a percent.
#[derive(Debug, PartialEq, Eq)]
pub struct FileTypeCount {
    pub file_type: String,
    pub count: u32,
    pub percentage: u32,
}

/// What an index holds.
#[derive(Debug, PartialEq, Eq)]
pub struct IndexMeta {
    pub file_count: u32,
    pub chunk_count: u32,
    pub vector_count: u32,
    pub indexed_at: u64,
    pub type_distribution: Vec<FileTypeCount>,
}

/// What came of indexing.
#[derive(Debug, Clone, Copy, PartialEq, Eq, Structural)]
pub struct KbIndexResult {
    pub file_count: u32,
    pub chunk_count: u32,
    pub vector_count: u32,
    pub indexed_at: u64,
}

#[derive(Debug, PartialEq, Eq)]
pub struct KbStatus {
    pub file_count: u32,
    pub chunk_count: u32,
    pub vector_count: u32,
    pub indexed_at: u64,
    pub status: String,
}

/// A part of a document as it is written to the index.
#[derive(Debug, PartialEq, Eq)]
pub struct DocumentChunk {
    pub id: String,
    pub doc_name: String,
    pub chunk_index: u32,
    pub text: String,
    pub path_depth: Option<u32>,
    pub path_json: Option<String>,
    pub sentence_window: Option<String>,
    pub symbol_name: Option<String>,
    pub symbol_kind: Option<String>,
    pub embedding_text: Option<String>,
    pub chunk_type: Option<String>,
}

impl Clone for DocumentChunk {
    fn clone(&self) -> (r: Self)
        ensures
            r == *self,
    {
        DocumentChunk {
            id: self.id.clone(),
            doc_name: self.doc_name.clone(),
            chunk_index: self.chunk_index,
            text: self.text.clone(),
            path_depth: self.path_depth,
            path_json: clone_opt(&self.path_json),
            sentence_window: clone_opt(&self.sentence_window),
            symbol_name: clone_opt(&self.symbol_name),
            symbol_kind: clone_opt(&self.symbol_kind),
            embedding_text: clone_opt(&self.embedding_text),
            chunk_type: clone_opt(&self.chunk_type),
        }
    }
}

// ---- Batches

/// How many parts are embedded at a time on a machine with so many bytes of memory.
pub fn batch_chunk_limit_for(total_memory: u64) -> (r: usize)
    ensures
        total_memory / MIB >= 16 * 1024 ==> r == 256,
        8 * 1024 <= total_memory / MIB < 16 * 1024 ==> r == 128,
        total_memory / MIB < 8 * 1024 ==> r == 64,
{
    let total_mb: u64 = total_memory / MIB;
    if total_mb >= 16 * 1024 {
        256
    } else if total_mb >= 8 * 1024 {
        128
    } else {
        64
    }
}

/// How many there are from one index to another.
pub open spec fn sum(counts: Seq<usize>, from: int, to: int) -> nat
    decreases to - from,
{
    if to <= from {
        0
    } else {
        sum(counts, from, to - 1) + counts[to - 1] as nat
    }
}

/// Where the span that begins at `start` and has come to `end` ends: it takes one group, and
/// more as long as they fit.
pub open spec fn span_end(counts: Seq<usize>, limit: nat, start: int, end: int) -> int
    decreases counts.len() - end,
{
    if end >= counts.len() {
        end
    } else if end > start && sum(counts, start, end) + counts[end] > limit {
        end
    } else {
        span_end(counts, limit, start, end + 1)
    }
}

/// The spans from `start` on.
pub open spec fn spans_from(counts: Seq<usize>, limit: nat, start: int) -> Seq<(int, int)>
    decreases counts.len() - start,
{
    let end = span_end(counts, limit, start, start);
    if start >= counts.len() || end <= start || end > counts.len() {
        Seq::empty()
    } else {
        seq![(start, end)] + spans_from(counts, limit, end)
    }
}

pub open spec fn span_views(v: Seq<(usize, usize)>) -> Seq<(int, int)> {
    Seq::new(v.len(), |i: int| (v[i].0 as int, v[i].1 as int))
}

proof fn lemma_span_end(counts: Seq<usize>, limit: nat, start: int, end: int)
    requires
        0 <= start <= end <= counts.len(),
        start < counts.len(),
    ensures
        start < span_end(counts, limit, start, end) <= counts.len(),
        span_end(counts, limit, start, end) >= end,
    decreases counts.len() - end,
{
    if end < counts.len() && !(end > start && sum(counts, start, end) + counts[end] > limit) {
        lemma_span_end(counts, limit, start, end + 1);
    }
}

/// Parts the groups, each with so many parts, into spans that are embedded together: one
/// behind the other, each as long as fits.
pub fn plan_batches(counts: &Vec<usize>, limit: usize) -> (r: Vec<(usize, usize)>)
    ensures
        span_views(r@) == spans_from(counts@, limit as nat, 0),
{
    let ghost all = spans_from(counts@, limit as nat, 0);
    let mut out: Vec<(usize, usize)> = Vec::new();
    let mut start: usize = 0;
    assert(span_views(out@) + spans_from(counts@, limit as nat, 0) =~= all);
    while start < counts.len()
        invariant
            start <= counts.len(),
            span_views(out@) + spans_from(counts@, limit as nat, start as int) == all,
        decreases counts.len() - start,
    {
        let mut end: usize = start;
        let mut count: usize = 0;
        let mut open: bool = true;
        while open && end < counts.len()
            invariant
                start <= end <= counts.len(),
                start < counts.len(),
                count == sum(counts@, start as int, end as int),
                open ==> span_end(counts@, limit as nat, start as int, end as int) == span_end(
                    counts@,
                    limit as nat,
                    start as int,
                    start as int,
                ),
                !open ==> end == span_end(
                    counts@,
                    limit as nat,
                    start as int,
                    start as int,
                ),
                end > start + 1 ==> count <= limit,
            decreases counts.len() - end, if open {
                1int
            } else {
                0
            },
        {
            let n = counts[end];
            if end > start && (count > limit || n > limit - count) {
                open = false;
            } else {
                count += n;
                end += 1;
            }
        }
        proof {
            lemma_span_end(counts@, limit as nat, start as int, start as int);
            let before = span_views(out@);
            let rest = spans_from(counts@, limit as nat, end as int);
            assert(spans_from(counts@, limit as nat, start as int) == seq![
                (start as int, end as int),
            ] + rest);
            assert(span_views(out@.push((start, end))) =~= before.push((start as int, end as int)));
            assert(before.push((start as int, end as int)) + rest =~= before + (seq![
                (start as int, end as int),
            ] + rest));
        }
        out.push((start, end));
        start = end;
    }
    assert(spans_from(counts@, limit as nat, start as int) =~= Seq::empty());
    assert(span_views(out@) =~= all);
    out
}

/// Whether a span is one group that is too large, which is then embedded in slices.
pub fn is_oversize(counts: &Vec<usize>, span: (usize, usize), limit: usize) -> (r: bool)
    requires
        span.0 < span.1 <= counts@.len(),
    ensures
        r == (span.1 == span.0 + 1 && counts@[span.0 as int] > limit),
{
    span.1 == span.0 + 1 && counts[span.0] > limit
}

/// The slices of `n` things from `at` on, each of at most `limit`.
pub open spec fn slices_from(n: int, limit: int, at: int) -> Seq<(int, int)>
    decreases n - at,
{
    if at >= n || limit <= 0 {
        Seq::empty()
    } else if n - at <= limit {
        seq![(at, n)]
    } else {
        seq![(at, at + limit)] + slices_from(n, limit, at + limit)
    }
}

/// The slices of `n` things, each of at most `limit`.
pub fn slices(n: usize, limit: usize) -> (r: Vec<(usize, usize)>)
    requires
        limit > 0,
    ensures
        span_views(r@) == slices_from(n as int, limit as int, 0),
{
    let ghost all = slices_from(n as int, limit as int, 0);
    let mut out: Vec<(usize, usize)> = Vec::new();
    let mut at: usize = 0;
    assert(span_views(out@) + slices_from(n as int, limit as int, 0) =~= all);
    while at < n
        invariant
            limit > 0,
            at <= n,
            span_views(out@) + slices_from(n as int, limit as int, at as int) == all,
        decreases n - at,
    {
        let end: usize = if n - at <= limit {
            n
        } else {
            at + limit
        };
        proof {
            let before = span_views(out@);
            let rest = slices_from(n as int, limit as int, end as int);
            assert(slices_from(n as int, limit as int, at as int) =~= seq![
                (at as int, end as int),
            ] + rest);
            assert(span_views(out@.push((at, end))) =~= before.push((at as int, end as int)));
            assert(before.push((at as int, end as int)) + rest =~= before + (seq![
                (at as int, end as int),
            ] + rest));
        }
        out.push((at, end));
        at = end;
    }
    assert(span_views(out@) =~= all);
    out
}

// ---- What changes in the index

/// How the counts of files and parts change for a file that had `old` parts and has `new`.
pub open spec fn change_of(new: u32, old: u32) -> (int, int) {
    (
        if old == 0 {
            1
        } else {
            0
        },
        new - old,
    )
}

pub open spec fn changes(rows: Seq<(u32, u32)>, n: int) -> (int, int)
    decreases n,
{
    if n <= 0 {
        (0, 0)
    } else {
        let before = changes(rows, n - 1);
        let c = change_of(rows[n - 1].0, rows[n - 1].1);
        (before.0 + c.0, before.1 + c.1)
    }
}

/// How the counts of files and parts change when files are written: of each the number of
/// parts it has, and of those it had.
pub fn batch_change(rows: &Vec<(u32, u32)>) -> (r: (i128, i128))
    ensures
        (r.0 as int, r.1 as int) == changes(rows@, rows@.len() as int),
{
    let mut files: i128 = 0;
    let mut chunks: i128 = 0;
    let mut i: usize = 0;
    while i < rows.len()
        invariant
            i <= rows.len(),
            (files as int, chunks as int) == changes(rows@, i as int),
            0 <= files <= i,
            -(i * 0x1_0000_0000) <= chunks <= i * 0x1_0000_0000,
        decreases rows.len() - i,
    {
        if rows[i].1 == 0 {
            files += 1;
        }
        chunks += rows[i].0 as i128 - rows[i].1 as i128;
        i += 1;
    }
    (files, chunks)
}

/// How the counts change when a file is taken out: not at all where nothing was found of it.
pub fn removal(deleted_chunks: u32, bm25_deleted: u32) -> (r: Option<(i128, i128)>)
    ensures
        r == if deleted_chunks > 0 || bm25_deleted > 0 {
            Some(
                (
                    -1i128,
                    (-(if deleted_chunks >= bm25_deleted {
                        deleted_chunks as int
                    } else {
                        bm25_deleted as int
                    })) as i128,
                ),
            )
        } else {
            None
        },
{
    if deleted_chunks > 0 || bm25_deleted > 0 {
        let most: i128 = if deleted_chunks >= bm25_deleted {
            deleted_chunks as i128
        } else {
            bm25_deleted as i128
        };
        Some((-1, -most))
    } else {
        None
    }
}

/// A count after a change; there are never fewer than none.
pub open spec fn changed(count: u32, delta: int) -> int {
    if count + delta < 0 {
        0
    } else {
        count + delta
    }
}

pub open spec fn count_in(meta: Option<IndexMeta>) -> (u32, u32, u32) {
    match meta {
        Some(m) => (m.file_count, m.chunk_count, m.vector_count),
        None => (0, 0, 0),
    }
}

/// What the index holds after a change; it is always dated anew.
pub fn update_metadata(
    meta: Option<IndexMeta>,
    file_delta: i128,
    chunk_delta: i128,
    vector_delta: i128,
    now: u64,
) -> (r: IndexMeta)
    requires
        changed(count_in(meta).0, file_delta as int) <= u32::MAX,
        changed(count_in(meta).1, chunk_delta as int) <= u32::MAX,
        changed(count_in(meta).2, vector_delta as int) <= u32::MAX,
    ensures
        r.file_count == changed(count_in(meta).0, file_delta as int),
        r.chunk_count == changed(count_in(meta).1, chunk_delta as int),
        r.vector_count == changed(count_in(meta).2, vector_delta as int),
        r.indexed_at == now,
        match meta {
            Some(m) => r.type_distribution == m.type_distribution,
            None => r.type_distribution@.len() == 0,
        },
{
    let m = match meta {
        Some(m) => m,
        None => IndexMeta {
            file_count: 0,
            chunk_count: 0,
            vector_count: 0,
            indexed_at: 0,
            type_distribution: Vec::new(),
        },
    };
    let files = changed_count(m.file_count, file_delta);
    let chunks = changed_count(m.chunk_count, chunk_delta);
    let vectors = changed_count(m.vector_count, vector_delta);
    IndexMeta {
        file_count: files,
        chunk_count: chunks,
        vector_count: vectors,
        indexed_at: now,
        type_distribution: m.type_distribution,
    }
}

fn changed_count(count: u32, delta: i128) -> (r: u32)
    requires
        changed(count, delta as int) <= u32::MAX,
    ensures
        r == changed(count, delta as int),
{
    if delta < -(count as i128) {
        0
    } else {
        (count as i128 + delta) as u32
    }
}

/// What is told of an index that was built.
pub fn result_of(meta: &IndexMeta) -> (r: KbIndexResult)
    ensures
        r.file_count == meta.file_count,
        r.chunk_count == meta.chunk_count,
        r.vector_count == meta.vector_count,
        r.indexed_at == meta.indexed_at,
{
    KbIndexResult {
        file_count: meta.file_count,
        chunk_count: meta.chunk_count,
        vector_count: meta.vector_count,
        indexed_at: meta.indexed_at,
    }
}

/// The state of an index.
pub fn status_of(meta: &Option<IndexMeta>, table_exists: bool) -> (r: KbStatus)
    ensures
        (r.file_count, r.chunk_count) == (count_in(*meta).0, count_in(*meta).1),
        r.vector_count == if table_exists {
            count_in(*meta).2
        } else {
            0
        },
        r.indexed_at == match *meta {
            Some(m) => m.indexed_at,
            None => 0,
        },
        r.status@ == if table_exists && meta is Some {
            "indexed"@
        } else {
            "unknown"@
        },
{
    match meta {
        Some(m) => KbStatus {
            file_count: m.file_count,
            chunk_count: m.chunk_count,
            vector_count: if table_exists {
                m.vector_count
            } else {
                0
            },
            indexed_at: m.indexed_at,
            status: if table_exists {
                "indexed".to_owned()
            } else {
                "unknown".to_owned()
            },
        },
        None => KbStatus {
            file_count: 0,
            chunk_count: 0,
            vector_count: 0,
            indexed_at: 0,
            status: "unknown".to_owned(),
        },
    }
}

// ---- Indexing everything

/// How far a run over all files has come.
#[derive(Debug, Clone, Copy, PartialEq, Eq, Structural)]
pub struct IndexRun {
    /// How many files there are.
    pub total: u32,
    /// How many parts are embedded at a time.
    pub limit: usize,
    /// How many files have been looked at.
    pub seen: u32,
    /// How many had something to index.
    pub file_count: u32,
    /// How many of them wait to be embedded, and with how many parts.
    pub batch_files: u32,
    pub pending: u32,
    /// What has been written.
    pub total_chunks: u32,
    pub total_vectors: u32,
    /// How many files of each kind there are.
    pub markdown: u32,
    pub code: u32,
    pub data: u32,
    pub other: u32,
    /// The highest percentage that was shown.
    pub shown: u8,
}

/// Whether a document has enough in it to be indexed.
pub open spec fn is_worth(size: Option<usize>) -> bool {
    size matches Some(n) && n >= MIN_BYTES
}

/// Whether a document has enough in it to be indexed.
pub fn is_worth_indexing(content: &str) -> (r: bool)
    ensures
        r == is_worth(Some(text::byte_size(content@))),
{
    content.len() >= MIN_BYTES
}

pub open spec fn after_file(
    run: IndexRun,
    kind: Seq<char>,
    size: Option<usize>,
    chunks: u32,
) -> IndexRun {
    let one = |c: u32, k: Seq<char>|
        if is_worth(size) && kind == k {
            (c + 1) as u32
        } else {
            c
        };
    let kept = is_worth(size) && chunks > 0;
    IndexRun {
        seen: (run.seen + 1) as u32,
        file_count: if kept {
            (run.file_count + 1) as u32
        } else {
            run.file_count
        },
        batch_files: if kept {
            (run.batch_files + 1) as u32
        } else {
            run.batch_files
        },
        pending: if kept {
            (run.pending + chunks) as u32
        } else {
            run.pending
        },
        markdown: one(run.markdown, "Markdown"@),
        code: one(run.code, "代码"@),
        data: one(run.data, "数据"@),
        other: one(run.other, "其他"@),
        ..run
    }
}

pub open spec fn after_write(run: IndexRun, vectors: u32) -> IndexRun {
    IndexRun {
        total_chunks: (run.total_chunks + run.pending) as u32,
        total_vectors: (run.total_vectors + vectors) as u32,
        pending: 0,
        batch_files: 0,
        ..run
    }
}

/// What is shown after a percentage was told: it never goes back.
pub open spec fn shown_after(shown: u8, pct: u32) -> u8 {
    let p = if pct < 100 {
        pct
    } else {
        100
    };
    if p > shown {
        p as u8
    } else {
        shown
    }
}

/// The share of `part` in `total`, in percent of ninety.
pub open spec fn share(part: u32, total: u32) -> int {
    (part * 90) / (total as int)
}

pub open spec fn kind_count(run: IndexRun) -> int {
    run.markdown + run.code + run.data + run.other
}

/// A share in tenths of a percent, rounded.
pub open spec fn tenths(count: u32, total: int) -> int {
    (count * 2000 + total) / (2 * total)
}

pub open spec fn type_row(name: Seq<char>, count: u32, total: int) -> Seq<(Seq<char>, u32, int)> {
    if count == 0 {
        Seq::empty()
    } else {
        seq![(name, count, tenths(count, total))]
    }
}

pub open spec fn type_rows(run: IndexRun) -> Seq<(Seq<char>, u32, int)> {
    let t = kind_count(run);
    type_row("Markdown"@, run.markdown, t) + type_row("代码"@, run.code, t) + type_row(
        "数据"@,
        run.data,
        t,
    ) + type_row("其他"@, run.other, t)
}

pub open spec fn row_views(v: Seq<FileTypeCount>) -> Seq<(Seq<char>, u32, int)> {
    Seq::new(v.len(), |i: int| (v[i].file_type@, v[i].count, v[i].percentage as int))
}

fn push_row(v: &mut Vec<FileTypeCount>, name: &str, count: u32, total: u64)
    requires
        0 < total <= u32::MAX,
        count <= total,
    ensures
        row_views(final(v)@) == row_views(old(v)@) + type_row(name@, count, total as int),
{
    if count > 0 {
        let q: u64 = (count as u64 * 2000 + total) / (2 * total);
        assert(q <= 1000) by (nonlinear_arith)
            requires
                q == (count as u64 * 2000 + total) as u64 / (2 * total) as u64,
                0 < total <= 0xffff_ffff,
                count <= total,
        ;
        let ghost before = v@;
        v.push(FileTypeCount { file_type: name.to_owned(), count, percentage: q as u32 });
        assert(row_views(v@) =~= row_views(before) + type_row(name@, count, total as int));
    } else {
        assert(row_views(v@) =~= row_views(v@) + type_row(name@, count, total as int));
    }
}

fn add_number(s: &mut String, n: u64)
    ensures
        final(s)@ == old(s)@ + text::nat_text(n as nat),
{
    s.push_str(&text::u64_text(n));
}

pub open spec fn done_text(run: IndexRun, chunks: int, behind: Seq<char>) -> Seq<char> {
    "已完成 "@ + text::nat_text(run.file_count as nat) + "/"@ + text::nat_text(run.total as nat)
        + " 文件 ("@ + text::nat_text(chunks as nat) + " 文本块)"@ + behind
}

impl IndexRun {
    pub open spec fn wf(self) -> bool {
        &&& self.total > 0
        &&& self.limit > 0
        &&& self.batch_files <= self.file_count <= self.seen <= self.total
        &&& kind_count(self) <= self.seen
        &&& self.file_count <= kind_count(self)
        &&& self.total_chunks + self.pending <= u32::MAX
        &&& self.shown <= 100
    }

    /// Begins a run over so many files, of which there has to be one.
    pub fn start(total: u32, limit: usize) -> (r: Result<IndexRun, String>)
        requires
            limit > 0,
        ensures
            match r {
                Ok(run) => total > 0 && run.wf() && run == (IndexRun {
                    total,
                    limit,
                    seen: 0,
                    file_count: 0,
                    batch_files: 0,
                    pending: 0,
                    total_chunks: 0,
                    total_vectors: 0,
                    markdown: 0,
                    code: 0,
                    data: 0,
                    other: 0,
                    shown: 0,
                }),
                Err(e) => total == 0 && e@ == "目录中没有可索引的文件"@,
            },
    {
        if total == 0 {
            return Err("目录中没有可索引的文件".to_owned());
        }
        Ok(
            IndexRun {
                total,
                limit,
                seen: 0,
                file_count: 0,
                batch_files: 0,
                pending: 0,
                total_chunks: 0,
                total_vectors: 0,
                markdown: 0,
                code: 0,
                data: 0,
                other: 0,
                shown: 0,
            },
        )
    }

    /// Tells a percentage: it is shown where it is higher than any before.
    pub fn show(&mut self, pct: u32) -> (r: Option<u8>)
        requires
            old(self).wf(),
        ensures
            final(self).wf(),
            *final(self) == (IndexRun { shown: shown_after(old(self).shown, pct), ..*old(self) }),
            r == if final(self).shown > old(self).shown {
                Some(final(self).shown)
            } else {
                None
            },
    {
        let p: u8 = if pct < 100 {
            pct as u8
        } else {
            100
        };
        if p > self.shown {
            self.shown = p;
            Some(p)
        } else {
            None
        }
    }

    /// Takes a file with so many bytes, if it could be read, and so many parts. The answer is
    /// whether the parts that wait are to be embedded now: they are enough, or this was the
    /// last file.
    pub fn take_file(
        &mut self,
        rel_path: &str,
        size: Option<usize>,
        chunks: u32,
        code: &Vec<String>,
    ) -> (r: bool)
        requires
            old(self).wf(),
            old(self).seen < old(self).total,
            old(self).total_chunks + old(self).pending + chunks <= u32::MAX,
        ensures
            final(self).wf(),
            *final(self) == after_file(
                *old(self),
                paths::kind_of(text::after_last(rel_path@, '.'), text::texts(code@)),
                size,
                chunks,
            ),
            r == (final(self).pending > 0 && (final(self).pending >= final(self).limit
                || final(self).seen == final(self).total)),
    {
        self.seen = self.seen + 1;
        let worth = match size {
            Some(n) => n >= MIN_BYTES,
            None => false,
        };
        if worth {
            let kind = paths::classify_ext(&paths::extension_of(rel_path), code);
            proof {
                reveal_strlit("Markdown");
                reveal_strlit("代码");
                reveal_strlit("数据");
                reveal_strlit("其他");
                assert("Markdown"@.len() == 8);
                assert("代码"@.len() == 2);
                assert("代码"@[0] == '代');
                assert("数据"@.len() == 2);
                assert("数据"@[0] == '数');
                assert("其他"@.len() == 2);
                assert("其他"@[0] == '其');
            }
            if text::str_eq(kind, "Markdown") {
                self.markdown = self.markdown + 1;
            } else if text::str_eq(kind, "代码") {
                self.code = self.code + 1;
            } else if text::str_eq(kind, "数据") {
                self.data = self.data + 1;
            } else {
                self.other = self.other + 1;
            }
            if chunks > 0 {
                self.file_count = self.file_count + 1;
                self.batch_files = self.batch_files + 1;
                self.pending = self.pending + chunks;
            }
        }
        self.pending > 0 && (self.pending as usize >= self.limit || self.seen == self.total)
    }

    /// How far reading has come.
    pub fn read_pct(&self) -> (r: u32)
        requires
            self.wf(),
        ensures
            r == if 5 + share(self.file_count, self.total) < 94 {
                5 + share(self.file_count, self.total)
            } else {
                94
            },
    {
        let p = self.embed_base_of(self.file_count);
        if p < 94 {
            p
        } else {
            94
        }
    }

    fn embed_base_of(&self, part: u32) -> (r: u32)
        requires
            self.wf(),
            part <= self.total,
        ensures
            r == 5 + share(part, self.total),
            r <= 95,
    {
        let q: u64 = part as u64 * 90 / self.total as u64;
        let total = self.total;
        assert(q <= 90) by (nonlinear_arith)
            requires
                q == (part * 90) / (total as int),
                0 < total,
                part <= total,
        ;
        5 + q as u32
    }

    /// Where the batch begins.
    pub fn embed_base(&self) -> (r: u32)
        requires
            self.wf(),
        ensures
            r == 5 + share((self.file_count - self.batch_files) as u32, self.total),
            r <= 95,
    {
        self.embed_base_of(self.file_count - self.batch_files)
    }

    /// How much of the whole the batch is, at least one percent.
    pub fn embed_span(&self) -> (r: u32)
        requires
            self.wf(),
        ensures
            r == if share(self.batch_files, self.total) < 1 {
                1
            } else {
                share(self.batch_files, self.total)
            },
            r <= 90,
    {
        let q = self.embed_base_of(self.batch_files) - 5;
        if q < 1 {
            1
        } else {
            q
        }
    }

    /// How far the batch has come with `done` of `groups` embedded.
    pub fn embed_pct(&self, done: usize, groups: usize) -> (r: u32)
        requires
            self.wf(),
        ensures
            ({
                let base = 5 + share((self.file_count - self.batch_files) as u32, self.total);
                let span = if share(self.batch_files, self.total) < 1 {
                    1
                } else {
                    share(self.batch_files, self.total)
                };
                let all = if groups < 1 {
                    1int
                } else {
                    groups as int
                };
                let p = base + (done * span) / all;
                r == if p < 94 {
                    p
                } else {
                    94
                }
            }),
    {
        let base = self.embed_base();
        let span = self.embed_span();
        let all: u128 = if groups < 1 {
            1
        } else {
            groups as u128
        };
        assert(done * span <= 0xffff_ffff_ffff_ffff * 90) by (nonlinear_arith)
            requires
                done <= 0xffff_ffff_ffff_ffff,
                span <= 90,
        ;
        assert(0 <= done * span) by (nonlinear_arith);
        let q: u128 = (done as u128 * span as u128) / all;
        assert(q <= done * span) by (nonlinear_arith)
            requires
                q == (done * span) / (all as int),
                0 < all,
                0 <= done * span,
        ;
        let p: u128 = base as u128 + q;
        if p < 94 {
            p as u32
        } else {
            94
        }
    }

    /// What is said while files are read.
    pub fn read_message(&self) -> (r: String)
        ensures
            r@ == "读取文件 "@ + text::nat_text(self.file_count as nat) + "/"@ + text::nat_text(
                self.total as nat,
            ) + " (已缓存 "@ + text::nat_text(self.pending as nat) + " 个文本块)"@,
    {
        let mut s = "读取文件 ".to_owned();
        add_number(&mut s, self.file_count as u64);
        s.push_str("/");
        add_number(&mut s, self.total as u64);
        s.push_str(" (已缓存 ");
        add_number(&mut s, self.pending as u64);
        s.push_str(" 个文本块)");
        s
    }

    /// What is said while a batch is embedded and written, and once it is: so many files are
    /// done, with the parts that wait.
    pub fn done_message(&self, behind: &str) -> (r: String)
        requires
            self.wf(),
        ensures
            r@ == done_text(*self, self.total_chunks + self.pending, behind@),
    {
        let mut s = "已完成 ".to_owned();
        add_number(&mut s, self.file_count as u64);
        s.push_str("/");
        add_number(&mut s, self.total as u64);
        s.push_str(" 文件 (");
        add_number(&mut s, (self.total_chunks + self.pending) as u64);
        s.push_str(" 文本块)");
        s.push_str(behind);
        s
    }

    /// The parts that waited have been written, with so many vectors.
    pub fn written(&mut self, vectors: u32)
        requires
            old(self).wf(),
            old(self).total_vectors + vectors <= u32::MAX,
        ensures
            final(self).wf(),
            *final(self) == after_write(*old(self), vectors),
    {
        self.total_chunks = self.total_chunks + self.pending;
        self.total_vectors = self.total_vectors + vectors;
        self.pending = 0;
        self.batch_files = 0;
    }

    /// What the index holds in the end; without a part there is none.
    pub fn finish(&self, now: u64) -> (r: Result<IndexMeta, String>)
        requires
            self.wf(),
        ensures
            match r {
                Ok(m) => self.total_chunks > 0 && m.file_count == self.file_count && m.chunk_count
                    == self.total_chunks && m.vector_count == self.total_vectors && m.indexed_at
                    == now && row_views(m.type_distribution@) == type_rows(*self),
                Err(e) => self.total_chunks == 0 && e@ == "未能从文件中提取有效内容"@,
            },
    {
        if self.total_chunks == 0 {
            return Err("未能从文件中提取有效内容".to_owned());
        }
        let sum: u64 = self.markdown as u64 + self.code as u64 + self.data as u64
            + self.other as u64;
        let mut v: Vec<FileTypeCount> = Vec::new();
        if sum > 0 {
            push_row(&mut v, "Markdown", self.markdown, sum);
            push_row(&mut v, "代码", self.code, sum);
            push_row(&mut v, "数据", self.data, sum);
            push_row(&mut v, "其他", self.other, sum);
        }
        assert(row_views(v@) =~= type_rows(*self));
        Ok(
            IndexMeta {
                file_count: self.file_count,
                chunk_count: self.total_chunks,
                vector_count: self.total_vectors,
                indexed_at: now,
                type_distribution: v,
            },
        )
    }
}

// ---- Indexing what is new

pub open spec fn is_new(existing: Seq<Seq<char>>) -> spec_fn((Seq<char>, Seq<char>)) -> bool {
    |f: (Seq<char>, Seq<char>)| !existing.contains(f.0)
}

fn name_set(names: &Vec<String>) -> (r: StringHashSet)
    ensures
        forall|s: Seq<char>| #[trigger] r@.contains(s) == text::texts(names@).contains(s),
{
    let ghost nv = text::texts(names@);
    let mut set = StringHashSet::new();
    let mut i: usize = 0;
    while i < names.len()
        invariant
            i <= names.len(),
            nv == text::texts(names@),
            forall|s: Seq<char>| #[trigger] set@.contains(s) == nv.take(i as int).contains(s),
        decreases names.len() - i,
    {
        proof {
            assert(nv[i as int] == names@[i as int]@);
            let before = nv.take(i as int);
            let after = nv.take(i + 1);
            assert(after =~= before.push(nv[i as int]));
            assert forall|s: Seq<char>|
                #![auto]
                after.contains(s) == (before.contains(s) || s == nv[i as int]) by {
                if before.contains(s) {
                    let k = before.index_of(s);
                    assert(after[k] == s);
                }
                if s == nv[i as int] {
                    assert(after[i as int] == s);
                }
                if after.contains(s) {
                    let k = after.index_of(s);
                    if k < i {
                        assert(before[k] == s);
                    }
                }
            }
        }
        set.insert(names[i].clone());
        i += 1;
    }
    assert(nv.take(i as int) =~= nv);
    set
}

/// The files that are not in the index, each with its name there and its path.
pub fn unindexed(files: &Vec<(String, String)>, existing: &Vec<String>) -> (r: Vec<
    (String, String),
>)
    ensures
        json::pairs_view(r@) == rows::kept(
            json::pairs_view(files@),
            is_new(text::texts(existing@)),
        ),
{
    let ghost p = is_new(text::texts(existing@));
    let ghost fv = json::pairs_view(files@);
    let set = name_set(existing);
    let mut out: Vec<(String, String)> = Vec::new();
    let mut i: usize = 0;
    assert(json::pairs_view(out@) =~= rows::kept(fv.take(0), p));
    while i < files.len()
        invariant
            i <= files.len(),
            p == is_new(text::texts(existing@)),
            fv == json::pairs_view(files@),
            forall|s: Seq<char>| #[trigger] set@.contains(s) == text::texts(existing@).contains(s),
            json::pairs_view(out@) == rows::kept(fv.take(i as int), p),
        decreases files.len() - i,
    {
        proof {
            assert(fv.take(i + 1) =~= fv.take(i as int).push(fv[i as int]));
            rows::lemma_kept_push(fv.take(i as int), fv[i as int], p);
        }
        if !set.contains(files[i].0.as_str()) {
            let row = (files[i].0.clone(), files[i].1.clone());
            assert(json::pairs_view(out@.push(row)) =~= json::pairs_view(out@).push(fv[i as int]));
            out.push(row);
        }
        i += 1;
    }
    assert(fv.take(i as int) =~= fv);
    out
}

pub open spec fn capped(x: int, top: int) -> int {
    if x < top {
        x
    } else {
        top
    }
}

/// How far reading has come after the file at `index` of `count`.
pub fn new_read_pct(index: usize, count: usize) -> (r: u8)
    requires
        index < count,
    ensures
        r == capped(15 + ((index + 1) * 5) / (count as int), 19),
{
    let q: u128 = (index as u128 + 1) * 5 / count as u128;
    assert(q <= 5) by (nonlinear_arith)
        requires
            q == ((index + 1) * 5) / (count as int),
            index < count,
    ;
    let p: u8 = 15 + q as u8;
    if p < 19 {
        p
    } else {
        19
    }
}

/// How far embedding has come.
pub fn new_embed_pct(done: usize, groups: usize) -> (r: u8)
    ensures
        r == capped(
            20 + (done * 60) / (if groups < 1 {
                1int
            } else {
                groups as int
            }),
            80,
        ),
{
    let all: u128 = if groups < 1 {
        1
    } else {
        groups as u128
    };
    let q: u128 = done as u128 * 60 / all;
    if q < 60 {
        20 + q as u8
    } else {
        80
    }
}

/// How far writing has come after the slice that begins at `at` of `count`.
pub fn new_write_pct(at: usize, limit: usize, count: usize) -> (r: u8)
    requires
        at < count,
    ensures
        r == capped(82 + ((at + limit) * 13) / (count as int), 95),
{
    let q: u128 = (at as u128 + limit as u128) * 13 / count as u128;
    if q < 13 {
        82 + q as u8
    } else {
        95
    }
}

// ---- Conversations

pub open spec fn chat_id(session: Seq<char>, i: nat) -> Seq<char> {
    "chat:"@ + session + ":"@ + text::nat_text(i)
}

pub open spec fn chat_text(role: Seq<char>, content: Seq<char>) -> Seq<char> {
    "["@ + role + "] "@ + content
}

/// Whether a part is a message of a conversation.
pub open spec fn is_chat_chunk(
    c: DocumentChunk,
    session: Seq<char>,
    m: (Seq<char>, Seq<char>),
    i: int,
) -> bool {
    &&& c.id@ == chat_id(session, i as nat)
    &&& c.doc_name@ == session
    &&& c.chunk_index == i
    &&& c.text@ == chat_text(m.0, m.1)
    &&& c.path_depth is None && c.path_json is None && c.sentence_window is None
    &&& c.symbol_name is None && c.symbol_kind is None && c.embedding_text is None
    &&& c.chunk_type is None
}

/// The new messages of a conversation, each with its role and content, as parts to be
/// indexed: one each, numbered on from those that are indexed.
pub fn chat_chunks(
    session_id: &str,
    messages: &Vec<(String, String)>,
    start_from: usize,
) -> (r: Vec<DocumentChunk>)
    requires
        start_from + messages@.len() <= u32::MAX,
    ensures
        r@.len() == messages@.len(),
        forall|k: int|
            0 <= k < r@.len() ==> is_chat_chunk(
                #[trigger] r@[k],
                session_id@,
                (messages@[k].0@, messages@[k].1@),
                start_from + k,
            ),
{
    let mut out: Vec<DocumentChunk> = Vec::new();
    let mut k: usize = 0;
    while k < messages.len()
        invariant
            k <= messages.len(),
            start_from + messages@.len() <= u32::MAX,
            out@.len() == k,
            forall|j: int|
                0 <= j < k ==> is_chat_chunk(
                    #[trigger] out@[j],
                    session_id@,
                    (messages@[j].0@, messages@[j].1@),
                    start_from + j,
                ),
        decreases messages.len() - k,
    {
        let i: usize = start_from + k;
        let mut id = "chat:".to_owned();
        id.push_str(session_id);
        id.push_str(":");
        add_number(&mut id, i as u64);
        let mut t = "[".to_owned();
        t.push_str(&messages[k].0);
        t.push_str("] ");
        t.push_str(&messages[k].1);
        out.push(
            DocumentChunk {
                id,
                doc_name: session_id.to_owned(),
                chunk_index: i as u32,
                text: t,
                path_depth: None,
                path_json: None,
                sentence_window: None,
                symbol_name: None,
                symbol_kind: None,
                embedding_text: None,
                chunk_type: None,
            },
        );
        k += 1;
    }
    out
}

/// How many vectors are asked for, where so many conversations are wanted; for a blank
/// question none are.
pub fn chat_candidates(query: &str, top_k: u32) -> (r: Option<u32>)
    requires
        top_k <= 0x7fff_ffff,
    ensures
        r == if text::trim(query@).len() == 0 {
            None
        } else if top_k * 2 < 10 {
            Some(10u32)
        } else {
            Some((top_k * 2) as u32)
        },
{
    if text::chars_of(&text::trim_space(query)).len() == 0 {
        return None;
    }
    let k: u32 = top_k * 2;
    Some(
        if k < 10 {
            10
        } else {
            k
        },
    )
}

/// The best of the conversations that were found: of each hit the conversation, the score and
/// the text.
pub fn chat_results(hits: &Vec<SearchHit>, top_k: u32) -> (r: Vec<(String, i64, String)>)
    ensures
        r@.len() == rows::limited(hits@, top_k as nat).len(),
        forall|k: int|
            0 <= k < r@.len() ==> (#[trigger] r@[k]).0@ == hits@[k].doc_name@ && r@[k].1
                == hits@[k].score && r@[k].2@ == hits@[k].text@,
{
    let mut out: Vec<(String, i64, String)> = Vec::new();
    let mut i: usize = 0;
    while i < hits.len() && i < top_k as usize
        invariant
            i <= hits.len(),
            i <= top_k,
            out@.len() == i,
            forall|k: int|
                0 <= k < i ==> (#[trigger] out@[k]).0@ == hits@[k].doc_name@ && out@[k].1
                    == hits@[k].score && out@[k].2@ == hits@[k].text@,
        decreases hits.len() - i,
    {
        out.push((hits[i].doc_name.clone(), hits[i].score, hits[i].text.clone()));
        i += 1;
    }
    out
}

// ---- Keeping up

/// Whether a file was changed since the index was made, but for a second; the times are
/// milliseconds and nanoseconds. Without an index nothing is.
pub fn needs_sync(indexed_at: u64, modified_nanos: u128) -> (r: bool)
    ensures
        r == (indexed_at != 0 && modified_nanos > (indexed_at + SYNC_SLACK) * 1_000_000),
{
    let limit: u128 = (indexed_at as u128 + SYNC_SLACK as u128) * 1_000_000;
    indexed_at != 0 && modified_nanos > limit
}

/// The patterns of the directories whose pages are shown as documents, from the settings;
/// none where there are none.
pub fn html_render_patterns(settings: &str) -> (r: Option<Vec<String>>)
    ensures
        ({
            let all = json::string_list(settings@, "/htmlCodeShowBlacklist"@);
            match r {
                Some(v) => all.len() > 0 && text::texts(v@) == all,
                None => all.len() == 0,
            }
        }),
{
    let v = json::read_strings(settings, "/htmlCodeShowBlacklist");
    assert(text::texts(v@).len() == v@.len());
    if v.len() == 0 {
        None
    } else {
        Some(v)
    }
}

/// Whether the model is downloaded now: it is not being downloaded, and did not fail a short
/// time ago; the times are seconds.
pub fn should_download(in_flight_or_done: bool, last_fail: u64, now: u64) -> (r: bool)
    ensures
        r == (!in_flight_or_done && (last_fail == 0 || now - last_fail >= RETRY_SECONDS)),
{
    !in_flight_or_done && (last_fail == 0 || now.saturating_sub(last_fail) >= RETRY_SECONDS)
}

// ---- Laws

/// Whether spans lie one behind the other from one index to another, none of them empty.
pub open spec fn tiles(spans: Seq<(int, int)>, from: int, to: int) -> bool
    decreases spans.len(),
{
    if spans.len() == 0 {
        from == to
    } else {
        &&& spans[0].0 == from
        &&& from < spans[0].1
        &&& tiles(spans.skip(1), spans[0].1, to)
    }
}

/// Every group is in one batch, in order, and a batch is not larger than is allowed unless it
/// is a single group.
pub proof fn law_batches_cover_every_group_once(counts: Seq<usize>, limit: nat, start: int)
    requires
        0 <= start <= counts.len(),
    ensures
        tiles(spans_from(counts, limit, start), start, counts.len() as int),
        forall|i: int|
            0 <= i < spans_from(counts, limit, start).len() ==> {
                let s = #[trigger] spans_from(counts, limit, start)[i];
                s.1 == s.0 + 1 || sum(counts, s.0, s.1) <= limit
            },
    decreases counts.len() - start,
{
    if start < counts.len() {
        lemma_span_end(counts, limit, start, start);
        lemma_span_sum(counts, limit, start, start);
        let end = span_end(counts, limit, start, start);
        law_batches_cover_every_group_once(counts, limit, end);
        let all = spans_from(counts, limit, start);
        let rest = spans_from(counts, limit, end);
        assert(all.skip(1) =~= rest);
        assert forall|i: int| 0 <= i < all.len() implies {
            let s = #[trigger] all[i];
            s.1 == s.0 + 1 || sum(counts, s.0, s.1) <= limit
        } by {
            if i > 0 {
                assert(all[i] == rest[i - 1]);
            }
        }
    }
}

proof fn lemma_span_sum(counts: Seq<usize>, limit: nat, start: int, end: int)
    requires
        0 <= start <= end <= counts.len(),
        end <= start + 1 || sum(counts, start, end) <= limit,
    ensures
        ({
            let e = span_end(counts, limit, start, end);
            e <= start + 1 || sum(counts, start, e) <= limit
        }),
    decreases counts.len() - end,
{
    if end < counts.len() && !(end > start && sum(counts, start, end) + counts[end] > limit) {
        lemma_span_sum(counts, limit, start, end + 1);
    }
}

/// Slices cover everything once, in order, and none is larger than is allowed.
pub proof fn law_slices_cover_everything_once(n: int, limit: int, at: int)
    requires
        0 <= at <= n,
        limit > 0,
    ensures
        tiles(slices_from(n, limit, at), at, n),
        forall|i: int|
            0 <= i < slices_from(n, limit, at).len() ==> {
                let s = #[trigger] slices_from(n, limit, at)[i];
                s.1 - s.0 <= limit
            },
    decreases n - at,
{
    let all = slices_from(n, limit, at);
    if at >= n {
    } else if n - at <= limit {
        assert(all.skip(1) =~= Seq::empty());
        assert(tiles(Seq::<(int, int)>::empty(), n, n));
    } else {
        law_slices_cover_everything_once(n, limit, at + limit);
        let rest = slices_from(n, limit, at + limit);
        assert(all.skip(1) =~= rest);
        assert forall|i: int| 0 <= i < all.len() implies {
            let s = #[trigger] all[i];
            s.1 - s.0 <= limit
        } by {
            if i > 0 {
                assert(all[i] == rest[i - 1]);
            }
        }
    }
}

/// What is shown never goes back, and never beyond the whole.
pub proof fn law_progress_never_goes_back(shown: u8, pct: u32)
    requires
        shown <= 100,
    ensures
        shown <= shown_after(shown, pct) <= 100,
        pct <= shown_after(shown, pct) || shown_after(shown, pct) == 100,
{
}

/// No part is lost: what waits and what is written grows by the parts of each file that has
/// enough in it, and writing changes nothing of that.
pub proof fn law_every_part_is_counted(
    run: IndexRun,
    kind: Seq<char>,
    size: Option<usize>,
    chunks: u32,
    vectors: u32,
)
    requires
        run.wf(),
        run.total_chunks + run.pending + chunks <= u32::MAX,
    ensures
        ({
            let f = after_file(run, kind, size, chunks);
            f.total_chunks + f.pending == run.total_chunks + run.pending + (if is_worth(size) {
                chunks as int
            } else {
                0
            })
        }),
        ({
            let w = after_write(run, vectors);
            w.total_chunks + w.pending == run.total_chunks + run.pending && w.pending == 0
        }),
{
}

/// Taking a file out again leaves the counts as they were before it came.
pub proof fn law_removing_undoes_adding(count: u32, n: u32)
    requires
        count + n <= u32::MAX,
    ensures
        changed(changed(count, n as int) as u32, -(n as int)) == count,
{
}

proof fn lemma_span_full(counts: Seq<usize>, limit: nat, start: int, end: int)
    requires
        0 <= start <= end <= counts.len(),
    ensures
        ({
            let e = span_end(counts, limit, start, end);
            e < counts.len() ==> sum(counts, start, e) + counts[e] > limit
        }),
    decreases counts.len() - end,
{
    if end < counts.len() && !(end > start && sum(counts, start, end) + counts[end] > limit) {
        lemma_span_full(counts, limit, start, end + 1);
    }
}

/// A batch is as large as it may be: what the next one begins with would not have fitted.
pub proof fn law_batches_are_as_large_as_they_may_be(
    counts: Seq<usize>,
    limit: nat,
    start: int,
    k: int,
)
    requires
        0 <= start <= counts.len(),
        0 <= k < spans_from(counts, limit, start).len() - 1,
    ensures
        ({
            let s = spans_from(counts, limit, start)[k];
            let next = spans_from(counts, limit, start)[k + 1];
            next.0 == s.1 && s.1 < counts.len() && sum(counts, s.0, s.1) + counts[s.1] > limit
        }),
    decreases k,
{
    let end = span_end(counts, limit, start, start);
    let all = spans_from(counts, limit, start);
    let rest = spans_from(counts, limit, end);
    lemma_span_full(counts, limit, start, start);
    if k == 0 {
        assert(all[0] == (start, end));
        assert(all[1] == rest[0]);
        assert(rest[0].0 == end);
    } else {
        law_batches_are_as_large_as_they_may_be(counts, limit, end, k - 1);
        assert(all[k] == rest[k - 1]);
        assert(all[k + 1] == rest[k]);
    }
}

/// The parts of the first `n` files, as they are now or as they were.
pub open spec fn parts_of(rows: Seq<(u32, u32)>, now: bool, n: int) -> nat
    decreases n,
{
    if n <= 0 {
        0
    } else {
        parts_of(rows, now, n - 1) + if now {
            rows[n - 1].0 as nat
        } else {
            rows[n - 1].1 as nat
        }
    }
}

/// The files that are new are those that had no parts, and the parts grow by those that the
/// files have now less those that they had.
pub proof fn law_new_files_are_those_without_parts(rows: Seq<(u32, u32)>, n: int)
    requires
        0 <= n <= rows.len(),
    ensures
        changes(rows, n).0 == rows.take(n).filter(|r: (u32, u32)| r.1 == 0).len(),
        changes(rows, n).1 == parts_of(rows, true, n) - parts_of(rows, false, n),
    decreases n,
{
    reveal(Seq::filter);
    if n > 0 {
        law_new_files_are_those_without_parts(rows, n - 1);
        assert(rows.take(n).drop_last() =~= rows.take(n - 1));
        assert(rows.take(n).last() == rows[n - 1]);
    }
}

} // verus!
