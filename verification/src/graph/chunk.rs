//! The parts of documents: how a document's chunks and sections become nodes and edges.

use crate::graph::builder;
use crate::graph::hung;
use crate::graph::ids;
use crate::graph::imports;
use crate::graph::links;
use crate::graph::lists;
use crate::graph::model;
use crate::graph::model::{GraphNode, NodeType, Relation};
use crate::graph::store;
use crate::graph::store::GraphStore;
use crate::graph::views;
use crate::graph::views::{GraphV, NodeV};
use crate::json;
use crate::rows;
use crate::text;
use vstd::prelude::*;

verus! {

/// How much of a chunk's text is kept.
pub const CHUNK_CONTENT_MAX: usize = 2000;

/// How long a chunk is, and by how much chunks overlap, where nothing else is said.
pub const CHUNK_MAX_CHARS: usize = 800;

pub const CHUNK_OVERLAP: usize = 100;

/// How sure it is that an import means the file that it seems to mean.
pub const IMPORT_CONFIDENCE: u32 = 900_000;

/// A piece of a document, with the headings above it.
#[derive(Debug, PartialEq, Eq)]
pub struct DocChunk {
    pub text: String,
    pub path: Vec<String>,
    pub chunk_type: String,
}

pub struct DocChunkV {
    pub text: Seq<char>,
    pub path: Seq<Seq<char>>,
    pub chunk_type: Seq<char>,
}

impl DocChunk {
    pub open spec fn view(&self) -> DocChunkV {
        DocChunkV {
            text: self.text@,
            path: text::texts(self.path@),
            chunk_type: self.chunk_type@,
        }
    }
}

pub open spec fn chunks_view(cs: Seq<DocChunk>) -> Seq<DocChunkV> {
    Seq::new(cs.len(), |i: int| cs[i].view())
}

/// What was built.
#[derive(Debug, Clone, Copy, PartialEq, Eq)]
pub struct ChunkBuildStats {
    pub docs: u32,
    pub chunks: u32,
    pub sections: u32,
}

pub open spec fn no_stats() -> ChunkBuildStats {
    ChunkBuildStats { docs: 0, chunks: 0, sections: 0 }
}

impl Default for ChunkBuildStats {
    fn default() -> (r: Self)
        ensures
            r == no_stats(),
    {
        ChunkBuildStats { docs: 0, chunks: 0, sections: 0 }
    }
}

/// The id of a chunk: the path of its document and its number.
pub open spec fn chunk_id(rel: Seq<char>, idx: nat) -> Seq<char> {
    "chunk:"@ + text::replace_char(rel, '\\', '/') + seq!['#'] + text::nat_text(idx)
}

pub fn chunk_node_id(rel_path: &str, idx: u32) -> (r: String)
    ensures
        r@ == chunk_id(rel_path@, idx as nat),
{
    let mut r = "chunk:".to_owned();
    let p = text::replace_char_of(rel_path, '\\', '/');
    r.push_str(&p);
    r.push('#');
    let n = text::u64_text(idx as u64);
    r.push_str(&n);
    assert(r@ =~= chunk_id(rel_path@, idx as nat));
    r
}

/// The first `n` headings that are not blank, without blanks around them.
pub open spec fn headings(path: Seq<Seq<char>>, n: int) -> Seq<Seq<char>>
    decreases n,
{
    if n <= 0 {
        Seq::empty()
    } else {
        let before = headings(path, n - 1);
        if text::trim(path[n - 1]).len() == 0 {
            before
        } else {
            before.push(text::trim(path[n - 1]))
        }
    }
}

/// The id of a section: the path of its document and its headings.
pub open spec fn section_id(rel: Seq<char>, path: Seq<Seq<char>>) -> Seq<char> {
    let hs = headings(path, path.len() as int);
    "section:"@ + text::replace_char(rel, '\\', '/') + seq!['#'] + (if hs.len() == 0 {
        "__root__"@
    } else {
        text::join(hs, seq!['#'])
    })
}

pub fn section_node_id(rel_path: &str, heading_path: &Vec<String>) -> (r: String)
    ensures
        r@ == section_id(rel_path@, text::texts(heading_path@)),
{
    let ghost path = text::texts(heading_path@);
    assert(path.len() == heading_path@.len());
    let mut hs: Vec<String> = Vec::new();
    let mut i: usize = 0;
    assert(text::texts(hs@) =~= Seq::empty());
    while i < heading_path.len()
        invariant
            i <= heading_path.len(),
            path == text::texts(heading_path@),
            text::texts(hs@) == headings(path, i as int),
        decreases heading_path.len() - i,
    {
        let t = text::trim_space(&heading_path[i]);
        if text::chars_of(&t).len() != 0 {
            proof {
                text::lemma_texts_push(hs@, t);
            }
            hs.push(t);
        }
        i += 1;
    }
    assert(text::texts(hs@).len() == hs@.len());
    let mut r = "section:".to_owned();
    let p = text::replace_char_of(rel_path, '\\', '/');
    r.push_str(&p);
    r.push('#');
    if hs.len() == 0 {
        r.push_str("__root__");
    } else {
        let joined = text::join_of(&hs, "#");
        proof {
            reveal_strlit("#");
            assert("#"@ =~= seq!['#']);
        }
        r.push_str(&joined);
    }
    assert(r@ =~= section_id(rel_path@, path));
    r
}

/// The lowest heading above a chunk.
pub open spec fn heading_of(c: DocChunkV) -> Seq<char> {
    if c.path.len() == 0 {
        Seq::empty()
    } else {
        c.path.last()
    }
}

/// The beginning of a chunk's first line.
pub open spec fn first_words(t: Seq<char>) -> Seq<char> {
    let ls = text::lines(t);
    let first = if ls.len() == 0 {
        Seq::empty()
    } else {
        text::trim(ls[0])
    };
    if first.len() <= 20 {
        first
    } else {
        first.take(20)
    }
}

/// The name of a chunk: its heading, else how it begins, else its number.
pub open spec fn chunk_name(c: DocChunkV, idx: nat) -> Seq<char> {
    if heading_of(c).len() > 0 {
        heading_of(c)
    } else if first_words(c.text).len() > 0 {
        first_words(c.text)
    } else {
        "chunk "@ + text::nat_text(idx)
    }
}

pub open spec fn chunk_meta(rel: Seq<char>, c: DocChunkV, idx: nat) -> Seq<char> {
    json::object_text(
        seq![
            ("chunk_type"@, json::json_quoted(c.chunk_type)),
            ("doc"@, json::json_quoted(rel)),
            ("heading"@, json::json_quoted(heading_of(c))),
            ("heading_path"@, json::strings_text(c.path)),
            ("idx"@, text::nat_text(idx)),
        ],
    )
}

pub open spec fn section_meta(rel: Seq<char>, path: Seq<Seq<char>>) -> Seq<char> {
    json::object_text(
        seq![("doc"@, json::json_quoted(rel)), ("heading_path"@, json::strings_text(path))],
    )
}

pub open spec fn chunk_node(rel: Seq<char>, c: DocChunkV, idx: nat) -> NodeV {
    views::plain_node(
        chunk_id(rel, idx),
        NodeType::Chunk,
        text::ellipsized(chunk_name(c, idx), 60),
        Some(rel),
        Some(chunk_meta(rel, c, idx)),
        Some(text::ellipsized(c.text, CHUNK_CONTENT_MAX as nat)),
    )
}

pub open spec fn section_node(rel: Seq<char>, path: Seq<Seq<char>>) -> NodeV {
    views::plain_node(
        section_id(rel, path),
        NodeType::Section,
        text::ellipsized(path.last(), 60),
        Some(rel),
        Some(section_meta(rel, path)),
        None,
    )
}

/// A graph while a document is built, and the sections that it has so far.
pub struct PartsV {
    pub g: GraphV,
    pub sections: Seq<Seq<char>>,
}

/// A section below its document.
pub open spec fn with_section(b: PartsV, rel: Seq<char>, path: Seq<Seq<char>>, now: i64) -> PartsV {
    let sid = section_id(rel, path);
    if b.sections.contains(sid) {
        b
    } else {
        PartsV {
            g: views::put_whole_edge(
                views::put_node(b.g, section_node(rel, path), now),
                builder::doc_id(rel),
                sid,
                Relation::Contains,
                builder::doc_id(rel),
                now,
            ),
            sections: b.sections.push(sid),
        }
    }
}

/// A chunk below its section, or below the document where it has no headings.
pub open spec fn with_chunk(b: PartsV, rel: Seq<char>, c: DocChunkV, idx: nat, now: i64) -> PartsV {
    let one = PartsV { g: views::put_node(b.g, chunk_node(rel, c, idx), now), ..b };
    let two = if c.path.len() > 0 {
        with_section(one, rel, c.path, now)
    } else {
        one
    };
    PartsV {
        g: views::put_whole_edge(
            two.g,
            if c.path.len() > 0 {
                section_id(rel, c.path)
            } else {
                builder::doc_id(rel)
            },
            chunk_id(rel, idx),
            Relation::Contains,
            builder::doc_id(rel),
            now,
        ),
        ..two
    }
}

/// The graph with the first `n` chunks.
pub open spec fn with_chunks(g: GraphV, rel: Seq<char>, cs: Seq<DocChunkV>, n: int, now: i64) -> PartsV
    decreases n,
{
    if n <= 0 {
        PartsV { g, sections: Seq::empty() }
    } else {
        with_chunk(with_chunks(g, rel, cs, n - 1, now), rel, cs[n - 1], (n - 1) as nat, now)
    }
}

/// The graph with the edges for the first `n` imports. A file that is no node is not
/// imported.
pub open spec fn with_imports(
    g: GraphV,
    rel: Seq<char>,
    names: Seq<Seq<char>>,
    files: Seq<Seq<char>>,
    n: int,
    now: i64,
) -> GraphV
    decreases n,
{
    if n <= 0 {
        g
    } else {
        let before = with_imports(g, rel, names, files, n - 1, now);
        match imports::import_target(names[n - 1], files) {
            Some(dst) => if dst == rel || !views::has_node(before, builder::doc_id(dst)) {
                before
            } else {
                views::put_edge(
                    before,
                    builder::doc_id(rel),
                    builder::doc_id(dst),
                    Relation::Imports,
                    model::WHOLE,
                    IMPORT_CONFIDENCE,
                    Some(builder::doc_id(rel)),
                    now,
                )
            },
            None => before,
        }
    }
}

pub open spec fn imports_of(content: Seq<char>) -> Seq<Seq<char>> {
    imports::imports_in(text::lines(content), text::lines(content).len() as int)
}

/// Whether a document has parts to be built.
pub open spec fn has_parts(g: GraphV, rel: Seq<char>, content: Seq<char>, cs: Seq<DocChunkV>) -> bool {
    views::has_node(g, builder::doc_id(rel)) && text::trim(content).len() > 0 && cs.len() > 0
}

/// The graph with the parts of a document in place of those that it had, and for source code
/// with its imports.
pub open spec fn with_parts(
    g: GraphV,
    rel: Seq<char>,
    content: Seq<char>,
    cs: Seq<DocChunkV>,
    files: Option<Seq<Seq<char>>>,
    now: i64,
) -> GraphV {
    let bare = views::without_parts(g, text::replace_char(rel, '\\', '/'));
    if !has_parts(bare, rel, content, cs) {
        bare
    } else {
        let built = with_chunks(bare, rel, cs, cs.len() as int, now).g;
        match files {
            Some(fs) => if links::has_links(rel) {
                built
            } else {
                with_imports(
                    views::fewer_edges(
                        built,
                        views::not_made_from_by(builder::doc_id(rel), "IMPORTS"@),
                    ),
                    rel,
                    imports_of(content),
                    fs,
                    imports_of(content).len() as int,
                    now,
                )
            },
            None => built,
        }
    }
}

/// What is counted when a document is built.
pub open spec fn parts_stats(g: GraphV, rel: Seq<char>, content: Seq<char>, cs: Seq<DocChunkV>, now: i64) -> ChunkBuildStats {
    let bare = views::without_parts(g, text::replace_char(rel, '\\', '/'));
    if !has_parts(bare, rel, content, cs) {
        no_stats()
    } else {
        ChunkBuildStats {
            docs: 1,
            chunks: cs.len() as u32,
            sections: with_chunks(bare, rel, cs, cs.len() as int, now).sections.len() as u32,
        }
    }
}

proof fn lemma_sections(g: GraphV, rel: Seq<char>, cs: Seq<DocChunkV>, n: int, now: i64)
    requires
        0 <= n <= cs.len(),
    ensures
        with_chunks(g, rel, cs, n, now).sections.len() <= n,
    decreases n,
{
    if n > 0 {
        lemma_sections(g, rel, cs, n - 1, now);
    }
}

fn name_of_chunk(c: &DocChunk, heading: &String, idx: u32) -> (r: String)
    requires
        heading@ == heading_of(c.view()),
    ensures
        r@ == chunk_name(c.view(), idx as nat),
{
    if text::chars_of(heading).len() > 0 {
        return heading.clone();
    }
    let ls = text::lines_of(&c.text);
    assert(text::texts(ls@).len() == ls@.len());
    let first = if ls.len() == 0 {
        let e = String::new();
        assert(e@ =~= Seq::empty());
        e
    } else {
        assert(text::texts(ls@)[0] == ls@[0]@);
        text::trim_space(&ls[0])
    };
    let short = text::take_chars(&first, 20);
    if text::chars_of(&short).len() > 0 {
        return short;
    }
    let mut r = "chunk ".to_owned();
    let n = text::u64_text(idx as u64);
    r.push_str(&n);
    r
}

fn meta_of_chunk(rel: &String, c: &DocChunk, heading: &String, idx: u32) -> (r: String)
    requires
        heading@ == heading_of(c.view()),
    ensures
        r@ == chunk_meta(rel@, c.view(), idx as nat),
{
    let mut ms: Vec<(String, String)> = Vec::new();
    ms.push(("chunk_type".to_owned(), json::quote(&c.chunk_type)));
    ms.push(("doc".to_owned(), json::quote(rel)));
    ms.push(("heading".to_owned(), json::quote(heading)));
    ms.push(("heading_path".to_owned(), json::write_strings(&c.path)));
    ms.push(("idx".to_owned(), text::u64_text(idx as u64)));
    assert(json::pairs_view(ms@) =~= seq![
        ("chunk_type"@, json::json_quoted(c.view().chunk_type)),
        ("doc"@, json::json_quoted(rel@)),
        ("heading"@, json::json_quoted(heading_of(c.view()))),
        ("heading_path"@, json::strings_text(c.view().path)),
        ("idx"@, text::nat_text(idx as nat)),
    ]);
    json::write_object(&ms)
}

fn meta_of_section(rel: &String, path: &Vec<String>) -> (r: String)
    ensures
        r@ == section_meta(rel@, text::texts(path@)),
{
    let mut ms: Vec<(String, String)> = Vec::new();
    ms.push(("doc".to_owned(), json::quote(rel)));
    ms.push(("heading_path".to_owned(), json::write_strings(path)));
    assert(json::pairs_view(ms@) =~= seq![
        ("doc"@, json::json_quoted(rel@)),
        ("heading_path"@, json::strings_text(text::texts(path@))),
    ]);
    json::write_object(&ms)
}

impl GraphStore {
    fn write_section(
        &mut self,
        rel: &String,
        doc: &String,
        sid: &String,
        path: &Vec<String>,
        now: i64,
    )
        requires
            old(self).wf(),
            path@.len() > 0,
            doc@ == builder::doc_id(rel@),
            sid@ == section_id(rel@, text::texts(path@)),
        ensures
            final(self).wf(),
            views::graph_of(*final(self)) == views::put_whole_edge(
                views::put_node(
                    views::graph_of(*old(self)),
                    section_node(rel@, text::texts(path@)),
                    now,
                ),
                doc@,
                sid@,
                Relation::Contains,
                doc@,
                now,
            ),
            views::same_rest(*old(self), *final(self)),
    {
        assert(text::texts(path@).last() == path@[path@.len() - 1]@);
        let node = GraphNode {
            id: sid.clone(),
            node_type: NodeType::Section,
            name: text::ellipsize(&path[path.len() - 1], 60),
            path: Some(rel.clone()),
            meta: Some(meta_of_section(rel, path)),
            degree: None,
            created_at: None,
            content: None,
        };
        assert(views::node_view(node) == section_node(rel@, text::texts(path@)));
        self.write_node(&node, now);
        self.write_whole_edge(doc, sid, Relation::Contains, doc, now);
    }

    fn write_chunk(
        &mut self,
        rel: &String,
        doc: &String,
        c: &DocChunk,
        idx: u32,
        sections: &mut Vec<String>,
        now: i64,
    )
        requires
            old(self).wf(),
            doc@ == builder::doc_id(rel@),
        ensures
            final(self).wf(),
            (PartsV {
                g: views::graph_of(*final(self)),
                sections: text::texts(final(sections)@),
            }) == with_chunk(
                (PartsV {
                    g: views::graph_of(*old(self)),
                    sections: text::texts(old(sections)@),
                }),
                rel@,
                c.view(),
                idx as nat,
                now,
            ),
            views::same_rest(*old(self), *final(self)),
    {
        let ghost path = text::texts(c.path@);
        assert(path.len() == c.path@.len());
        let cid = chunk_node_id(rel, idx);
        let heading = if c.path.len() == 0 {
            let e = String::new();
            assert(e@ =~= Seq::empty());
            e
        } else {
            assert(path.last() == c.path@[c.path@.len() - 1]@);
            c.path[c.path.len() - 1].clone()
        };
        let name = name_of_chunk(c, &heading, idx);
        let node = GraphNode {
            id: cid.clone(),
            node_type: NodeType::Chunk,
            name: text::ellipsize(&name, 60),
            path: Some(rel.clone()),
            meta: Some(meta_of_chunk(rel, c, &heading, idx)),
            degree: None,
            created_at: None,
            content: Some(text::ellipsize(&c.text, CHUNK_CONTENT_MAX)),
        };
        assert(views::node_view(node) == chunk_node(rel@, c.view(), idx as nat));
        self.write_node(&node, now);
        if c.path.len() > 0 {
            let sid = section_node_id(rel, &c.path);
            if !text::lists_text(sections, &sid) {
                self.write_section(rel, doc, &sid, &c.path, now);
                proof {
                    text::lemma_texts_push(sections@, sid);
                }
                sections.push(sid.clone());
            }
            self.write_whole_edge(&sid, &cid, Relation::Contains, doc, now);
        } else {
            self.write_whole_edge(doc, &cid, Relation::Contains, doc, now);
        }
    }

    fn write_imports(
        &mut self,
        rel: &String,
        doc: &String,
        content: &str,
        files: &Vec<String>,
        now: i64,
    )
        requires
            old(self).wf(),
            doc@ == builder::doc_id(rel@),
        ensures
            final(self).wf(),
            views::graph_of(*final(self)) == with_imports(
                views::graph_of(*old(self)),
                rel@,
                imports_of(content@),
                text::texts(files@),
                imports_of(content@).len() as int,
                now,
            ),
            views::same_rest(*old(self), *final(self)),
    {
        let names = imports::extract_code_imports(content);
        let ghost ns = imports_of(content@);
        let ghost fs = text::texts(files@);
        assert(text::texts(names@).len() == names@.len());
        let mut i: usize = 0;
        while i < names.len()
            invariant
                i <= names.len(),
                ns == text::texts(names@),
                fs == text::texts(files@),
                doc@ == builder::doc_id(rel@),
                self.wf(),
                views::graph_of(*self) == with_imports(
                    views::graph_of(*old(self)),
                    rel@,
                    ns,
                    fs,
                    i as int,
                    now,
                ),
                views::same_rest(*old(self), *self),
            decreases names.len() - i,
        {
            if let Some(dst) = imports::resolve_import_target(&names[i], files) {
                if dst != *rel {
                    let dst_id = ids::node_id_for(NodeType::Doc, &dst);
                    if self.knows_node(&dst_id) {
                        self.write_edge(
                            doc,
                            &dst_id,
                            Relation::Imports,
                            model::WHOLE,
                            IMPORT_CONFIDENCE,
                            Some(doc.clone()),
                            now,
                        );
                    }
                }
            }
            i += 1;
        }
    }

    fn write_parts(
        &mut self,
        rel: &String,
        content: &str,
        chunks: &Vec<DocChunk>,
        all_paths: Option<&Vec<String>>,
        now: i64,
    ) -> (r: ChunkBuildStats)
        requires
            old(self).wf(),
            chunks@.len() <= u32::MAX,
        ensures
            final(self).wf(),
            views::graph_of(*final(self)) == with_parts(
                views::graph_of(*old(self)),
                rel@,
                content@,
                chunks_view(chunks@),
                paths_view(all_paths),
                now,
            ),
            r == parts_stats(
                views::graph_of(*old(self)),
                rel@,
                content@,
                chunks_view(chunks@),
                now,
            ),
            views::same_rest(*old(self), *final(self)),
    {
        self.drop_parts(rel);
        let doc = ids::node_id_for(NodeType::Doc, rel);
        let body = text::trim_space(content);
        let blank = text::chars_of(&body).len() == 0;
        if !self.knows_node(&doc) || blank || chunks.len() == 0 {
            return ChunkBuildStats::default();
        }
        let ghost bare = views::graph_of(*self);
        let ghost cs = chunks_view(chunks@);
        let mut sections: Vec<String> = Vec::new();
        let mut i: usize = 0;
        assert(text::texts(sections@) =~= Seq::empty());
        while i < chunks.len()
            invariant
                i <= chunks.len(),
                chunks@.len() <= u32::MAX,
                cs == chunks_view(chunks@),
                doc@ == builder::doc_id(rel@),
                self.wf(),
                (PartsV { g: views::graph_of(*self), sections: text::texts(sections@) })
                    == with_chunks(bare, rel@, cs, i as int, now),
                views::same_rest(*old(self), *self),
            decreases chunks.len() - i,
        {
            assert(cs[i as int] == chunks@[i as int].view());
            self.write_chunk(rel, &doc, &chunks[i], i as u32, &mut sections, now);
            i += 1;
        }
        proof {
            lemma_sections(bare, rel@, cs, cs.len() as int, now);
            assert(text::texts(sections@).len() == sections@.len());
        }
        let stats = ChunkBuildStats {
            docs: 1,
            chunks: chunks.len() as u32,
            sections: sections.len() as u32,
        };
        if let Some(files) = all_paths {
            if !links::is_linkable(rel) {
                self.drop_edges_by(&doc, "IMPORTS");
                self.write_imports(rel, &doc, content, files, now);
            }
        }
        stats
    }
}

pub open spec fn paths_view(o: Option<&Vec<String>>) -> Option<Seq<Seq<char>>> {
    match o {
        Some(v) => Some(text::texts(v@)),
        None => None,
    }
}

/// A document with its text and its chunks.
#[derive(Debug, PartialEq, Eq)]
pub struct SourceDoc {
    pub rel_path: String,
    pub content: String,
    pub chunks: Vec<DocChunk>,
}

/// The graph with the parts of the first `n` documents.
pub open spec fn with_all_parts(
    g: GraphV,
    docs: Seq<SourceDoc>,
    files: Seq<Seq<char>>,
    n: int,
    now: i64,
) -> GraphV
    decreases n,
{
    if n <= 0 {
        g
    } else {
        with_parts(
            with_all_parts(g, docs, files, n - 1, now),
            docs[n - 1].rel_path@,
            docs[n - 1].content@,
            chunks_view(docs[n - 1].chunks@),
            Some(files),
            now,
        )
    }
}

/// How many chunks the first `n` documents have.
pub open spec fn chunk_total(docs: Seq<SourceDoc>, n: int) -> nat
    decreases n,
{
    if n <= 0 {
        0
    } else {
        chunk_total(docs, n - 1) + docs[n - 1].chunks@.len()
    }
}

/// What is counted over the first `n` documents; every document counts, whether it has
/// parts or not.
pub open spec fn all_stats(
    g: GraphV,
    docs: Seq<SourceDoc>,
    files: Seq<Seq<char>>,
    n: int,
    now: i64,
) -> ChunkBuildStats
    decreases n,
{
    if n <= 0 {
        no_stats()
    } else {
        let before = all_stats(g, docs, files, n - 1, now);
        let s = parts_stats(
            with_all_parts(g, docs, files, n - 1, now),
            docs[n - 1].rel_path@,
            docs[n - 1].content@,
            chunks_view(docs[n - 1].chunks@),
            now,
        );
        ChunkBuildStats {
            docs: (before.docs + 1) as u32,
            chunks: (before.chunks + s.chunks) as u32,
            sections: (before.sections + s.sections) as u32,
        }
    }
}

proof fn lemma_chunk_total(docs: Seq<SourceDoc>, a: int, b: int)
    requires
        0 <= a <= b <= docs.len(),
    ensures
        chunk_total(docs, a) <= chunk_total(docs, b),
    decreases b - a,
{
    if a < b {
        lemma_chunk_total(docs, a, b - 1);
    }
}

proof fn lemma_parts_stats(g: GraphV, rel: Seq<char>, content: Seq<char>, cs: Seq<DocChunkV>, now: i64)
    requires
        cs.len() <= u32::MAX,
    ensures
        parts_stats(g, rel, content, cs, now).chunks <= cs.len(),
        parts_stats(g, rel, content, cs, now).sections <= cs.len(),
{
    let bare = views::without_parts(g, text::replace_char(rel, '\\', '/'));
    lemma_sections(bare, rel, cs, cs.len() as int, now);
}

/// The paths of the documents whose parts can be built.
pub open spec fn paths_to_build(nodes: Seq<GraphNode>) -> Seq<Seq<char>> {
    lists::paths_of(rows::kept(lists::overview(nodes, 500_000), lists::docs()))
}

/// Writes the parts of documents into a graph.
pub struct ChunkGraphBuilder<'a> {
    pub store: &'a mut GraphStore,
}

impl<'a> ChunkGraphBuilder<'a> {
    pub fn new(store: &'a mut GraphStore) -> (r: Self)
        ensures
            *r.store == *old(store),
            *final(r.store) == *final(store),
    {
        ChunkGraphBuilder { store }
    }

    /// The graph as it is.
    pub open spec fn graph(&self) -> GraphStore {
        *self.store
    }

    /// The paths of the documents whose parts can be built.
    pub fn doc_paths(&self) -> (r: Vec<String>)
        ensures
            text::texts(r@) == paths_to_build(self.graph().nodes@),
    {
        let all = self.store.all_nodes(500_000);
        let mut out: Vec<String> = Vec::new();
        let mut i: usize = 0;
        assert(text::texts(out@) =~= lists::paths_of(rows::kept(all@.take(0), lists::docs())));
        while i < all.len()
            invariant
                i <= all.len(),
                text::texts(out@) == lists::paths_of(rows::kept(all@.take(i as int), lists::docs())),
            decreases all.len() - i,
        {
            proof {
                assert(all@.take(i + 1) == all@.take(i as int).push(all@[i as int]));
                rows::lemma_kept_push(all@.take(i as int), all@[i as int], lists::docs());
            }
            if all[i].node_type == NodeType::Doc {
                if let Some(p) = &all[i].path {
                    proof {
                        text::lemma_texts_push(out@, *p);
                        let before = rows::kept(all@.take(i as int), lists::docs());
                        assert(lists::paths_of(before.push(all@[i as int])) =~= lists::paths_of(
                            before,
                        ).push(p@));
                    }
                    out.push(p.clone());
                }
            }
            i += 1;
        }
        assert(all@.take(i as int) == all@);
        out
    }

    /// Builds the parts of the documents that could be read.
    pub fn build_all(&mut self, docs: &Vec<SourceDoc>, now: i64) -> (r: ChunkBuildStats)
        requires
            old(self).store.wf(),
            docs@.len() <= u32::MAX,
            chunk_total(docs@, docs@.len() as int) <= u32::MAX,
        ensures
            final(self).store.wf(),
            views::graph_of(*final(self).store) == with_all_parts(
                views::graph_of(*old(self).store),
                docs@,
                store::doc_paths(old(self).store.nodes@, old(self).store.nodes@.len() as int),
                docs@.len() as int,
                now,
            ),
            r == all_stats(
                views::graph_of(*old(self).store),
                docs@,
                store::doc_paths(old(self).store.nodes@, old(self).store.nodes@.len() as int),
                docs@.len() as int,
                now,
            ),
            views::same_rest(*old(self).store, *final(self).store),
            *final(final(self).store) == *final(old(self).store),
    {
        let files = self.store.list_doc_paths();
        let ghost fs = text::texts(files@);
        let ghost g0 = views::graph_of(*self.store);
        let mut total = ChunkBuildStats::default();
        let mut i: usize = 0;
        while i < docs.len()
            invariant
                i <= docs.len(),
                docs@.len() <= u32::MAX,
                chunk_total(docs@, docs@.len() as int) <= u32::MAX,
                fs == text::texts(files@),
                g0 == views::graph_of(*old(self).store),
                self.store.wf(),
                views::graph_of(*self.store) == with_all_parts(g0, docs@, fs, i as int, now),
                total == all_stats(g0, docs@, fs, i as int, now),
                total.docs == i,
                total.chunks <= chunk_total(docs@, i as int),
                total.sections <= chunk_total(docs@, i as int),
                views::same_rest(*old(self).store, *self.store),
                *final(self.store) == *final(old(self).store),
            decreases docs.len() - i,
        {
            let d = &docs[i];
            proof {
                lemma_chunk_total(docs@, i + 1, docs@.len() as int);
                assert(chunks_view(d.chunks@).len() == d.chunks@.len());
                lemma_parts_stats(
                    views::graph_of(*self.store),
                    d.rel_path@,
                    d.content@,
                    chunks_view(d.chunks@),
                    now,
                );
            }
            let s = self.store.write_parts(&d.rel_path, &d.content, &d.chunks, Some(&files), now);
            total = ChunkBuildStats {
                docs: total.docs + 1,
                chunks: total.chunks + s.chunks,
                sections: total.sections + s.sections,
            };
            i += 1;
        }
        total
    }

    /// Brings the parts of one document up to date. Of a document that cannot be read they
    /// go.
    pub fn build_file(
        &mut self,
        rel_path: &str,
        content: Option<&str>,
        chunks: &Vec<DocChunk>,
        now: i64,
    ) -> (r: ChunkBuildStats)
        requires
            old(self).store.wf(),
            chunks@.len() <= u32::MAX,
        ensures
            final(self).store.wf(),
            ({
                let rel = text::replace_char(rel_path@, '\\', '/');
                let g = views::graph_of(*old(self).store);
                let files = store::doc_paths(
                    old(self).store.nodes@,
                    old(self).store.nodes@.len() as int,
                );
                match content {
                    Some(c) => views::graph_of(*final(self).store) == with_parts(
                        g,
                        rel,
                        c@,
                        chunks_view(chunks@),
                        Some(files),
                        now,
                    ) && hung::are_built(
                        g,
                        rel,
                        c@,
                        chunks_view(chunks@),
                        Some(files),
                        views::graph_of(*final(self).store),
                    ) && r == parts_stats(g, rel, c@, chunks_view(chunks@), now),
                    None => views::graph_of(*final(self).store) == views::without_parts(
                        g,
                        text::replace_char(rel, '\\', '/'),
                    ) && r == no_stats(),
                }
            }),
            views::same_rest(*old(self).store, *final(self).store),
            *final(final(self).store) == *final(old(self).store),
    {
        let rel = text::replace_char_of(rel_path, '\\', '/');
        match content {
            Some(c) => {
                let files = self.store.list_doc_paths();
                proof {
                    hung::law_chunks_hang_at_their_sections(
                        views::graph_of(*self.store),
                        rel@,
                        c@,
                        chunks_view(chunks@),
                        Some(text::texts(files@)),
                        now,
                    );
                }
                self.store.write_parts(&rel, c, chunks, Some(&files), now)
            },
            None => {
                self.store.drop_parts(&rel);
                ChunkBuildStats::default()
            },
        }
    }

    /// Builds the parts of one document, in place of those that it had. With the paths of
    /// files given, the imports of source code become edges too.
    pub fn build_doc(
        &mut self,
        rel_path: &String,
        content: &str,
        chunks: &Vec<DocChunk>,
        all_paths: Option<&Vec<String>>,
        now: i64,
    ) -> (r: ChunkBuildStats)
        requires
            old(self).store.wf(),
            chunks@.len() <= u32::MAX,
        ensures
            final(self).store.wf(),
            views::graph_of(*final(self).store) == with_parts(
                views::graph_of(*old(self).store),
                rel_path@,
                content@,
                chunks_view(chunks@),
                paths_view(all_paths),
                now,
            ),
            r == parts_stats(
                views::graph_of(*old(self).store),
                rel_path@,
                content@,
                chunks_view(chunks@),
                now,
            ),
            hung::are_built(
                views::graph_of(*old(self).store),
                rel_path@,
                content@,
                chunks_view(chunks@),
                paths_view(all_paths),
                views::graph_of(*final(self).store),
            ),
            views::same_rest(*old(self).store, *final(self).store),
            *final(final(self).store) == *final(old(self).store),
    {
        proof {
            hung::law_chunks_hang_at_their_sections(
                views::graph_of(*self.store),
                rel_path@,
                content@,
                chunks_view(chunks@),
                paths_view(all_paths),
                now,
            );
        }
        self.store.write_parts(rel_path, content, chunks, all_paths, now)
    }
}

/// Whether an id is that of one of the first `n` chunks or of a section of one.
pub open spec fn is_part_id(rel: Seq<char>, cs: Seq<DocChunkV>, n: int, id: Seq<char>) -> bool {
    exists|k: int| 0 <= k < n && is_id_of(rel, #[trigger] cs[k], k as nat, id)
}

pub open spec fn is_id_of(rel: Seq<char>, c: DocChunkV, k: nat, id: Seq<char>) -> bool {
    id == chunk_id(rel, k) || (c.path.len() > 0 && id == section_id(rel, c.path))
}

pub open spec fn only_known_parts(g: GraphV, rel: Seq<char>, cs: Seq<DocChunkV>, n: int) -> bool {
    forall|i: int|
        0 <= i < g.nodes.len() && views::is_part(rel)(#[trigger] g.nodes[i]) ==> is_part_id(
            rel,
            cs,
            n,
            g.nodes[i].id,
        )
}

/// Building a document again leaves no part of before: every part that it has then is one of
/// its chunks or a section of one, whatever it was built from earlier.
pub proof fn law_rebuilding_leaves_no_old_parts(
    g: GraphV,
    rel: Seq<char>,
    content: Seq<char>,
    cs: Seq<DocChunkV>,
    files: Option<Seq<Seq<char>>>,
    now: i64,
)
    requires
        text::replace_char(rel, '\\', '/') == rel,
    ensures
        only_known_parts(with_parts(g, rel, content, cs, files, now), rel, cs, cs.len() as int),
{
    let bare = views::without_parts(g, rel);
    rows::lemma_kept(g.nodes, views::is_no_part(rel));
    assert forall|i: int| 0 <= i < bare.nodes.len() implies !views::is_part(rel)(
        #[trigger] bare.nodes[i],
    ) by {
        assert(views::is_no_part(rel)(bare.nodes[i]));
    }
    if has_parts(bare, rel, content, cs) {
        lemma_known_parts(bare, rel, cs, cs.len() as int, now);
        let built = with_chunks(bare, rel, cs, cs.len() as int, now).g;
        if files is Some && !links::has_links(rel) {
            let few = views::fewer_edges(
                built,
                views::not_made_from_by(builder::doc_id(rel), "IMPORTS"@),
            );
            lemma_imports_keep_nodes(
                few,
                rel,
                imports_of(content),
                files->0,
                imports_of(content).len() as int,
                now,
            );
        }
    }
}

proof fn lemma_imports_keep_nodes(
    g: GraphV,
    rel: Seq<char>,
    names: Seq<Seq<char>>,
    files: Seq<Seq<char>>,
    n: int,
    now: i64,
)
    ensures
        with_imports(g, rel, names, files, n, now).nodes == g.nodes,
    decreases n,
{
    if n > 0 {
        lemma_imports_keep_nodes(g, rel, names, files, n - 1, now);
    }
}

proof fn lemma_put_known(g: GraphV, x: NodeV, now: i64, rel: Seq<char>, cs: Seq<DocChunkV>, n: int)
    requires
        only_known_parts(g, rel, cs, n),
        is_part_id(rel, cs, n, x.id),
    ensures
        only_known_parts(views::put_node(g, x, now), rel, cs, n),
{
    let after = views::put_node(g, x, now);
    rows::lemma_row_index(g.nodes, views::nv_key(), x.id, 0);
    assert forall|i: int|
        0 <= i < after.nodes.len() && views::is_part(rel)(#[trigger] after.nodes[i]) implies is_part_id(
        rel,
        cs,
        n,
        after.nodes[i].id,
    ) by {
        if i < g.nodes.len() && after.nodes[i] == g.nodes[i] {
            assert(views::is_part(rel)(g.nodes[i]));
        }
    }
}

proof fn lemma_known_parts(g: GraphV, rel: Seq<char>, cs: Seq<DocChunkV>, n: int, now: i64)
    requires
        0 <= n <= cs.len(),
        forall|i: int|
            0 <= i < g.nodes.len() ==> !views::is_part(rel)(#[trigger] g.nodes[i]),
    ensures
        only_known_parts(with_chunks(g, rel, cs, n, now).g, rel, cs, n),
    decreases n,
{
    if n > 0 {
        lemma_known_parts(g, rel, cs, n - 1, now);
        let before = with_chunks(g, rel, cs, n - 1, now);
        let c = cs[n - 1];
        let k = (n - 1) as nat;
        assert forall|i: int|
            0 <= i < before.g.nodes.len() && views::is_part(rel)(
                #[trigger] before.g.nodes[i],
            ) implies is_part_id(rel, cs, n, before.g.nodes[i].id) by {
            let id = before.g.nodes[i].id;
            let j = choose|j: int| 0 <= j < n - 1 && is_id_of(rel, #[trigger] cs[j], j as nat, id);
            assert(is_id_of(rel, cs[j], j as nat, id));
        }
        assert(is_id_of(rel, cs[n - 1], k, chunk_id(rel, k)));
        lemma_put_known(before.g, chunk_node(rel, c, k), now, rel, cs, n);
        let one = PartsV { g: views::put_node(before.g, chunk_node(rel, c, k), now), ..before };
        if c.path.len() > 0 {
            assert(is_id_of(rel, cs[n - 1], k, section_id(rel, c.path)));
            lemma_put_known(one.g, section_node(rel, c.path), now, rel, cs, n);
        }
    }
}

} // verus!
