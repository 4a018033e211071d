//! What a page says: its text, taken out of its markup.

use crate::rows;
use crate::text;
use crate::text::CharClass;
use vstd::prelude::*;

verus! {

/// The elements that are read where nothing better is found.
pub const TEXT_ELEMENTS: &'static str = "p,li,h1,h2,h3,h4,h5,pre,code,blockquote";

/// The part of a page that is to be read, as HTML.
pub uninterp spec fn readable_part(html: Seq<char>, url: Seq<char>) -> Option<Seq<char>>;

/// HTML without what could do harm.
pub uninterp spec fn safe_html(html: Seq<char>) -> Seq<char>;

/// HTML as Markdown.
pub uninterp spec fn markdown_of(html: Seq<char>) -> Option<Seq<char>>;

/// The texts in each element of a page that a selector chooses.
pub uninterp spec fn selected_texts(html: Seq<char>, selector: Seq<char>) -> Option<
    Seq<Seq<Seq<char>>>,
>;

pub open spec fn lists_view(v: Seq<Vec<String>>) -> Seq<Seq<Seq<char>>> {
    Seq::new(v.len(), |i: int| text::texts(v[i]@))
}

/// The part of a page that is to be read; wraps `readability::extractor::extract`, whose
/// content depends on the page and its address alone. Where the address is none, or the page
/// cannot be parsed, there is nothing.
#[verifier::external_body]
fn extract_readable(html: &str, url: &str) -> (r: Option<String>)
    ensures
        match r {
            Some(s) => readable_part(html@, url@) == Some(s@),
            None => readable_part(html@, url@) is None,
        },
{
    let address = reqwest::Url::parse(url).ok()?;
    let mut cursor = std::io::Cursor::new(html.as_bytes());
    readability::extractor::extract(&mut cursor, &address).ok().map(|p| p.content)
}

/// HTML without what could do harm; wraps `ammonia::clean`, whose output depends on the HTML
/// alone.
#[verifier::external_body]
fn clean_html(html: &str) -> (r: String)
    ensures
        r@ == safe_html(html@),
{
    ammonia::clean(html)
}

/// HTML as Markdown; wraps `htmd::convert`, whose output depends on the HTML alone.
#[verifier::external_body]
fn convert_html(html: &str) -> (r: Option<String>)
    ensures
        match r {
            Some(s) => markdown_of(html@) == Some(s@),
            None => markdown_of(html@) is None,
        },
{
    htmd::convert(html).ok()
}

/// The texts in each element that a selector chooses, in the order of the page; wraps
/// `scraper::Html::select`, whose answer depends on the page and the selector alone. A
/// selector that is none chooses nothing.
#[verifier::external_body]
fn select_texts(html: &str, selector: &str) -> (r: Option<Vec<Vec<String>>>)
    ensures
        match r {
            Some(v) => selected_texts(html@, selector@) == Some(lists_view(v@)),
            None => selected_texts(html@, selector@) is None,
        },
{
    let doc = scraper::Html::parse_document(html);
    let sel = scraper::Selector::parse(selector).ok()?;
    Some(doc.select(&sel).map(|n| n.text().map(|t| t.to_string()).collect()).collect())
}

pub open spec fn not_empty() -> spec_fn(Seq<char>) -> bool {
    |s: Seq<char>| s.len() > 0
}

/// The words of texts, with one blank between.
pub open spec fn squeezed(parts: Seq<Seq<char>>) -> Seq<char> {
    text::join(
        rows::kept(text::split_by(text::join(parts, " "@), text::space()), not_empty()),
        " "@,
    )
}

pub open spec fn all_squeezed(elements: Seq<Seq<Seq<char>>>) -> Seq<Seq<char>> {
    Seq::new(elements.len(), |i: int| squeezed(elements[i]))
}

/// The elements that have words, each in a line.
pub open spec fn element_lines(elements: Seq<Seq<Seq<char>>>) -> Seq<char> {
    text::join(rows::kept(all_squeezed(elements), not_empty()), "\n"@)
}

/// The text of a page, taken from its elements.
pub open spec fn simple_text(html: Seq<char>) -> Seq<char> {
    match selected_texts(html, TEXT_ELEMENTS@) {
        Some(elements) => element_lines(elements),
        None => Seq::empty(),
    }
}

/// The Markdown where it is more than blanks, else the other text.
pub open spec fn or_simple(markdown: Option<Seq<char>>, simple: Seq<char>) -> Seq<char> {
    match markdown {
        Some(m) if text::trim(m).len() > 0 => m,
        _ => simple,
    }
}

/// What a page says, as Markdown: the part that is to be read, or the text of its elements.
pub open spec fn page_markdown(html: Seq<char>, url: Seq<char>) -> Seq<char> {
    or_simple(
        match readable_part(html, url) {
            Some(part) => markdown_of(safe_html(part)),
            None => None,
        },
        simple_text(html),
    )
}

fn squeeze(parts: &Vec<String>) -> (r: String)
    ensures
        r@ == squeezed(text::texts(parts@)),
{
    let joined = text::join_of(parts, " ");
    let words = text::split_of(&joined, &CharClass::Space);
    let ghost wv = text::texts(words@);
    let mut out: Vec<String> = Vec::new();
    let mut i: usize = 0;
    assert(text::texts(out@) =~= rows::kept(wv.take(0), not_empty()));
    while i < words.len()
        invariant
            i <= words.len(),
            wv == text::texts(words@),
            text::texts(out@) == rows::kept(wv.take(i as int), not_empty()),
        decreases words.len() - i,
    {
        proof {
            assert(wv[i as int] == words@[i as int]@);
            assert(wv.take(i + 1) == wv.take(i as int).push(wv[i as int]));
            rows::lemma_kept_push(wv.take(i as int), wv[i as int], not_empty());
        }
        if text::chars_of(&words[i]).len() > 0 {
            let s = words[i].clone();
            proof {
                text::lemma_texts_push(out@, s);
            }
            out.push(s);
        }
        i += 1;
    }
    assert(wv.take(i as int) == wv);
    text::join_of(&out, " ")
}

/// The elements that have words, each in a line.
pub fn lines_of_elements(elements: &Vec<Vec<String>>) -> (r: String)
    ensures
        r@ == element_lines(lists_view(elements@)),
{
    let ghost all = all_squeezed(lists_view(elements@));
    let mut out: Vec<String> = Vec::new();
    let mut i: usize = 0;
    assert(text::texts(out@) =~= rows::kept(all.take(0), not_empty()));
    while i < elements.len()
        invariant
            i <= elements.len(),
            all == all_squeezed(lists_view(elements@)),
            text::texts(out@) == rows::kept(all.take(i as int), not_empty()),
        decreases elements.len() - i,
    {
        let s = squeeze(&elements[i]);
        proof {
            assert(all[i as int] == s@);
            assert(all.take(i + 1) == all.take(i as int).push(all[i as int]));
            rows::lemma_kept_push(all.take(i as int), all[i as int], not_empty());
        }
        if text::chars_of(&s).len() > 0 {
            proof {
                text::lemma_texts_push(out@, s);
            }
            out.push(s);
        }
        i += 1;
    }
    assert(all.take(i as int) == all);
    text::join_of(&out, "\n")
}

/// The text of a page, taken from its elements.
pub fn extract_text_simple(html: &str) -> (r: String)
    ensures
        r@ == simple_text(html@),
{
    match select_texts(html, TEXT_ELEMENTS) {
        Some(elements) => lines_of_elements(&elements),
        None => {
            let none = String::new();
            assert(none@ =~= Seq::<char>::empty());
            none
        },
    }
}

/// Whether Markdown is more than blanks.
pub fn says_something(markdown: &str) -> (r: bool)
    ensures
        r == (text::trim(markdown@).len() > 0),
{
    text::chars_of(&text::trim_space(markdown)).len() > 0
}

/// What a page says, as Markdown.
pub fn extract_readable_markdown(html: &str, url: &str) -> (r: String)
    ensures
        r@ == page_markdown(html@, url@),
{
    if let Some(part) = extract_readable(html, url) {
        let clean = clean_html(&part);
        if let Some(m) = convert_html(&clean) {
            if says_something(&m) {
                return m;
            }
        }
    }
    extract_text_simple(html)
}

/// What a page says, given its bytes.
pub fn page_text(body: &Vec<u8>, url: &str) -> (r: String)
    ensures
        r@ == page_markdown(text::lossy_utf8(body@), url@),
{
    let html = text::decode_lossy(body);
    extract_readable_markdown(&html, url)
}

} // verus!
