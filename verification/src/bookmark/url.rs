//! Addresses of pages: the form under which each is kept once, and which hosts are not to be
//! fetched from.

use crate::text;
use crate::text::CharClass;
use vstd::prelude::*;

verus! {

/// How much of an address is shown in an error.
pub const SHOWN_CHARS: usize = 32;

/// Whether the text begins with the prefix, whatever the case of ASCII letters.
pub open spec fn begins(s: Seq<char>, p: Seq<char>) -> bool {
    text::starts_with(text::ascii_lowercase(s), p)
}

/// The scheme of an address, where it is one that can be fetched.
pub open spec fn scheme_of(s: Seq<char>) -> Option<Seq<char>> {
    if begins(s, "https://"@) {
        Some("https"@)
    } else if begins(s, "http://"@) {
        Some("http"@)
    } else {
        None
    }
}

/// The port that a scheme has where none is said.
pub open spec fn default_port(scheme: Seq<char>) -> Seq<char> {
    if scheme == "https"@ {
        "443"@
    } else {
        "80"@
    }
}

/// A host and port without the port that the scheme has anyway. What has brackets stays as
/// it is.
pub open spec fn without_default_port(auth: Seq<char>, scheme: Seq<char>) -> Seq<char> {
    match text::last_index(auth, ':') {
        Some(i) => {
            let port = auth.skip(i + 1);
            if !auth.contains('[') && port.len() > 0 && text::all_digits(port) && port == default_port(
                scheme,
            ) {
                auth.take(i)
            } else {
                auth
            }
        },
        None => auth,
    }
}

/// What ends the host of an address.
pub open spec fn host_ends() -> text::Class {
    text::one_of(seq!['/', '?', '#'])
}

/// Where the host of what stands behind the scheme ends.
pub open spec fn host_end(after: Seq<char>) -> int {
    match text::index_from(after, host_ends(), 0) {
        Some(i) => i,
        None => after.len() as int,
    }
}

/// The form of an address of the scheme, given what stands behind `://`.
pub open spec fn normal_form(scheme: Seq<char>, after: Seq<char>) -> Seq<char> {
    let cut = host_end(after);
    scheme + "://"@ + without_default_port(text::lowercase(after.take(cut)), scheme)
        + text::trim_end_by(text::before_first(after.skip(cut), '#'), text::only('/'))
}

/// The form under which an address is kept, or what is wrong with it.
pub open spec fn normalized(raw: Seq<char>) -> Result<Seq<char>, Seq<char>> {
    let s = text::trim(raw);
    match scheme_of(s) {
        _ if s.len() == 0 => Err("书签 URL 为空"@),
        None => Err(
            "不支持的 URL 协议（仅允许 http/https）: "@ + if s.len() <= SHOWN_CHARS {
                s
            } else {
                s.take(SHOWN_CHARS as int)
            },
        ),
        Some(scheme) => {
            let after = s.skip((scheme.len() + 3) as int);
            if after.len() == 0 || host_end(after) == 0 {
                Err("URL 缺少主机名"@)
            } else {
                Ok(normal_form(scheme, after))
            }
        },
    }
}

pub open spec fn result_view(r: Result<String, String>) -> Result<Seq<char>, Seq<char>> {
    match r {
        Ok(s) => Ok(s@),
        Err(e) => Err(e@),
    }
}

/// A host and port without the port that the scheme has anyway.
pub fn strip_default_port(auth: &str, scheme: &str) -> (r: String)
    ensures
        r@ == without_default_port(auth@, scheme@),
{
    let cs = text::chars_of(auth);
    match text::last_index_of(&cs, ':') {
        Some(i) => {
            let port = text::slice_chars(&cs, i + 1, cs.len());
            assert(port@ =~= auth@.skip(i + 1));
            let standard = if text::str_eq(scheme, "https") {
                text::chars_of("443")
            } else {
                text::chars_of("80")
            };
            let same = text::str_eq(&text::string_of(&port), &text::string_of(&standard));
            if !text::char_in('[', &cs) && port.len() > 0 && text::is_all_digits(&port) && same {
                let r = text::slice_text(&cs, 0, i);
                assert(r@ =~= auth@.take(i as int));
                r
            } else {
                auth.to_owned()
            }
        },
        None => auth.to_owned(),
    }
}

/// The form under which an address is kept: only `http` and `https` are, the host is in
/// small letters and without a port that goes without saying, there is no fragment and no
/// slash at the end.
pub fn normalize_url(raw: &str) -> (r: Result<String, String>)
    ensures
        result_view(r) == normalized(raw@),
{
    let t = text::trim_space(raw);
    let s = text::chars_of(&t);
    if s.len() == 0 {
        return Err("书签 URL 为空".to_owned());
    }
    let low = text::ascii_lowercase_of(&t);
    proof {
        reveal_strlit("https");
        reveal_strlit("http");
        reveal_strlit("https://");
        reveal_strlit("http://");
    }
    let scheme: &str;
    let skip: usize;
    if text::has_prefix(&low, "https://") {
        scheme = "https";
        skip = 8;
    } else if text::has_prefix(&low, "http://") {
        scheme = "http";
        skip = 7;
    } else {
        let mut e = "不支持的 URL 协议（仅允许 http/https）: ".to_owned();
        e.push_str(&text::take_chars(&t, SHOWN_CHARS));
        return Err(e);
    }
    assert(skip == scheme@.len() + 3);
    assert(skip <= s.len());
    let after = text::slice_chars(&s, skip, s.len());
    assert(after@ =~= s@.skip(skip as int));
    let marks: Vec<char> = vec!['/', '?', '#'];
    assert(marks@ =~= seq!['/', '?', '#']);
    let cut = match text::index_at(&after, &CharClass::OneOf(marks), 0) {
        Some(i) => i,
        None => after.len(),
    };
    if after.len() == 0 || cut == 0 {
        return Err("URL 缺少主机名".to_owned());
    }
    let auth = text::slice_text(&after, 0, cut);
    assert(auth@ =~= after@.take(cut as int));
    let rest = text::slice_text(&after, cut, after.len());
    assert(rest@ =~= after@.skip(cut as int));
    let host = strip_default_port(&text::to_lower(&auth), scheme);
    let path = text::trim_end_of(&text::before_first_of(&rest, '#'), &CharClass::Only('/'));
    let mut out = scheme.to_owned();
    out.push_str("://");
    out.push_str(&host);
    out.push_str(&path);
    assert(out@ =~= normal_form(scheme@, after@));
    Ok(out)
}

proof fn lemma_index_in_front(a: Seq<char>, b: Seq<char>, class: text::Class, i: int)
    requires
        0 <= i <= a.len(),
    ensures
        match text::index_from(a, class, i) {
            Some(k) => text::index_from(a + b, class, i) == Some(k) && i <= k < a.len(),
            None => text::index_from(a + b, class, i) == text::index_from(
                a + b,
                class,
                a.len() as int,
            ),
        },
    decreases a.len() - i,
{
    if i < a.len() {
        assert((a + b)[i] == a[i]);
        if !class(a[i]) {
            lemma_index_in_front(a, b, class, i + 1);
        }
    }
}

proof fn lemma_first_in_front(a: Seq<char>, b: Seq<char>, c: char)
    ensures
        a.contains(c) ==> text::before_first(a + b, c) == text::before_first(a, c),
        !a.contains(c) ==> text::before_first(a + b, c) == a + text::before_first(b, c),
{
    lemma_index_in_front(a, b, text::only(c), 0);
    lemma_index_is_first(a, c, 0);
    lemma_index_is_first(b, c, 0);
    match text::index_from(a, text::only(c), 0) {
        Some(k) => {
            assert((a + b).take(k) =~= a.take(k));
        },
        None => {
            lemma_index_behind(a, b, text::only(c), 0);
            match text::index_from(b, text::only(c), 0) {
                Some(k) => {
                    assert((a + b).take(a.len() + k) =~= a + b.take(k));
                },
                None => {},
            }
        },
    }
}

proof fn lemma_index_is_first(a: Seq<char>, c: char, i: int)
    requires
        0 <= i <= a.len(),
    ensures
        match text::index_from(a, text::only(c), i) {
            Some(k) => i <= k < a.len() && a[k] == c,
            None => forall|x: int| i <= x < a.len() ==> a[x] != c,
        },
    decreases a.len() - i,
{
    if i < a.len() && a[i] != c {
        lemma_index_is_first(a, c, i + 1);
    }
}

proof fn lemma_index_behind(a: Seq<char>, b: Seq<char>, class: text::Class, i: int)
    requires
        0 <= i <= b.len(),
    ensures
        text::index_from(a + b, class, a.len() + i) == match text::index_from(b, class, i) {
            Some(k) => Some(a.len() + k),
            None => None,
        },
    decreases b.len() - i,
{
    if i < b.len() {
        assert((a + b)[a.len() + i] == b[i]);
        if !class(b[i]) {
            lemma_index_behind(a, b, class, i + 1);
        }
    }
}

proof fn lemma_split_off(after: Seq<char>, more: Seq<char>)
    requires
        more.len() > 0,
        host_ends()(more[0]),
    ensures
        host_end(after + more) == host_end(after),
        0 <= host_end(after) <= after.len(),
        (after + more).take(host_end(after)) == after.take(host_end(after)),
        (after + more).skip(host_end(after)) == after.skip(host_end(after)) + more,
{
    lemma_index_in_front(after, more, host_ends(), 0);
    match text::index_from(after, host_ends(), 0) {
        Some(k) => {
            assert((after + more).take(k) =~= after.take(k));
            assert((after + more).skip(k) =~= after.skip(k) + more);
        },
        None => {
            let n = after.len() as int;
            assert((after + more)[n] == more[0]);
            assert((after + more).take(n) =~= after.take(n));
            assert((after + more).skip(n) =~= after.skip(n) + more);
        },
    }
}

/// A fragment does not make another address.
pub proof fn law_fragments_do_not_matter(scheme: Seq<char>, after: Seq<char>, fragment: Seq<char>)
    ensures
        normal_form(scheme, after + (seq!['#'] + fragment)) == normal_form(scheme, after),
{
    let more = seq!['#'] + fragment;
    assert(seq!['/', '?', '#'][2] == '#');
    assert(seq!['/', '?', '#'].contains('#'));
    lemma_split_off(after, more);
    let rest = after.skip(host_end(after));
    lemma_first_in_front(rest, more, '#');
    if !rest.contains('#') {
        assert(text::index_from(more, text::only('#'), 0) == Some(0int));
        assert(more.take(0) =~= Seq::<char>::empty());
        assert(rest + Seq::<char>::empty() =~= rest);
        lemma_index_is_first(rest, '#', 0);
    }
}

/// A slash at the end does not make another address.
pub proof fn law_slashes_at_the_end_do_not_matter(scheme: Seq<char>, after: Seq<char>)
    ensures
        normal_form(scheme, after.push('/')) == normal_form(scheme, after),
{
    let more = seq!['/'];
    assert(after.push('/') =~= after + more);
    assert(seq!['/', '?', '#'][0] == '/');
    assert(seq!['/', '?', '#'].contains('/'));
    lemma_split_off(after, more);
    let rest = after.skip(host_end(after));
    lemma_first_in_front(rest, more, '#');
    if !rest.contains('#') {
        lemma_index_is_first(rest, '#', 0);
        lemma_index_is_first(more, '#', 0);
        assert((rest + more).drop_last() =~= rest);
    }
}

/// What stands between the scheme of an address and the path, as it is given.
pub open spec fn authority(raw: Seq<char>) -> Seq<char> {
    let s = text::trim(raw);
    match scheme_of(s) {
        Some(scheme) => {
            let after = s.skip((scheme.len() + 3) as int);
            after.take(host_end(after))
        },
        None => Seq::empty(),
    }
}

/// Whether the authority says its port at most once, behind a host; in brackets anything
/// may stand.
pub open spec fn says_one_port(auth: Seq<char>) -> bool {
    auth.contains('[') || (auth.len() > 0 && auth[0] != ':' && forall|i: int, j: int|
        0 <= i < j < auth.len() ==> !((#[trigger] auth[i]) == ':' && (#[trigger] auth[j]) == ':'))
}

proof fn lemma_host_end(after: Seq<char>)
    ensures
        0 <= host_end(after) <= after.len(),
        forall|i: int| 0 <= i < host_end(after) ==> !host_ends()(#[trigger] after[i]),
        host_end(after) < after.len() ==> host_ends()(after[host_end(after)]),
{
    lemma_index_of_class(after, host_ends(), 0);
}

proof fn lemma_index_of_class(a: Seq<char>, class: text::Class, i: int)
    requires
        0 <= i <= a.len(),
    ensures
        match text::index_from(a, class, i) {
            Some(k) => i <= k < a.len() && class(a[k]) && forall|x: int|
                i <= x < k ==> !class(#[trigger] a[x]),
            None => forall|x: int| i <= x < a.len() ==> !class(#[trigger] a[x]),
        },
    decreases a.len() - i,
{
    if i < a.len() && !class(a[i]) {
        lemma_index_of_class(a, class, i + 1);
    }
}

proof fn lemma_last_index(s: Seq<char>, c: char)
    ensures
        match text::last_index(s, c) {
            Some(k) => 0 <= k < s.len() && s[k] == c && forall|x: int|
                k < x < s.len() ==> (#[trigger] s[x]) != c,
            None => forall|x: int| 0 <= x < s.len() ==> (#[trigger] s[x]) != c,
        },
    decreases s.len(),
{
    if s.len() > 0 && s.last() != c {
        lemma_last_index(s.drop_last(), c);
        assert forall|x: int| 0 <= x < s.len() - 1 implies s[x] == s.drop_last()[x] by {}
    }
}

/// What stands behind the host of a kept address: it is empty or begins where a host ends,
/// holds no `#` and does not end with a slash.
proof fn lemma_path(after: Seq<char>)
    ensures
        ({
            let rest = after.skip(host_end(after));
            let path = text::trim_end_by(text::before_first(rest, '#'), text::only('/'));
            &&& path.len() <= rest.len()
            &&& path == rest.take(path.len() as int)
            &&& path.len() > 0 ==> host_ends()(path[0]) && path.last() != '/'
            &&& forall|i: int| 0 <= i < path.len() ==> (#[trigger] path[i]) != '#'
        }),
{
    lemma_host_end(after);
    let rest = after.skip(host_end(after));
    let front = text::before_first(rest, '#');
    lemma_index_of_class(rest, text::only('#'), 0);
    text::lemma_trim_end(front, text::only('/'));
    let path = text::trim_end_by(front, text::only('/'));
    assert(front.take(path.len() as int) =~= rest.take(path.len() as int));
    if path.len() > 0 {
        assert(path[0] == after[host_end(after)]);
    }
    assert forall|i: int| 0 <= i < path.len() implies (#[trigger] path[i]) != '#' by {
        assert(path[i] == rest[i]);
        assert(!text::only('#')(rest[i]));
    }
}

/// Whether no character of the text ends a host.
pub open spec fn ends_no_host(s: Seq<char>) -> bool {
    forall|i: int| 0 <= i < s.len() ==> !host_ends()(#[trigger] s[i])
}

/// Whether small letters bring no blanks, no end of the host and no other port into an
/// authority.
pub open spec fn keeps_separators(auth: Seq<char>, low: Seq<char>) -> bool {
    &&& auth.len() > 0 ==> low.len() > 0
    &&& text::has_no_space(auth) ==> text::has_no_space(low)
    &&& ends_no_host(auth) ==> ends_no_host(low)
    &&& says_one_port(auth) ==> says_one_port(low)
}

/// Whether the authority keeps its separators in small letters, and the host that is kept of
/// it is in small letters already.
pub open spec fn stays_small(auth: Seq<char>, scheme: Seq<char>) -> bool {
    let low = text::lowercase(auth);
    let host = without_default_port(low, scheme);
    keeps_separators(auth, low) && text::lowercase(host) == host
}

/// The host that is kept of an authority in small letters.
proof fn lemma_host(low: Seq<char>, scheme: Seq<char>)
    requires
        low.len() > 0,
        says_one_port(low),
        text::has_no_space(low),
        ends_no_host(low),
    ensures
        ({
            let host = without_default_port(low, scheme);
            &&& 0 < host.len() <= low.len()
            &&& host == low.take(host.len() as int)
            &&& text::has_no_space(host)
            &&& ends_no_host(host)
            &&& without_default_port(host, scheme) == host
        }),
{
    let host = without_default_port(low, scheme);
    lemma_last_index(low, ':');
    lemma_last_index(host, ':');
    if host != low {
        let i = text::last_index(low, ':')->0;
        assert(low[i] == ':');
        assert(!low.contains('['));
        assert(host == low.take(i));
        assert(i > 0);
        assert forall|x: int| 0 <= x < host.len() implies (#[trigger] host[x]) != ':' by {
            assert(host[x] == low[x]);
        }
    } else {
        assert(low.take(low.len() as int) =~= low);
    }
    assert forall|i: int| 0 <= i < host.len() implies host[i] == low[i] by {}
}

/// An ASCII authority keeps its separators, and stays as it is in small letters.
proof fn lemma_ascii_stays_small(auth: Seq<char>, scheme: Seq<char>)
    requires
        auth.len() > 0,
        text::all_ascii(auth),
        says_one_port(auth),
        text::has_no_space(auth),
        ends_no_host(auth),
    ensures
        stays_small(auth, scheme),
{
    let low = text::lowercase(auth);
    assert forall|i: int| 0 <= i < low.len() implies (#[trigger] low[i]) as u32 <= 127
        && text::ascii_lower(low[i]) == low[i] && !text::is_space(low[i]) && !host_ends()(low[i])
        && (low[i] == ':' <==> auth[i] == ':') && (low[i] == '[' <==> auth[i] == '[') by {
        assert(auth[i] as u32 <= 127);
        assert(!text::is_space(auth[i]));
        text::lemma_ascii_lower(auth[i]);
        assert(low[i] == text::ascii_lower(auth[i]));
        assert(!host_ends()(auth[i]));
        let ends = seq!['/', '?', '#'];
        assert(text::ascii_lower('/') == '/');
        assert(text::ascii_lower('?') == '?');
        assert(text::ascii_lower('#') == '#');
        assert(text::ascii_lower(':') == ':');
        assert(text::ascii_lower('[') == '[');
        if ends.contains(low[i]) {
            let k = choose|k: int| 0 <= k < ends.len() && ends[k] == low[i];
            assert(ends[k] == auth[i]);
            assert(ends.contains(auth[i]));
        }
    }
    assert(says_one_port(low)) by {
        if auth.contains('[') {
            let k = choose|k: int| 0 <= k < auth.len() && auth[k] == '[';
            assert(low[k] == '[');
        } else {
            assert forall|i: int, j: int| 0 <= i < j < low.len() implies !((#[trigger] low[i]) == ':'
                && (#[trigger] low[j]) == ':') by {
                assert(!(auth[i] == ':' && auth[j] == ':'));
            }
        }
    }
    lemma_host(low, scheme);
    let host = without_default_port(low, scheme);
    assert forall|i: int| 0 <= i < host.len() implies host[i] == low[i] by {}
    assert(text::all_ascii(host));
    assert(text::ascii_lowercase(host) =~= host);
}

proof fn lemma_scheme_of(scheme: Seq<char>, after: Seq<char>)
    requires
        scheme == "http"@ || scheme == "https"@,
    ensures
        scheme_of(scheme + "://"@ + after) == Some(scheme),
        (scheme + "://"@ + after).skip((scheme.len() + 3) as int) == after,
        scheme.len() + 3 <= (scheme + "://"@ + after).len(),
        text::has_no_space(scheme + "://"@),
        forall|i: int| 0 <= i < scheme.len() + 3 ==> (#[trigger] (scheme + "://"@)[i]) != '#',
{
    reveal_strlit("https");
    reveal_strlit("http");
    reveal_strlit("https://");
    reveal_strlit("http://");
    reveal_strlit("://");
    let s = scheme + "://"@ + after;
    assert(s.skip((scheme.len() + 3) as int) =~= after);
    let low = text::ascii_lowercase(s);
    if scheme == "https"@ {
        assert(low.subrange(0, 8) =~= "https://"@);
    } else {
        assert(low.subrange(0, 7) =~= "http://"@);
        assert(low[4] == ':');
        assert("https://"@[4] == 's');
        if text::starts_with(low, "https://"@) {
            assert(low.subrange(0, 8)[4] == low[4]);
        }
    }
}

/// What comes out of an address in one piece has its scheme, and comes out again where a
/// fragment is put behind the address.
pub proof fn law_an_address_with_a_fragment_is_the_same(
    raw: Seq<char>,
    u: Seq<char>,
    fragment: Seq<char>,
)
    requires
        normalized(raw) == Ok::<Seq<char>, Seq<char>>(u),
        text::has_no_space(text::trim(raw)),
        text::has_no_space(fragment),
    ensures
        scheme_of(u) is Some,
        scheme_of(u) == scheme_of(text::trim(raw)),
        !text::trim(raw).contains('#') ==> normalized(text::trim(raw) + (seq!['#'] + fragment)) == Ok::<
            Seq<char>,
            Seq<char>,
        >(u),
{
    let s = text::trim(raw);
    let scheme = scheme_of(s)->0;
    let after = s.skip((scheme.len() + 3) as int);
    let cut = host_end(after);
    let host = without_default_port(text::lowercase(after.take(cut)), scheme);
    let path = text::trim_end_by(
        text::before_first(after.skip(cut), '#'),
        text::only('/'),
    );
    reveal_strlit("https");
    reveal_strlit("http");
    reveal_strlit("https://");
    reveal_strlit("http://");
    reveal_strlit("://");
    assert(u =~= scheme + "://"@ + (host + path));
    lemma_scheme_of(scheme, host + path);
    if !s.contains('#') {
        let more = seq!['#'] + fragment;
        let t = s + more;
        assert forall|i: int| 0 <= i < t.len() implies !text::is_space(#[trigger] t[i]) by {
            if i < s.len() {
                assert(!text::is_space(s[i]));
            } else if i > s.len() {
                assert(t[i] == fragment[i - s.len() - 1]);
            }
        }
        text::lemma_trim_is_same(t);
        law_fragments_do_not_matter(scheme, after, fragment);
        assert(seq!['/', '?', '#'][2] == '#');
        lemma_split_off(after, more);
        assert(t.skip((scheme.len() + 3) as int) =~= after + more);
        let lo = text::ascii_lowercase(s);
        let lo2 = text::ascii_lowercase(t);
        assert(s.len() >= 8);
        assert(lo2.subrange(0, 8) =~= lo.subrange(0, 8));
        assert(lo2.subrange(0, 7) =~= lo.subrange(0, 7));
        assert(scheme_of(t) == Some(scheme));
    }
}

/// Normalizing twice is normalizing once, for an address in one piece that says its port at
/// most once: always where the host is ASCII, and elsewhere where small letters stay as they
/// are and keep the separators. What comes out can be fetched, holds no fragment, does not end
/// with a slash, and comes out again where a fragment is put behind the address.
pub proof fn law_normalizing_twice_is_normalizing_once(
    raw: Seq<char>,
    u: Seq<char>,
    fragment: Seq<char>,
)
    requires
        normalized(raw) == Ok::<Seq<char>, Seq<char>>(u),
        text::has_no_space(text::trim(raw)),
        says_one_port(authority(raw)),
        text::all_ascii(authority(raw)) || stays_small(
            authority(raw),
            scheme_of(text::trim(raw))->0,
        ),
        text::has_no_space(fragment),
    ensures
        normalized(u) == Ok::<Seq<char>, Seq<char>>(u),
        scheme_of(u) is Some,
        !u.contains('#'),
        u.last() != '/',
        !text::trim(raw).contains('#') ==> normalized(text::trim(raw) + (seq!['#'] + fragment)) == Ok::<
            Seq<char>,
            Seq<char>,
        >(u),
{
    let s = text::trim(raw);
    let scheme = scheme_of(s)->0;
    let after = s.skip((scheme.len() + 3) as int);
    let cut = host_end(after);
    let auth = after.take(cut);
    let host = without_default_port(text::lowercase(auth), scheme);
    let rest = after.skip(cut);
    let path = text::trim_end_by(text::before_first(rest, '#'), text::only('/'));
    reveal_strlit("https");
    reveal_strlit("http");
    reveal_strlit("https://");
    reveal_strlit("http://");
    reveal_strlit("://");
    law_an_address_with_a_fragment_is_the_same(raw, u, fragment);
    lemma_host_end(after);
    assert(text::has_no_space(auth)) by {
        assert forall|i: int| 0 <= i < auth.len() implies !text::is_space(#[trigger] auth[i]) by {
            assert(auth[i] == s[scheme.len() + 3 + i]);
        }
    }
    assert(ends_no_host(auth)) by {
        assert forall|i: int| 0 <= i < auth.len() implies !host_ends()(#[trigger] auth[i]) by {
            assert(auth[i] == after[i]);
        }
    }
    if text::all_ascii(auth) {
        lemma_ascii_stays_small(auth, scheme);
    }
    lemma_host(text::lowercase(auth), scheme);
    lemma_path(after);
    let tail = host + path;
    let start = scheme + "://"@;
    assert(u =~= start + tail);
    lemma_scheme_of(scheme, tail);
    assert forall|i: int| 0 <= i < u.len() implies !text::is_space(#[trigger] u[i]) && u[i] != '#' by {
        let n = start.len();
        if i < n {
            assert(u[i] == start[i]);
            assert(!text::is_space(start[i]));
        } else if i < n + host.len() {
            assert(u[i] == host[i - n]);
            assert(!text::is_space(host[i - n]));
            assert(!host_ends()(host[i - n]));
            assert(seq!['/', '?', '#'][2] == '#');
        } else {
            let k = i - n - host.len();
            assert(u[i] == path[k]);
            assert(path[k] == s[scheme.len() + 3 + cut + k]);
        }
    }
    text::lemma_trim_is_same(u);
    if path.len() == 0 {
        assert(u.last() == host[host.len() - 1]);
        assert(!host_ends()(host[host.len() - 1]));
        assert(seq!['/', '?', '#'][0] == '/');
    } else {
        assert(u.last() == path.last());
    }
    assert(host_end(tail) == host.len()) by {
        lemma_host_end(tail);
        let e = host_end(tail);
        if e < host.len() {
            assert(tail[e] == host[e]);
        } else if e > host.len() {
            assert(tail[host.len() as int] == path[0]);
        }
    }
    assert(tail.take(host.len() as int) =~= host);
    assert(tail.skip(host.len() as int) =~= path);
    lemma_index_of_class(path, text::only('#'), 0);
    assert(text::before_first(path, '#') == path) by {
        if let Some(k) = text::index_from(path, text::only('#'), 0) {
            assert(path[k] == '#');
        }
    }
    assert(text::trim_end_by(path, text::only('/')) == path);
    assert(normalized(u) == Ok::<Seq<char>, Seq<char>>(u));
}

// ---- Hosts

/// What a host is as an address, where it is one.
#[derive(Debug, Clone, Copy, PartialEq, Eq, Structural)]
pub enum HostAddr {
    /// A name.
    Name,
    V4(u8, u8, u8, u8),
    /// The eight groups.
    V6(u16, u16, u16, u16, u16, u16, u16, u16),
}

/// Whether an address does not lead into the public network.
pub open spec fn is_private_addr(a: HostAddr) -> bool {
    match a {
        HostAddr::Name => false,
        HostAddr::V4(a, b, c, d) => {
            ||| a == 127
            ||| a == 10
            ||| (a == 172 && 16 <= b <= 31)
            ||| (a == 192 && b == 168)
            ||| (a == 169 && b == 254)
            ||| (a == 0 && b == 0 && c == 0 && d == 0)
            ||| 224 <= a <= 239
        },
        HostAddr::V6(a, b, c, d, e, f, g, h) => {
            ||| (a == 0 && b == 0 && c == 0 && d == 0 && e == 0 && f == 0 && g == 0 && (h == 0 || h
                == 1))
            ||| 0xff00 <= a
            ||| 0xfe80 <= a <= 0xfebf
        },
    }
}

pub fn private_addr(a: &HostAddr) -> (r: bool)
    ensures
        r == is_private_addr(*a),
{
    match *a {
        HostAddr::Name => false,
        HostAddr::V4(a, b, c, d) => a == 127 || a == 10 || (a == 172 && 16 <= b && b <= 31) || (a
            == 192 && b == 168) || (a == 169 && b == 254) || (a == 0 && b == 0 && c == 0 && d == 0)
            || (224 <= a && a <= 239),
        HostAddr::V6(a, b, c, d, e, f, g, h) => (a == 0 && b == 0 && c == 0 && d == 0 && e == 0
            && f == 0 && g == 0 && (h == 0 || h == 1)) || 0xff00 <= a || (0xfe80 <= a && a
            <= 0xfebf),
    }
}

/// A host as it is looked at: in small letters, without blanks and brackets around it.
pub open spec fn plain_host(host: Seq<char>) -> Seq<char> {
    let h = text::lowercase(text::trim(host));
    if h.len() >= 2 && h[0] == '[' && h[h.len() - 1] == ']' {
        h.subrange(1, h.len() - 1)
    } else {
        h
    }
}

/// Whether a name is one of a private network.
pub open spec fn is_private_name(h: Seq<char>) -> bool {
    ||| h.len() == 0
    ||| h == "localhost"@
    ||| h == "local"@
    ||| h == "internal"@
    ||| h == "lan"@
    ||| h == "home"@
    ||| h == "corp"@
    ||| text::ends_with(h, ".local"@)
    ||| text::ends_with(h, ".localhost"@)
    ||| text::ends_with(h, ".internal"@)
    ||| text::ends_with(h, ".lan"@)
    ||| text::ends_with(h, ".home"@)
    ||| text::ends_with(h, ".corp"@)
    ||| text::ends_with(h, ".localdomain"@)
}

/// The number that a text is, where it is one of 32 bits; a plus may stand before it.
pub open spec fn number_of(t: Seq<char>) -> Option<u32> {
    match text::u64_of(t) {
        Some(v) => if v <= u32::MAX {
            Some(v as u32)
        } else {
            None
        },
        None => None,
    }
}

/// Whether four numbers with dots between are an address of a private network.
pub open spec fn is_private_quad(h: Seq<char>) -> bool {
    let parts = text::split_by(h, text::only('.'));
    if parts.len() != 4 {
        false
    } else {
        match (number_of(parts[0]), number_of(parts[1]), number_of(parts[2]), number_of(parts[3])) {
            (Some(a), Some(b), Some(_), Some(_)) => {
                ||| a == 10
                ||| a == 127
                ||| (a == 192 && b == 168)
                ||| (a == 172 && 16 <= b <= 31)
                ||| (a == 169 && b == 254)
            },
            _ => false,
        }
    }
}

/// Whether a host does not lie in the public network; `addr` is what it is as an address.
pub open spec fn is_private(host: Seq<char>, addr: HostAddr) -> bool {
    let h = plain_host(host);
    is_private_name(h) || if addr == HostAddr::Name {
        is_private_quad(h)
    } else {
        is_private_addr(addr)
    }
}

fn read_number(t: &str) -> (r: Option<u32>)
    ensures
        r == number_of(t@),
{
    match text::read_u64(t) {
        Some(v) => if v <= u32::MAX as u64 {
            Some(v as u32)
        } else {
            None
        },
        None => None,
    }
}

fn private_quad(h: &str) -> (r: bool)
    ensures
        r == is_private_quad(h@),
{
    let parts = text::split_of(h, &CharClass::Only('.'));
    let ghost pv = text::texts(parts@);
    assert(pv.len() == parts@.len());
    if parts.len() != 4 {
        return false;
    }
    proof {
        assert(pv[0] == parts@[0]@);
        assert(pv[1] == parts@[1]@);
        assert(pv[2] == parts@[2]@);
        assert(pv[3] == parts@[3]@);
    }
    match (
        read_number(&parts[0]),
        read_number(&parts[1]),
        read_number(&parts[2]),
        read_number(&parts[3]),
    ) {
        (Some(a), Some(b), Some(_), Some(_)) => a == 10 || a == 127 || (a == 192 && b == 168) || (a
            == 172 && 16 <= b && b <= 31) || (a == 169 && b == 254),
        _ => false,
    }
}

fn private_name(h: &str) -> (r: bool)
    ensures
        r == is_private_name(h@),
{
    text::chars_of(h).len() == 0 || text::str_eq(h, "localhost") || text::str_eq(h, "local")
        || text::str_eq(h, "internal") || text::str_eq(h, "lan") || text::str_eq(h, "home")
        || text::str_eq(h, "corp") || text::has_suffix(h, ".local") || text::has_suffix(
        h,
        ".localhost",
    ) || text::has_suffix(h, ".internal") || text::has_suffix(h, ".lan") || text::has_suffix(
        h,
        ".home",
    ) || text::has_suffix(h, ".corp") || text::has_suffix(h, ".localdomain")
}

/// A host as it is looked at.
pub fn plain_host_of(host: &str) -> (r: String)
    ensures
        r@ == plain_host(host@),
{
    let h = text::to_lower(&text::trim_space(host));
    let cs = text::chars_of(&h);
    if cs.len() >= 2 && cs[0] == '[' && cs[cs.len() - 1] == ']' {
        text::slice_text(&cs, 1, cs.len() - 1)
    } else {
        h
    }
}

/// Whether a host is not to be fetched from; `addr` is what it is as an address.
pub fn is_private_host(host: &str, addr: &HostAddr) -> (r: bool)
    ensures
        r == is_private(host@, *addr),
{
    let h = plain_host_of(host);
    if private_name(&h) {
        return true;
    }
    match *addr {
        HostAddr::Name => private_quad(&h),
        _ => private_addr(addr),
    }
}

} // verus!
