//! Fetching a page: which addresses are asked, how redirects are followed, and how much is
//! read.

use crate::bookmark::url;
use crate::bookmark::url::HostAddr;
use crate::graph::store::opt_view;
use crate::text;
use vstd::prelude::*;

verus! {

/// How much of a page is read at most.
pub const MAX_BODY_BYTES: usize = 2_097_152;

/// How often a redirect is followed.
pub const MAX_REDIRECTS: usize = 3;

/// What is wrong with an address.
pub uninterp spec fn url_problem(url: Seq<char>) -> Option<Seq<char>>;

/// The host of an address.
pub uninterp spec fn url_host(url: Seq<char>) -> Option<Seq<char>>;

/// The scheme of an address.
pub uninterp spec fn url_scheme(url: Seq<char>) -> Option<Seq<char>>;

/// Where a reference in a page leads to.
pub uninterp spec fn url_join(url: Seq<char>, reference: Seq<char>) -> Result<Seq<char>, Seq<char>>;

/// What is wrong with an address; wraps `reqwest::Url::parse`, whose answer depends on the
/// text alone.
#[verifier::external_body]
fn parse_problem(url: &str) -> (r: Option<String>)
    ensures
        opt_view(r) == url_problem(url@),
{
    reqwest::Url::parse(url).err().map(|e| e.to_string())
}

/// The host of an address; wraps `reqwest::Url::host_str`. What is no address has none.
#[verifier::external_body]
fn host_of(url: &str) -> (r: Option<String>)
    ensures
        opt_view(r) == url_host(url@),
        r is Some ==> url_problem(url@) is None,
{
    reqwest::Url::parse(url).ok()?.host_str().map(|h| h.to_string())
}

/// The scheme of an address; wraps `reqwest::Url::scheme`. What is no address has none.
#[verifier::external_body]
fn scheme_of(url: &str) -> (r: Option<String>)
    ensures
        opt_view(r) == url_scheme(url@),
        r is Some <==> url_problem(url@) is None,
{
    Some(reqwest::Url::parse(url).ok()?.scheme().to_string())
}

/// Where a reference leads to; wraps `reqwest::Url::join`, whose answer depends on the
/// address and the reference alone.
#[verifier::external_body]
fn join(url: &str, reference: &str) -> (r: Result<String, String>)
    ensures
        url::result_view(r) == url_join(url@, reference@),
{
    let base = reqwest::Url::parse(url).map_err(|e| e.to_string())?;
    base.join(reference).map(|u| u.to_string()).map_err(|e| e.to_string())
}

/// A page on its way: the address that is asked next, and how often a redirect was followed.
#[derive(Debug, PartialEq, Eq)]
pub struct Fetching {
    pub url: String,
    pub redirects: usize,
}

/// The head of an answer.
#[derive(Debug, PartialEq, Eq)]
pub struct Answer {
    pub status: u16,
    /// The status with its name.
    pub status_text: String,
    pub location: Option<String>,
    pub content_length: Option<u64>,
}

/// What comes next.
#[derive(Debug, PartialEq, Eq)]
pub enum FetchStep {
    /// Another address is asked.
    Follow(Fetching),
    /// The body is read.
    Read,
    Fail(String),
}

pub enum FetchStepV {
    Follow(Seq<char>, nat),
    Read,
    Fail(Seq<char>),
}

pub open spec fn step_view(s: FetchStep) -> FetchStepV {
    match s {
        FetchStep::Follow(f) => FetchStepV::Follow(f.url@, f.redirects as nat),
        FetchStep::Read => FetchStepV::Read,
        FetchStep::Fail(e) => FetchStepV::Fail(e@),
    }
}

pub open spec fn is_web(scheme: Seq<char>) -> bool {
    scheme == "http"@ || scheme == "https"@
}

/// What is wrong with where a page is to be fetched from.
pub open spec fn refusal(host: Option<Seq<char>>, scheme: Seq<char>, addr: HostAddr) -> Option<
    Seq<char>,
> {
    match host {
        None => Some("URL 缺少主机名"@),
        Some(h) => if url::is_private(h, addr) {
            Some("拒绝抓取内网地址: "@ + h)
        } else if !is_web(scheme) {
            Some("仅支持 http/https 抓取"@)
        } else {
            None
        },
    }
}

/// What is wrong with where a page is to be fetched from: it has a host, which does not lie
/// in a private network, and is of the web. `addr` is what the host is as an address.
pub fn check_target(host: Option<&str>, scheme: &str, addr: &HostAddr) -> (r: Result<(), String>)
    ensures
        match r {
            Ok(_) => refusal(
                match host {
                    Some(h) => Some(h@),
                    None => None,
                },
                scheme@,
                *addr,
            ) is None,
            Err(e) => refusal(
                match host {
                    Some(h) => Some(h@),
                    None => None,
                },
                scheme@,
                *addr,
            ) == Some(e@),
        },
{
    match host {
        None => Err("URL 缺少主机名".to_owned()),
        Some(h) => {
            if url::is_private_host(h, addr) {
                let mut e = "拒绝抓取内网地址: ".to_owned();
                e.push_str(h);
                return Err(e);
            }
            if !text::str_eq(scheme, "http") && !text::str_eq(scheme, "https") {
                return Err("仅支持 http/https 抓取".to_owned());
            }
            Ok(())
        },
    }
}

pub open spec fn or_empty(o: Option<Seq<char>>) -> Seq<char> {
    match o {
        Some(s) => s,
        None => Seq::empty(),
    }
}

/// What comes after an answer; `target` is where its location leads to.
pub open spec fn next_step(
    redirects: nat,
    a: Answer,
    target: Option<Result<Seq<char>, Seq<char>>>,
) -> FetchStepV {
    if 300 <= a.status <= 399 {
        match target {
            None => FetchStepV::Fail("重定向缺少 Location: HTTP "@ + a.status_text@),
            Some(Err(e)) => FetchStepV::Fail("重定向目标解析失败: "@ + e),
            Some(Ok(u)) => if redirects >= MAX_REDIRECTS {
                FetchStepV::Fail("重定向次数过多"@)
            } else {
                FetchStepV::Follow(u, redirects + 1)
            },
        }
    } else if !(200 <= a.status <= 299) {
        FetchStepV::Fail("抓取失败 HTTP "@ + a.status_text@)
    } else {
        match a.content_length {
            Some(n) if n > MAX_BODY_BYTES => FetchStepV::Fail(
                "响应过大（Content-Length "@ + text::nat_text(n as nat) + "）"@,
            ),
            _ => FetchStepV::Read,
        }
    }
}

pub open spec fn target_view(t: Option<Result<String, String>>) -> Option<
    Result<Seq<char>, Seq<char>>,
> {
    match t {
        Some(r) => Some(url::result_view(r)),
        None => None,
    }
}

/// Where the location of an answer leads to.
pub open spec fn target_of(url: Seq<char>, a: Answer) -> Option<Result<Seq<char>, Seq<char>>> {
    match a.location {
        Some(l) => Some(url_join(url, l@)),
        None => None,
    }
}

/// What comes after an answer; `target` is where its location leads to.
pub fn step_after(redirects: usize, a: &Answer, target: Option<Result<String, String>>) -> (r:
    FetchStep)
    ensures
        step_view(r) == next_step(redirects as nat, *a, target_view(target)),
{
    if 300 <= a.status && a.status <= 399 {
        return match target {
            None => {
                let mut e = "重定向缺少 Location: HTTP ".to_owned();
                e.push_str(&a.status_text);
                FetchStep::Fail(e)
            },
            Some(Err(x)) => {
                let mut e = "重定向目标解析失败: ".to_owned();
                e.push_str(&x);
                FetchStep::Fail(e)
            },
            Some(Ok(u)) => if redirects >= MAX_REDIRECTS {
                FetchStep::Fail("重定向次数过多".to_owned())
            } else {
                FetchStep::Follow(Fetching { url: u, redirects: redirects + 1 })
            },
        };
    }
    if !(200 <= a.status && a.status <= 299) {
        let mut e = "抓取失败 HTTP ".to_owned();
        e.push_str(&a.status_text);
        return FetchStep::Fail(e);
    }
    match a.content_length {
        Some(n) => {
            if n > MAX_BODY_BYTES as u64 {
                let mut e = "响应过大（Content-Length ".to_owned();
                e.push_str(&text::u64_text(n));
                e.push_str("）");
                assert(e@ =~= "响应过大（Content-Length "@ + text::nat_text(n as nat) + "）"@);
                return FetchStep::Fail(e);
            }
            FetchStep::Read
        },
        None => FetchStep::Read,
    }
}

/// What is wrong with an address from the start.
pub open spec fn start_problem(problem: Option<Seq<char>>, scheme: Option<Seq<char>>) -> Option<
    Seq<char>,
> {
    match problem {
        Some(e) => Some("URL 解析失败: "@ + e),
        None => if is_web(or_empty(scheme)) {
            None
        } else {
            Some("仅支持 http/https 抓取"@)
        },
    }
}

impl Fetching {
    /// Begins to fetch a page.
    pub fn start(url: String) -> (r: Result<Fetching, String>)
        ensures
            match r {
                Ok(f) => {
                    &&& start_problem(url_problem(url@), url_scheme(url@)) is None
                    &&& f.url == url
                    &&& f.redirects == 0
                },
                Err(e) => start_problem(url_problem(url@), url_scheme(url@)) == Some(e@),
            },
    {
        if let Some(x) = parse_problem(&url) {
            let mut e = "URL 解析失败: ".to_owned();
            e.push_str(&x);
            return Err(e);
        }
        let web = match scheme_of(&url) {
            Some(s) => text::str_eq(&s, "http") || text::str_eq(&s, "https"),
            None => false,
        };
        if !web {
            proof {
                reveal_strlit("http");
                reveal_strlit("https");
            }
            return Err("仅支持 http/https 抓取".to_owned());
        }
        Ok(Fetching { url, redirects: 0 })
    }

    /// The host of the address that is asked next.
    pub fn host(&self) -> (r: Option<String>)
        ensures
            opt_view(r) == url_host(self.url@),
    {
        host_of(&self.url)
    }

    /// Whether the address may be asked; `addr` is what its host is as an address.
    pub fn check(&self, addr: &HostAddr) -> (r: Result<(), String>)
        ensures
            match r {
                Ok(_) => refusal(url_host(self.url@), or_empty(url_scheme(self.url@)), *addr)
                    is None,
                Err(e) => refusal(url_host(self.url@), or_empty(url_scheme(self.url@)), *addr)
                    == Some(e@),
            },
    {
        let host = host_of(&self.url);
        let scheme = match scheme_of(&self.url) {
            Some(s) => s,
            None => {
                let none = String::new();
                assert(none@ =~= Seq::<char>::empty());
                none
            },
        };
        match &host {
            Some(h) => check_target(Some(h.as_str()), &scheme, addr),
            None => check_target(None, &scheme, addr),
        }
    }

    /// What comes after an answer.
    pub fn after(&self, a: &Answer) -> (r: FetchStep)
        ensures
            step_view(r) == next_step(self.redirects as nat, *a, target_of(self.url@, *a)),
    {
        let target = match &a.location {
            Some(l) => Some(join(&self.url, l)),
            None => None,
        };
        step_after(self.redirects, a, target)
    }
}

/// Adds a part of the body to what was read. Too much is an error.
pub fn add_chunk(body: &mut Vec<u8>, chunk: &Vec<u8>) -> (r: Result<(), String>)
    ensures
        final(body)@ == old(body)@ + chunk@,
        match r {
            Ok(_) => final(body)@.len() <= MAX_BODY_BYTES,
            Err(e) => final(body)@.len() > MAX_BODY_BYTES && e@ == "响应过大（>2097152 bytes）"@,
        },
{
    let mut i: usize = 0;
    assert(old(body)@ + chunk@.take(0) =~= old(body)@);
    while i < chunk.len()
        invariant
            i <= chunk.len(),
            body@ == old(body)@ + chunk@.take(i as int),
        decreases chunk.len() - i,
    {
        assert(chunk@.take(i + 1) =~= chunk@.take(i as int).push(chunk@[i as int]));
        assert(old(body)@ + chunk@.take(i + 1) =~= (old(body)@ + chunk@.take(i as int)).push(
            chunk@[i as int],
        ));
        body.push(chunk[i]);
        i += 1;
    }
    assert(chunk@.take(i as int) =~= chunk@);
    if body.len() > MAX_BODY_BYTES {
        return Err("响应过大（>2097152 bytes）".to_owned());
    }
    Ok(())
}

/// Redirects are followed a few times only, whatever is answered.
pub proof fn law_redirects_are_few(
    redirects: nat,
    a: Answer,
    target: Option<Result<Seq<char>, Seq<char>>>,
)
    requires
        redirects <= MAX_REDIRECTS,
    ensures
        next_step(redirects, a, target) matches FetchStepV::Follow(u, n) ==> redirects < n
            <= MAX_REDIRECTS,
{
}

/// What may be asked lies in the public network and is of the web.
pub proof fn law_only_the_public_web_is_asked(
    host: Option<Seq<char>>,
    scheme: Seq<char>,
    addr: HostAddr,
)
    requires
        refusal(host, scheme, addr) is None,
    ensures
        host matches Some(h) && !url::is_private(h, addr),
        !url::is_private_addr(addr),
        is_web(scheme),
{
}

} // verus!
