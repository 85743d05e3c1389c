//! What the request loop decides for each request, and the entries that the
//! index page lists.

use vstd::prelude::*;
use vstd::string::*;
use crate::config::{Entry, Store, local_paths, strings_view};
use crate::rewrite::{lacks_host, rewrite_host, spec_rewrite};
use crate::route::{Action, ActionModel, Method, route, spec_route};
use crate::uri::{Uri, UriOwned, last_colon, or_empty, serialize, spec_parse, view_opt_str};

verus! {

/// `h` without the part from its last `:` on.
pub open spec fn spec_host_name(h: Seq<char>) -> Seq<char> {
    let c = last_colon(h, h.len() as int);
    if c < 0 {
        h
    } else {
        h.subrange(0, c)
    }
}

/// The host name of a `Host` header: everything before its last `:`.
pub fn host_name(header: &str) -> (r: &str)
    ensures
        r@ == spec_host_name(header@),
{
    let n = header.unicode_len();
    let mut k = n;
    while k > 0
        invariant
            n == header@.len(),
            k <= n,
            last_colon(header@, n as int) == last_colon(header@, k as int),
        decreases k,
    {
        if header.get_char(k - 1) == ':' {
            return header.substring_char(0, k - 1);
        }
        k = k - 1;
    }
    header
}

/// The link that the index shows for `url` on a request to `host`: a URL
/// that parses and lacks a host gets `host`; any other is shown as it is.
pub open spec fn spec_rewritten_url(url: Seq<char>, host: Seq<char>) -> Seq<char> {
    match spec_parse(url) {
        Ok(u) => if lacks_host(u) {
            serialize(spec_rewrite(u, host))
        } else {
            url
        },
        Err(_) => url,
    }
}

/// The link shown for `url` on a request to `host`.
pub fn rewritten_url(url: &str, host: &str) -> (r: String)
    ensures
        r@ == spec_rewritten_url(url@, host@),
{
    match Uri::new(url) {
        Ok(u) => {
            let lacks = match u.host {
                Some(h) => {
                    let e = h.unicode_len() == 0;
                    assert(e ==> h@ =~= Seq::<char>::empty());
                    e
                },
                None => true,
            };
            if lacks {
                rewrite_host(UriOwned::from_uri(u), host).to_string()
            } else {
                url.to_owned()
            }
        },
        Err(_) => url.to_owned(),
    }
}

/// `o` is `a` with its link rewritten for `host`.
pub open spec fn entry_rewritten(o: Entry, a: Entry, host: Seq<char>) -> bool {
    &&& o.name == a.name
    &&& o.desc == a.desc
    &&& o.icon == a.icon
    &&& o.url@ == spec_rewritten_url(a.url@, host)
}

/// `out` lists every entry of `apps`, in order, with links rewritten for
/// `host`.
pub open spec fn index_matches(out: Seq<Entry>, apps: Seq<Entry>, host: Seq<char>) -> bool {
    out.len() == apps.len() && forall|i: int|
        0 <= i < apps.len() ==> entry_rewritten(#[trigger] out[i], apps[i], host)
}

/// The entries that the index page shows on a request to `host`.
pub fn index_entries(apps: &Vec<Entry>, host: &str) -> (r: Vec<Entry>)
    ensures
        index_matches(r@, apps@, host@),
{
    let mut out: Vec<Entry> = Vec::new();
    let mut k: usize = 0;
    while k < apps.len()
        invariant
            k <= apps@.len(),
            index_matches(out@, apps@.subrange(0, k as int), host@),
        decreases apps@.len() - k,
    {
        let mut e = apps[k].copy();
        e.url = rewritten_url(apps[k].url.as_str(), host);
        out.push(e);
        k = k + 1;
        assert forall|i: int| 0 <= i < k implies entry_rewritten(
            #[trigger] out@[i],
            apps@.subrange(0, k as int)[i],
            host@,
        ) by {
            if i < k - 1 {
                assert(apps@.subrange(0, k as int)[i] == apps@.subrange(0, k - 1)[i]);
            }
        }
    }
    assert(apps@.subrange(0, k as int) =~= apps@);
    out
}

/// What a request is answered with.
#[derive(Debug)]
pub enum Reply {
    /// The request has no `Host` header.
    MissingHost,
    /// The request target is not a URI.
    BadTarget,
    /// The index page, listing these entries.
    Index(Vec<Entry>),
    /// The local icon file at this path.
    Icon(String),
    NotFound,
}

/// `r` answers a request with `method`, `host_header` and `target`, against
/// the applications `apps` and the allow-list `allow` of one snapshot.
pub open spec fn decides(
    apps: Seq<Entry>,
    allow: Seq<Seq<char>>,
    method: Method,
    host_header: Option<Seq<char>>,
    target: Seq<char>,
    r: Reply,
) -> bool {
    match host_header {
        None => r is MissingHost,
        Some(h) => match spec_parse(target) {
            Err(_) => r is BadTarget,
            Ok(u) => match spec_route(method, or_empty(u.path), allow) {
                ActionModel::RenderIndex => match r {
                    Reply::Index(es) => index_matches(es@, apps, spec_host_name(h)),
                    _ => false,
                },
                ActionModel::ServeIcon(p) => match r {
                    Reply::Icon(q) => q@ == p,
                    _ => false,
                },
                ActionModel::NotFound => r is NotFound,
            },
        },
    }
}

/// Decides the answer to one request against the snapshot in `store`.
pub fn decide(store: &Store, method: Method, host_header: Option<&str>, target: &str) -> (r: Reply)
    ensures
        decides(
            store.config.apps@,
            strings_view(store.allow@),
            method,
            view_opt_str(host_header),
            target@,
            r,
        ),
{
    let header = match host_header {
        Some(h) => h,
        None => return Reply::MissingHost,
    };
    let host = host_name(header);
    let url = match Uri::new(target) {
        Ok(u) => u,
        Err(_) => return Reply::BadTarget,
    };
    let path = match url.path {
        Some(p) => p,
        None => "",
    };
    proof {
        reveal_strlit("");
    }
    assert(path@ == or_empty(url@.path));
    match route(method, path, &store.allow) {
        Action::RenderIndex => Reply::Index(index_entries(&store.config.apps, host)),
        Action::ServeIcon(p) => Reply::Icon(p),
        Action::NotFound => Reply::NotFound,
    }
}

/// The HTTP status of a reply: 400 for a request that cannot be served, 404
/// for one that asks for nothing known, 200 otherwise.
pub fn status_code(r: &Reply) -> (s: u16)
    ensures
        s == match r {
            Reply::MissingHost | Reply::BadTarget => 400u16,
            Reply::NotFound => 404u16,
            _ => 200u16,
        },
{
    match r {
        Reply::MissingHost | Reply::BadTarget => 400,
        Reply::NotFound => 404,
        _ => 200,
    }
}

/// A request answered after a reload sees the new snapshot alone, and one
/// answered after a failed reload the old snapshot alone: what the store
/// holds after `apply_reload` is one whole snapshot.
pub proof fn lemma_reload_atomic<E>(
    before: Store,
    after: Store,
    loaded: Result<crate::config::Config, E>,
    method: Method,
    host_header: Option<Seq<char>>,
    target: Seq<char>,
    r: Reply,
)
    requires
        before.wf(),
        after.wf(),
        match loaded {
            Ok(c) => after.config == c,
            Err(_) => after == before,
        },
    ensures
        decides(after.config.apps@, strings_view(after.allow@), method, host_header, target, r)
            == match loaded {
            Ok(c) => decides(c.apps@, local_paths(c.apps@), method, host_header, target, r),
            Err(_) => decides(
                before.config.apps@,
                strings_view(before.allow@),
                method,
                host_header,
                target,
                r,
            ),
        },
{
}

/// The index lists every configured entry, in order, whether or not its link
/// parses; an entry whose link does not parse is listed with that link as
/// it is.
pub proof fn lemma_index_keeps_unparsable_links(out: Seq<Entry>, apps: Seq<Entry>, host: Seq<char>)
    requires
        index_matches(out, apps, host),
    ensures
        out.len() == apps.len(),
        forall|i: int|
            0 <= i < apps.len() && spec_parse(apps[i].url@) is Err ==> (#[trigger] out[i]).url@
                == apps[i].url@ && out[i].name == apps[i].name,
{
    assert forall|i: int| 0 <= i < apps.len() && spec_parse(apps[i].url@) is Err implies (
    #[trigger] out[i]).url@ == apps[i].url@ && out[i].name == apps[i].name by {
        assert(entry_rewritten(out[i], apps[i], host));
    }
}

} // verus!
