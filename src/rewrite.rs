//! Filling in a missing host, so that a link configured without one resolves
//! against the host name that the browser used.

use vstd::prelude::*;
use crate::uri::{UriModel, UriOwned};

verus! {

/// Whether `u` has no host, or an empty one.
pub open spec fn lacks_host(u: UriModel) -> bool {
    u.host is None || u.host == Some(Seq::<char>::empty())
}

/// `u` with its host set to `host` where it lacks one; `u` itself otherwise.
pub open spec fn spec_rewrite(u: UriModel, host: Seq<char>) -> UriModel {
    if lacks_host(u) {
        UriModel { host: Some(host), ..u }
    } else {
        u
    }
}

/// Sets the host of `u` to `host` if and only if `u` has no host or an empty
/// one; every other component is kept as it is.
pub fn rewrite_host(u: UriOwned, host: &str) -> (r: UriOwned)
    ensures
        r@ == spec_rewrite(u@, host@),
{
    let ghost uv = u@;
    let lacks = match &u.host {
        Some(h) => {
            let e = h.as_str().unicode_len() == 0;
            assert(e ==> h@ =~= Seq::<char>::empty());
            e
        },
        None => true,
    };
    if lacks {
        let mut r = u;
        r.host = Some(host.to_owned());
        assert(r@ =~= spec_rewrite(uv, host@));
        r
    } else {
        u
    }
}

/// Rewriting a URI that already has a non-empty host changes nothing.
pub proof fn lemma_rewrite_keeps_present_host(u: UriModel, host: Seq<char>)
    requires
        u.host is Some,
        u.host.unwrap().len() > 0,
    ensures
        spec_rewrite(u, host) == u,
{
}

/// Rewriting twice with the same host gives what rewriting once gives.
pub proof fn lemma_rewrite_idempotent(u: UriModel, host: Seq<char>)
    ensures
        spec_rewrite(spec_rewrite(u, host), host) == spec_rewrite(u, host),
{
}

/// Rewriting touches no component but the host.
pub proof fn lemma_rewrite_isolated(u: UriModel, host: Seq<char>)
    ensures
        spec_rewrite(u, host).scheme == u.scheme,
        spec_rewrite(u, host).port == u.port,
        spec_rewrite(u, host).path == u.path,
        spec_rewrite(u, host).query == u.query,
        spec_rewrite(u, host).fragment == u.fragment,
{
}

} // verus!
