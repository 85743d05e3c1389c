//! Deciding what a request path asks for.

use vstd::prelude::*;
use crate::config::strings_view;

verus! {

/// The request methods that routing tells apart.
#[derive(Debug, Clone, Copy, PartialEq, Eq, Structural)]
pub enum Method {
    Get,
    Other,
}

/// What a request is answered with.
#[derive(Debug, PartialEq, Eq)]
pub enum Action {
    /// The page listing the applications.
    RenderIndex,
    /// The bytes of the local icon file at this path.
    ServeIcon(String),
    NotFound,
}

pub enum ActionModel {
    RenderIndex,
    ServeIcon(Seq<char>),
    NotFound,
}

pub open spec fn action_view(a: Action) -> ActionModel {
    match a {
        Action::RenderIndex => ActionModel::RenderIndex,
        Action::ServeIcon(p) => ActionModel::ServeIcon(p@),
        Action::NotFound => ActionModel::NotFound,
    }
}

pub open spec fn icon_prefix() -> Seq<char> {
    seq!['/', 'i', 'c', 'o', 'n', '/']
}

/// Whether `path` is `/icon/` followed by exactly one of the allowed paths.
pub open spec fn is_allowed_icon(path: Seq<char>, allow: Seq<Seq<char>>) -> bool {
    path.len() >= 6 && path.subrange(0, 6) == icon_prefix() && allow.contains(path.skip(6))
}

/// `GET /` renders the index; `/icon/<p>` with `<p>` exactly in the
/// allow-list serves that icon, whatever the method; anything else is not
/// found.
pub open spec fn spec_route(method: Method, path: Seq<char>, allow: Seq<Seq<char>>) -> ActionModel {
    if method == Method::Get && path == seq!['/'] {
        ActionModel::RenderIndex
    } else if is_allowed_icon(path, allow) {
        ActionModel::ServeIcon(path.skip(6))
    } else {
        ActionModel::NotFound
    }
}

fn has_icon_prefix(path: &str, n: usize) -> (r: bool)
    requires
        n == path@.len(),
    ensures
        r == (n >= 6 && path@.subrange(0, 6) == icon_prefix()),
{
    if n < 6 {
        return false;
    }
    let prefix = "/icon/";
    proof {
        reveal_strlit("/icon/");
    }
    assert(prefix@ =~= icon_prefix());
    let mut k: usize = 0;
    while k < 6
        invariant
            n == path@.len(),
            n >= 6,
            prefix@ == icon_prefix(),
            k <= 6,
            forall|j: int| 0 <= j < k ==> path@[j] == icon_prefix()[j],
        decreases 6 - k,
    {
        if path.get_char(k) != prefix.get_char(k) {
            assert(path@.subrange(0, 6)[k as int] != icon_prefix()[k as int]);
            return false;
        }
        k = k + 1;
    }
    assert(path@.subrange(0, 6) =~= icon_prefix());
    true
}

/// Decides the action for a request on `path`, given the allow-list of
/// local icon paths.
pub fn route(method: Method, path: &str, allow: &Vec<String>) -> (r: Action)
    ensures
        action_view(r) == spec_route(method, path@, strings_view(allow@)),
{
    let n = path.unicode_len();
    if method == Method::Get && n == 1 && path.get_char(0) == '/' {
        assert(path@ =~= seq!['/']);
        return Action::RenderIndex;
    }
    assert(method == Method::Get ==> path@ != seq!['/']);
    if !has_icon_prefix(path, n) {
        return Action::NotFound;
    }
    assert(!(method == Method::Get && path@ == seq!['/']));
    let rest = path.substring_char(6, n).to_owned();
    assert(rest@ =~= path@.skip(6));
    let mut k: usize = 0;
    while k < allow.len()
        invariant
            k <= allow@.len(),
            forall|j: int| 0 <= j < k ==> allow@[j]@ != rest@,
            rest@ == path@.skip(6),
            path@.len() >= 6,
            path@.subrange(0, 6) == icon_prefix(),
            !(method == Method::Get && path@ == seq!['/']),
        decreases allow@.len() - k,
    {
        if allow[k] == rest {
            assert(strings_view(allow@)[k as int] == rest@);
            assert(strings_view(allow@).contains(rest@));
            assert(is_allowed_icon(path@, strings_view(allow@)));
            return Action::ServeIcon(rest);
        }
        k = k + 1;
    }
    assert(!strings_view(allow@).contains(rest@)) by {
        if strings_view(allow@).contains(rest@) {
            let j = choose|j: int| 0 <= j < strings_view(allow@).len() && strings_view(allow@)[j] == rest@;
            assert(allow@[j]@ == rest@);
        }
    }
    Action::NotFound
}

} // verus!
