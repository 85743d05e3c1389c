//! Serializing a parsed URI and parsing the text again gives the same
//! components.

use vstd::prelude::*;
use crate::uri::{
    UriModel, all_digits, digit_char, digit_value, authority_stops, decimal, emits_authority, has_scheme_mark, is_alpha,
    is_digit, last_colon, lemma_last_colon, lemma_scan, lemma_scan_unique, or_empty, scan,
    split_authority, ParseError, parse_from_authority, serialize, spec_parse, opt, port_text, split_tail,
};

verus! {

pub open spec fn free_of(s: Seq<char>, stops: Seq<char>) -> bool {
    forall|i: int| 0 <= i < s.len() ==> !stops.contains(#[trigger] s[i])
}

pub open spec fn nonempty_if_present(o: Option<Seq<char>>) -> bool {
    o is Some ==> o.unwrap().len() > 0
}

/// The shape of every URI that parsing produces.
pub open spec fn well_formed(u: UriModel) -> bool {
    &&& nonempty_if_present(u.scheme)
    &&& nonempty_if_present(u.host)
    &&& nonempty_if_present(u.path)
    &&& nonempty_if_present(u.query)
    &&& nonempty_if_present(u.fragment)
    &&& u.scheme is Some ==> is_alpha(u.scheme.unwrap()[0]) && free_of(u.scheme.unwrap(), authority_stops())
    &&& u.host is Some ==> free_of(u.host.unwrap(), authority_stops())
    &&& (u.host is Some && u.port is None) ==> {
        let h = u.host.unwrap();
        last_colon(h, h.len() as int) < 0 || last_colon(h, h.len() as int) == h.len() - 1
    }
    &&& u.path is Some ==> free_of(u.path.unwrap(), seq!['?', '#'])
    &&& u.query is Some ==> free_of(u.query.unwrap(), seq!['#'])
    &&& (emits_authority(u) && u.path is Some) ==> u.path.unwrap()[0] == '/'
    &&& (!emits_authority(u) && u.path is Some) ==> !has_scheme_mark(u.path.unwrap())
}

proof fn lemma_last_colon_unique(a: Seq<char>, i: int, r: int)
    requires
        -1 <= r < i <= a.len(),
        r >= 0 ==> a[r] == ':',
        forall|j: int| r < j < i ==> a[j] != ':',
    ensures
        last_colon(a, i) == r,
    decreases i,
{
    if i > 0 && a[i - 1] != ':' {
        lemma_last_colon_unique(a, i - 1, r);
    }
}

proof fn lemma_digit(d: nat)
    requires
        d < 10,
    ensures
        is_digit(digit_char(d)),
        digit_value(digit_char(d)) == d,
{
    assert(d == 0 || d == 1 || d == 2 || d == 3 || d == 4 || d == 5 || d == 6 || d == 7 || d == 8
        || d == 9);
}

proof fn lemma_port_text(p: nat)
    ensures
        port_text(p).len() > 0,
        all_digits(port_text(p)),
        decimal(port_text(p)) == p,
    decreases p,
{
    lemma_digit(p % 10);
    if p < 10 {
        assert(port_text(p) == seq![digit_char(p)]);
        assert(port_text(p).drop_last() =~= Seq::<char>::empty());
        assert(decimal(port_text(p)) == decimal(Seq::<char>::empty()) * 10 + digit_value(digit_char(p)));
    } else {
        lemma_port_text(p / 10);
        assert(p == (p / 10) * 10 + p % 10) by (nonlinear_arith);
        let s = port_text(p / 10);
        assert(port_text(p) == s.push(digit_char(p % 10)));
        assert(port_text(p).drop_last() =~= s);
        assert(port_text(p).last() == digit_char(p % 10));
        assert(decimal(port_text(p)) == decimal(s) * 10 + digit_value(digit_char(p % 10)));
        assert forall|i: int| 0 <= i < port_text(p).len() implies is_digit(#[trigger] port_text(p)[i]) by {
            if i < s.len() {
                assert(port_text(p)[i] == s[i]);
            }
        }
    }
}

pub open spec fn part(sep: char, o: Option<Seq<char>>) -> Seq<char> {
    match o {
        Some(x) => seq![sep] + x,
        None => Seq::empty(),
    }
}

proof fn lemma_split_tail(p: Seq<char>, query: Option<Seq<char>>, fragment: Option<Seq<char>>)
    requires
        free_of(p, seq!['?', '#']),
        nonempty_if_present(query),
        nonempty_if_present(fragment),
        query is Some ==> free_of(query.unwrap(), seq!['#']),
    ensures
        split_tail(p + part('?', query) + part('#', fragment)) == (opt(p), query, fragment),
{
    let q = part('?', query);
    let f = part('#', fragment);
    let t = p + q + f;
    let h: int = (p.len() + q.len()) as int;
    assert forall|j: int| 0 <= j < h implies !seq!['#'].contains(#[trigger] t[j]) by {
        if j < p.len() {
            assert(t[j] == p[j]);
            assert(!seq!['?', '#'].contains(p[j]));
        } else if j > p.len() {
            assert(t[j] == query.unwrap()[j - p.len() - 1]);
            assert(!seq!['#'].contains(query.unwrap()[j - p.len() - 1]));
        } else {
            assert(t[j] == '?');
        }
    }
    if h < t.len() {
        assert(t[h] == '#');
        assert(seq!['#'].contains(t[h]));
    }
    lemma_scan_unique(t, seq!['#'], 0, h);
    let before = t.subrange(0, h);
    assert(before =~= p + q);
    assert forall|j: int| 0 <= j < p.len() implies !seq!['?'].contains(#[trigger] before[j]) by {
        assert(before[j] == p[j]);
        assert(!seq!['?', '#'].contains(p[j]));
    }
    if p.len() < h {
        assert(before[p.len() as int] == '?');
        assert(seq!['?'].contains(before[p.len() as int]));
    }
    lemma_scan_unique(before, seq!['?'], 0, p.len() as int);
    assert(before.subrange(0, p.len() as int) =~= p);
    if query is Some {
        assert(before.subrange(p.len() + 1int, h) =~= query.unwrap());
    }
    if fragment is Some {
        assert(t.subrange(h + 1, t.len() as int) =~= fragment.unwrap());
    }
}

pub open spec fn port_part(port: Option<u16>) -> Seq<char> {
    match port {
        Some(p) => seq![':'] + port_text(p as nat),
        None => Seq::empty(),
    }
}

proof fn lemma_split_authority(host: Option<Seq<char>>, port: Option<u16>)
    requires
        nonempty_if_present(host),
        (host is Some && port is None) ==> {
            let h = host.unwrap();
            last_colon(h, h.len() as int) < 0 || last_colon(h, h.len() as int) == h.len() - 1
        },
    ensures
        split_authority(or_empty(host) + port_part(port)) == Ok::<_, ParseError>((host, port)),
{
    let h = or_empty(host);
    let a = h + port_part(port);
    if host is None {
        assert(opt(h) == host);
    } else {
        assert(opt(h) == host);
    }
    match port {
        Some(p) => {
            let d = port_text(p as nat);
            lemma_port_text(p as nat);
            assert forall|j: int| h.len() < j < a.len() implies a[j] != ':' by {
                assert(a[j] == d[j - h.len() - 1]);
                assert(is_digit(d[j - h.len() - 1]));
            }
            lemma_last_colon_unique(a, a.len() as int, h.len() as int);
            assert(a.subrange(h.len() + 1int, a.len() as int) =~= d);
            assert(a.subrange(0, h.len() as int) =~= h);
        },
        None => {
            assert(a =~= h);
            if h.len() > 0 {
                lemma_last_colon(h, h.len() as int);
            } else {
                assert(last_colon(h, 0) == -1);
            }
        },
    }
}

/// Whether a text starts with a scheme depends on its path part alone, when
/// what follows the path is empty or starts with `?` or `#`.
proof fn lemma_scheme_mark_prefix(p: Seq<char>, x: Seq<char>)
    requires
        free_of(p, seq!['?', '#']),
        x.len() == 0 || x[0] == '?' || x[0] == '#',
    ensures
        has_scheme_mark(p + x) == has_scheme_mark(p),
        (p + x).len() >= 2 && (p + x)[0] == '/' && (p + x)[1] == '/' <==> p.len() >= 2 && p[0] == '/' && p[1] == '/',
{
    let t = p + x;
    let st = authority_stops();
    lemma_scan(p, st, 0);
    let fp = scan(p, st, 0);
    assert forall|j: int| 0 <= j < fp implies !st.contains(#[trigger] t[j]) by {
        assert(t[j] == p[j]);
    }
    if fp < p.len() {
        assert(t[fp] == p[fp]);
    } else if fp < t.len() {
        assert(t[fp] == x[0]);
        assert(st.contains(t[fp]));
    }
    lemma_scan_unique(t, st, 0, fp);
    if fp + 1 < t.len() && fp + 1 >= p.len() && fp < p.len() {
        assert(t[fp + 1] == x[0]);
    }
    if p.len() < 2 && t.len() >= 2 {
        if p.len() == 1 {
            assert(t[1] == x[0]);
        } else {
            assert(t[0] == x[0]);
        }
    }
}

pub open spec fn tail_text(u: UriModel) -> Seq<char> {
    or_empty(u.path) + part('?', u.query) + part('#', u.fragment)
}

proof fn lemma_serialize_parts(u: UriModel)
    ensures
        serialize(u) =~= (match u.scheme {
            Some(sc) => sc + seq![':', '/', '/'],
            None => if emits_authority(u) {
                seq!['/', '/']
            } else {
                Seq::empty()
            },
        }) + (or_empty(u.host) + port_part(u.port)) + tail_text(u),
{
}

proof fn lemma_parse_authority_of(pre: Seq<char>, u: UriModel)
    requires
        well_formed(u),
        emits_authority(u),
    ensures
        parse_from_authority(
            pre + (or_empty(u.host) + port_part(u.port)) + tail_text(u),
            u.scheme,
            pre.len() as int,
        ) == Ok::<_, ParseError>(u),
{
    let a = or_empty(u.host) + port_part(u.port);
    let t = tail_text(u);
    let s = pre + a + t;
    let st = authority_stops();
    let i = pre.len() as int;
    let e = i + a.len();
    if u.port is Some {
        lemma_port_text(u.port.unwrap() as nat);
    }
    assert forall|j: int| i <= j < e implies !st.contains(#[trigger] s[j]) by {
        assert(s[j] == a[j - i]);
        let h = or_empty(u.host);
        if j - i < h.len() {
            assert(a[j - i] == h[j - i]);
        } else if j - i == h.len() {
            assert(a[j - i] == ':');
        } else {
            let d = port_text(u.port.unwrap() as nat);
            assert(a[j - i] == d[j - i - h.len() - 1]);
            assert(is_digit(d[j - i - h.len() - 1]));
        }
    }
    if e < s.len() {
        assert(s[e] == t[0]);
        if u.path is Some {
            assert(t[0] == u.path.unwrap()[0]);
        } else if u.query is Some {
            assert(t[0] == '?');
        } else {
            assert(t[0] == '#');
        }
        assert(st.contains(s[e]));
    }
    lemma_scan_unique(s, st, i, e);
    assert(s.subrange(i, e) =~= a);
    assert(s.subrange(e, s.len() as int) =~= t);
    lemma_split_authority(u.host, u.port);
    lemma_split_tail(or_empty(u.path), u.query, u.fragment);
    assert(opt(or_empty(u.path)) == u.path);
}

/// Parsing the text of a well-formed URI gives that URI back.
pub proof fn lemma_parse_serialize(u: UriModel)
    requires
        well_formed(u),
    ensures
        spec_parse(serialize(u)) == Ok::<_, ParseError>(u),
{
    let s = serialize(u);
    let st = authority_stops();
    let a = or_empty(u.host) + port_part(u.port);
    let t = tail_text(u);
    lemma_serialize_parts(u);
    match u.scheme {
        Some(sc) => {
            let pre = sc + seq![':', '/', '/'];
            assert(s =~= pre + a + t);
            let f: int = sc.len() + 1int;
            assert forall|j: int| 0 <= j < f implies !st.contains(#[trigger] s[j]) by {
                if j < sc.len() {
                    assert(s[j] == sc[j]);
                } else {
                    assert(s[j] == ':');
                }
            }
            assert(s[f] == '/');
            lemma_scan_unique(s, st, 0, f);
            assert(s.subrange(0, f - 1) =~= sc);
            lemma_parse_authority_of(pre, u);
        },
        None => {
            if emits_authority(u) {
                let pre = seq!['/', '/'];
                assert(s =~= pre + a + t);
                lemma_scan_unique(s, st, 0, 0);
                lemma_parse_authority_of(pre, u);
            } else {
                let p = or_empty(u.path);
                let x = part('?', u.query) + part('#', u.fragment);
                assert(s =~= p + x);
                if u.query is Some {
                    assert(x[0] == '?');
                } else if u.fragment is Some {
                    assert(x[0] == '#');
                } else {
                    assert(x.len() == 0);
                }
                if u.path is None {
                    assert(!has_scheme_mark(p));
                }
                lemma_scheme_mark_prefix(p, x);
                lemma_split_tail(p, u.query, u.fragment);
                assert(t =~= p + x);
                assert(opt(p) == u.path);
            }
        },
    }
}

proof fn lemma_stop_sets(c: char)
    ensures
        seq!['?', '#'].contains(c) <==> (c == '?' || c == '#'),
        seq!['?'].contains(c) <==> c == '?',
        seq!['#'].contains(c) <==> c == '#',
{
    if c == '?' {
        assert(seq!['?', '#'][0] == c);
        assert(seq!['?'][0] == c);
    }
    if c == '#' {
        assert(seq!['?', '#'][1] == c);
        assert(seq!['#'][0] == c);
    }
}

proof fn lemma_split_tail_shape(r: Seq<char>)
    ensures
        nonempty_if_present(split_tail(r).0),
        nonempty_if_present(split_tail(r).1),
        nonempty_if_present(split_tail(r).2),
        split_tail(r).0 is Some ==> free_of(split_tail(r).0.unwrap(), seq!['?', '#']) && split_tail(
            r,
        ).0.unwrap()[0] == r[0],
        split_tail(r).1 is Some ==> free_of(split_tail(r).1.unwrap(), seq!['#']),
        ({
            let p = or_empty(split_tail(r).0);
            &&& p.len() <= r.len()
            &&& r.subrange(0, p.len() as int) == p
            &&& p.len() < r.len() ==> r[p.len() as int] == '?' || r[p.len() as int] == '#'
        }),
{
    lemma_scan(r, seq!['#'], 0);
    let h = scan(r, seq!['#'], 0);
    let before = r.subrange(0, h);
    lemma_scan(before, seq!['?'], 0);
    let q = scan(before, seq!['?'], 0);
    let t = split_tail(r);
    if t.0 is Some {
        let p = t.0.unwrap();
        assert(p =~= r.subrange(0, q));
        assert forall|j: int| 0 <= j < p.len() implies !seq!['?', '#'].contains(#[trigger] p[j]) by {
            assert(p[j] == before[j]);
            assert(!seq!['?'].contains(before[j]));
            assert(!seq!['#'].contains(r[j]));
            lemma_stop_sets(p[j]);
        }
    }
    if t.1 is Some {
        let qq = t.1.unwrap();
        assert forall|j: int| 0 <= j < qq.len() implies !seq!['#'].contains(#[trigger] qq[j]) by {
            assert(qq[j] == r[q + 1 + j]);
        }
    }
    let p = or_empty(t.0);
    assert(p.len() == q);
    assert(r.subrange(0, p.len() as int) =~= p);
    if q < h {
        assert(before[q] == '?');
    } else if h < r.len() {
        assert(r[h] == '#');
    }
}

proof fn lemma_split_authority_shape(a: Seq<char>)
    requires
        split_authority(a) is Ok,
        free_of(a, authority_stops()),
    ensures
        ({
            let (host, port) = split_authority(a)->Ok_0;
            &&& nonempty_if_present(host)
            &&& host is Some ==> free_of(host.unwrap(), authority_stops())
            &&& (host is Some && port is None) ==> {
                let h = host.unwrap();
                last_colon(h, h.len() as int) < 0 || last_colon(h, h.len() as int) == h.len() - 1
            }
        }),
{
    lemma_last_colon(a, a.len() as int);
    let c = last_colon(a, a.len() as int);
    if c >= 0 {
        let h = a.subrange(0, c);
        assert forall|j: int| 0 <= j < h.len() implies !authority_stops().contains(#[trigger] h[j]) by {
            assert(h[j] == a[j]);
        }
    }
}

proof fn lemma_parse_from_authority_shape(s: Seq<char>, scheme: Option<Seq<char>>, i: int)
    requires
        0 <= i <= s.len(),
        parse_from_authority(s, scheme, i) is Ok,
        nonempty_if_present(scheme),
        scheme is Some ==> is_alpha(scheme.unwrap()[0]) && free_of(scheme.unwrap(), authority_stops()),
    ensures
        well_formed(parse_from_authority(s, scheme, i)->Ok_0),
{
    let st = authority_stops();
    lemma_scan(s, st, i);
    let e = scan(s, st, i);
    let a = s.subrange(i, e);
    assert forall|j: int| 0 <= j < a.len() implies !st.contains(#[trigger] a[j]) by {
        assert(a[j] == s[i + j]);
    }
    lemma_split_authority_shape(a);
    let r = s.subrange(e, s.len() as int);
    lemma_split_tail_shape(r);
    let u = parse_from_authority(s, scheme, i)->Ok_0;
    if u.path is Some {
        let p = u.path.unwrap();
        assert(p[0] == r[0]);
        assert(r[0] == s[e]);
        assert(st.contains(s[e]));
        assert(!seq!['?', '#'].contains(p[0]));
        assert(p[0] == '/');
        lemma_scan_unique(p, st, 0, 0);
    }
}

/// Every URI that parsing produces is well formed.
pub proof fn lemma_parse_well_formed(s: Seq<char>)
    requires
        spec_parse(s) is Ok,
    ensures
        well_formed(spec_parse(s)->Ok_0),
{
    let st = authority_stops();
    lemma_scan(s, st, 0);
    let f = scan(s, st, 0);
    if has_scheme_mark(s) {
        let sc = s.subrange(0, f - 1);
        assert forall|j: int| 0 <= j < sc.len() implies !st.contains(#[trigger] sc[j]) by {
            assert(sc[j] == s[j]);
        }
        lemma_parse_from_authority_shape(s, Some(sc), f + 2);
    } else if s.len() >= 2 && s[0] == '/' && s[1] == '/' {
        lemma_parse_from_authority_shape(s, None, 2);
    } else {
        lemma_split_tail_shape(s);
        let p = or_empty(split_tail(s).0);
        let x = s.subrange(p.len() as int, s.len() as int);
        assert(s =~= p + x);
        if split_tail(s).0 is None {
            assert(free_of(p, seq!['?', '#']));
        }
        lemma_scheme_mark_prefix(p, x);
    }
}

/// For every text that parses, serializing its components and parsing that
/// text again gives the same components.
pub proof fn lemma_round_trip(s: Seq<char>)
    requires
        spec_parse(s) is Ok,
    ensures
        spec_parse(serialize(spec_parse(s)->Ok_0)) == spec_parse(s),
{
    lemma_parse_well_formed(s);
    lemma_parse_serialize(spec_parse(s)->Ok_0);
}

} // verus!
