//! A structural URI splitter: `scheme://host:port/path?query#fragment`, with
//! no decoding or character-set validation.

use vstd::prelude::*;
use vstd::string::*;

verus! {

/// Why a string could not be split into URI components.
#[derive(Debug, Clone, Copy, PartialEq, Eq, Structural)]
pub enum ParseError {
    /// The text before `://` is empty or does not start with a letter.
    BadScheme,
    /// The text after the authority's last `:` is neither empty nor a
    /// decimal number in `0..=65535`.
    BadPort,
}

/// The components of a URI as character sequences.
pub struct UriModel {
    pub scheme: Option<Seq<char>>,
    pub host: Option<Seq<char>>,
    pub port: Option<u16>,
    pub path: Option<Seq<char>>,
    pub query: Option<Seq<char>>,
    pub fragment: Option<Seq<char>>,
}

/// The first index at or after `i` whose character is one of `stops`, or the
/// length of `s` when there is none.
pub open spec fn scan(s: Seq<char>, stops: Seq<char>, i: int) -> int
    decreases s.len() - i,
{
    if !(0 <= i < s.len()) {
        s.len() as int
    } else if stops.contains(s[i]) {
        i
    } else {
        scan(s, stops, i + 1)
    }
}

/// The last index below `i` that holds a `:`, or `-1`.
pub open spec fn last_colon(a: Seq<char>, i: int) -> int
    decreases i,
{
    if i <= 0 || i > a.len() {
        -1
    } else if a[i - 1] == ':' {
        i - 1
    } else {
        last_colon(a, i - 1)
    }
}

/// An empty component counts as absent.
pub open spec fn opt(s: Seq<char>) -> Option<Seq<char>> {
    if s.len() == 0 {
        None
    } else {
        Some(s)
    }
}

pub open spec fn is_digit(c: char) -> bool {
    '0' <= c && c <= '9'
}

pub open spec fn is_alpha(c: char) -> bool {
    ('a' <= c && c <= 'z') || ('A' <= c && c <= 'Z')
}

pub open spec fn all_digits(s: Seq<char>) -> bool {
    forall|i: int| 0 <= i < s.len() ==> is_digit(#[trigger] s[i])
}

pub open spec fn digit_value(c: char) -> nat {
    ((c as u32) - ('0' as u32)) as nat
}

/// The number that a run of decimal digits denotes.
pub open spec fn decimal(s: Seq<char>) -> nat
    decreases s.len(),
{
    if s.len() == 0 {
        0
    } else {
        decimal(s.drop_last()) * 10 + digit_value(s.last())
    }
}

pub open spec fn authority_stops() -> Seq<char> {
    seq!['/', '?', '#']
}

/// Splits an authority into host and port at its last `:`. A trailing `:`
/// with nothing after it stays part of the host.
pub open spec fn split_authority(a: Seq<char>) -> Result<(Option<Seq<char>>, Option<u16>), ParseError> {
    let c = last_colon(a, a.len() as int);
    let rem = a.subrange(c + 1, a.len() as int);
    if c < 0 || rem.len() == 0 {
        Ok((opt(a), None))
    } else if all_digits(rem) && decimal(rem) <= 65535 {
        Ok((opt(a.subrange(0, c)), Some(decimal(rem) as u16)))
    } else {
        Err(ParseError::BadPort)
    }
}

/// Splits what follows the authority into path, query and fragment: the
/// fragment starts at the first `#`, the query at the first `?` before it.
pub open spec fn split_tail(r: Seq<char>) -> (Option<Seq<char>>, Option<Seq<char>>, Option<Seq<char>>) {
    let h = scan(r, seq!['#'], 0);
    let before = r.subrange(0, h);
    let q = scan(before, seq!['?'], 0);
    (
        opt(before.subrange(0, q)),
        if q < h { opt(before.subrange(q + 1, h)) } else { None },
        if h < r.len() { opt(r.subrange(h + 1, r.len() as int)) } else { None },
    )
}

/// The components of `s` when an authority starts at `i`.
pub open spec fn parse_from_authority(s: Seq<char>, scheme: Option<Seq<char>>, i: int) -> Result<UriModel, ParseError> {
    let e = scan(s, authority_stops(), i);
    match split_authority(s.subrange(i, e)) {
        Ok(hp) => {
            let t = split_tail(s.subrange(e, s.len() as int));
            Ok(UriModel { scheme, host: hp.0, port: hp.1, path: t.0, query: t.1, fragment: t.2 })
        },
        Err(err) => Err(err),
    }
}

/// Whether the first of `/`, `?`, `#` in `s` is the first `/` of a `://`.
pub open spec fn has_scheme_mark(s: Seq<char>) -> bool {
    let f = scan(s, authority_stops(), 0);
    1 <= f && f + 1 < s.len() && s[f] == '/' && s[f - 1] == ':' && s[f + 1] == '/'
}

/// What `s` splits into: a scheme before a `://` that precedes any `/`, `?`
/// or `#`; else an authority after a leading `//`; else no scheme and no
/// authority.
pub open spec fn spec_parse(s: Seq<char>) -> Result<UriModel, ParseError> {
    let f = scan(s, authority_stops(), 0);
    if has_scheme_mark(s) {
        if f - 1 == 0 || !is_alpha(s[0]) {
            Err(ParseError::BadScheme)
        } else {
            parse_from_authority(s, Some(s.subrange(0, f - 1)), f + 2)
        }
    } else if s.len() >= 2 && s[0] == '/' && s[1] == '/' {
        parse_from_authority(s, None, 2)
    } else {
        let t = split_tail(s);
        Ok(UriModel { scheme: None, host: None, port: None, path: t.0, query: t.1, fragment: t.2 })
    }
}

pub proof fn lemma_last_colon(a: Seq<char>, i: int)
    requires
        0 <= i <= a.len(),
    ensures
        -1 <= last_colon(a, i) < i,
        last_colon(a, i) >= 0 ==> a[last_colon(a, i)] == ':',
        forall|j: int| last_colon(a, i) < j < i ==> a[j] != ':',
    decreases i,
{
    if i > 0 && a[i - 1] != ':' {
        lemma_last_colon(a, i - 1);
    }
}

/// What `scan` finds: the first stop character at or after `i`.
pub proof fn lemma_scan(s: Seq<char>, stops: Seq<char>, i: int)
    requires
        0 <= i <= s.len(),
    ensures
        i <= scan(s, stops, i) <= s.len(),
        scan(s, stops, i) < s.len() ==> stops.contains(s[scan(s, stops, i)]),
        forall|j: int| i <= j < scan(s, stops, i) ==> !stops.contains(#[trigger] s[j]),
    decreases s.len() - i,
{
    if i < s.len() && !stops.contains(s[i]) {
        lemma_scan(s, stops, i + 1);
    }
}

/// `scan` is determined by the properties that `lemma_scan` gives.
pub proof fn lemma_scan_unique(s: Seq<char>, stops: Seq<char>, i: int, r: int)
    requires
        0 <= i <= r <= s.len(),
        r < s.len() ==> stops.contains(s[r]),
        forall|j: int| i <= j < r ==> !stops.contains(#[trigger] s[j]),
    ensures
        scan(s, stops, i) == r,
    decreases r - i,
{
    if i < r {
        lemma_scan_unique(s, stops, i + 1, r);
    }
}

fn is_stop(stops: &[char], c: char) -> (r: bool)
    ensures
        r == stops@.contains(c),
{
    let mut k: usize = 0;
    while k < stops.len()
        invariant
            k <= stops@.len(),
            forall|j: int| 0 <= j < k ==> stops@[j] != c,
        decreases stops@.len() - k,
    {
        if stops[k] == c {
            return true;
        }
        k = k + 1;
    }
    false
}

fn scan_exec(s: &str, n: usize, stops: &[char], i: usize) -> (r: usize)
    requires
        n == s@.len(),
        i <= n,
    ensures
        r == scan(s@, stops@, i as int),
{
    let mut k = i;
    while k < n
        invariant
            n == s@.len(),
            i <= k <= n,
            scan(s@, stops@, i as int) == scan(s@, stops@, k as int),
        decreases n - k,
    {
        if is_stop(stops, s.get_char(k)) {
            return k;
        }
        k = k + 1;
    }
    k
}

/// A URI split into components that borrow from the parsed text.
#[derive(Debug, Clone, Copy)]
pub struct Uri<'a> {
    pub scheme: Option<&'a str>,
    pub host: Option<&'a str>,
    pub port: Option<u16>,
    pub path: Option<&'a str>,
    pub query: Option<&'a str>,
    pub fragment: Option<&'a str>,
}

pub open spec fn view_opt_str(o: Option<&str>) -> Option<Seq<char>> {
    match o {
        Some(x) => Some(x@),
        None => None,
    }
}

impl<'a> View for Uri<'a> {
    type V = UriModel;

    open spec fn view(&self) -> UriModel {
        UriModel {
            scheme: view_opt_str(self.scheme),
            host: view_opt_str(self.host),
            port: self.port,
            path: view_opt_str(self.path),
            query: view_opt_str(self.query),
            fragment: view_opt_str(self.fragment),
        }
    }
}

fn opt_slice<'a>(s: &'a str, a: usize, b: usize) -> (r: Option<&'a str>)
    requires
        a <= b <= s@.len(),
    ensures
        view_opt_str(r) == opt(s@.subrange(a as int, b as int)),
{
    if a == b {
        None
    } else {
        Some(s.substring_char(a, b))
    }
}

fn last_colon_exec(a: &str, n: usize) -> (r: Option<usize>)
    requires
        n == a@.len(),
    ensures
        match r {
            Some(c) => c == last_colon(a@, n as int),
            None => last_colon(a@, n as int) == -1,
        },
{
    let mut k = n;
    while k > 0
        invariant
            n == a@.len(),
            k <= n,
            last_colon(a@, n as int) == last_colon(a@, k as int),
        decreases k,
    {
        if a.get_char(k - 1) == ':' {
            return Some(k - 1);
        }
        k = k - 1;
    }
    None
}

proof fn lemma_decimal_prefix_grows(s: Seq<char>, i: int)
    requires
        0 <= i <= s.len(),
    ensures
        decimal(s.subrange(0, i)) <= decimal(s),
    decreases s.len() - i,
{
    if i < s.len() {
        lemma_decimal_prefix_grows(s, i + 1);
        assert(s.subrange(0, i + 1).drop_last() =~= s.subrange(0, i));
    } else {
        assert(s.subrange(0, i) =~= s);
    }
}

/// The port that the digits of `d` denote, or `None` where `d` holds a
/// non-digit or a number above 65535.
fn port_number(d: &str, n: usize) -> (r: Option<u16>)
    requires
        n == d@.len(),
    ensures
        match r {
            Some(p) => all_digits(d@) && decimal(d@) <= 65535 && p == decimal(d@),
            None => !(all_digits(d@) && decimal(d@) <= 65535),
        },
{
    let mut v: u32 = 0;
    let mut k: usize = 0;
    while k < n
        invariant
            n == d@.len(),
            k <= n,
            v <= 65535,
            v == decimal(d@.subrange(0, k as int)),
            all_digits(d@.subrange(0, k as int)),
        decreases n - k,
    {
        let c = d.get_char(k);
        if !('0' <= c && c <= '9') {
            assert(!is_digit(d@[k as int]));
            return None;
        }
        let dv = (c as u32) - ('0' as u32);
        assert(d@.subrange(0, k + 1).drop_last() =~= d@.subrange(0, k as int));
        if v * 10 + dv > 65535 {
            proof {
                lemma_decimal_prefix_grows(d@, k + 1);
            }
            return None;
        }
        v = v * 10 + dv;
        k = k + 1;
        assert forall|j: int| 0 <= j < k implies is_digit(#[trigger] d@.subrange(0, k as int)[j]) by {
            if j < k - 1 {
                assert(d@.subrange(0, k as int)[j] == d@.subrange(0, k - 1)[j]);
            }
        }
    }
    assert(d@.subrange(0, n as int) =~= d@);
    Some(v as u16)
}

fn split_authority_exec<'a>(a: &'a str) -> (r: Result<(Option<&'a str>, Option<u16>), ParseError>)
    ensures
        match (r, split_authority(a@)) {
            (Ok(x), Ok(y)) => view_opt_str(x.0) == y.0 && x.1 == y.1,
            (Err(x), Err(y)) => x == y,
            _ => false,
        },
{
    let n = a.unicode_len();
    proof {
        lemma_last_colon(a@, n as int);
    }
    match last_colon_exec(a, n) {
        None => Ok((opt_slice(a, 0, n), None)),
        Some(c) => {
            if c + 1 == n {
                return Ok((opt_slice(a, 0, n), None));
            }
            let rem = a.substring_char(c + 1, n);
            let rn = a.unicode_len() - (c + 1);
            assert(a@.subrange(0, n as int) =~= a@);
            match port_number(rem, rn) {
                Some(p) => Ok((opt_slice(a, 0, c), Some(p))),
                None => Err(ParseError::BadPort),
            }
        },
    }
}

pub open spec fn view_parsed(r: Result<Uri, ParseError>) -> Result<UriModel, ParseError> {
    match r {
        Ok(u) => Ok(u@),
        Err(e) => Err(e),
    }
}

fn split_tail_exec<'a>(r: &'a str) -> (t: (Option<&'a str>, Option<&'a str>, Option<&'a str>))
    ensures
        view_opt_str(t.0) == split_tail(r@).0,
        view_opt_str(t.1) == split_tail(r@).1,
        view_opt_str(t.2) == split_tail(r@).2,
{
    let n = r.unicode_len();
    let hash: &[char] = &['#'];
    assert(hash@ =~= seq!['#']);
    let h = scan_exec(r, n, hash, 0);
    proof {
        lemma_scan(r@, seq!['#'], 0);
    }
    let before = r.substring_char(0, h);
    let question: &[char] = &['?'];
    assert(question@ =~= seq!['?']);
    let q = scan_exec(before, h, question, 0);
    proof {
        lemma_scan(before@, seq!['?'], 0);
    }
    let path = opt_slice(before, 0, q);
    let query = if q < h {
        opt_slice(before, q + 1, h)
    } else {
        None
    };
    let fragment = if h < n {
        opt_slice(r, h + 1, n)
    } else {
        None
    };
    (path, query, fragment)
}

fn parse_from_authority_exec<'a>(s: &'a str, n: usize, scheme: Option<&'a str>, i: usize) -> (r: Result<Uri<'a>, ParseError>)
    requires
        n == s@.len(),
        i <= n,
    ensures
        view_parsed(r) == parse_from_authority(s@, view_opt_str(scheme), i as int),
{
    let stops: &[char] = &['/', '?', '#'];
    assert(stops@ =~= authority_stops());
    let e = scan_exec(s, n, stops, i);
    proof {
        lemma_scan(s@, authority_stops(), i as int);
    }
    let auth = s.substring_char(i, e);
    match split_authority_exec(auth) {
        Ok(hp) => {
            let t = split_tail_exec(s.substring_char(e, n));
            Ok(Uri { scheme, host: hp.0, port: hp.1, path: t.0, query: t.1, fragment: t.2 })
        },
        Err(err) => Err(err),
    }
}

impl<'a> Uri<'a> {
    /// Splits `s` into its components; each present component is a
    /// non-empty slice of `s`.
    pub fn new(s: &'a str) -> (r: Result<Uri<'a>, ParseError>)
        ensures
            view_parsed(r) == spec_parse(s@),
    {
        let n = s.unicode_len();
        let stops: &[char] = &['/', '?', '#'];
        assert(stops@ =~= authority_stops());
        let f = scan_exec(s, n, stops, 0);
        proof {
            lemma_scan(s@, authority_stops(), 0);
        }
        if 1 <= f && n > 1 && f < n - 1 && s.get_char(f) == '/' && s.get_char(f - 1) == ':' && s.get_char(f + 1) == '/' {
            let c0 = s.get_char(0);
            if f - 1 == 0 || !(('a' <= c0 && c0 <= 'z') || ('A' <= c0 && c0 <= 'Z')) {
                Err(ParseError::BadScheme)
            } else {
                let scheme = s.substring_char(0, f - 1);
                parse_from_authority_exec(s, n, Some(scheme), f + 2)
            }
        } else if n >= 2 && s.get_char(0) == '/' && s.get_char(1) == '/' {
            parse_from_authority_exec(s, n, None, 2)
        } else {
            let t = split_tail_exec(s);
            Ok(Uri { scheme: None, host: None, port: None, path: t.0, query: t.1, fragment: t.2 })
        }
    }
}

/// A URI whose components are owned; the host may be replaced after
/// construction without touching the other components.
#[derive(Debug, Clone)]
pub struct UriOwned {
    pub scheme: Option<String>,
    pub host: Option<String>,
    pub port: Option<u16>,
    pub path: Option<String>,
    pub query: Option<String>,
    pub fragment: Option<String>,
}

pub open spec fn view_opt_string(o: Option<String>) -> Option<Seq<char>> {
    match o {
        Some(x) => Some(x@),
        None => None,
    }
}

impl View for UriOwned {
    type V = UriModel;

    open spec fn view(&self) -> UriModel {
        UriModel {
            scheme: view_opt_string(self.scheme),
            host: view_opt_string(self.host),
            port: self.port,
            path: view_opt_string(self.path),
            query: view_opt_string(self.query),
            fragment: view_opt_string(self.fragment),
        }
    }
}

pub open spec fn digit_char(d: nat) -> char {
    ((d + 48) as u8) as char
}

/// The decimal digits of `p`, without leading zeros.
pub open spec fn port_text(p: nat) -> Seq<char>
    decreases p,
{
    if p < 10 {
        seq![digit_char(p)]
    } else {
        port_text(p / 10).push(digit_char(p % 10))
    }
}

pub open spec fn or_empty(o: Option<Seq<char>>) -> Seq<char> {
    match o {
        Some(x) => x,
        None => Seq::empty(),
    }
}

pub open spec fn starts_with_two_slashes(p: Seq<char>) -> bool {
    p.len() >= 2 && p[0] == '/' && p[1] == '/'
}

/// Whether the text of `u` carries an authority marker: `://` after a
/// scheme, else `//` when there is a host or a port, or when the path itself
/// starts with `//` and would otherwise read as an authority.
pub open spec fn emits_authority(u: UriModel) -> bool {
    u.scheme is Some || u.host is Some || u.port is Some || (u.path is Some
        && starts_with_two_slashes(u.path.unwrap()))
}

/// The text of `u`: `scheme "://" host ":" port path "?" query "#" fragment`,
/// each absent component left out together with its separator.
pub open spec fn serialize(u: UriModel) -> Seq<char> {
    let lead = match u.scheme {
        Some(sc) => sc + seq![':', '/', '/'],
        None => if emits_authority(u) {
            seq!['/', '/']
        } else {
            Seq::empty()
        },
    };
    let port = match u.port {
        Some(p) => seq![':'] + port_text(p as nat),
        None => Seq::empty(),
    };
    let query = match u.query {
        Some(q) => seq!['?'] + q,
        None => Seq::empty(),
    };
    let fragment = match u.fragment {
        Some(f) => seq!['#'] + f,
        None => Seq::empty(),
    };
    lead + or_empty(u.host) + port + or_empty(u.path) + query + fragment
}

fn digit_str(d: u16) -> (r: &'static str)
    requires
        d < 10,
    ensures
        r@ == seq![digit_char(d as nat)],
{
    let all = "0123456789";
    proof {
        reveal_strlit("0123456789");
    }
    let r = all.substring_char(d as usize, d as usize + 1);
    assert(r@ =~= seq![digit_char(d as nat)]);
    r
}

fn append_decimal(out: &mut String, p: u16)
    ensures
        final(out)@ == old(out)@ + port_text(p as nat),
    decreases p,
{
    if p >= 10 {
        append_decimal(out, p / 10);
    }
    out.append(digit_str(p % 10));
    assert(final(out)@ =~= old(out)@ + port_text(p as nat));
}

fn owned(o: Option<&str>) -> (r: Option<String>)
    ensures
        view_opt_string(r) == view_opt_str(o),
{
    match o {
        Some(x) => Some(x.to_owned()),
        None => None,
    }
}

impl UriOwned {
    /// Copies every component of `u` into owned storage.
    pub fn from_uri(u: Uri) -> (r: UriOwned)
        ensures
            r@ == u@,
    {
        UriOwned {
            scheme: owned(u.scheme),
            host: owned(u.host),
            port: u.port,
            path: owned(u.path),
            query: owned(u.query),
            fragment: owned(u.fragment),
        }
    }

    /// The text of this URI, per `serialize`.
    pub fn to_string(&self) -> (r: String)
        ensures
            r@ == serialize(self@),
    {
        let ghost u = self@;
        proof {
            reveal_strlit("");
            reveal_strlit("?");
            reveal_strlit("#");
        }
        assert(""@ =~= Seq::<char>::empty());
        let mut out = self.lead();
        let ghost s0 = out@;
        append_part(&mut out, "", &self.host);
        let ghost s1 = out@;
        if let Some(p) = self.port {
            proof {
                reveal_strlit(":");
            }
            out.append(":");
            append_decimal(&mut out, p);
        }
        let ghost port = match u.port {
            Some(p) => seq![':'] + port_text(p as nat),
            None => Seq::empty(),
        };
        assert(out@ =~= s1 + port);
        let ghost s2 = out@;
        append_part(&mut out, "", &self.path);
        let ghost s3 = out@;
        append_part(&mut out, "?", &self.query);
        let ghost s4 = out@;
        append_part(&mut out, "#", &self.fragment);
        assert(s1 =~= s0 + or_empty(u.host));
        assert(s3 =~= s2 + or_empty(u.path));
        assert(out@ =~= serialize(u));
        out
    }

    fn lead(&self) -> (r: String)
        ensures
            r@ == (match self@.scheme {
                Some(sc) => sc + seq![':', '/', '/'],
                None => if emits_authority(self@) {
                    seq!['/', '/']
                } else {
                    Seq::empty()
                },
            }),
    {
        proof {
            reveal_strlit("://");
            reveal_strlit("//");
        }
        match &self.scheme {
            Some(sc) => {
                let mut out = sc.clone();
                out.append("://");
                out
            },
            None => {
                let two_slashes = match &self.path {
                    Some(p) => {
                        let ps = p.as_str();
                        ps.unicode_len() >= 2 && ps.get_char(0) == '/' && ps.get_char(1) == '/'
                    },
                    None => false,
                };
                let mut out = String::new();
                if self.host.is_some() || self.port.is_some() || two_slashes {
                    out.append("//");
                }
                out
            },
        }
    }
}

fn append_part(out: &mut String, sep: &str, part: &Option<String>)
    ensures
        final(out)@ == old(out)@ + match part {
            Some(x) => sep@ + x@,
            None => Seq::empty(),
        },
{
    if let Some(x) = part {
        out.append(sep);
        out.append(x.as_str());
    }
    assert(final(out)@ =~= old(out)@ + match part {
        Some(x) => sep@ + x@,
        None => Seq::empty(),
    });
}

} // verus!
