//! Subdomain routing of requests to running functions, and the table of their addresses.
use vstd::prelude::*;

use crate::func::opt_view;
use crate::index::{index_get, index_insert, index_new, index_remove, index_entries, StringIndex};
use crate::sandbox::{decimal, decimal_string};

verus! {

/// `s` without the suffix `suf`, if it ends with it.
pub open spec fn strip_suffix(s: Seq<char>, suf: Seq<char>) -> Option<Seq<char>> {
    if suf.len() <= s.len() && s.skip(s.len() - suf.len()) == suf {
        Some(s.take(s.len() - suf.len()))
    } else {
        None
    }
}

/// Removes the suffix `suf` from `s`, if `s` ends with it.
pub fn strip_suffix_str(s: &str, suf: &str) -> (r: Option<String>)
    ensures
        opt_view(r) == strip_suffix(s@, suf@),
{
    let n = s.unicode_len();
    let m = suf.unicode_len();
    if m > n {
        return None;
    }
    let start = n - m;
    let mut i: usize = 0;
    while i < m
        invariant
            n == s@.len(),
            m == suf@.len(),
            start == n - m,
            i <= m,
            forall|j: int| 0 <= j < i ==> s@[start + j] == suf@[j],
        decreases m - i,
    {
        if s.get_char(start + i) != suf.get_char(i) {
            proof {
                assert(s@.skip(start as int)[i as int] != suf@[i as int]);
            }
            return None;
        }
        i = i + 1;
    }
    assert(s@.skip(start as int) =~= suf@);
    Some(s.substring_char(0, start).to_owned())
}

/// Routes requests by their `Host` header: a host of the form `<prefix>.<host>:<port>` or
/// `<prefix>.<host>` is a request to the function whose host prefix is `<prefix>`.
#[derive(Debug)]
pub struct HostRouter {
    /// `.<host>`.
    pub host_with_dot: String,
    /// `.<host>:<port>`.
    pub host_port_with_dot: String,
}

/// The function prefix of a request to host `h`: the suffix with the port is tried first.
pub open spec fn route_of(router: &HostRouter, h: Seq<char>) -> Option<Seq<char>> {
    match strip_suffix(h, router.host_port_with_dot@) {
        Some(p) => Some(p),
        None => strip_suffix(h, router.host_with_dot@),
    }
}

impl HostRouter {
    /// Creates a router for the configured host name and port.
    pub fn new(host: &str, port: u16) -> (r: Self)
        ensures
            r.host_with_dot@ == seq!['.'] + host@,
            r.host_port_with_dot@ == seq!['.'] + host@ + seq![':'] + decimal(port as nat),
    {
        proof {
            reveal_strlit(".");
            reveal_strlit(":");
        }
        let mut a = ".".to_owned();
        a.append(host);
        let mut b = ".".to_owned();
        b.append(host);
        b.append(":");
        b.append(decimal_string(port as u32).as_str());
        HostRouter { host_with_dot: a, host_port_with_dot: b }
    }

    /// The host prefix of the function a request to `host` is for, or `None` when the request
    /// is not for a function.
    pub fn route_prefix(&self, host: &str) -> (r: Option<String>)
        ensures
            opt_view(r) == route_of(self, host@),
    {
        match strip_suffix_str(host, self.host_port_with_dot.as_str()) {
            Some(p) => Some(p),
            None => strip_suffix_str(host, self.host_with_dot.as_str()),
        }
    }
}

/// ASCII lowercase of a character; other characters are unchanged.
pub open spec fn ascii_lower(c: char) -> char {
    if 'A' <= c && c <= 'Z' {
        ((c as u8) + 32) as char
    } else {
        c
    }
}

/// Lowercases one character as `ascii_lower` does.
pub fn lower_char(c: char) -> (r: char)
    ensures
        r == ascii_lower(c),
{
    if 'A' <= c && c <= 'Z' {
        ((c as u8) + 32) as char
    } else {
        c
    }
}

/// `pat` occurs in `s` at index `i`.
pub open spec fn occurs_at(s: Seq<char>, pat: Seq<char>, i: int) -> bool {
    0 <= i && i + pat.len() <= s.len() && s.subrange(i, i + pat.len()) == pat
}

/// ASCII lowercase of a string.
pub open spec fn lowered(s: Seq<char>) -> Seq<char> {
    s.map_values(|c: char| ascii_lower(c))
}

/// `pat` occurs in the ASCII lowercase of `s`.
pub open spec fn lower_contains(s: Seq<char>, pat: Seq<char>) -> bool {
    exists|i: int| #[trigger] occurs_at(lowered(s), pat, i)
}

/// `a` and `b` are equal ignoring ASCII case.
pub open spec fn eq_ignore_case(a: Seq<char>, b: Seq<char>) -> bool {
    a.len() == b.len() && forall|i: int| 0 <= i < a.len() ==> ascii_lower(a[i]) == ascii_lower(b[i])
}

/// Whether the header value, if present, contains `pat` once lowercased.
pub fn header_contains(value: Option<&str>, pat: &str) -> (r: bool)
    ensures
        r == (value is Some && lower_contains(value->0@, pat@)),
{
    let v = match value {
        None => {
            return false;
        },
        Some(v) => v,
    };
    let ghost low = lowered(v@);
    let n = v.unicode_len();
    let m = pat.unicode_len();
    if m > n {
        proof {
            assert forall|i: int| !occurs_at(low, pat@, i) by {}
        }
        return false;
    }
    let mut i: usize = 0;
    while i <= n - m
        invariant
            value == Some(v),
            n == v@.len(),
            m == pat@.len(),
            m <= n,
            low == lowered(v@),
            forall|k: int| 0 <= k < i ==> !occurs_at(low, pat@, k),
        decreases n - m + 1 - i,
    {
        let mut j: usize = 0;
        let mut same = true;
        while j < m
            invariant
                n == v@.len(),
                m == pat@.len(),
                i + m <= n,
                j <= m,
                low == lowered(v@),
                same == forall|q: int| 0 <= q < j ==> low[i + q] == pat@[q],
            decreases m - j,
        {
            if lower_char(v.get_char(i + j)) != pat.get_char(j) {
                same = false;
            }
            j = j + 1;
        }
        if same {
            proof {
                assert(low.subrange(i as int, i + m) =~= pat@);
                assert(occurs_at(low, pat@, i as int));
                assert(low == lowered(v@));
                assert(lower_contains(v@, pat@));
            }
            return true;
        }
        proof {
            assert(!occurs_at(low, pat@, i as int)) by {
                let q = choose|q: int| 0 <= q < m && low[i + q] != pat@[q];
                assert(low.subrange(i as int, i + m)[q] != pat@[q]);
            }
        }
        i = i + 1;
    }
    proof {
        assert forall|k: int| !occurs_at(low, pat@, k) by {}
    }
    false
}

/// Whether the header value, if present, equals `expected` ignoring ASCII case.
pub fn header_eq(value: Option<&str>, expected: &str) -> (r: bool)
    ensures
        r == (value is Some && eq_ignore_case(value->0@, expected@)),
{
    let v = match value {
        None => {
            return false;
        },
        Some(v) => v,
    };
    let n = v.unicode_len();
    if n != expected.unicode_len() {
        return false;
    }
    let mut i: usize = 0;
    while i < n
        invariant
            value == Some(v),
            n == v@.len(),
            n == expected@.len(),
            i <= n,
            forall|q: int| 0 <= q < i ==> ascii_lower(v@[q]) == ascii_lower(expected@[q]),
        decreases n - i,
    {
        if lower_char(v.get_char(i)) != lower_char(expected.get_char(i)) {
            proof {
                assert(ascii_lower(v@[i as int]) != ascii_lower(expected@[i as int]));
            }
            return false;
        }
        i = i + 1;
    }
    true
}

/// Whether a request asks for a WebSocket upgrade: on HTTP/1.x, a `Connection` header that
/// contains `upgrade` and an `Upgrade` header equal to `websocket`, both ignoring ASCII case;
/// on later versions, the `CONNECT` method.
pub fn maybe_ws_request(
    http1: bool,
    is_connect: bool,
    connection: Option<&str>,
    upgrade: Option<&str>,
) -> (r: bool)
    ensures
        http1 ==> r == (connection is Some && lower_contains(connection->0@, "upgrade"@)
            && upgrade is Some && eq_ignore_case(upgrade->0@, "websocket"@)),
        !http1 ==> r == is_connect,
{
    if http1 {
        header_contains(connection, "upgrade") && header_eq(upgrade, "websocket")
    } else {
        is_connect
    }
}

/// Table from host prefix to the address (`host:port`) of the running function.
pub struct ProxyTable {
    entries: StringIndex,
}

impl View for ProxyTable {
    type V = Map<Seq<char>, Seq<char>>;

    closed spec fn view(&self) -> Map<Seq<char>, Seq<char>> {
        index_entries(self.entries)
    }
}

impl ProxyTable {
    /// Creates an empty table.
    pub fn new() -> (r: Self)
        ensures
            r@ == Map::<Seq<char>, Seq<char>>::empty(),
    {
        ProxyTable { entries: index_new() }
    }

    /// Address of the function with host prefix `prefix`.
    pub fn get(&self, prefix: &str) -> (r: Option<String>)
        ensures
            match r {
                Some(a) => self@.contains_key(prefix@) && self@[prefix@] == a@,
                None => !self@.contains_key(prefix@),
            },
    {
        index_get(&self.entries, prefix)
    }

    /// Sets the address of the function with host prefix `prefix`.
    pub fn insert(&mut self, prefix: String, authority: String)
        ensures
            final(self)@ == old(self)@.insert(prefix@, authority@),
    {
        index_remove(&mut self.entries, prefix.as_str());
        let ghost p = prefix@;
        index_insert(&mut self.entries, prefix, authority);
        proof {
            assert(old(self)@.remove(p).insert(p, authority@) =~= old(self)@.insert(p, authority@));
        }
    }

    /// Removes the address of the function with host prefix `prefix`.
    pub fn remove(&mut self, prefix: &str)
        ensures
            final(self)@ == old(self)@.remove(prefix@),
    {
        index_remove(&mut self.entries, prefix);
    }
}

} // verus!
