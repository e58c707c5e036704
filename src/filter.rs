use vstd::prelude::*;
use crate::hostname::{ip_key, CacheEntry, HostnameCache, Lookup};
use crate::models::TcpStats;
use crate::parser::{endpoint_text, push_ip, state_name, tcp_state_name};
use crate::text::{
    ascii_lower, ascii_lower_chars, chars_of, contains, contains_chars, decimal, lower_of, lowercase,
    push_decimal,
};

verus! {

/// Whether the lower-cased filter `f` occurs in one of the connection's fields: either
/// endpoint as `address:port`, the resolved name of the remote address, the state
/// name (lower-cased), the uid or the inode.
pub open spec fn matches_spec(conn: TcpStats, f: Seq<char>, m: Map<u32, Lookup>) -> bool {
    ||| contains(endpoint_text(conn.local_ip, conn.local_port), f)
    ||| contains(endpoint_text(conn.remote_ip, conn.remote_port), f)
    ||| (m.contains_key(ip_key(conn.remote_ip)) && m[ip_key(conn.remote_ip)] is Resolved && contains(
        lower_of(m[ip_key(conn.remote_ip)]->Resolved_0),
        f,
    ))
    ||| contains(ascii_lower(state_name(conn.state)), f)
    ||| contains(decimal(conn.uid as nat), f)
    ||| contains(decimal(conn.inode as nat), f)
}

fn endpoint_chars(ip: &[u8; 4], port: u16) -> (r: Vec<char>)
    ensures
        r@ == endpoint_text(*ip, port),
{
    let mut out: Vec<char> = Vec::new();
    push_ip(ip, &mut out);
    out.push(':');
    push_decimal(port as u64, &mut out);
    assert(out@ =~= endpoint_text(*ip, port));
    out
}

fn decimal_chars(n: u64) -> (r: Vec<char>)
    ensures
        r@ == decimal(n as nat),
{
    let mut out: Vec<char> = Vec::new();
    push_decimal(n, &mut out);
    assert(out@ =~= decimal(n as nat));
    out
}

/// Matches a connection against a filter that is already lower-cased.
pub fn matches_lowered(conn: &TcpStats, f: &str, cache: &HostnameCache) -> (r: bool)
    ensures
        r == matches_spec(*conn, f@, cache.view()),
{
    let fc = chars_of(f);
    let local = endpoint_chars(&conn.local_ip, conn.local_port);
    if contains_chars(local.as_slice(), fc.as_slice()) {
        return true;
    }
    let remote = endpoint_chars(&conn.remote_ip, conn.remote_port);
    if contains_chars(remote.as_slice(), fc.as_slice()) {
        return true;
    }
    let ghost k = ip_key(conn.remote_ip);
    match cache.get(&conn.remote_ip) {
        Some(CacheEntry::Resolved(h)) => {
            let lh = lowercase(h.as_str());
            let lc = chars_of(lh.as_str());
            if contains_chars(lc.as_slice(), fc.as_slice()) {
                return true;
            }
        },
        _ => {},
    }
    let state = chars_of(tcp_state_name(conn.state));
    let sc = ascii_lower_chars(state.as_slice());
    if contains_chars(sc.as_slice(), fc.as_slice()) {
        return true;
    }
    let uid = decimal_chars(conn.uid as u64);
    if contains_chars(uid.as_slice(), fc.as_slice()) {
        return true;
    }
    let inode = decimal_chars(conn.inode);
    contains_chars(inode.as_slice(), fc.as_slice())
}

/// Whether a connection matches a free-text filter. The empty filter matches every
/// connection; any other matches when its lower-case form occurs in one of the
/// connection's fields (see `matches_spec`).
pub fn tcp_matches_filter(conn: &TcpStats, filter: &str, cache: &HostnameCache) -> (r: bool)
    ensures
        r == (filter@.len() == 0 || matches_spec(*conn, lower_of(filter@), cache.view())),
{
    let n = filter.unicode_len();
    if n == 0 {
        return true;
    }
    let lowered = lowercase(filter);
    matches_lowered(conn, lowered.as_str(), cache)
}

} // verus!
