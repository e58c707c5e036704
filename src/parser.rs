use vstd::prelude::*;
use crate::models::{NetworkStats, Receive, TcpStats, Transmit};
use crate::text::{
    chars_of, copy_range, dec_u64, decimal, fields, find_char, find_chars, first_index,
    first_occurrence, lemma_pieces_nonempty, parse_unsigned, parse_unsigned_in, pieces,
    push_decimal, skip_upto, split_fields, split_on, string_from_chars, trim, trim_bounds,
    trim_end_char, trim_end_char_len, views_of,
};

verus! {

/// Why a field of the connection table could not be decoded.
#[derive(Clone, Copy, Debug, PartialEq, Eq, Structural)]
pub enum ParseError {
    /// The address part is not exactly eight hexadecimal digits.
    InvalidAddress,
    /// An `address:port` field has no `:`.
    MissingPort,
    /// A `left:right` field has no `:`.
    MissingValue,
    /// A number is malformed or out of range.
    InvalidNumber,
}

pub open spec fn hex_u64(s: Seq<char>) -> Option<nat> {
    parse_unsigned(s, 16, u64::MAX as nat)
}

/// What `parse_hex_values` returns for the text `s`.
pub open spec fn hex_value_spec(s: Seq<char>) -> Result<u64, ParseError> {
    match hex_u64(s) {
        Some(n) => Ok(n as u64),
        None => Err(ParseError::InvalidNumber),
    }
}

/// What `parse_hex_value_pairs` returns for the text `s`.
pub open spec fn hex_pair_spec(s: Seq<char>) -> Result<(u64, u64), ParseError> {
    let p = pieces(s, ':');
    if hex_u64(p[0]) is None {
        Err(ParseError::InvalidNumber)
    } else if p.len() < 2 {
        Err(ParseError::MissingValue)
    } else if hex_u64(p[1]) is None {
        Err(ParseError::InvalidNumber)
    } else {
        Ok((hex_u64(p[0])->0 as u64, hex_u64(p[1])->0 as u64))
    }
}

/// The byte written by the hexadecimal digit pair at position `i` of `a`; none unless
/// both characters are hexadecimal digits.
pub open spec fn hex_byte(a: Seq<char>, i: int) -> Option<nat> {
    if a[2 * i] == '+' {
        None
    } else {
        parse_unsigned(a.subrange(2 * i, 2 * i + 2), 16, 255)
    }
}

pub open spec fn address_ok(a: Seq<char>) -> bool {
    a.len() == 8 && hex_byte(a, 0) is Some && hex_byte(a, 1) is Some && hex_byte(a, 2) is Some
        && hex_byte(a, 3) is Some
}

/// The address written in `a`: the kernel writes the four bytes in reverse order.
pub open spec fn address_of(a: Seq<char>) -> [u8; 4] {
    [
        hex_byte(a, 3)->0 as u8,
        hex_byte(a, 2)->0 as u8,
        hex_byte(a, 1)->0 as u8,
        hex_byte(a, 0)->0 as u8,
    ]
}

} // verus!

verus! {

/// What `parse_ip_address` returns for the text `s`.
pub open spec fn ip_spec(s: Seq<char>) -> Result<([u8; 4], u16), ParseError> {
    let p = pieces(s, ':');
    if !address_ok(p[0]) {
        Err(ParseError::InvalidAddress)
    } else if p.len() < 2 {
        Err(ParseError::MissingPort)
    } else {
        match parse_unsigned(p[1], 16, u16::MAX as nat) {
            Some(n) => Ok((address_of(p[0]), n as u16)),
            None => Err(ParseError::InvalidNumber),
        }
    }
}

pub fn hex_of(v: &[char]) -> (r: Result<u64, ParseError>)
    ensures
        r == hex_value_spec(v@),
{
    assert(v@.subrange(0, v@.len() as int) =~= v@);
    match parse_unsigned_in(v, 0, v.len(), 16, u64::MAX) {
        Some(n) => Ok(n),
        None => Err(ParseError::InvalidNumber),
    }
}

pub fn hex_pair_of(v: &[char]) -> (r: Result<(u64, u64), ParseError>)
    ensures
        r == hex_pair_spec(v@),
{
    let p = split_on(v, ':');
    proof {
        lemma_pieces_nonempty(v@, ':');
    }
    let ghost ps = pieces(v@, ':');
    assert(p@[0]@ == ps[0]);
    let left = match hex_of(p[0].as_slice()) {
        Ok(n) => n,
        Err(e) => {
            return Err(e);
        },
    };
    if p.len() < 2 {
        return Err(ParseError::MissingValue);
    }
    assert(p@[1]@ == ps[1]);
    let right = match hex_of(p[1].as_slice()) {
        Ok(n) => n,
        Err(e) => {
            return Err(e);
        },
    };
    Ok((left, right))
}

fn byte_at(a: &[char], i: usize) -> (r: Option<u8>)
    requires
        a@.len() == 8,
        i < 4,
    ensures
        r is Some <==> hex_byte(a@, i as int) is Some,
        r is Some ==> r->0 as nat == hex_byte(a@, i as int)->0,
{
    if a[2 * i] == '+' {
        return None;
    }
    match parse_unsigned_in(a, 2 * i, 2 * i + 2, 16, 255) {
        Some(n) => Some(n as u8),
        None => None,
    }
}

pub fn ip_of(v: &[char]) -> (r: Result<([u8; 4], u16), ParseError>)
    ensures
        r == ip_spec(v@),
{
    let p = split_on(v, ':');
    proof {
        lemma_pieces_nonempty(v@, ':');
    }
    let ghost ps = pieces(v@, ':');
    assert(p@[0]@ == ps[0]);
    let a = p[0].as_slice();
    if a.len() != 8 {
        return Err(ParseError::InvalidAddress);
    }
    let b0 = byte_at(a, 0);
    let b1 = byte_at(a, 1);
    let b2 = byte_at(a, 2);
    let b3 = byte_at(a, 3);
    let (b0, b1, b2, b3) = match (b0, b1, b2, b3) {
        (Some(b0), Some(b1), Some(b2), Some(b3)) => (b0, b1, b2, b3),
        _ => {
            return Err(ParseError::InvalidAddress);
        },
    };
    if p.len() < 2 {
        return Err(ParseError::MissingPort);
    }
    assert(p@[1]@ == ps[1]);
    let q = p[1].as_slice();
    assert(q@.subrange(0, q@.len() as int) =~= q@);
    match parse_unsigned_in(q, 0, q.len(), 16, 65535) {
        Some(port) => {
            let ip: [u8; 4] = [b3, b2, b1, b0];
            assert(ip == address_of(ps[0]));
            Ok((ip, port as u16))
        },
        None => Err(ParseError::InvalidNumber),
    }
}

/// Decodes an `AABBCCDD:PPPP` field of the connection table: the address bytes come
/// in reverse order, the port is a plain hexadecimal number.
pub fn parse_ip_address(s: &str) -> (r: Result<([u8; 4], u16), ParseError>)
    ensures
        r == ip_spec(s@),
{
    let v = chars_of(s);
    ip_of(v.as_slice())
}

/// Decodes one hexadecimal `u64`.
pub fn parse_hex_values(s: &str) -> (r: Result<u64, ParseError>)
    ensures
        r == hex_value_spec(s@),
{
    let v = chars_of(s);
    hex_of(v.as_slice())
}

/// Decodes a `LEFT:RIGHT` pair of hexadecimal `u64`s.
pub fn parse_hex_value_pairs(s: &str) -> (r: Result<(u64, u64), ParseError>)
    ensures
        r == hex_pair_spec(s@),
{
    let v = chars_of(s);
    hex_pair_of(v.as_slice())
}

} // verus!

verus! {

/// Dotted decimal text of an address.
pub open spec fn ip_text(ip: [u8; 4]) -> Seq<char> {
    decimal(ip@[0] as nat) + seq!['.'] + decimal(ip@[1] as nat) + seq!['.'] + decimal(
        ip@[2] as nat,
    ) + seq!['.'] + decimal(ip@[3] as nat)
}

/// `address:port` text of an endpoint.
pub open spec fn endpoint_text(ip: [u8; 4], port: u16) -> Seq<char> {
    ip_text(ip) + seq![':'] + decimal(port as nat)
}

pub fn push_ip(ip: &[u8; 4], out: &mut Vec<char>)
    ensures
        final(out)@ == old(out)@ + ip_text(*ip),
{
    push_decimal(ip[0] as u64, out);
    out.push('.');
    push_decimal(ip[1] as u64, out);
    out.push('.');
    push_decimal(ip[2] as u64, out);
    out.push('.');
    push_decimal(ip[3] as u64, out);
    assert(out@ =~= old(out)@ + ip_text(*ip));
}

/// Formats an address as `a.b.c.d`.
pub fn format_ip(ip: &[u8; 4]) -> (r: String)
    ensures
        r@ == ip_text(*ip),
{
    let mut out: Vec<char> = Vec::new();
    push_ip(ip, &mut out);
    assert(out@ =~= ip_text(*ip));
    string_from_chars(out.as_slice())
}

/// Canonical name of a kernel TCP state code.
pub open spec fn state_name(state: u64) -> Seq<char> {
    if state == 0x01 { "ESTABLISHED"@ }
    else if state == 0x02 { "SYN_SENT"@ }
    else if state == 0x03 { "SYN_RECV"@ }
    else if state == 0x04 { "FIN_WAIT1"@ }
    else if state == 0x05 { "FIN_WAIT2"@ }
    else if state == 0x06 { "TIME_WAIT"@ }
    else if state == 0x07 { "CLOSE"@ }
    else if state == 0x08 { "CLOSE_WAIT"@ }
    else if state == 0x09 { "LAST_ACK"@ }
    else if state == 0x0A { "LISTEN"@ }
    else if state == 0x0B { "CLOSING"@ }
    else { "UNKNOWN"@ }
}

/// Canonical name of a kernel TCP state code; `UNKNOWN` for any other code.
pub fn tcp_state_name(state: u64) -> (r: &'static str)
    ensures
        r@ == state_name(state),
{
    match state {
        0x01 => "ESTABLISHED",
        0x02 => "SYN_SENT",
        0x03 => "SYN_RECV",
        0x04 => "FIN_WAIT1",
        0x05 => "FIN_WAIT2",
        0x06 => "TIME_WAIT",
        0x07 => "CLOSE",
        0x08 => "CLOSE_WAIT",
        0x09 => "LAST_ACK",
        0x0A => "LISTEN",
        0x0B => "CLOSING",
        _ => "UNKNOWN",
    }
}

/// Name of a kernel timer code.
pub open spec fn timer_name(t: u64) -> Seq<char> {
    if t == 0 { "off"@ }
    else if t == 1 { "on"@ }
    else if t == 2 { "keepalive"@ }
    else if t == 3 { "timewait"@ }
    else if t == 4 { "probe"@ }
    else { "unknown"@ }
}

/// Name of a kernel timer code; `unknown` for any other code.
pub fn format_timer(timer_active: u64) -> (r: &'static str)
    ensures
        r@ == timer_name(timer_active),
{
    match timer_active {
        0 => "off",
        1 => "on",
        2 => "keepalive",
        3 => "timewait",
        4 => "probe",
        _ => "unknown",
    }
}

} // verus!

verus! {

/// Whether every field is a decimal `u64`.
pub open spec fn all_numbers(t: Seq<Seq<char>>) -> bool {
    forall|i: int| 0 <= i < t.len() ==> (#[trigger] dec_u64(t[i])) is Some
}

/// The values of fields that are all decimal `u64`s, in order.
pub open spec fn numbers_in(t: Seq<Seq<char>>) -> Seq<u64> {
    t.map_values(|x: Seq<char>| dec_u64(x)->0)
}

pub open spec fn receive_of(v: Seq<u64>) -> Receive {
    Receive {
        bytes: v[0],
        packets: v[1],
        errs: v[2],
        drop: v[3],
        fifo: v[4],
        frame: v[5],
        compressed: v[6],
        multicast: v[7],
    }
}

pub open spec fn transmit_of(v: Seq<u64>) -> Transmit {
    Transmit {
        bytes: v[8],
        packets: v[9],
        errs: v[10],
        drop: v[11],
        fifo: v[12],
        colls: v[13],
        carrier: v[14],
        compressed: v[15],
    }
}

/// The record that one line of the counter table gives: the trimmed text before the
/// first `:` names the interface, and the text after it must be exactly sixteen fields,
/// each a decimal `u64`, in column order.
pub open spec fn dev_line(line: Seq<char>) -> Option<(Seq<char>, Receive, Transmit)> {
    match first_index(line, ':') {
        None => None,
        Some(k) => {
            let f = fields(line.subrange(k + 1, line.len() as int));
            if f.len() == 16 && all_numbers(f) {
                Some((trim(line.subrange(0, k)), receive_of(numbers_in(f)), transmit_of(numbers_in(f))))
            } else {
                None
            }
        },
    }
}

/// The records of a whole counter table: two header lines, then one record per
/// well-formed line.
pub open spec fn dev_records(text: Seq<char>) -> Seq<(Seq<char>, Receive, Transmit)> {
    skip_upto(pieces(text, '\n'), 2).filter_map(|l: Seq<char>| dev_line(l))
}

pub open spec fn stats_views(s: Seq<NetworkStats>) -> Seq<(Seq<char>, Receive, Transmit)> {
    s.map_values(|n: NetworkStats| n@)
}

fn numbers_of(t: &Vec<Vec<char>>) -> (r: Option<Vec<u64>>)
    ensures
        r is None <==> !all_numbers(views_of(t@)),
        r is Some ==> r->0@ == numbers_in(views_of(t@)),
{
    let mut out: Vec<u64> = Vec::new();
    let mut i: usize = 0;
    let ghost tv = views_of(t@);
    while i < t.len()
        invariant
            i <= t@.len(),
            tv == views_of(t@),
            all_numbers(tv.take(i as int)),
            out@ == numbers_in(tv.take(i as int)),
        decreases t.len() - i,
    {
        let tok = t[i].as_slice();
        assert(tv[i as int] == tok@);
        assert(tok@.subrange(0, tok@.len() as int) =~= tok@);
        match parse_unsigned_in(tok, 0, tok.len(), 10, u64::MAX) {
            Some(x) => {
                out.push(x);
                assert(tv.take(i + 1)[i as int] == tok@);
                assert(all_numbers(tv.take(i + 1))) by {
                    assert forall|j: int| 0 <= j < i + 1 implies (#[trigger] dec_u64(tv.take(i + 1)[j])) is Some by {
                        if j < i {
                            assert(tv.take(i + 1)[j] == tv.take(i as int)[j]);
                        }
                    }
                }
                assert(out@ =~= numbers_in(tv.take(i + 1)));
            },
            None => {
                assert(dec_u64(tv[i as int]) is None);
                return None;
            },
        }
        i = i + 1;
    }
    assert(tv.take(i as int) =~= tv);
    Some(out)
}

/// Decodes one line of the counter table.
pub fn parse_dev_line(line: &[char]) -> (r: Option<NetworkStats>)
    ensures
        r is None ==> dev_line(line@) is None,
        r is Some ==> dev_line(line@) == Some(r->0@),
{
    let k = match find_char(line, ':') {
        Some(k) => k,
        None => {
            return None;
        },
    };
    let n = line.len();
    assert(k < n);
    let toks = split_fields(line, k + 1, n);
    if toks.len() != 16 {
        return None;
    }
    let vals = match numbers_of(&toks) {
        Some(v) => v,
        None => {
            return None;
        },
    };
    let (a, b) = trim_bounds(line, 0, k);
    let name_chars = copy_range(line, a, b);
    let name = string_from_chars(name_chars.as_slice());
    let receive = Receive {
        bytes: vals[0],
        packets: vals[1],
        errs: vals[2],
        drop: vals[3],
        fifo: vals[4],
        frame: vals[5],
        compressed: vals[6],
        multicast: vals[7],
    };
    let transmit = Transmit {
        bytes: vals[8],
        packets: vals[9],
        errs: vals[10],
        drop: vals[11],
        fifo: vals[12],
        colls: vals[13],
        carrier: vals[14],
        compressed: vals[15],
    };
    Some(NetworkStats { name, receive, transmit })
}

/// Decodes the text of the kernel's interface counter table. The first two lines are
/// headers; each later line that is not `name: <sixteen numbers>` is skipped.
pub fn parse_proc_net_dev(text: &str) -> (r: Vec<NetworkStats>)
    ensures
        stats_views(r@) == dev_records(text@),
{
    let v = chars_of(text);
    let lines = split_on(v.as_slice(), '\n');
    let ghost lv = views_of(lines@);
    let ghost body = skip_upto(lv, 2);
    let mut out: Vec<NetworkStats> = Vec::new();
    let mut i: usize = 2;
    if lines.len() <= 2 {
        assert(body.filter_map(|l: Seq<char>| dev_line(l)) =~= Seq::empty());
        return out;
    }
    assert(body.take(0) =~= Seq::<Seq<char>>::empty());
    while i < lines.len()
        invariant
            2 <= i <= lines@.len(),
            lv == views_of(lines@),
            body == lv.skip(2),
            body == skip_upto(lv, 2),
            stats_views(out@) == body.take(i - 2).filter_map(|l: Seq<char>| dev_line(l)),
        decreases lines.len() - i,
    {
        let line = lines[i].as_slice();
        assert(body[i - 2] == line@);
        let ghost pre = body.take(i - 2);
        assert(body.take(i - 1).drop_last() =~= pre);
        assert(body.take(i - 1).last() == line@);
        match parse_dev_line(line) {
            Some(n) => {
                let ghost prev = out@;
                out.push(n);
                assert(stats_views(out@) =~= stats_views(prev).push(n@));
            },
            None => {},
        }
        i = i + 1;
    }
    assert(body.take(i - 2) =~= body);
    out
}

} // verus!

verus! {

/// The slot number of a connection line: decimal, with its trailing `:` taken off.
pub open spec fn slot_of(s: Seq<char>) -> Option<nat> {
    parse_unsigned(trim_end_char(s, ':'), 10, u16::MAX as nat)
}

pub open spec fn dec_u32(s: Seq<char>) -> Option<nat> {
    parse_unsigned(s, 10, u32::MAX as nat)
}

/// The connection that the fields of one line of the TCP table give, if every
/// field decodes.
pub open spec fn tcp_line(f: Seq<Seq<char>>) -> Option<TcpStats> {
    if f.len() >= 12 && slot_of(f[0]) is Some && ip_spec(f[1]) is Ok && ip_spec(f[2]) is Ok
        && hex_u64(f[3]) is Some && hex_pair_spec(f[4]) is Ok && hex_pair_spec(f[5]) is Ok
        && hex_u64(f[6]) is Some && dec_u32(f[7]) is Some && dec_u32(f[8]) is Some && dec_u64(
        f[9],
    ) is Some {
        Some(
            TcpStats {
                sl: slot_of(f[0])->0 as u16,
                local_ip: ip_spec(f[1])->Ok_0.0,
                local_port: ip_spec(f[1])->Ok_0.1,
                remote_ip: ip_spec(f[2])->Ok_0.0,
                remote_port: ip_spec(f[2])->Ok_0.1,
                state: hex_u64(f[3])->0 as u64,
                tx_queue: hex_pair_spec(f[4])->Ok_0.0,
                rx_queue: hex_pair_spec(f[4])->Ok_0.1,
                timer_active: hex_pair_spec(f[5])->Ok_0.0,
                timer_when: hex_pair_spec(f[5])->Ok_0.1,
                retransmit_timeout: hex_u64(f[6])->0 as u64,
                uid: dec_u32(f[7])->0 as u32,
                timeout: dec_u32(f[8])->0 as u32,
                inode: dec_u64(f[9])->0,
            },
        )
    } else {
        None
    }
}

/// The connections of a whole TCP table: one header line, then one connection per
/// line that decodes.
pub open spec fn tcp_records(text: Seq<char>) -> Seq<TcpStats> {
    skip_upto(pieces(text, '\n'), 1).filter_map(|l: Seq<char>| tcp_line(fields(l)))
}

fn whole(v: &[char], radix: u64, max: u64) -> (r: Option<u64>)
    requires
        radix == 10 || radix == 16,
    ensures
        r is Some <==> parse_unsigned(v@, radix as nat, max as nat) is Some,
        r is Some ==> r->0 as nat == parse_unsigned(v@, radix as nat, max as nat)->0,
{
    assert(v@.subrange(0, v@.len() as int) =~= v@);
    parse_unsigned_in(v, 0, v.len(), radix, max)
}

/// Decodes one line of the TCP table.
pub fn parse_tcp_line(line: &[char]) -> (r: Option<TcpStats>)
    ensures
        r == tcp_line(fields(line@)),
{
    let n = line.len();
    assert(line@.subrange(0, n as int) =~= line@);
    let f = split_fields(line, 0, n);
    let ghost fv = fields(line@);
    if f.len() < 12 {
        return None;
    }
    assert(f@[0]@ == fv[0] && f@[1]@ == fv[1] && f@[2]@ == fv[2] && f@[3]@ == fv[3]);
    assert(f@[4]@ == fv[4] && f@[5]@ == fv[5] && f@[6]@ == fv[6] && f@[7]@ == fv[7]);
    assert(f@[8]@ == fv[8] && f@[9]@ == fv[9]);
    let f0 = f[0].as_slice();
    let k = trim_end_char_len(f0, ':');
    let sl = match parse_unsigned_in(f0, 0, k, 10, 65535) {
        Some(x) => x as u16,
        None => {
            return None;
        },
    };
    let (local_ip, local_port) = match ip_of(f[1].as_slice()) {
        Ok(x) => x,
        Err(_) => {
            return None;
        },
    };
    let (remote_ip, remote_port) = match ip_of(f[2].as_slice()) {
        Ok(x) => x,
        Err(_) => {
            return None;
        },
    };
    let state = match hex_of(f[3].as_slice()) {
        Ok(x) => x,
        Err(_) => {
            return None;
        },
    };
    let (tx_queue, rx_queue) = match hex_pair_of(f[4].as_slice()) {
        Ok(x) => x,
        Err(_) => {
            return None;
        },
    };
    let (timer_active, timer_when) = match hex_pair_of(f[5].as_slice()) {
        Ok(x) => x,
        Err(_) => {
            return None;
        },
    };
    let retransmit_timeout = match hex_of(f[6].as_slice()) {
        Ok(x) => x,
        Err(_) => {
            return None;
        },
    };
    let uid = match whole(f[7].as_slice(), 10, 4294967295) {
        Some(x) => x as u32,
        None => {
            return None;
        },
    };
    let timeout = match whole(f[8].as_slice(), 10, 4294967295) {
        Some(x) => x as u32,
        None => {
            return None;
        },
    };
    let inode = match whole(f[9].as_slice(), 10, u64::MAX) {
        Some(x) => x,
        None => {
            return None;
        },
    };
    Some(
        TcpStats {
            sl,
            local_ip,
            local_port,
            remote_ip,
            remote_port,
            state,
            tx_queue,
            rx_queue,
            timer_active,
            timer_when,
            retransmit_timeout,
            uid,
            timeout,
            inode,
        },
    )
}

/// Decodes the text of the kernel's TCP connection table. The first line is a header;
/// each later line with fewer than twelve fields, or with a field that does not
/// decode, is skipped.
pub fn parse_proc_net_tcp(text: &str) -> (r: Vec<TcpStats>)
    ensures
        r@ == tcp_records(text@),
{
    let v = chars_of(text);
    let lines = split_on(v.as_slice(), '\n');
    let ghost lv = views_of(lines@);
    let ghost body = skip_upto(lv, 1);
    let mut out: Vec<TcpStats> = Vec::new();
    let mut i: usize = 1;
    if lines.len() <= 1 {
        assert(body.filter_map(|l: Seq<char>| tcp_line(fields(l))) =~= Seq::empty());
        return out;
    }
    assert(body.take(0) =~= Seq::<Seq<char>>::empty());
    while i < lines.len()
        invariant
            1 <= i <= lines@.len(),
            lv == views_of(lines@),
            body == lv.skip(1),
            body == skip_upto(lv, 1),
            out@ == body.take(i - 1).filter_map(|l: Seq<char>| tcp_line(fields(l))),
        decreases lines.len() - i,
    {
        let line = lines[i].as_slice();
        assert(body[i - 1] == line@);
        let ghost pre = body.take(i - 1);
        assert(body.take(i as int).drop_last() =~= pre);
        assert(body.take(i as int).last() == line@);
        match parse_tcp_line(line) {
            Some(t) => {
                out.push(t);
                assert(out@ =~= body.take(i as int).filter_map(|l: Seq<char>| tcp_line(fields(l))));
            },
            None => {},
        }
        i = i + 1;
    }
    assert(body.take(i - 1) =~= body);
    out
}

} // verus!

verus! {

pub open spec fn speed_marker() -> Seq<char> {
    seq!['s', 'p', 'e', 'e', 'd', ':', ' ']
}

/// The text between the first `speed: ` and the next one (or the end), trimmed;
/// `0 B/s` when there is none.
pub open spec fn speed_spec(s: Seq<char>) -> Seq<char> {
    match first_occurrence(s, speed_marker()) {
        None => "0 B/s"@,
        Some(k) => {
            let rest = s.subrange(k + 7, s.len() as int);
            match first_occurrence(rest, speed_marker()) {
                None => trim(rest),
                Some(k2) => trim(rest.subrange(0, k2)),
            }
        },
    }
}

/// The speed part of a line written as `... speed: <value>`.
pub fn extract_speed(data_str: &str) -> (r: String)
    ensures
        r@ == speed_spec(data_str@),
{
    let v = chars_of(data_str);
    let mut marker: Vec<char> = Vec::new();
    marker.push('s');
    marker.push('p');
    marker.push('e');
    marker.push('e');
    marker.push('d');
    marker.push(':');
    marker.push(' ');
    assert(marker@ =~= speed_marker());
    let k = match find_chars(v.as_slice(), marker.as_slice()) {
        Some(k) => k,
        None => {
            return String::from_str("0 B/s");
        },
    };
    let n = v.len();
    assert(k + 7 <= n);
    let rest = copy_range(v.as_slice(), k + 7, n);
    let ghost rs = v@.subrange(k + 7, n as int);
    assert(rest@ == rs);
    let end = match find_chars(rest.as_slice(), marker.as_slice()) {
        Some(k2) => k2,
        None => rest.len(),
    };
    let ghost piece = rs.subrange(0, end as int);
    assert(first_occurrence(rs, speed_marker()) is None ==> piece =~= rs);
    assert(speed_spec(data_str@) == trim(piece));
    let (a, b) = trim_bounds(rest.as_slice(), 0, end);
    let out = copy_range(rest.as_slice(), a, b);
    string_from_chars(out.as_slice())
}

} // verus!

verus! {

/// `h:m:s` text of a number of seconds (hours not wrapped, no padding).
pub open spec fn clock_text(secs: u64) -> Seq<char> {
    decimal((secs / 3600) as nat) + seq![':'] + decimal((secs % 3600 / 60) as nat) + seq![':']
        + decimal((secs % 60) as nat)
}

/// Uptime text from the kernel's uptime file: the whole seconds before the first `.`,
/// as `h:m:s`; none when they are not a number.
pub fn parse_uptime(text: &str) -> (r: Option<String>)
    ensures
        r is None <==> dec_u64(pieces(text@, '.')[0]) is None,
        r is Some ==> r->0@ == clock_text(dec_u64(pieces(text@, '.')[0])->0),
{
    let v = chars_of(text);
    let p = split_on(v.as_slice(), '.');
    proof {
        lemma_pieces_nonempty(text@, '.');
    }
    assert(p@[0]@ == pieces(text@, '.')[0]);
    let first = p[0].as_slice();
    assert(first@.subrange(0, first@.len() as int) =~= first@);
    let secs = match parse_unsigned_in(first, 0, first.len(), 10, u64::MAX) {
        Some(n) => n,
        None => {
            return None;
        },
    };
    let mut out: Vec<char> = Vec::new();
    push_decimal(secs / 3600, &mut out);
    out.push(':');
    push_decimal(secs % 3600 / 60, &mut out);
    out.push(':');
    push_decimal(secs % 60, &mut out);
    assert(out@ =~= clock_text(secs));
    Some(string_from_chars(out.as_slice()))
}

} // verus!
