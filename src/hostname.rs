use vstd::prelude::*;
use std::collections::HashMap;

verus! {

broadcast use {vstd::std_specs::hash::group_hash_axioms, vstd::string::group_string_axioms};

/// State of one address in the cache, as a value.
pub enum Lookup {
    Pending,
    Resolved(Seq<char>),
}

/// State of one address in the cache: a lookup is running, or its final name.
#[derive(Clone, Debug)]
pub enum CacheEntry {
    Pending,
    Resolved(String),
}

impl View for CacheEntry {
    type V = Lookup;

    open spec fn view(&self) -> Lookup {
        match self {
            CacheEntry::Pending => Lookup::Pending,
            CacheEntry::Resolved(s) => Lookup::Resolved(s@),
        }
    }
}

/// The address as one number, first byte most significant.
pub open spec fn ip_key(ip: [u8; 4]) -> u32 {
    (ip@[0] as nat * 16777216 + ip@[1] as nat * 65536 + ip@[2] as nat * 256 + ip@[3] as nat) as u32
}

pub fn key_of(ip: &[u8; 4]) -> (r: u32)
    ensures
        r == ip_key(*ip),
{
    (ip[0] as u32) * 16777216 + (ip[1] as u32) * 65536 + (ip[2] as u32) * 256 + (ip[3] as u32)
}

/// `0.0.0.0` and `127.0.0.1`, which are never looked up.
pub open spec fn is_unresolvable(ip: [u8; 4]) -> bool {
    ip@ == seq![0u8, 0, 0, 0] || ip@ == seq![127u8, 0, 0, 1]
}

pub fn unresolvable(ip: &[u8; 4]) -> (r: bool)
    ensures
        r == is_unresolvable(*ip),
{
    let zero = ip[0] == 0 && ip[1] == 0 && ip[2] == 0 && ip[3] == 0;
    let local = ip[0] == 127 && ip[1] == 0 && ip[2] == 0 && ip[3] == 1;
    assert(zero ==> ip@ =~= seq![0u8, 0, 0, 0]);
    assert(local ==> ip@ =~= seq![127u8, 0, 0, 1]);
    zero || local
}

/// Whether a lookup must start for `ip` in a cache holding `m`.
pub open spec fn starts_lookup(m: Map<u32, Lookup>, ip: [u8; 4]) -> bool {
    !is_unresolvable(ip) && !m.contains_key(ip_key(ip))
}

/// The cache after `ensure_resolving(ip)`.
pub open spec fn ensure_spec(m: Map<u32, Lookup>, ip: [u8; 4]) -> Map<u32, Lookup> {
    if starts_lookup(m, ip) {
        m.insert(ip_key(ip), Lookup::Pending)
    } else {
        m
    }
}

/// The cache after a lookup for `ip` finished with `name`: a pending entry becomes
/// final; anything else stays as it is.
pub open spec fn complete_spec(m: Map<u32, Lookup>, ip: [u8; 4], name: Seq<char>) -> Map<u32, Lookup> {
    if m.contains_key(ip_key(ip)) && m[ip_key(ip)] is Pending {
        m.insert(ip_key(ip), Lookup::Resolved(name))
    } else {
        m
    }
}

/// Reverse names of remote addresses, filled by background lookups. Each address goes
/// from absent to pending to resolved, and never back.
pub struct HostnameCache {
    entries: HashMap<u32, CacheEntry>,
}

impl HostnameCache {
    pub closed spec fn view(&self) -> Map<u32, Lookup> {
        self.entries@.map_values(|e: CacheEntry| e@)
    }

    pub fn new() -> (r: HostnameCache)
        ensures
            r.view() == Map::<u32, Lookup>::empty(),
    {
        let r = HostnameCache { entries: HashMap::new() };
        assert(r.view() =~= Map::<u32, Lookup>::empty());
        r
    }

    /// Marks `ip` pending when it has no entry and may be looked up, and returns
    /// whether it did so; the caller then starts the one lookup for it. Anything else
    /// leaves the cache as it is and returns `false`.
    pub fn ensure_resolving(&mut self, ip: &[u8; 4]) -> (start: bool)
        ensures
            start == starts_lookup(old(self).view(), *ip),
            final(self).view() == ensure_spec(old(self).view(), *ip),
    {
        if unresolvable(ip) {
            return false;
        }
        let k = key_of(ip);
        if self.entries.contains_key(&k) {
            return false;
        }
        self.entries.insert(k, CacheEntry::Pending);
        assert(self.view() =~= old(self).view().insert(k, Lookup::Pending));
        true
    }

    /// Stores the outcome of the lookup for `ip`.
    pub fn complete(&mut self, ip: &[u8; 4], name: String)
        ensures
            final(self).view() == complete_spec(old(self).view(), *ip, name@),
    {
        let k = key_of(ip);
        let pending = match self.entries.get(&k) {
            Some(CacheEntry::Pending) => true,
            _ => false,
        };
        if pending {
            let ghost n = name@;
            self.entries.insert(k, CacheEntry::Resolved(name));
            assert(self.view() =~= old(self).view().insert(k, Lookup::Resolved(n)));
        }
    }

    /// The state of `ip`, without waiting for anything.
    pub fn get(&self, ip: &[u8; 4]) -> (r: Option<&CacheEntry>)
        ensures
            r is None <==> !self.view().contains_key(ip_key(*ip)),
            r is Some ==> r->0@ == self.view()[ip_key(*ip)],
    {
        let k = key_of(ip);
        self.entries.get(&k)
    }
}

} // verus!

verus! {

/// The longest name kept whole; longer ones keep their first 27 characters and `...`.
pub const NAME_LIMIT: usize = 30;

/// How a looked-up name is stored.
pub open spec fn shown_name(h: Seq<char>) -> Seq<char> {
    if h.len() > NAME_LIMIT {
        h.subrange(0, 27) + "..."@
    } else {
        h
    }
}

/// What the cache stores for the outcome of a lookup: the name, shortened, or `-`
/// when the lookup failed.
pub open spec fn outcome_spec(found: Option<Seq<char>>) -> Seq<char> {
    match found {
        Some(h) => shown_name(h),
        None => "-"@,
    }
}

/// The text to store for the outcome of a reverse lookup.
pub fn lookup_outcome(found: Option<String>) -> (r: String)
    ensures
        r@ == outcome_spec(match found {
            Some(h) => Some(h@),
            None => None,
        }),
{
    match found {
        Some(h) => {
            let s = h.as_str();
            let n = s.unicode_len();
            if n > NAME_LIMIT {
                let head = String::from_str(s.substring_char(0, 27));
                let r = head.concat("...");
                r
            } else {
                h
            }
        },
        None => String::from_str("-"),
    }
}

/// What a display shows for `ip`.
pub open spec fn display_spec(m: Map<u32, Lookup>, ip: [u8; 4]) -> Seq<char> {
    if is_unresolvable(ip) {
        "-"@
    } else if !m.contains_key(ip_key(ip)) {
        ""@
    } else {
        match m[ip_key(ip)] {
            Lookup::Pending => "resolving..."@,
            Lookup::Resolved(h) => h,
        }
    }
}

impl HostnameCache {
    /// The name to show for `ip`: `-` for addresses that are never looked up,
    /// `resolving...` while a lookup runs, the stored name after it, and nothing
    /// before one was asked for.
    pub fn display_name(&self, ip: &[u8; 4]) -> (r: String)
        ensures
            r@ == display_spec(self.view(), *ip),
    {
        if unresolvable(ip) {
            return String::from_str("-");
        }
        match self.get(ip) {
            None => {
                proof {
                    reveal_strlit("");
                }
                let r = String::new();
                assert(r@ =~= ""@);
                r
            },
            Some(e) => match e {
                CacheEntry::Pending => String::from_str("resolving..."),
                CacheEntry::Resolved(h) => {
                    let r = h.clone();
                    assert(r@ == h@);
                    r
                },
            },
        }
    }
}

/// One operation on the cache.
pub enum CacheOp {
    Ensure([u8; 4]),
    Complete([u8; 4], Seq<char>),
}

pub open spec fn apply_op(m: Map<u32, Lookup>, op: CacheOp) -> Map<u32, Lookup> {
    match op {
        CacheOp::Ensure(ip) => ensure_spec(m, ip),
        CacheOp::Complete(ip, name) => complete_spec(m, ip, name),
    }
}

/// How many lookups for the address `key` a run of operations starts.
pub open spec fn lookups_started(m: Map<u32, Lookup>, ops: Seq<CacheOp>, key: u32) -> nat
    decreases ops.len(),
{
    if ops.len() == 0 {
        0
    } else {
        let here: nat = match ops[0] {
            CacheOp::Ensure(ip) => if ip_key(ip) == key && starts_lookup(m, ip) {
                1
            } else {
                0
            },
            CacheOp::Complete(_, _) => 0,
        };
        here + lookups_started(apply_op(m, ops[0]), ops.drop_first(), key)
    }
}

proof fn lemma_lookups_started(m: Map<u32, Lookup>, ops: Seq<CacheOp>, ip: [u8; 4])
    ensures
        lookups_started(m, ops, ip_key(ip)) <= 1,
        m.contains_key(ip_key(ip)) ==> lookups_started(m, ops, ip_key(ip)) == 0,
    decreases ops.len(),
{
    let key = ip_key(ip);
    if ops.len() > 0 {
        let m1 = apply_op(m, ops[0]);
        lemma_lookups_started(m1, ops.drop_first(), ip);
        assert(m.contains_key(key) ==> m1.contains_key(key));
    }
}

/// Whatever operations run, at most one lookup starts per address, none once the
/// address has an entry, and so none after an `ensure_resolving` call on it.
pub proof fn lemma_one_lookup_per_address(m: Map<u32, Lookup>, ops: Seq<CacheOp>, ip: [u8; 4])
    ensures
        lookups_started(m, ops, ip_key(ip)) <= 1,
        m.contains_key(ip_key(ip)) ==> lookups_started(m, ops, ip_key(ip)) == 0,
        !is_unresolvable(ip) ==> lookups_started(ensure_spec(m, ip), ops, ip_key(ip)) == 0,
{
    lemma_lookups_started(m, ops, ip);
    lemma_lookups_started(ensure_spec(m, ip), ops, ip);
}

} // verus!
