use vstd::prelude::*;
use crate::models::{NetworkStats, Receive, Transmit};

verus! {

/// How many points a history keeps; the oldest goes first.
pub const HISTORY_CAPACITY: usize = 100;

/// One point of a rate history: when it was taken (milliseconds since the engine
/// started) and the rate over the interval that ended then (bytes per second).
#[derive(Clone, Copy, Debug, PartialEq, Eq, Structural)]
pub struct RatePoint {
    pub timestamp_ms: u64,
    pub rate: u128,
}

/// Bytes per second between two readings of a cumulative counter taken `dt_ms`
/// milliseconds apart, rounded down; zero when the counter went back (a reset).
pub open spec fn rate_of(prev: u64, cur: u64, dt_ms: u64) -> u128 {
    if cur >= prev {
        (((cur - prev) as nat * 1000) / dt_ms as nat) as u128
    } else {
        0
    }
}

/// The rate between two counter readings taken `dt_ms` milliseconds apart.
pub fn rate_between(prev: u64, cur: u64, dt_ms: u64) -> (r: u128)
    requires
        dt_ms > 0,
    ensures
        r == rate_of(prev, cur, dt_ms),
{
    if cur >= prev {
        let delta = (cur - prev) as u128;
        delta * 1000 / (dt_ms as u128)
    } else {
        0
    }
}

/// `h` with `p` appended, and its oldest point dropped when that makes it longer
/// than the capacity.
pub open spec fn bounded_push(h: Seq<RatePoint>, p: RatePoint) -> Seq<RatePoint> {
    if h.len() >= HISTORY_CAPACITY {
        h.push(p).drop_first()
    } else {
        h.push(p)
    }
}

/// Appends `p` to a history, evicting the oldest point when it is full.
pub fn push_point(h: &mut Vec<RatePoint>, p: RatePoint)
    ensures
        final(h)@ == bounded_push(old(h)@, p),
{
    h.push(p);
    if h.len() > HISTORY_CAPACITY {
        h.remove(0);
        assert(h@ =~= bounded_push(old(h)@, p));
    }
}

/// Highest and smoothed rate of one interface in one direction.
#[derive(Clone, Copy, Debug, PartialEq, Eq, Structural)]
pub struct SpeedStats {
    pub peak: u128,
    pub average: u128,
}

pub open spec fn max_rate(a: u128, b: u128) -> u128 {
    if a >= b { a } else { b }
}

/// Exponential moving average with weight 1/20 on the new sample, rounded down.
pub open spec fn ema(average: u128, rate: u128) -> u128 {
    ((19 * average as nat + rate as nat) / 20) as u128
}

/// The statistics after one more observed rate.
pub open spec fn observe_spec(s: SpeedStats, rate: u128) -> SpeedStats {
    SpeedStats { peak: max_rate(s.peak, rate), average: ema(s.average, rate) }
}

pub fn ema_step(average: u128, rate: u128) -> (r: u128)
    ensures
        r == ema(average, rate),
{
    let qa = average / 20;
    let ra = average % 20;
    let qr = rate / 20;
    let rr = rate % 20;
    proof {
        assert(average == 20 * qa + ra);
        assert(rate == 20 * qr + rr);
        assert(19 * average as nat + rate as nat == 20 * (19 * qa as nat + qr as nat) + (19
            * ra as nat + rr as nat)) by (nonlinear_arith)
            requires
                average == 20 * qa + ra,
                rate == 20 * qr + rr,
        ;
        assert(ra < 20 && rr < 20);
        let big = 20 * (19 * qa as nat + qr as nat) + (19 * ra as nat + rr as nat);
        assert(big / 20 == 19 * qa as nat + qr as nat + (19 * ra as nat + rr as nat) / 20)
            by (nonlinear_arith)
            requires
                big == 20 * (19 * qa as nat + qr as nat) + (19 * ra as nat + rr as nat),
        ;
        assert(19 * qa as nat + qr as nat + (19 * ra as nat + rr as nat) / 20 <= max_rate(average, rate)) by (nonlinear_arith)
            requires
                average == 20 * qa + ra,
                rate == 20 * qr + rr,
                ra < 20,
                rr < 20,
                max_rate(average, rate) >= average,
                max_rate(average, rate) >= rate,
                19 * average as nat + rate as nat == big,
                big / 20 == 19 * qa as nat + qr as nat + (19 * ra as nat + rr as nat) / 20,
        ;
    }
    19 * qa + qr + (19 * ra + rr) / 20
}

impl SpeedStats {
    pub fn new() -> (r: SpeedStats)
        ensures
            r.peak == 0 && r.average == 0,
    {
        SpeedStats { peak: 0, average: 0 }
    }

    /// Takes one more rate sample: the peak becomes the larger of the two, and the
    /// average moves a twentieth of the way towards the sample.
    pub fn update_stats(&mut self, latest_rate: u128)
        ensures
            *final(self) == observe_spec(*old(self), latest_rate),
            final(self).peak >= old(self).peak,
    {
        if latest_rate > self.peak {
            self.peak = latest_rate;
        }
        self.average = ema_step(self.average, latest_rate);
    }
}

} // verus!

verus! {

/// What the engine holds for one interface, as values.
pub struct InterfaceView {
    pub name: Seq<char>,
    pub rx: Seq<RatePoint>,
    pub tx: Seq<RatePoint>,
    pub rx_stats: SpeedStats,
    pub tx_stats: SpeedStats,
}

/// Rate histories and statistics of one interface.
#[derive(Debug)]
pub struct InterfaceRates {
    pub name: String,
    pub rx: Vec<RatePoint>,
    pub tx: Vec<RatePoint>,
    pub rx_stats: SpeedStats,
    pub tx_stats: SpeedStats,
}

impl View for InterfaceRates {
    type V = InterfaceView;

    open spec fn view(&self) -> InterfaceView {
        InterfaceView {
            name: self.name@,
            rx: self.rx@,
            tx: self.tx@,
            rx_stats: self.rx_stats,
            tx_stats: self.tx_stats,
        }
    }
}

pub type CounterView = (Seq<char>, Receive, Transmit);

pub open spec fn is_first_entry(t: Seq<InterfaceView>, name: Seq<char>, k: int) -> bool {
    0 <= k < t.len() && t[k].name == name && forall|j: int| 0 <= j < k ==> t[j].name != name
}

/// Index of the entry named `name`, if any.
pub open spec fn entry_index(t: Seq<InterfaceView>, name: Seq<char>) -> Option<int> {
    if exists|k: int| is_first_entry(t, name, k) {
        Some(choose|k: int| is_first_entry(t, name, k))
    } else {
        None
    }
}

pub open spec fn is_first_counter(s: Seq<CounterView>, name: Seq<char>, k: int) -> bool {
    0 <= k < s.len() && s[k].0 == name && forall|j: int| 0 <= j < k ==> s[j].0 != name
}

/// Index of the first record of a snapshot named `name`, if any.
pub open spec fn counter_index(s: Seq<CounterView>, name: Seq<char>) -> Option<int> {
    if exists|k: int| is_first_counter(s, name, k) {
        Some(choose|k: int| is_first_counter(s, name, k))
    } else {
        None
    }
}

pub open spec fn zero_stats() -> SpeedStats {
    SpeedStats { peak: 0, average: 0 }
}

/// The table after one pair of points for `name`: appended to its histories, or to
/// a new entry at the end when the table has none of that name.
pub open spec fn record_spec(t: Seq<InterfaceView>, name: Seq<char>, rx: RatePoint, tx: RatePoint) -> Seq<InterfaceView> {
    match entry_index(t, name) {
        Some(i) => t.update(
            i,
            InterfaceView { rx: bounded_push(t[i].rx, rx), tx: bounded_push(t[i].tx, tx), ..t[i] },
        ),
        None => t.push(
            InterfaceView {
                name,
                rx: seq![rx],
                tx: seq![tx],
                rx_stats: zero_stats(),
                tx_stats: zero_stats(),
            },
        ),
    }
}

/// The table after a tick: for each record of `cur`, in order, whose interface the
/// previous snapshot `prev` also has, one point per direction at time `now`.
pub open spec fn tick_spec(
    t: Seq<InterfaceView>,
    prev: Seq<CounterView>,
    cur: Seq<CounterView>,
    dt: u64,
    now: u64,
) -> Seq<InterfaceView>
    decreases cur.len(),
{
    if cur.len() == 0 {
        t
    } else {
        let before = tick_spec(t, prev, cur.drop_last(), dt, now);
        let c = cur.last();
        match counter_index(prev, c.0) {
            Some(j) => record_spec(
                before,
                c.0,
                RatePoint { timestamp_ms: now, rate: rate_of(prev[j].1.bytes, c.1.bytes, dt) },
                RatePoint { timestamp_ms: now, rate: rate_of(prev[j].2.bytes, c.2.bytes, dt) },
            ),
            None => before,
        }
    }
}

pub open spec fn counter_views(s: Seq<NetworkStats>) -> Seq<CounterView> {
    s.map_values(|n: NetworkStats| n@)
}

pub open spec fn history_ok(h: Seq<RatePoint>, last_ms: u64) -> bool {
    &&& h.len() <= HISTORY_CAPACITY
    &&& forall|a: int, b: int| 0 <= a <= b < h.len() ==> h[a].timestamp_ms <= h[b].timestamp_ms
    &&& forall|a: int| 0 <= a < h.len() ==> h[a].timestamp_ms <= last_ms
}

/// Names are unique, and every history is within capacity, oldest first, and no
/// later than `last_ms`.
pub open spec fn table_ok(t: Seq<InterfaceView>, last_ms: u64) -> bool {
    &&& forall|a: int, b: int| 0 <= a < b < t.len() ==> t[a].name != t[b].name
    &&& forall|a: int| 0 <= a < t.len() ==> history_ok(#[trigger] t[a].rx, last_ms) && history_ok(t[a].tx, last_ms)
}

/// Turns successive counter snapshots into per-interface rate histories.
pub struct RateEngine {
    interfaces: Vec<InterfaceRates>,
    previous: Option<Vec<NetworkStats>>,
    previous_ms: u64,
}

impl RateEngine {
    /// The interfaces with their histories, in order of first rate.
    pub closed spec fn table(&self) -> Seq<InterfaceView> {
        self.interfaces@.map_values(|e: InterfaceRates| e@)
    }

    /// The last snapshot taken, if any.
    pub closed spec fn previous(&self) -> Option<Seq<CounterView>> {
        match self.previous {
            Some(p) => Some(counter_views(p@)),
            None => None,
        }
    }

    /// When the last snapshot was taken.
    pub closed spec fn previous_ms(&self) -> u64 {
        self.previous_ms
    }

    pub open spec fn wf(&self) -> bool {
        table_ok(self.table(), self.previous_ms())
    }

    pub fn new() -> (r: RateEngine)
        ensures
            r.wf(),
            r.table() == Seq::<InterfaceView>::empty(),
            r.previous() is None,
            r.previous_ms() == 0,
    {
        let r = RateEngine { interfaces: Vec::new(), previous: None, previous_ms: 0 };
        assert(r.table() =~= Seq::<InterfaceView>::empty());
        r
    }
}

} // verus!

verus! {

proof fn lemma_bounded_push_ok(h: Seq<RatePoint>, p: RatePoint, last_ms: u64)
    requires
        history_ok(h, last_ms),
        p.timestamp_ms == last_ms,
    ensures
        history_ok(bounded_push(h, p), last_ms),
{
    let g = h.push(p);
    assert forall|a: int, b: int| 0 <= a <= b < g.len() implies g[a].timestamp_ms <= g[b].timestamp_ms by {
        if b == h.len() {
            assert(g[a].timestamp_ms <= last_ms);
        }
    }
    if h.len() >= HISTORY_CAPACITY {
        let d = g.drop_first();
        assert forall|a: int, b: int| 0 <= a <= b < d.len() implies d[a].timestamp_ms <= d[b].timestamp_ms by {
            assert(d[a] == g[a + 1] && d[b] == g[b + 1]);
        }
    }
}

proof fn lemma_table_later(t: Seq<InterfaceView>, a: u64, b: u64)
    requires
        table_ok(t, a),
        a <= b,
    ensures
        table_ok(t, b),
{
}

fn find_counter(s: &Vec<NetworkStats>, name: &String) -> (r: Option<usize>)
    ensures
        r is Some ==> counter_index(counter_views(s@), name@) == Some(r->0 as int) && r->0 < s@.len(),
        r is None ==> counter_index(counter_views(s@), name@) is None,
{
    let ghost cv = counter_views(s@);
    let mut i: usize = 0;
    while i < s.len()
        invariant
            i <= s@.len(),
            cv == counter_views(s@),
            forall|j: int| 0 <= j < i ==> cv[j].0 != name@,
        decreases s.len() - i,
    {
        if s[i].name == *name {
            assert(is_first_counter(cv, name@, i as int));
            let ghost k = choose|k: int| is_first_counter(cv, name@, k);
            assert(k == i) by {
                if k < i {
                    assert(cv[k].0 != name@);
                } else if k > i {
                    assert(cv[i as int].0 != name@);
                }
            }
            return Some(i);
        }
        i = i + 1;
    }
    assert(!exists|k: int| is_first_counter(cv, name@, k)) by {
        assert forall|k: int| !is_first_counter(cv, name@, k) by {
            if 0 <= k < cv.len() {
                assert(cv[k].0 != name@);
            }
        }
    }
    None
}

impl RateEngine {
    fn find_entry(&self, name: &String) -> (r: Option<usize>)
        ensures
            r is Some ==> entry_index(self.table(), name@) == Some(r->0 as int) && r->0 < self.table().len(),
            r is None ==> entry_index(self.table(), name@) is None,
    {
        let ghost t = self.table();
        let mut i: usize = 0;
        while i < self.interfaces.len()
            invariant
                i <= self.interfaces@.len(),
                t == self.table(),
                t.len() == self.interfaces@.len(),
                forall|j: int| 0 <= j < i ==> t[j].name != name@,
            decreases self.interfaces.len() - i,
        {
            if self.interfaces[i].name == *name {
                assert(is_first_entry(t, name@, i as int));
                let ghost k = choose|k: int| is_first_entry(t, name@, k);
                assert(k == i) by {
                    if k < i {
                        assert(t[k].name != name@);
                    } else if k > i {
                        assert(t[i as int].name != name@);
                    }
                }
                return Some(i);
            }
            i = i + 1;
        }
        assert(!exists|k: int| is_first_entry(t, name@, k)) by {
            assert forall|k: int| !is_first_entry(t, name@, k) by {
                if 0 <= k < t.len() {
                    assert(t[k].name != name@);
                }
            }
        }
        None
    }

    fn record(&mut self, name: &String, rx: RatePoint, tx: RatePoint)
        requires
            table_ok(old(self).table(), rx.timestamp_ms),
            rx.timestamp_ms == tx.timestamp_ms,
        ensures
            final(self).table() == record_spec(old(self).table(), name@, rx, tx),
            table_ok(final(self).table(), rx.timestamp_ms),
            final(self).previous == old(self).previous,
            final(self).previous_ms == old(self).previous_ms,
    {
        let ghost t = old(self).table();
        match self.find_entry(name) {
            Some(i) => {
                let mut e = InterfaceRates {
                    name: String::new(),
                    rx: Vec::new(),
                    tx: Vec::new(),
                    rx_stats: SpeedStats::new(),
                    tx_stats: SpeedStats::new(),
                };
                self.interfaces.set_and_swap(i, &mut e);
                assert(e@ == t[i as int]);
                assert(table_ok(t, rx.timestamp_ms));
                assert((i as int) < t.len());
                let ghost ii = i as int;
                assert(history_ok(t[ii].rx, rx.timestamp_ms));
                assert(history_ok(t[ii].tx, rx.timestamp_ms));
                proof {
                    lemma_bounded_push_ok(e.rx@, rx, rx.timestamp_ms);
                    lemma_bounded_push_ok(e.tx@, tx, rx.timestamp_ms);
                }
                push_point(&mut e.rx, rx);
                push_point(&mut e.tx, tx);
                self.interfaces.set_and_swap(i, &mut e);
                assert(self.table() =~= record_spec(t, name@, rx, tx));
            },
            None => {
                let mut h_rx: Vec<RatePoint> = Vec::new();
                h_rx.push(rx);
                let mut h_tx: Vec<RatePoint> = Vec::new();
                h_tx.push(tx);
                let e = InterfaceRates {
                    name: name.clone(),
                    rx: h_rx,
                    tx: h_tx,
                    rx_stats: SpeedStats::new(),
                    tx_stats: SpeedStats::new(),
                };
                assert(e@.rx =~= seq![rx]);
                assert(e@.tx =~= seq![tx]);
                self.interfaces.push(e);
                assert(self.table() =~= record_spec(t, name@, rx, tx));
                assert forall|a: int| 0 <= a < t.len() implies t[a].name != name@ by {
                    if t[a].name == name@ {
                        assert(is_first_entry(t, name@, a));
                    }
                }
            },
        }
    }
}

} // verus!

verus! {

impl RateEngine {
    /// Takes a new counter snapshot at `now_ms`. When a previous snapshot exists and
    /// time has passed since it, each interface of `current` that the previous snapshot
    /// also has (matched by name) gets one rate point per direction; the snapshot then
    /// becomes the previous one.
    pub fn tick(&mut self, current: Vec<NetworkStats>, now_ms: u64)
        requires
            old(self).wf(),
            now_ms >= old(self).previous_ms(),
        ensures
            final(self).wf(),
            final(self).previous() == Some(counter_views(current@)),
            final(self).previous_ms() == now_ms,
            final(self).table() == (match old(self).previous() {
                Some(p) => if now_ms > old(self).previous_ms() {
                    tick_spec(
                        old(self).table(),
                        p,
                        counter_views(current@),
                        (now_ms - old(self).previous_ms()) as u64,
                        now_ms,
                    )
                } else {
                    old(self).table()
                },
                None => old(self).table(),
            }),
    {
        let ghost t0 = self.table();
        let ghost cv = counter_views(current@);
        proof {
            lemma_table_later(t0, self.previous_ms, now_ms);
        }
        let previous = self.previous.take();
        match previous {
            Some(prev) => {
                if now_ms > self.previous_ms {
                    let dt = now_ms - self.previous_ms;
                    let ghost pv = counter_views(prev@);
                    let mut i: usize = 0;
                    assert(cv.take(0) =~= Seq::<CounterView>::empty());
                    while i < current.len()
                        invariant
                            i <= current@.len(),
                            cv == counter_views(current@),
                            pv == counter_views(prev@),
                            dt > 0,
                            self.table() == tick_spec(t0, pv, cv.take(i as int), dt, now_ms),
                            table_ok(self.table(), now_ms),
                        decreases current.len() - i,
                    {
                        let c = &current[i];
                        assert(cv[i as int] == c@);
                        assert(cv.take(i + 1).drop_last() =~= cv.take(i as int));
                        assert(cv.take(i + 1).last() == c@);
                        match find_counter(&prev, &c.name) {
                            Some(j) => {
                                assert(pv[j as int] == prev@[j as int]@);
                                let p = &prev[j];
                                let rx = rate_between(p.receive.bytes, c.receive.bytes, dt);
                                let tx = rate_between(p.transmit.bytes, c.transmit.bytes, dt);
                                self.record(
                                    &c.name,
                                    RatePoint { timestamp_ms: now_ms, rate: rx },
                                    RatePoint { timestamp_ms: now_ms, rate: tx },
                                );
                            },
                            None => {},
                        }
                        i = i + 1;
                    }
                    assert(cv.take(i as int) =~= cv);
                }
            },
            None => {},
        }
        self.previous = Some(current);
        self.previous_ms = now_ms;
    }
}

} // verus!

verus! {

/// Direction of traffic on an interface.
#[derive(Clone, Copy, Debug, PartialEq, Eq, Structural)]
pub enum Direction {
    Rx,
    Tx,
}

/// The table after the consumer feeds `rate` into the statistics of `name` in
/// direction `dir`; an interface not yet in the table gets an entry with empty
/// histories.
pub open spec fn stats_spec(t: Seq<InterfaceView>, name: Seq<char>, dir: Direction, rate: u128) -> Seq<InterfaceView> {
    let base = match entry_index(t, name) {
        Some(i) => t[i],
        None => InterfaceView {
            name,
            rx: seq![],
            tx: seq![],
            rx_stats: zero_stats(),
            tx_stats: zero_stats(),
        },
    };
    let updated = match dir {
        Direction::Rx => InterfaceView { rx_stats: observe_spec(base.rx_stats, rate), ..base },
        Direction::Tx => InterfaceView { tx_stats: observe_spec(base.tx_stats, rate), ..base },
    };
    match entry_index(t, name) {
        Some(i) => t.update(i, updated),
        None => t.push(updated),
    }
}

/// The newest rate of a history; zero when it has none.
pub open spec fn latest_of(h: Seq<RatePoint>) -> u128 {
    if h.len() == 0 {
        0
    } else {
        h.last().rate
    }
}

impl RateEngine {
    /// The per-interface entries, in order of first appearance.
    pub fn interfaces(&self) -> (r: &Vec<InterfaceRates>)
        ensures
            r@.map_values(|e: InterfaceRates| e@) == self.table(),
    {
        &self.interfaces
    }

    /// The newest rate of `name` in direction `dir`; zero when the interface has no
    /// rate yet (fewer than two snapshots of it).
    pub fn latest_rate(&self, name: &String, dir: Direction) -> (r: u128)
        ensures
            r == match entry_index(self.table(), name@) {
                Some(i) => match dir {
                    Direction::Rx => latest_of(self.table()[i].rx),
                    Direction::Tx => latest_of(self.table()[i].tx),
                },
                None => 0u128,
            },
    {
        match self.find_entry(name) {
            Some(i) => {
                let e = &self.interfaces[i];
                assert(e@ == self.table()[i as int]);
                let h = match dir {
                    Direction::Rx => &e.rx,
                    Direction::Tx => &e.tx,
                };
                if h.len() == 0 {
                    0
                } else {
                    h[h.len() - 1].rate
                }
            },
            None => 0,
        }
    }

    /// Feeds `latest_rate` into the peak and average of `name` in direction `dir`.
    pub fn update_stats(&mut self, name: &String, dir: Direction, latest_rate: u128)
        requires
            old(self).wf(),
        ensures
            final(self).wf(),
            final(self).table() == stats_spec(old(self).table(), name@, dir, latest_rate),
            final(self).previous() == old(self).previous(),
            final(self).previous_ms() == old(self).previous_ms(),
    {
        let ghost t = self.table();
        match self.find_entry(name) {
            Some(i) => {
                let mut e = InterfaceRates {
                    name: String::new(),
                    rx: Vec::new(),
                    tx: Vec::new(),
                    rx_stats: SpeedStats::new(),
                    tx_stats: SpeedStats::new(),
                };
                self.interfaces.set_and_swap(i, &mut e);
                assert(e@ == t[i as int]);
                let ghost ii = i as int;
                assert(history_ok(t[ii].rx, self.previous_ms));
                assert(history_ok(t[ii].tx, self.previous_ms));
                match dir {
                    Direction::Rx => e.rx_stats.update_stats(latest_rate),
                    Direction::Tx => e.tx_stats.update_stats(latest_rate),
                }
                self.interfaces.set_and_swap(i, &mut e);
                assert(self.table() =~= stats_spec(t, name@, dir, latest_rate));
            },
            None => {
                let mut e = InterfaceRates {
                    name: name.clone(),
                    rx: Vec::new(),
                    tx: Vec::new(),
                    rx_stats: SpeedStats::new(),
                    tx_stats: SpeedStats::new(),
                };
                match dir {
                    Direction::Rx => e.rx_stats.update_stats(latest_rate),
                    Direction::Tx => e.tx_stats.update_stats(latest_rate),
                }
                assert(e@.rx =~= Seq::<RatePoint>::empty());
                assert(e@.tx =~= Seq::<RatePoint>::empty());
                self.interfaces.push(e);
                assert(self.table() =~= stats_spec(t, name@, dir, latest_rate));
                assert forall|a: int| 0 <= a < t.len() implies t[a].name != name@ by {
                    if t[a].name == name@ {
                        assert(is_first_entry(t, name@, a));
                    }
                }
            },
        }
    }
}

} // verus!

verus! {

/// The statistics after observing `rates` in order.
pub open spec fn observe_all(s: SpeedStats, rates: Seq<u128>) -> SpeedStats
    decreases rates.len(),
{
    if rates.len() == 0 {
        s
    } else {
        observe_spec(observe_all(s, rates.drop_last()), rates.last())
    }
}

/// Starting from zero, the peak after any sequence of rates is the largest of them
/// (zero for none), and it never goes down as more rates arrive.
pub proof fn lemma_peak_is_max(rates: Seq<u128>)
    ensures
        forall|k: int| 0 <= k < rates.len() ==> rates[k] <= observe_all(zero_stats(), rates).peak,
        rates.len() == 0 ==> observe_all(zero_stats(), rates).peak == 0,
        rates.len() > 0 ==> exists|k: int| 0 <= k < rates.len() && rates[k] == observe_all(zero_stats(), rates).peak,
        forall|i: int, j: int| 0 <= i <= j <= rates.len() ==> observe_all(zero_stats(), rates.take(i)).peak
            <= observe_all(zero_stats(), rates.take(j)).peak,
    decreases rates.len(),
{
    if rates.len() > 0 {
        let init = rates.drop_last();
        lemma_peak_is_max(init);
        let before = observe_all(zero_stats(), init);
        let after = observe_all(zero_stats(), rates);
        assert forall|k: int| 0 <= k < rates.len() implies rates[k] <= after.peak by {
            if k < init.len() {
                assert(init[k] == rates[k]);
            }
        }
        if after.peak == rates.last() {
            assert(rates[rates.len() - 1] == after.peak);
        } else {
            assert(after.peak == before.peak);
            if init.len() == 0 {
                assert(after.peak == rates.last());
            } else {
                let k = choose|k: int| 0 <= k < init.len() && init[k] == before.peak;
                assert(rates[k] == after.peak);
            }
        }
        assert forall|i: int, j: int| 0 <= i <= j <= rates.len() implies observe_all(
            zero_stats(),
            rates.take(i),
        ).peak <= observe_all(zero_stats(), rates.take(j)).peak by {
            if j == rates.len() {
                assert(rates.take(j) =~= rates);
                if i < j {
                    assert(rates.take(i) =~= init.take(i));
                    assert(init.take(init.len() as int) =~= init);
                } else {
                    assert(rates.take(i) =~= rates);
                }
            } else {
                assert(rates.take(i) =~= init.take(i));
                assert(rates.take(j) =~= init.take(j));
            }
        }
    } else {
        assert forall|i: int, j: int| 0 <= i <= j <= rates.len() implies observe_all(
            zero_stats(),
            rates.take(i),
        ).peak <= observe_all(zero_stats(), rates.take(j)).peak by {
            assert(rates.take(i) =~= rates.take(j));
        }
    }
}

/// In every well-formed engine, each history holds at most the capacity and its
/// points are in order of time, oldest first.
pub proof fn lemma_history_bounded(e: &RateEngine)
    requires
        e.wf(),
    ensures
        forall|i: int| 0 <= i < e.table().len() ==> (#[trigger] e.table()[i]).rx.len() <= HISTORY_CAPACITY
            && e.table()[i].tx.len() <= HISTORY_CAPACITY,
        forall|i: int, a: int, b: int| 0 <= i < e.table().len() && 0 <= a <= b < e.table()[i].rx.len()
            ==> (#[trigger] e.table()[i].rx[a]).timestamp_ms <= (#[trigger] e.table()[i].rx[b]).timestamp_ms,
        forall|i: int, a: int, b: int| 0 <= i < e.table().len() && 0 <= a <= b < e.table()[i].tx.len()
            ==> (#[trigger] e.table()[i].tx[a]).timestamp_ms <= (#[trigger] e.table()[i].tx[b]).timestamp_ms,
{
    let t = e.table();
    assert forall|i: int| 0 <= i < t.len() implies history_ok(t[i].rx, e.previous_ms()) && history_ok(t[i].tx, e.previous_ms()) by {
        assert(history_ok(t[i].rx, e.previous_ms()));
    }
}

} // verus!

verus! {

proof fn lemma_first_entry_unique(t: Seq<InterfaceView>, name: Seq<char>, a: int, b: int)
    requires
        is_first_entry(t, name, a),
        is_first_entry(t, name, b),
    ensures
        a == b,
{
    if a < b {
        assert(t[a].name != name);
    } else if b < a {
        assert(t[b].name != name);
    }
}

proof fn lemma_exists_first_entry(t: Seq<InterfaceView>, name: Seq<char>, a: int)
    requires
        0 <= a < t.len(),
        t[a].name == name,
    ensures
        entry_index(t, name) is Some,
    decreases a,
{
    if exists|j: int| 0 <= j < a && t[j].name == name {
        let j = choose|j: int| 0 <= j < a && t[j].name == name;
        lemma_exists_first_entry(t, name, j);
    } else {
        assert(is_first_entry(t, name, a));
    }
}

/// Recording points for one name leaves the entry of any other name where it was.
proof fn lemma_record_other(t: Seq<InterfaceView>, m: Seq<char>, n: Seq<char>, rx: RatePoint, tx: RatePoint)
    requires
        m != n,
    ensures
        entry_index(record_spec(t, m, rx, tx), n) == entry_index(t, n),
        entry_index(t, n) is Some ==> record_spec(t, m, rx, tx)[entry_index(t, n)->0] == t[entry_index(t, n)->0],
{
    let r = record_spec(t, m, rx, tx);
    assert forall|k: int| is_first_entry(r, n, k) <==> is_first_entry(t, n, k) by {
        if 0 <= k < t.len() {
            assert forall|j: int| 0 <= j <= k implies r[j].name == t[j].name by {}
        }
    }
    if entry_index(t, n) is Some {
        let k = entry_index(t, n)->0;
        assert(is_first_entry(t, n, k));
        assert(is_first_entry(r, n, k));
        let k2 = choose|k2: int| is_first_entry(r, n, k2);
        lemma_first_entry_unique(r, n, k, k2);
    }
}

/// The receive history of `name` in `t`; empty when `t` has no such entry.
pub open spec fn rx_history(t: Seq<InterfaceView>, name: Seq<char>) -> Seq<RatePoint> {
    match entry_index(t, name) {
        Some(k) => t[k].rx,
        None => seq![],
    }
}

/// The transmit history of `name` in `t`; empty when `t` has no such entry.
pub open spec fn tx_history(t: Seq<InterfaceView>, name: Seq<char>) -> Seq<RatePoint> {
    match entry_index(t, name) {
        Some(k) => t[k].tx,
        None => seq![],
    }
}

/// Recording points for a name appends them to that name's histories.
proof fn lemma_record_same(t: Seq<InterfaceView>, n: Seq<char>, rx: RatePoint, tx: RatePoint)
    ensures
        entry_index(record_spec(t, n, rx, tx), n) is Some,
        record_spec(t, n, rx, tx)[entry_index(record_spec(t, n, rx, tx), n)->0].rx
            == bounded_push(rx_history(t, n), rx),
        record_spec(t, n, rx, tx)[entry_index(record_spec(t, n, rx, tx), n)->0].tx
            == bounded_push(tx_history(t, n), tx),
        record_spec(t, n, rx, tx)[entry_index(record_spec(t, n, rx, tx), n)->0].rx.last() == rx,
        record_spec(t, n, rx, tx)[entry_index(record_spec(t, n, rx, tx), n)->0].tx.last() == tx,
{
    let r = record_spec(t, n, rx, tx);
    match entry_index(t, n) {
        Some(i) => {
            assert(is_first_entry(t, n, i));
            assert(is_first_entry(r, n, i));
            let k = choose|k: int| is_first_entry(r, n, k);
            lemma_first_entry_unique(r, n, i, k);
        },
        None => {
            let i = t.len() as int;
            assert forall|j: int| 0 <= j < i implies r[j].name != n by {
                if t[j].name == n {
                    lemma_exists_first_entry(t, n, j);
                }
            }
            assert(is_first_entry(r, n, i));
            let k = choose|k: int| is_first_entry(r, n, k);
            lemma_first_entry_unique(r, n, i, k);
            assert(bounded_push(Seq::<RatePoint>::empty(), rx) =~= seq![rx]);
            assert(bounded_push(Seq::<RatePoint>::empty(), tx) =~= seq![tx]);
        },
    }
}

/// A tick whose new snapshot does not name `n` leaves the entry of `n` as it was.
proof fn lemma_tick_untouched(
    t: Seq<InterfaceView>,
    prev: Seq<CounterView>,
    cur: Seq<CounterView>,
    dt: u64,
    now: u64,
    n: Seq<char>,
)
    requires
        forall|k: int| 0 <= k < cur.len() ==> cur[k].0 != n,
    ensures
        entry_index(tick_spec(t, prev, cur, dt, now), n) == entry_index(t, n),
        entry_index(t, n) is Some ==> tick_spec(t, prev, cur, dt, now)[entry_index(t, n)->0]
            == t[entry_index(t, n)->0],
    decreases cur.len(),
{
    if cur.len() > 0 {
        let init = cur.drop_last();
        assert forall|k: int| 0 <= k < init.len() implies init[k].0 != n by {
            assert(init[k] == cur[k]);
        }
        lemma_tick_untouched(t, prev, init, dt, now, n);
        let before = tick_spec(t, prev, init, dt, now);
        let c = cur.last();
        assert(c.0 != n);
        match counter_index(prev, c.0) {
            Some(j) => {
                lemma_record_other(
                    before,
                    c.0,
                    n,
                    RatePoint { timestamp_ms: now, rate: rate_of(prev[j].1.bytes, c.1.bytes, dt) },
                    RatePoint { timestamp_ms: now, rate: rate_of(prev[j].2.bytes, c.2.bytes, dt) },
                );
            },
            None => {},
        }
    }
}

/// A tick appends one point per direction to the histories of an interface that both
/// snapshots hold and the new one names once: the point goes last, the oldest point
/// leaves only when the history was full, and the rest keep their order.
pub proof fn lemma_tick_history(
    t: Seq<InterfaceView>,
    prev: Seq<CounterView>,
    cur: Seq<CounterView>,
    dt: u64,
    now: u64,
    i: int,
)
    requires
        0 <= i < cur.len(),
        forall|k: int| 0 <= k < cur.len() && k != i ==> cur[k].0 != cur[i].0,
        counter_index(prev, cur[i].0) is Some,
    ensures
        ({
            let r = tick_spec(t, prev, cur, dt, now);
            let n = cur[i].0;
            let j = counter_index(prev, n)->0;
            &&& entry_index(r, n) is Some
            &&& r[entry_index(r, n)->0].rx == bounded_push(
                rx_history(t, n),
                RatePoint { timestamp_ms: now, rate: rate_of(prev[j].1.bytes, cur[i].1.bytes, dt) },
            )
            &&& r[entry_index(r, n)->0].tx == bounded_push(
                tx_history(t, n),
                RatePoint { timestamp_ms: now, rate: rate_of(prev[j].2.bytes, cur[i].2.bytes, dt) },
            )
        }),
    decreases cur.len(),
{
    let init = cur.drop_last();
    let before = tick_spec(t, prev, init, dt, now);
    let c = cur.last();
    let n = cur[i].0;
    if i == cur.len() - 1 {
        assert forall|k: int| 0 <= k < init.len() implies init[k].0 != n by {
            assert(init[k] == cur[k]);
        }
        lemma_tick_untouched(t, prev, init, dt, now, n);
        let j = counter_index(prev, c.0)->0;
        lemma_record_same(
            before,
            c.0,
            RatePoint { timestamp_ms: now, rate: rate_of(prev[j].1.bytes, c.1.bytes, dt) },
            RatePoint { timestamp_ms: now, rate: rate_of(prev[j].2.bytes, c.2.bytes, dt) },
        );
    } else {
        assert forall|k: int| 0 <= k < init.len() && k != i implies init[k].0 != init[i].0 by {
            assert(init[k] == cur[k]);
        }
        lemma_tick_history(t, prev, init, dt, now, i);
        assert(c.0 != n);
        match counter_index(prev, c.0) {
            Some(j2) => {
                lemma_record_other(
                    before,
                    c.0,
                    n,
                    RatePoint { timestamp_ms: now, rate: rate_of(prev[j2].1.bytes, c.1.bytes, dt) },
                    RatePoint { timestamp_ms: now, rate: rate_of(prev[j2].2.bytes, c.2.bytes, dt) },
                );
            },
            None => {},
        }
    }
}

/// A tick gives an interface that both snapshots hold a newest point per direction at
/// the tick's time, whose rate is the counter's increase over the elapsed time, or zero
/// where the counter went back. Where the new snapshot names the interface more than
/// once, the newest point comes from its last record.
pub proof fn lemma_tick_rate(
    t: Seq<InterfaceView>,
    prev: Seq<CounterView>,
    cur: Seq<CounterView>,
    dt: u64,
    now: u64,
    i: int,
)
    requires
        0 <= i < cur.len(),
        forall|k: int| i < k < cur.len() ==> cur[k].0 != cur[i].0,
        counter_index(prev, cur[i].0) is Some,
    ensures
        ({
            let r = tick_spec(t, prev, cur, dt, now);
            let j = counter_index(prev, cur[i].0)->0;
            &&& entry_index(r, cur[i].0) is Some
            &&& r[entry_index(r, cur[i].0)->0].rx.last() == RatePoint {
                timestamp_ms: now,
                rate: rate_of(prev[j].1.bytes, cur[i].1.bytes, dt),
            }
            &&& r[entry_index(r, cur[i].0)->0].tx.last() == RatePoint {
                timestamp_ms: now,
                rate: rate_of(prev[j].2.bytes, cur[i].2.bytes, dt),
            }
        }),
    decreases cur.len(),
{
    let init = cur.drop_last();
    let before = tick_spec(t, prev, init, dt, now);
    let c = cur.last();
    if i == cur.len() - 1 {
        let j = counter_index(prev, c.0)->0;
        lemma_record_same(
            before,
            c.0,
            RatePoint { timestamp_ms: now, rate: rate_of(prev[j].1.bytes, c.1.bytes, dt) },
            RatePoint { timestamp_ms: now, rate: rate_of(prev[j].2.bytes, c.2.bytes, dt) },
        );
    } else {
        assert forall|k: int| i < k < init.len() implies init[k].0 != init[i].0 by {
            assert(init[k] == cur[k]);
        }
        lemma_tick_rate(t, prev, init, dt, now, i);
        assert(c.0 != cur[i].0);
        match counter_index(prev, c.0) {
            Some(j2) => {
                lemma_record_other(
                    before,
                    c.0,
                    cur[i].0,
                    RatePoint { timestamp_ms: now, rate: rate_of(prev[j2].1.bytes, c.1.bytes, dt) },
                    RatePoint { timestamp_ms: now, rate: rate_of(prev[j2].2.bytes, c.2.bytes, dt) },
                );
            },
            None => {},
        }
    }
}

} // verus!

verus! {

/// Load of a link in thousandths of its capacity, for a rate in bytes per second and a
/// capacity in megabits per second, capped at 1000; none when the capacity is unknown
/// (absent or zero).
pub open spec fn load_spec(rate: u128, limit_mbps: Option<u64>) -> Option<u64> {
    match limit_mbps {
        None => None,
        Some(m) => if m == 0 {
            None
        } else {
            let q = (rate as nat * 8000) / (m as nat * 1_000_000);
            Some(if q >= 1000 { 1000u64 } else { q as u64 })
        },
    }
}

proof fn lemma_quotient_vs_1000(x: int, d: int)
    requires
        x >= 0,
        d > 0,
    ensures
        x >= 1000 * d ==> x / d >= 1000,
        x < 1000 * d ==> x / d < 1000,
{
    vstd::arithmetic::div_mod::lemma_fundamental_div_mod(x, d);
    vstd::arithmetic::div_mod::lemma_mod_pos_bound(x, d);
    let q = x / d;
    let r = x % d;
    assert(x >= 1000 * d ==> q >= 1000) by (nonlinear_arith)
        requires
            x == d * q + r,
            0 <= r < d,
    ;
    assert(x < 1000 * d ==> q < 1000) by (nonlinear_arith)
        requires
            x == d * q + r,
            0 <= r,
            d > 0,
    ;
}

/// Normalizes a rate against a link capacity hint.
pub fn load_permille(rate: u128, limit_mbps: Option<u64>) -> (r: Option<u64>)
    ensures
        r == load_spec(rate, limit_mbps),
{
    match limit_mbps {
        None => None,
        Some(m) => {
            if m == 0 {
                return None;
            }
            let cap = (m as u128) * 125_000;
            let d = (m as u128) * 1_000_000;
            proof {
                lemma_quotient_vs_1000(rate as int * 8000, d as int);
            }
            if rate >= cap {
                assert(rate as nat * 8000 >= 1000 * d) by (nonlinear_arith)
                    requires
                        rate >= cap,
                        cap == m as nat * 125_000,
                        d == m as nat * 1_000_000,
                ;
                Some(1000)
            } else {
                assert(rate * 8000 < 1000 * d) by (nonlinear_arith)
                    requires
                        rate < cap,
                        cap == m as nat * 125_000,
                        d == m as nat * 1_000_000,
                ;
                let q = rate * 8000 / d;
                Some(q as u64)
            }
        },
    }
}

} // verus!
