//! Compare-and-swap on one shared cache line.
//!
//! Two threads hand a flag back and forth: pong waits until the flag says ping and
//! sets it to pong, ping waits until it says pong and sets it to ping.

use crate::arithmetic::{is_count, is_faithful, is_over, lemma_over_scaled, Arithmetic};
use crate::bench::Count;
use crate::cores::CoreId;
use crate::double::{
    has_quotient, is_value, lemma_named_numbers, unit, Double, TWO_BITS,
};
use vstd::arithmetic::power2::lemma_pow2_pos;
use vstd::prelude::*;

verus! {

/// The flag when it is pong's turn.
pub const PING: bool = false;

/// The flag when it is ping's turn.
pub const PONG: bool = true;

/// How many bytes each flag takes up.
pub const CACHELINE_SIZE: usize = 64;

/// One side of the exchange.
#[derive(Clone, Copy, PartialEq, Eq, Structural, Debug)]
pub enum Role {
    Ping,
    Pong,
}

impl Role {
    /// The flag that this side waits for.
    pub open spec fn awaits(self) -> bool {
        match self {
            Role::Ping => PONG,
            Role::Pong => PING,
        }
    }

    /// The flag that this side leaves behind.
    pub open spec fn leaves(self) -> bool {
        match self {
            Role::Ping => PING,
            Role::Pong => PONG,
        }
    }

    /// The flag that this side waits for.
    pub fn awaited(self) -> (r: bool)
        ensures
            r == self.awaits(),
    {
        match self {
            Role::Ping => PONG,
            Role::Pong => PING,
        }
    }

    /// The flag that this side leaves behind.
    pub fn left_behind(self) -> (r: bool)
        ensures
            r == self.leaves(),
    {
        match self {
            Role::Ping => PING,
            Role::Pong => PONG,
        }
    }
}

/// How far an exchange has come: the flag, and how often each side has set it.
pub struct Exchange {
    pub flag: bool,
    pub pings: nat,
    pub pongs: nat,
}

/// The exchange after one side has tried to set the flag, which works where the flag
/// is the one that this side waits for.
pub open spec fn attempted(e: Exchange, role: Role) -> Exchange {
    if e.flag != role.awaits() {
        e
    } else {
        match role {
            Role::Ping => Exchange { flag: role.leaves(), pings: e.pings + 1, pongs: e.pongs },
            Role::Pong => Exchange { flag: role.leaves(), pings: e.pings, pongs: e.pongs + 1 },
        }
    }
}

/// The exchange on a flag after the two sides have tried in the given order, however
/// they were interleaved.
pub open spec fn exchanged_from(flag: bool, attempts: Seq<Role>) -> Exchange
    decreases attempts.len(),
{
    if attempts.len() == 0 {
        Exchange { flag, pings: 0, pongs: 0 }
    } else {
        attempted(exchanged_from(flag, attempts.drop_last()), attempts.last())
    }
}

/// The exchange on a flag that says ping, after the two sides have tried in the given
/// order.
pub open spec fn exchanged(attempts: Seq<Role>) -> Exchange {
    exchanged_from(PING, attempts)
}

/// The two sides take turns, and pong begins: it is ahead by one where the flag is
/// its own, and otherwise both have set the flag equally often.
pub proof fn lemma_turns(attempts: Seq<Role>)
    ensures
        exchanged(attempts).pongs == exchanged(attempts).pings + (if exchanged(attempts).flag
            == PONG {
            1nat
        } else {
            0nat
        }),
    decreases attempts.len(),
{
    if attempts.len() > 0 {
        lemma_turns(attempts.drop_last());
    }
}

/// When both sides have made all their exchanges, the flag is as it was at the start.
pub proof fn lemma_flag_restored(attempts: Seq<Role>)
    requires
        exchanged(attempts).pings == exchanged(attempts).pongs,
    ensures
        exchanged(attempts).flag == PING,
{
    lemma_turns(attempts);
}

/// The exchange never stalls: whatever the flag is, exactly one side can set it.
pub proof fn lemma_one_side_can_go(e: Exchange)
    ensures
        (attempted(e, Role::Ping) != e) != (attempted(e, Role::Pong) != e),
{
}

/// The benchmark: a flag for each address, as it is between the measurements.
pub struct Bench {
    pub flags: Vec<bool>,
}

impl Bench {
    /// The benchmark on `num_addresses` addresses.
    pub fn new(num_addresses: usize) -> (r: Bench)
        ensures
            r.flags@ == Seq::new(num_addresses as nat, |k: int| PING),
    {
        let mut flags: Vec<bool> = Vec::new();
        while flags.len() < num_addresses
            invariant
                flags.len() <= num_addresses,
                forall|k: int| 0 <= k < flags.len() ==> flags[k] == PING,
            decreases num_addresses - flags.len(),
        {
            flags.push(PING);
        }
        assert(flags@ =~= Seq::new(num_addresses as nat, |k: int| PING));
        Bench { flags }
    }

    /// The number of addresses.
    pub fn num_addresses(&self) -> (r: usize)
        ensures
            r == self.flags@.len(),
    {
        self.flags.len()
    }

    /// Starts a run between the cores `ping` and `pong`. With `no_recycling` its
    /// flags are in memory of their own, mapped while the thread is on the ping
    /// core.
    pub fn start(
        &self,
        no_recycling: bool,
        ping: CoreId,
        pong: CoreId,
        num_round_trips: Count,
        num_samples: Count,
    ) -> (r: Run)
        requires
            num_round_trips * num_samples <= Count::MAX,
            no_recycling ==> CACHELINE_SIZE * self.flags@.len() <= usize::MAX,
        ensures
            r.well_formed(),
            r.num_addresses == self.flags@.len(),
            r.ping == ping,
            r.pong == pong,
            r.num_round_trips == num_round_trips,
            r.num_samples == num_samples,
            r.results@.len() == 0,
            r.plan() == plan_of(no_recycling, ping, self.flags@.len() as int),
    {
        let n: usize = self.flags.len();
        let stage = if no_recycling {
            Stage::Pin
        } else {
            stage_at(0, n)
        };
        Run {
            ping,
            pong,
            num_addresses: n,
            num_round_trips,
            num_samples,
            stage,
            results: Vec::new(),
        }
    }
}

/// What to do next in a run.
#[derive(Clone, Copy, PartialEq, Eq, Structural, Debug)]
pub enum Step {
    /// Move the current thread to the core.
    Pin(CoreId),
    /// Map so many bytes, for flags that all say ping.
    MapFlags(usize),
    /// Measure the address.
    Measure(usize),
    /// Set the flag of the address to ping.
    Reset(usize),
    /// Nothing is left to do.
    Finish,
}

/// Where a run stands.
#[derive(Clone, Copy, PartialEq, Eq, Structural, Debug)]
pub enum Stage {
    Pin,
    MapFlags,
    Measure(usize),
    Reset(usize),
    Done,
}

/// What is done from the address `k` on: each address is measured, and its flag
/// reset.
pub open spec fn addresses_from(k: int, n: int) -> Seq<Step>
    decreases n - k,
{
    if k >= n {
        Seq::empty()
    } else {
        seq![Step::Measure(k as usize), Step::Reset(k as usize)] + addresses_from(k + 1, n)
    }
}

/// What is done in a run on `n` addresses.
pub open spec fn plan_of(no_recycling: bool, ping: CoreId, n: int) -> Seq<Step> {
    if no_recycling {
        seq![Step::Pin(ping), Step::MapFlags((CACHELINE_SIZE * n) as usize)] + addresses_from(0, n)
    } else {
        addresses_from(0, n)
    }
}

/// Each address is measured once, in order, and its flag is reset right after.
pub proof fn lemma_addresses_in_order(n: int, k: int)
    requires
        0 <= k < n,
    ensures
        addresses_from(0, n).len() == 2 * n,
        addresses_from(0, n)[2 * k] == Step::Measure(k as usize),
        addresses_from(0, n)[2 * k + 1] == Step::Reset(k as usize),
{
    lemma_addresses_from(0, n, k);
}

/// Where each step stands among what is done from the address `s` on.
proof fn lemma_addresses_from(s: int, n: int, k: int)
    requires
        0 <= s <= n,
    ensures
        addresses_from(s, n).len() == 2 * (n - s),
        s <= k < n ==> addresses_from(s, n)[2 * (k - s)] == Step::Measure(k as usize),
        s <= k < n ==> addresses_from(s, n)[2 * (k - s) + 1] == Step::Reset(k as usize),
    decreases n - s,
{
    if s < n {
        lemma_addresses_from(s + 1, n, k);
    }
}

/// The stage at the address `k`, or the end.
fn stage_at(k: usize, n: usize) -> (r: Stage)
    ensures
        r == (if k < n {
            Stage::Measure(k)
        } else {
            Stage::Done
        }),
{
    if k < n {
        Stage::Measure(k)
    } else {
        Stage::Done
    }
}

/// A run between two cores.
pub struct Run {
    pub ping: CoreId,
    pub pong: CoreId,
    pub num_addresses: usize,
    pub num_round_trips: Count,
    pub num_samples: Count,
    pub stage: Stage,
    pub results: Vec<Vec<Double>>,
}

/// Whether `r` is the latency of one way, in nanoseconds: `nanos` over the number of
/// round trips, and half of that.
pub open spec fn is_latency<A: Arithmetic>(
    arith: &A,
    nanos: u128,
    num_round_trips: Count,
    r: Double,
) -> bool {
    exists|d: Double, n: Double, q: Double|
        {
            &&& #[trigger] is_count(arith, nanos as int, d)
            &&& #[trigger] is_count(arith, num_round_trips as int, n)
            &&& #[trigger] is_over(arith, d, n, q)
            &&& is_over(arith, q, Double { bits: TWO_BITS }, r)
        }
}

/// Whether `r` are the latencies of the samples `nanos`.
pub open spec fn are_latencies<A: Arithmetic>(
    arith: &A,
    nanos: Seq<u128>,
    num_round_trips: Count,
    r: Seq<Double>,
) -> bool {
    &&& r.len() == nanos.len()
    &&& forall|i: int|
        0 <= i < nanos.len() ==> #[trigger] is_latency(arith, nanos[i], num_round_trips, r[i])
}

/// The latency of one way, in nanoseconds.
pub fn latency<A: Arithmetic>(nanos: u128, num_round_trips: Count, arith: &A) -> (r: Double)
    ensures
        is_latency(arith, nanos, num_round_trips, r),
{
    let d = arith.from_count(nanos);
    let n = arith.from_count(num_round_trips as u128);
    let q = arith.over(d, n);
    assert(is_count(arith, nanos as int, d));
    assert(is_count(arith, num_round_trips as int, n));
    assert(is_over(arith, d, n, q));
    arith.over(q, Double { bits: TWO_BITS })
}

/// The latency of one way is half of what one round trip takes: times two, times the
/// number of round trips, it is the time that was measured, where the arithmetic can be
/// exact on these numbers.
pub proof fn lemma_latency_one_way<A: Arithmetic>(
    nanos: u128,
    num_round_trips: Count,
    arith: &A,
    r: Double,
)
    requires
        call_ensures(latency::<A>, (nanos, num_round_trips, arith), r),
        num_round_trips > 0,
        is_faithful(arith),
        is_value(nanos * unit()),
        is_value(num_round_trips * unit()),
        has_quotient(nanos * unit(), num_round_trips as int),
        has_quotient(nanos * unit(), 2 * num_round_trips),
    ensures
        r.finite(),
        r.value() * (2 * num_round_trips) == nanos * unit(),
{
    lemma_latency_value(arith, nanos, num_round_trips, r);
}

/// What is half of the time of one round trip, where the arithmetic can be exact.
proof fn lemma_latency_value<A: Arithmetic>(
    arith: &A,
    nanos: u128,
    num_round_trips: Count,
    r: Double,
)
    requires
        is_latency(arith, nanos, num_round_trips, r),
        num_round_trips > 0,
        is_faithful(arith),
        is_value(nanos * unit()),
        is_value(num_round_trips * unit()),
        has_quotient(nanos * unit(), num_round_trips as int),
        has_quotient(nanos * unit(), 2 * num_round_trips),
    ensures
        r.finite(),
        r.value() * (2 * num_round_trips) == nanos * unit(),
{
    let two = Double { bits: TWO_BITS };
    let (d, n, q) = choose|d: Double, n: Double, q: Double| #[trigger]
        is_count(arith, nanos as int, d) && #[trigger] is_count(arith, num_round_trips as int, n)
            && #[trigger] is_over(arith, d, n, q) && is_over(arith, q, two, r);
    let u = unit();
    let k = num_round_trips as int;
    lemma_pow2_pos(1074);
    lemma_named_numbers();
    assert(call_ensures(A::from_count, (arith, nanos), d));
    assert(call_ensures(A::from_count, (arith, num_round_trips as u128), n));
    assert(d.value() == nanos * u && n.value() == k * u);
    let x = choose|x: Double| x.finite() && #[trigger] x.value() * k == nanos * u;
    assert(k * u != 0) by (nonlinear_arith)
        requires
            k > 0,
            u > 0,
    ;
    lemma_over_scaled(x.value(), k, d.value(), u);
    assert(x.value() * n.value() == d.value() * u);
    assert(call_ensures(A::over, (arith, d, n), q));
    lemma_over_scaled(q.value(), k, d.value(), u);
    assert(q.value() * k == nanos * u);
    let h = choose|h: Double| h.finite() && #[trigger] h.value() * (2 * k) == nanos * u;
    assert(h.value() * 2 == q.value()) by (nonlinear_arith)
        requires
            h.value() * (2 * k) == nanos * u,
            q.value() * k == nanos * u,
            k > 0,
    ;
    lemma_over_scaled(h.value(), 2, q.value(), u);
    assert(h.value() * two.value() == q.value() * u);
    assert(call_ensures(A::over, (arith, q, two), r));
    lemma_over_scaled(r.value(), 2, q.value(), u);
    assert(r.value() * (2 * k) == nanos * u) by (nonlinear_arith)
        requires
            r.value() * 2 == q.value(),
            q.value() * k == nanos * u,
    ;
}

/// The latency is the time, over the number of round trips, over two: also where there are
/// none, or the arithmetic cannot be exact.
pub proof fn lemma_latency_quotients<A: Arithmetic>(
    nanos: u128,
    num_round_trips: Count,
    arith: &A,
    r: Double,
)
    requires
        call_ensures(latency::<A>, (nanos, num_round_trips, arith), r),
    ensures
        exists|time: Double, trips: Double, each: Double|
            {
                &&& #[trigger] call_ensures(A::from_count, (arith, nanos), time)
                &&& #[trigger] call_ensures(A::from_count, (arith, num_round_trips as u128), trips)
                &&& #[trigger] call_ensures(A::over, (arith, time, trips), each)
                &&& call_ensures(
                    A::over,
                    (arith, each, Double { bits: 0x4000_0000_0000_0000 }),
                    r,
                )
            },
{
    let two = Double { bits: TWO_BITS };
    let (d, n, q) = choose|d: Double, n: Double, q: Double| #[trigger]
        is_count(arith, nanos as int, d) && #[trigger] is_count(arith, num_round_trips as int, n)
            && #[trigger] is_over(arith, d, n, q) && is_over(arith, q, two, r);
    assert(call_ensures(A::from_count, (arith, nanos), d));
    assert(call_ensures(A::from_count, (arith, num_round_trips as u128), n));
    assert(call_ensures(A::over, (arith, d, n), q));
}

/// The latency is the same for `k` times the time over `k` times the round trips, where
/// the arithmetic can be exact on these numbers.
pub proof fn lemma_latency_rate<A: Arithmetic>(
    nanos: u128,
    num_round_trips: Count,
    nanos2: u128,
    num_round_trips2: Count,
    k: int,
    arith: &A,
    r: Double,
    r2: Double,
)
    requires
        k > 0,
        nanos2 == k * nanos,
        num_round_trips2 == k * num_round_trips,
        call_ensures(latency::<A>, (nanos, num_round_trips, arith), r),
        call_ensures(latency::<A>, (nanos2, num_round_trips2, arith), r2),
        num_round_trips > 0,
        is_faithful(arith),
        is_value(nanos * unit()),
        is_value(num_round_trips * unit()),
        is_value(nanos2 * unit()),
        is_value(num_round_trips2 * unit()),
        has_quotient(nanos * unit(), num_round_trips as int),
        has_quotient(nanos * unit(), 2 * num_round_trips),
    ensures
        r.value() == r2.value(),
{
    let u = unit();
    let n = num_round_trips as int;
    let a = choose|a: Double| a.finite() && #[trigger] a.value() * n == nanos * u;
    assert(a.value() * num_round_trips2 == nanos2 * u) by (nonlinear_arith)
        requires
            a.value() * n == nanos * u,
            num_round_trips2 == k * n,
            nanos2 == k * nanos,
    ;
    let b = choose|b: Double| b.finite() && #[trigger] b.value() * (2 * n) == nanos * u;
    assert(b.value() * (2 * num_round_trips2) == nanos2 * u) by (nonlinear_arith)
        requires
            b.value() * (2 * n) == nanos * u,
            num_round_trips2 == k * n,
            nanos2 == k * nanos,
    ;
    assert(num_round_trips2 > 0) by (nonlinear_arith)
        requires
            num_round_trips2 == k * n,
            k > 0,
            n > 0,
    ;
    lemma_latency_one_way(nanos, num_round_trips, arith, r);
    lemma_latency_one_way(nanos2, num_round_trips2, arith, r2);
    assert(r.value() == r2.value()) by (nonlinear_arith)
        requires
            r.value() * (2 * n) == nanos * u,
            r2.value() * (2 * num_round_trips2) == nanos2 * u,
            num_round_trips2 == k * n,
            nanos2 == k * nanos,
            k > 0,
            n > 0,
    ;
}

impl Run {
    /// What holds of every run: pong's exchanges and the bytes to map can be
    /// counted, and there are results of each address that was measured, one for each
    /// sample.
    pub open spec fn well_formed(self) -> bool {
        &&& self.num_round_trips * self.num_samples <= Count::MAX
        &&& forall|r: int|
            0 <= r < self.results@.len() ==> (#[trigger] self.results@[r])@.len()
                == self.num_samples
        &&& match self.stage {
            Stage::Pin | Stage::MapFlags => self.results@.len() == 0 && CACHELINE_SIZE
                * self.num_addresses <= usize::MAX,
            Stage::Measure(k) => k < self.num_addresses && self.results@.len() == k,
            Stage::Reset(k) => k < self.num_addresses && self.results@.len() == k + 1,
            Stage::Done => self.results@.len() == self.num_addresses,
        }
    }

    /// What is left to do.
    pub open spec fn plan(self) -> Seq<Step> {
        let n = self.num_addresses as int;
        match self.stage {
            Stage::Pin => seq![
                Step::Pin(self.ping),
                Step::MapFlags((CACHELINE_SIZE * n) as usize),
            ] + addresses_from(0, n),
            Stage::MapFlags => seq![Step::MapFlags((CACHELINE_SIZE * n) as usize)] + addresses_from(0, n),
            Stage::Measure(k) => addresses_from(k as int, n),
            Stage::Reset(k) => seq![Step::Reset(k)] + addresses_from(k + 1, n),
            Stage::Done => Seq::empty(),
        }
    }

    /// How often pong sets the flag while one address is measured.
    pub fn exchanges(&self) -> (r: Count)
        requires
            self.well_formed(),
        ensures
            r == self.num_round_trips * self.num_samples,
    {
        self.num_round_trips * self.num_samples
    }

    /// The next step.
    pub fn step(&self) -> (r: Step)
        requires
            self.well_formed(),
        ensures
            r == (if self.plan().len() == 0 {
                Step::Finish
            } else {
                self.plan()[0]
            }),
            r is Finish <==> self.stage is Done,
    {
        match self.stage {
            Stage::Pin => Step::Pin(self.ping),
            Stage::MapFlags => Step::MapFlags(CACHELINE_SIZE * self.num_addresses),
            Stage::Measure(k) => Step::Measure(k),
            Stage::Reset(k) => Step::Reset(k),
            Stage::Done => Step::Finish,
        }
    }

    /// Goes on after a step that brings no results.
    pub fn advance(&mut self)
        requires
            old(self).well_formed(),
            old(self).stage is Pin || old(self).stage is MapFlags || old(self).stage is Reset,
        ensures
            final(self).well_formed(),
            final(self).plan() == old(self).plan().drop_first(),
            *final(self) == (Run { stage: final(self).stage, ..*old(self) }),
    {
        let ghost plan = self.plan();
        match self.stage {
            Stage::Pin => {
                self.stage = Stage::MapFlags;
            },
            Stage::MapFlags => {
                self.stage = stage_at(0, self.num_addresses);
            },
            Stage::Reset(k) => {
                self.stage = stage_at(k + 1, self.num_addresses);
            },
            Stage::Measure(_) | Stage::Done => {},
        }
        assert(self.plan() =~= plan.drop_first());
    }

    /// Goes on after an address was measured: `nanos` is how long each sample took.
    pub fn measured<A: Arithmetic>(&mut self, nanos: &[u128], arith: &A)
        requires
            old(self).well_formed(),
            old(self).stage is Measure,
            nanos@.len() == old(self).num_samples,
        ensures
            final(self).well_formed(),
            final(self).plan() == old(self).plan().drop_first(),
            final(self).results@.len() == old(self).results@.len() + 1,
            final(self).results@.drop_last() == old(self).results@,
            are_latencies(
                arith,
                nanos@,
                old(self).num_round_trips,
                final(self).results@.last()@,
            ),
            forall|i: int|
                0 <= i < nanos@.len() ==> call_ensures(
                    latency::<A>,
                    (nanos@[i], old(self).num_round_trips, arith),
                    #[trigger] final(self).results@.last()@[i],
                ),
            *final(self) == (Run {
                stage: final(self).stage,
                results: final(self).results,
                ..*old(self)
            }),
    {
        let ghost plan = self.plan();
        let ghost before = self.results@;
        let mut row: Vec<Double> = Vec::new();
        let mut i: usize = 0;
        while i < nanos.len()
            invariant
                i <= nanos.len(),
                row.len() == i,
                forall|m: int|
                    0 <= m < i ==> #[trigger] is_latency(
                        arith,
                        nanos[m],
                        self.num_round_trips,
                        row[m],
                    ),
                forall|m: int|
                    0 <= m < i ==> call_ensures(
                        latency::<A>,
                        (nanos@[m], self.num_round_trips, arith),
                        #[trigger] row@[m],
                    ),
            decreases nanos.len() - i,
        {
            let l = latency(nanos[i], self.num_round_trips, arith);
            row.push(l);
            i = i + 1;
        }
        self.results.push(row);
        match self.stage {
            Stage::Measure(k) => {
                self.stage = Stage::Reset(k);
            },
            _ => {},
        }
        assert(self.plan() =~= plan.drop_first());
        proof {
            assert(self.results@.drop_last() =~= before);
            assert forall|r: int| 0 <= r < self.results@.len() implies (
            #[trigger] self.results@[r])@.len() == self.num_samples by {
                if r < before.len() {
                    assert(self.results@[r] == before[r]);
                }
            }
        }
    }

    /// The latencies of all addresses, one for each sample.
    pub fn finish(self) -> (r: Vec<Vec<Double>>)
        requires
            self.well_formed(),
            self.stage is Done,
        ensures
            r == self.results,
            r@.len() == self.num_addresses,
            forall|k: int| 0 <= k < r@.len() ==> (#[trigger] r@[k])@.len() == self.num_samples,
    {
        self.results
    }
}

/// The flags of a benchmark while it runs: its own, and those in memory that was
/// mapped for the run.
pub struct Memory {
    pub own: Seq<bool>,
    pub mapped: Option<Seq<bool>>,
}

/// Whether `post` is the memory after the two sides have set the flag of the address
/// `k` in `pre` so many times each, however they were interleaved.
pub open spec fn is_played(exchanges: nat, pre: Seq<bool>, k: int, post: Seq<bool>) -> bool {
    exists|attempts: Seq<Role>|
        {
            let e = #[trigger] exchanged_from(pre[k], attempts);
            &&& e.pings == exchanges
            &&& e.pongs == exchanges
            &&& post == pre.update(k, e.flag)
        }
}

/// Whether performing `step` on `n` addresses leads from the memory `pre` to `post`. An
/// address is measured on the flags that were mapped, where there are any.
pub open spec fn is_performed(
    n: nat,
    exchanges: nat,
    pre: Memory,
    step: Step,
    post: Memory,
) -> bool {
    match step {
        Step::MapFlags(_) => post == (Memory {
            mapped: Some(Seq::new(n, |k: int| PING)),
            ..pre
        }),
        Step::Measure(k) => match pre.mapped {
            Some(flags) => {
                &&& post.own == pre.own
                &&& post.mapped matches Some(after)
                &&& is_played(exchanges, flags, k as int, after)
            },
            None => {
                &&& post.mapped is None
                &&& is_played(exchanges, pre.own, k as int, post.own)
            },
        },
        Step::Reset(k) => post == (Memory { own: pre.own.update(k as int, PING), ..pre }),
        Step::Pin(_) | Step::Finish => post == pre,
    }
}

/// Whether `memory` is what a run goes through that performs `plan`.
pub open spec fn is_performance(
    n: nat,
    exchanges: nat,
    plan: Seq<Step>,
    memory: Seq<Memory>,
) -> bool {
    &&& memory.len() == plan.len() + 1
    &&& forall|s: int|
        0 <= s < plan.len() ==> #[trigger] is_performed(
            n,
            exchanges,
            memory[s],
            plan[s],
            memory[s + 1],
        )
}

/// Whether every flag says ping.
pub open spec fn all_ping(n: nat, m: Memory) -> bool {
    &&& m.own == Seq::new(n, |k: int| PING)
    &&& m.mapped matches Some(flags) ==> flags == Seq::new(n, |k: int| PING)
}

/// A run that starts with every flag at ping, as `Bench::new` makes them, has them
/// there before and after each of its steps, whatever the interleaving of the two
/// sides. So the benchmark is as it was, and can run again on any two cores.
pub proof fn lemma_run_leaves_ping(
    no_recycling: bool,
    ping: CoreId,
    n: nat,
    exchanges: nat,
    memory: Seq<Memory>,
)
    requires
        n <= usize::MAX,
        is_performance(n, exchanges, plan_of(no_recycling, ping, n as int), memory),
        memory[0] == (Memory { own: Seq::new(n, |k: int| PING), mapped: None }),
    ensures
        forall|s: int| 0 <= s < memory.len() ==> all_ping(n, #[trigger] memory[s]),
        memory.last().own == memory[0].own,
{
    let plan = plan_of(no_recycling, ping, n as int);
    lemma_addresses_within(0, n as int);
    assert forall|s: int| 0 <= s < plan.len() implies step_within(#[trigger] plan[s], n as int) by {
        let rest = addresses_from(0, n as int);
        if no_recycling && s >= 2 {
            assert(plan[s] == rest[s - 2]);
        } else if !no_recycling {
            assert(plan[s] == rest[s]);
        }
    }
    assert forall|s: int| 0 <= s < memory.len() implies all_ping(n, #[trigger] memory[s]) by {
        lemma_ping_until(n, exchanges, plan, memory, s);
    }
    assert(all_ping(n, memory[memory.len() - 1]));
}

/// Whether a step is of one of `n` addresses, or of none.
spec fn step_within(step: Step, n: int) -> bool {
    match step {
        Step::Measure(k) | Step::Reset(k) => k < n,
        _ => true,
    }
}

/// Each address that is measured or reset is one of `n`.
proof fn lemma_addresses_within(k: int, n: int)
    requires
        0 <= k,
        n <= usize::MAX,
    ensures
        forall|s: int|
            0 <= s < addresses_from(k, n).len() ==> step_within(
                #[trigger] addresses_from(k, n)[s],
                n,
            ),
    decreases n - k,
{
    if k < n {
        lemma_addresses_within(k + 1, n);
        let rest = addresses_from(k + 1, n);
        assert forall|s: int| 0 <= s < addresses_from(k, n).len() implies step_within(
            #[trigger] addresses_from(k, n)[s],
            n,
        ) by {
            if s >= 2 {
                assert(addresses_from(k, n)[s] == rest[s - 2]);
            }
        }
    }
}

/// Every flag says ping after the first `s` steps.
proof fn lemma_ping_until(
    n: nat,
    exchanges: nat,
    plan: Seq<Step>,
    memory: Seq<Memory>,
    s: int,
)
    requires
        0 <= s < memory.len(),
        is_performance(n, exchanges, plan, memory),
        forall|t: int| 0 <= t < plan.len() ==> step_within(#[trigger] plan[t], n as int),
        all_ping(n, memory[0]),
    ensures
        all_ping(n, memory[s]),
    decreases s,
{
    if s > 0 {
        lemma_ping_until(n, exchanges, plan, memory, s - 1);
        let pre = memory[s - 1];
        let post = memory[s];
        assert(is_performed(n, exchanges, memory[s - 1], plan[s - 1], memory[s - 1 + 1]));
        assert(step_within(plan[s - 1], n as int));
        match plan[s - 1] {
            Step::Measure(k) => match pre.mapped {
                Some(flags) => {
                    lemma_played(exchanges, flags, k as int, post.mapped->0);
                },
                None => {
                    lemma_played(exchanges, pre.own, k as int, post.own);
                },
            },
            Step::Reset(k) => {
                assert(post.own =~= pre.own);
            },
            _ => {},
        }
    }
}

/// Playing on a flag that says ping leaves the flags as they were.
proof fn lemma_played(exchanges: nat, pre: Seq<bool>, k: int, post: Seq<bool>)
    requires
        is_played(exchanges, pre, k, post),
        0 <= k < pre.len(),
        pre[k] == PING,
    ensures
        post == pre,
{
    let attempts = choose|attempts: Seq<Role>|
        {
            let e = #[trigger] exchanged_from(pre[k], attempts);
            &&& e.pings == exchanges
            &&& e.pongs == exchanges
            &&& post == pre.update(k, e.flag)
        };
    lemma_flag_restored(attempts);
    assert(post =~= pre);
}

/// How many steps come before the first address.
pub open spec fn steps_before(no_recycling: bool) -> int {
    if no_recycling {
        2
    } else {
        0
    }
}

/// The step `k` from the first address on: an address is measured, and then reset.
pub open spec fn step_at(k: int) -> Step {
    if k % 2 == 0 {
        Step::Measure((k / 2) as usize)
    } else {
        Step::Reset((k / 2) as usize)
    }
}

/// What a run does, from its start to its end. On memory of its own it first moves to the
/// ping core and maps a cache line of 64 bytes for each address. Then each address is
/// measured, in order, and its flag reset. Nothing else is done.
pub proof fn lemma_start_plan(
    bench: &Bench,
    no_recycling: bool,
    ping: CoreId,
    pong: CoreId,
    num_round_trips: Count,
    num_samples: Count,
    r: Run,
)
    requires
        call_ensures(
            Bench::start,
            (bench, no_recycling, ping, pong, num_round_trips, num_samples),
            r,
        ),
        no_recycling ==> 64 * bench.flags@.len() <= usize::MAX,
    ensures
        ({
            let n = bench.flags@.len() as int;
            let plan = r.plan();
            &&& plan.len() == steps_before(no_recycling) + 2 * n
            &&& no_recycling ==> plan[0] == Step::Pin(ping)
            &&& no_recycling ==> (plan[1] matches Step::MapFlags(size) && size == 64 * n)
            &&& forall|k: int|
                0 <= k < 2 * n ==> #[trigger] plan.skip(steps_before(no_recycling))[k] == step_at(k)
            &&& r.num_addresses == n
            &&& r.ping == ping
            &&& r.pong == pong
            &&& r.num_round_trips == num_round_trips
            &&& r.num_samples == num_samples
            &&& r.results@.len() == 0
        }),
{
    let n = bench.flags@.len() as int;
    lemma_addresses_from(0, n, 0);
    assert forall|k: int| 0 <= k < 2 * n implies #[trigger] r.plan().skip(
        steps_before(no_recycling),
    )[k] == step_at(k) by {
        lemma_addresses_from(0, n, k / 2);
    }
}

/// Pong sets the flag once for each round trip of each sample.
pub proof fn lemma_exchanges(run: &Run, r: Count)
    requires
        call_ensures(Run::exchanges, (run,), r),
    ensures
        r == run.num_round_trips * run.num_samples,
{
}

/// The next step is the first that is left to do.
pub proof fn lemma_next_step(run: &Run, r: Step)
    requires
        call_ensures(Run::step, (run,), r),
    ensures
        run.plan().len() > 0 ==> r == run.plan().first(),
        run.plan().len() == 0 ==> r == Step::Finish,
{
}

/// What was measured of an address adds one row of latencies: for each sample, in order,
/// that of its time over the round trips of the run. The rows of the addresses before stay
/// as they are.
pub proof fn lemma_measured_row<A: Arithmetic>(run: &mut Run, nanos: &[u128], arith: &A)
    requires
        call_ensures(Run::measured::<A>, (run, nanos, arith), ()),
        old(run).well_formed(),
        nanos@.len() == old(run).num_samples,
        old(run).stage is Measure,
    ensures
        final(run).results@.len() == old(run).results@.len() + 1,
        forall|k: int|
            0 <= k < old(run).results@.len() ==> #[trigger] final(run).results@[k]
                == old(run).results@[k],
        final(run).results@.last()@.len() == nanos@.len(),
        forall|s: int|
            0 <= s < nanos@.len() ==> call_ensures(
                latency::<A>,
                (nanos@[s], old(run).num_round_trips, arith),
                #[trigger] final(run).results@.last()@[s],
            ),
        final(run).plan() == old(run).plan().drop_first(),
{
    assert forall|k: int| 0 <= k < old(run).results@.len() implies #[trigger] final(run).results@[k]
        == old(run).results@[k] by {
        assert(final(run).results@.drop_last()[k] == old(run).results@[k]);
    }
}

/// A step that brings no results leaves those there are, and what is left to do is what
/// came behind it.
pub proof fn lemma_advanced(run: &mut Run)
    requires
        call_ensures(Run::advance, (run,), ()),
        old(run).well_formed(),
        old(run).stage is Pin || old(run).stage is MapFlags || old(run).stage is Reset,
    ensures
        final(run).results@ == old(run).results@,
        final(run).plan() == old(run).plan().drop_first(),
        final(run).num_round_trips == old(run).num_round_trips,
        final(run).num_samples == old(run).num_samples,
        final(run).num_addresses == old(run).num_addresses,
        final(run).ping == old(run).ping,
        final(run).pong == old(run).pong,
{
}

/// A run hands out the rows of all its addresses, as they were measured.
pub proof fn lemma_finish(run: Run, r: Vec<Vec<Double>>)
    requires
        call_ensures(Run::finish, (run,), r),
        run.well_formed(),
        run.stage is Done,
    ensures
        r@ == run.results@,
        r@.len() == run.num_addresses,
{
}

/// A new benchmark has a flag for each address, and pong is the first to set any of them.
pub proof fn lemma_new_flags(num_addresses: usize, r: Bench)
    requires
        call_ensures(Bench::new, (num_addresses,), r),
    ensures
        r.flags@.len() == num_addresses,
        forall|k: int|
            0 <= k < num_addresses ==> (#[trigger] r.flags@[k]) == Role::Pong.awaits()
                && r.flags@[k] != Role::Ping.awaits(),
{
}

} // verus!
