//! The relay benchmark: which transports are measured, and what is reported of
//! the round-trip times.

use vstd::prelude::*;
use vstd::string::*;

use crate::text;

verus! {

/// Measured round-trip times, in milliseconds, in the order they were taken.
#[derive(Debug)]
pub struct BenchStats {
    pub rtts: Vec<u64>,
}

/// The sum of the samples.
pub open spec fn total(rtts: Seq<u64>) -> nat
    decreases rtts.len(),
{
    if rtts.len() == 0 {
        0
    } else {
        total(rtts.drop_last()) + rtts.last() as nat
    }
}

/// The samples from the smallest to the largest.
pub open spec fn ascending(rtts: Seq<u64>) -> Seq<u64> {
    rtts.sort_by(|a: u64, b: u64| a <= b)
}

/// The place of the 95th percentile among `len` samples in ascending order.
pub open spec fn p95_rank(len: nat) -> nat {
    (len * 95) / 100
}

/// The smallest sample, or 0 if there is none.
pub open spec fn smallest(rtts: Seq<u64>) -> u64 {
    if rtts.len() == 0 {
        0
    } else {
        ascending(rtts).first()
    }
}

/// The largest sample, or 0 if there is none.
pub open spec fn largest(rtts: Seq<u64>) -> u64 {
    if rtts.len() == 0 {
        0
    } else {
        ascending(rtts).last()
    }
}

/// The mean of the samples, rounded down, or 0 if there is none.
pub open spec fn mean(rtts: Seq<u64>) -> nat {
    if rtts.len() == 0 {
        0
    } else {
        total(rtts) / rtts.len()
    }
}

/// The 95th percentile of the samples, or 0 if there is none.
pub open spec fn percentile95(rtts: Seq<u64>) -> u64 {
    if rtts.len() == 0 {
        0
    } else {
        ascending(rtts)[p95_rank(rtts.len()) as int]
    }
}

/// Sorts `values` with the standard library's `sort_unstable`: into ascending
/// order, with nothing lost and nothing added.
#[verifier::external_body]
fn sort_ascending(values: &mut Vec<u64>)
    ensures
        final(values)@.to_multiset() == old(values)@.to_multiset(),
        forall|i: int, j: int|
            0 <= i <= j < final(values)@.len() ==> final(values)@[i] <= final(values)@[j],
{
    values.sort_unstable()
}

impl Default for BenchStats {
    /// No samples yet.
    fn default() -> (stats: BenchStats)
        ensures
            stats.rtts@.len() == 0,
    {
        BenchStats { rtts: Vec::new() }
    }
}

impl BenchStats {
    /// The smallest sample, or 0 if there is none.
    pub fn min(&self) -> (min: u64)
        ensures
            min == smallest(self.rtts@),
            self.rtts@.len() == 0 ==> min == 0,
            self.rtts@.len() > 0 ==> self.rtts@.contains(min),
            forall|i: int| 0 <= i < self.rtts@.len() ==> min <= #[trigger] self.rtts@[i],
    {
        if self.rtts.len() == 0 {
            return 0;
        }
        let mut min: u64 = self.rtts[0];
        let mut i: usize = 1;
        while i < self.rtts.len()
            invariant
                1 <= i <= self.rtts@.len(),
                self.rtts@.contains(min),
                forall|j: int| 0 <= j < i ==> min <= #[trigger] self.rtts@[j],
            decreases self.rtts@.len() - i,
        {
            if self.rtts[i] < min {
                min = self.rtts[i];
            }
            i = i + 1;
        }
        proof {
            lemma_extremes(self.rtts@);
        }
        min
    }

    /// The largest sample, or 0 if there is none.
    pub fn max(&self) -> (max: u64)
        ensures
            max == largest(self.rtts@),
            self.rtts@.len() == 0 ==> max == 0,
            self.rtts@.len() > 0 ==> self.rtts@.contains(max),
            forall|i: int| 0 <= i < self.rtts@.len() ==> #[trigger] self.rtts@[i] <= max,
    {
        if self.rtts.len() == 0 {
            return 0;
        }
        let mut max: u64 = self.rtts[0];
        let mut i: usize = 1;
        while i < self.rtts.len()
            invariant
                1 <= i <= self.rtts@.len(),
                self.rtts@.contains(max),
                forall|j: int| 0 <= j < i ==> #[trigger] self.rtts@[j] <= max,
            decreases self.rtts@.len() - i,
        {
            if self.rtts[i] > max {
                max = self.rtts[i];
            }
            i = i + 1;
        }
        proof {
            lemma_extremes(self.rtts@);
        }
        max
    }

    /// The mean of the samples, rounded down, or 0 if there is none. Their sum
    /// has to fit in 64 bits.
    pub fn avg(&self) -> (avg: u64)
        requires
            total(self.rtts@) <= u64::MAX,
        ensures
            avg == mean(self.rtts@),
            self.rtts@.len() == 0 ==> avg == 0,
            self.rtts@.len() > 0 ==> {
                let sum = self.rtts@.fold_left(0int, |sum: int, rtt: u64| sum + rtt);
                avg * self.rtts@.len() <= sum < (avg + 1) * self.rtts@.len()
            },
    {
        proof {
            mean_shares_out_the_sum(self.rtts@);
        }
        if self.rtts.len() == 0 {
            return 0;
        }
        let mut sum: u64 = 0;
        let mut i: usize = 0;
        assert(self.rtts@.take(self.rtts@.len() as int) =~= self.rtts@);
        while i < self.rtts.len()
            invariant
                i <= self.rtts@.len(),
                sum == total(self.rtts@.take(i as int)),
                total(self.rtts@) <= u64::MAX,
            decreases self.rtts@.len() - i,
        {
            proof {
                lemma_total_grows(self.rtts@, i + 1);
                assert(self.rtts@.take(i + 1).drop_last() =~= self.rtts@.take(i as int));
            }
            sum = sum + self.rtts[i];
            i = i + 1;
        }
        sum / self.rtts.len() as u64
    }

    /// The 95th percentile: of the samples in ascending order, the one behind
    /// 95 percent of them, rounded down. 0 if there is none.
    pub fn p95(&self) -> (p95: u64)
        ensures
            p95 == percentile95(self.rtts@),
            self.rtts@.len() == 0 ==> p95 == 0,
            self.rtts@.len() > 0 ==> {
                &&& self.rtts@.contains(p95)
                &&& 100 * how_many(self.rtts@, |rtt: u64| rtt < p95) <= 95 * self.rtts@.len()
                &&& 95 * self.rtts@.len() < 100 * how_many(self.rtts@, |rtt: u64| rtt <= p95)
            },
    {
        proof {
            if self.rtts@.len() > 0 {
                p95_is_a_sample(self.rtts@);
                p95_splits_the_samples(self.rtts@);
            }
        }
        if self.rtts.len() == 0 {
            return 0;
        }
        let mut s: Vec<u64> = self.rtts.clone();
        sort_ascending(&mut s);
        proof {
            lemma_ascending(self.rtts@, s@);
        }
        let len: usize = s.len();
        // The top twentieth, rounded up, lies behind the rank.
        let above: usize = len / 20 + (if len % 20 == 0 {
            0
        } else {
            1
        });
        s[len - above]
    }
}

/// A prefix of the samples sums up to no more than all of them.
proof fn lemma_total_grows(rtts: Seq<u64>, n: int)
    requires
        0 <= n <= rtts.len(),
    ensures
        total(rtts.take(n)) <= total(rtts),
    decreases rtts.len() - n,
{
    if n < rtts.len() {
        lemma_total_grows(rtts, n + 1);
        assert(rtts.take(n + 1).drop_last() =~= rtts.take(n));
    } else {
        assert(rtts.take(n) =~= rtts);
    }
}

/// The samples in ascending order are the same samples, in ascending order.
proof fn lemma_sorted(rtts: Seq<u64>)
    ensures
        ascending(rtts).to_multiset() == rtts.to_multiset(),
        ascending(rtts).len() == rtts.len(),
        vstd::relations::sorted_by(ascending(rtts), |a: u64, b: u64| a <= b),
        forall|i: int, j: int|
            0 <= i <= j < rtts.len() ==> ascending(rtts)[i] <= ascending(rtts)[j],
        forall|rtt: u64| ascending(rtts).contains(rtt) <==> rtts.contains(rtt),
{
    broadcast use vstd::seq_lib::group_to_multiset_ensures;

    let leq = |a: u64, b: u64| a <= b;
    let sorted = ascending(rtts);
    rtts.lemma_sort_by_ensures(leq);
    rtts.to_multiset_ensures();
    sorted.to_multiset_ensures();
    assert forall|i: int, j: int| 0 <= i <= j < rtts.len() implies sorted[i] <= sorted[j] by {
        assert(i < j ==> leq(sorted[i], sorted[j]));
    }
    assert forall|rtt: u64| sorted.contains(rtt) <==> rtts.contains(rtt) by {
        assert(sorted.to_multiset().count(rtt) == rtts.to_multiset().count(rtt));
    }
}

/// There is only one ascending order.
proof fn lemma_ascending(rtts: Seq<u64>, sorted: Seq<u64>)
    requires
        sorted.to_multiset() == rtts.to_multiset(),
        forall|i: int, j: int| 0 <= i <= j < sorted.len() ==> sorted[i] <= sorted[j],
    ensures
        sorted == ascending(rtts),
        sorted.len() == rtts.len(),
{
    lemma_sorted(rtts);
    let leq = |a: u64, b: u64| a <= b;
    vstd::seq_lib::lemma_sorted_unique(sorted, ascending(rtts), leq);
}

/// The first and the last sample in ascending order bound all of them.
proof fn lemma_extremes(rtts: Seq<u64>)
    requires
        rtts.len() > 0,
    ensures
        rtts.contains(smallest(rtts)),
        rtts.contains(largest(rtts)),
        forall|i: int|
            0 <= i < rtts.len() ==> smallest(rtts) <= #[trigger] rtts[i] <= largest(rtts),
{
    lemma_sorted(rtts);
    let sorted = ascending(rtts);
    assert(sorted.contains(sorted.first()) && sorted.contains(sorted.last()));
    assert forall|i: int| 0 <= i < rtts.len() implies sorted.first() <= #[trigger] rtts[i]
        <= sorted.last() by {
        assert(rtts.contains(rtts[i]));
        assert(sorted.contains(rtts[i]));
        let j = choose|j: int| 0 <= j < sorted.len() && sorted[j] == rtts[i];
        assert(sorted[0] <= sorted[j] && sorted[j] <= sorted[sorted.len() - 1]);
    }
}

/// The 95th percentile is one of the samples, and there is always one at its
/// rank. It lies between the smallest and the largest sample.
pub proof fn p95_is_a_sample(rtts: Seq<u64>)
    requires
        rtts.len() > 0,
    ensures
        p95_rank(rtts.len()) < ascending(rtts).len() == rtts.len(),
        rtts.contains(percentile95(rtts)),
        smallest(rtts) <= percentile95(rtts) <= largest(rtts),
{
    lemma_extremes(rtts);
    lemma_sorted(rtts);
    assert(ascending(rtts).contains(ascending(rtts)[p95_rank(rtts.len()) as int]));
}

/// The mean lies between the smallest and the largest sample.
pub proof fn mean_lies_between(rtts: Seq<u64>)
    ensures
        smallest(rtts) <= mean(rtts) <= largest(rtts),
{
    if rtts.len() > 0 {
        lemma_extremes(rtts);
        lemma_mean_between(rtts, smallest(rtts), largest(rtts));
    }
}

/// The mean of samples that keep two bounds.
proof fn lemma_mean_between(rtts: Seq<u64>, low: u64, high: u64)
    requires
        rtts.len() > 0,
        forall|i: int| 0 <= i < rtts.len() ==> low <= #[trigger] rtts[i] <= high,
    ensures
        low <= mean(rtts) <= high,
{
    lemma_total_between(rtts, low, high);
    let n = rtts.len() as int;
    let sum = total(rtts) as int;
    assert(low <= sum / n <= high) by (nonlinear_arith)
        requires
            n > 0,
            low * n <= sum <= high * n,
    ;
}

/// The sum of samples that keep two bounds.
proof fn lemma_total_between(rtts: Seq<u64>, low: u64, high: u64)
    requires
        forall|i: int| 0 <= i < rtts.len() ==> low <= #[trigger] rtts[i] <= high,
    ensures
        low * rtts.len() <= total(rtts) <= high * rtts.len(),
    decreases rtts.len(),
{
    if rtts.len() > 0 {
        let fewer = rtts.drop_last();
        assert forall|i: int| 0 <= i < fewer.len() implies low <= #[trigger] fewer[i] <= high by {
            assert(fewer[i] == rtts[i]);
        }
        lemma_total_between(fewer, low, high);
        let n = fewer.len() as int;
        assert(low * (n + 1) == low * n + low && high * (n + 1) == high * n + high)
            by (nonlinear_arith);
    }
}

/// Taking one sample out takes it off the sum.
proof fn lemma_total_remove(rtts: Seq<u64>, at: int)
    requires
        0 <= at < rtts.len(),
    ensures
        total(rtts) == total(rtts.remove(at)) + rtts[at],
    decreases rtts.len(),
{
    if at < rtts.len() - 1 {
        lemma_total_remove(rtts.drop_last(), at);
        assert(rtts.remove(at).drop_last() =~= rtts.drop_last().remove(at));
    } else {
        assert(rtts.remove(at) =~= rtts.drop_last());
    }
}

/// The order in which the samples were taken does not matter: the same samples
/// in another order have the same statistics.
pub proof fn order_does_not_matter(rtts: Seq<u64>, shuffled: Seq<u64>)
    requires
        rtts.to_multiset() == shuffled.to_multiset(),
    ensures
        rtts.len() == shuffled.len(),
        total(rtts) == total(shuffled),
        smallest(rtts) == smallest(shuffled),
        largest(rtts) == largest(shuffled),
        mean(rtts) == mean(shuffled),
        percentile95(rtts) == percentile95(shuffled),
    decreases rtts.len(),
{
    broadcast use vstd::seq_lib::group_to_multiset_ensures;

    lemma_sorted(rtts);
    lemma_sorted(shuffled);
    lemma_ascending(shuffled, ascending(rtts));
    if rtts.len() > 0 {
        let last = rtts.last();
        assert(rtts.to_multiset().count(last) > 0);
        assert(shuffled.contains(last));
        let at = choose|at: int| 0 <= at < shuffled.len() && shuffled[at] == last;
        assert(rtts.drop_last() =~= rtts.remove(rtts.len() - 1));
        assert(rtts.drop_last().to_multiset() =~= shuffled.remove(at).to_multiset());
        order_does_not_matter(rtts.drop_last(), shuffled.remove(at));
        lemma_total_remove(shuffled, at);
    }
}

/// The report on the samples under `label`.
pub open spec fn report(label: Seq<char>, rtts: Seq<u64>) -> Seq<char> {
    "\n--- "@ + label + " ("@ + text::decimal(rtts.len()) + " pings) ---\nmin="@ + text::decimal(
        smallest(rtts) as nat,
    ) + "ms  avg="@ + text::decimal(mean(rtts)) + "ms  p95="@ + text::decimal(
        percentile95(rtts) as nat,
    ) + "ms  max="@ + text::decimal(largest(rtts) as nat) + "ms"@
}

/// The report on no samples under `label`.
pub open spec fn empty_report(label: Seq<char>) -> Seq<char> {
    "\n--- "@ + label + " stats: no samples ---"@
}

/// Reports the statistics under `label`. The sum of the samples has to fit in
/// 64 bits.
pub fn stats_report(label: &str, stats: &BenchStats) -> (lines: String)
    requires
        total(stats.rtts@) <= u64::MAX,
    ensures
        stats.rtts@.len() == 0 ==> lines@ == empty_report(label@),
        stats.rtts@.len() > 0 ==> lines@ == report(label@, stats.rtts@),
        stats.rtts@.len() == 0 ==> lines@ == "\n--- "@ + label@ + " stats: no samples ---"@,
        stats.rtts@.len() > 0 ==> lines@ == "\n--- "@ + label@ + " ("@ + text::decimal(
            stats.rtts@.len(),
        ) + " pings) ---\nmin="@ + text::decimal(smallest(stats.rtts@) as nat) + "ms  avg="@
            + text::decimal(mean(stats.rtts@)) + "ms  p95="@ + text::decimal(
            percentile95(stats.rtts@) as nat,
        ) + "ms  max="@ + text::decimal(largest(stats.rtts@) as nat) + "ms"@,
{
    let mut lines = "\n--- ".to_owned();
    lines.append(label);
    if stats.rtts.len() == 0 {
        lines.append(" stats: no samples ---");
        return lines;
    }
    lines.append(" (");
    lines.append(text::decimal_text(stats.rtts.len() as u64).as_str());
    lines.append(" pings) ---\nmin=");
    lines.append(text::decimal_text(stats.min()).as_str());
    lines.append("ms  avg=");
    lines.append(text::decimal_text(stats.avg()).as_str());
    lines.append("ms  p95=");
    lines.append(text::decimal_text(stats.p95()).as_str());
    lines.append("ms  max=");
    lines.append(text::decimal_text(stats.max()).as_str());
    lines.append("ms");
    lines
}

/// The heading of the table of samples.
pub fn table_heading() -> (line: String)
    ensures
        line@ == text::at_left("seq"@, 6) + " "@ + text::at_right("rtt"@, 10) + "  transport"@,
{
    let mut line = text::left_aligned("seq", 6);
    line.append(" ");
    line.append(text::right_aligned("rtt", 10).as_str());
    line.append("  transport");
    line
}

/// One sample as a line of the table.
pub fn sample_line(seq: u32, rtt: u64, label: &str) -> (line: String)
    ensures
        line@ == text::at_left(text::decimal(seq as nat), 6) + " "@ + text::at_right(
            text::decimal(rtt as nat),
            8,
        ) + "ms  "@ + label@,
{
    let mut line = text::left_aligned(text::decimal_text(seq as u64).as_str(), 6);
    line.append(" ");
    line.append(text::right_aligned(text::decimal_text(rtt).as_str(), 8).as_str());
    line.append("ms  ");
    line.append(label);
    line
}

/// The host and port that the address of a QUIC relay is looked up under.
pub fn lookup_target(host: &str, port: u16) -> (target: String)
    ensures
        target@ == host@ + ":"@ + text::decimal(port as nat),
{
    let mut target = host.to_owned();
    target.append(":");
    target.append(text::decimal_text(port as u64).as_str());
    target
}

/// How the benchmark reaches the relay.
#[derive(Debug, Clone, Copy, PartialEq, Eq, Structural)]
pub enum Transport {
    /// WebSocket over TLS over TCP.
    WebSocket,
    /// QUIC.
    Quic,
}

/// The transports to benchmark, in this order: WebSocket, then QUIC, each if it
/// was asked for.
pub fn benchmark_plan(ws: bool, quic: bool) -> (plan: Vec<Transport>)
    ensures
        plan@ == (if ws {
            seq![Transport::WebSocket]
        } else {
            Seq::empty()
        }) + (if quic {
            seq![Transport::Quic]
        } else {
            Seq::empty()
        }),
{
    let mut plan: Vec<Transport> = Vec::new();
    if ws {
        plan.push(Transport::WebSocket);
    }
    if quic {
        plan.push(Transport::Quic);
    }
    plan
}

/// How many of the samples `counts` holds of.
pub open spec fn how_many(rtts: Seq<u64>, counts: spec_fn(u64) -> bool) -> nat
    decreases rtts.len(),
{
    if rtts.len() == 0 {
        0
    } else {
        how_many(rtts.drop_last(), counts) + (if counts(rtts.last()) {
            1nat
        } else {
            0
        })
    }
}

/// The sum of the samples is their sum: nothing for no samples, one sample for
/// itself, and two series for the sum of both.
pub proof fn total_adds_up(a: Seq<u64>, b: Seq<u64>, rtt: u64)
    ensures
        total(Seq::empty()) == 0,
        total(seq![rtt]) == rtt,
        total(a + b) == total(a) + total(b),
    decreases b.len(),
{
    reveal_with_fuel(total, 2);
    assert(seq![rtt].drop_last() =~= Seq::empty());
    if b.len() == 0 {
        assert(a + b =~= a);
    } else {
        total_adds_up(a, b.drop_last(), rtt);
        assert((a + b).drop_last() =~= a + b.drop_last());
    }
}

/// The sum of the samples is what adding them one after the other gives.
pub proof fn total_is_the_sum(rtts: Seq<u64>)
    ensures
        total(rtts) == rtts.fold_left(0int, |sum: int, rtt: u64| sum + rtt),
    decreases rtts.len(),
{
    reveal_with_fuel(Seq::fold_left, 2);
    if rtts.len() > 0 {
        total_is_the_sum(rtts.drop_last());
    }
}

/// The mean is the largest whole number that every sample could be replaced by
/// without exceeding their sum.
pub proof fn mean_shares_out_the_sum(rtts: Seq<u64>)
    ensures
        rtts.len() == 0 ==> mean(rtts) == 0,
        rtts.len() > 0 ==> {
            let sum = rtts.fold_left(0int, |sum: int, rtt: u64| sum + rtt);
            mean(rtts) * rtts.len() <= sum < (mean(rtts) + 1) * rtts.len()
        },
{
    total_is_the_sum(rtts);
    if rtts.len() > 0 {
        let sum = total(rtts) as int;
        let n = rtts.len() as int;
        let q = sum / n;
        assert(q * n <= sum < (q + 1) * n) by (nonlinear_arith)
            requires
                n > 0,
                q == sum / n,
        ;
    }
}

/// The smallest and the largest sample are samples, and bound all of them.
pub proof fn extremes_bound_the_samples(rtts: Seq<u64>)
    ensures
        rtts.len() == 0 ==> smallest(rtts) == 0 && largest(rtts) == 0,
        rtts.len() > 0 ==> rtts.contains(smallest(rtts)) && rtts.contains(largest(rtts)),
        forall|i: int|
            0 <= i < rtts.len() ==> smallest(rtts) <= #[trigger] rtts[i] <= largest(rtts),
{
    if rtts.len() > 0 {
        lemma_extremes(rtts);
    }
}

/// Taking one sample out takes it off the count.
proof fn lemma_how_many_remove(rtts: Seq<u64>, counts: spec_fn(u64) -> bool, at: int)
    requires
        0 <= at < rtts.len(),
    ensures
        how_many(rtts, counts) == how_many(rtts.remove(at), counts) + (if counts(rtts[at]) {
            1nat
        } else {
            0
        }),
    decreases rtts.len(),
{
    if at < rtts.len() - 1 {
        lemma_how_many_remove(rtts.drop_last(), counts, at);
        assert(rtts.remove(at).drop_last() =~= rtts.drop_last().remove(at));
        assert(rtts.remove(at).last() == rtts.last());
    } else {
        assert(rtts.remove(at) =~= rtts.drop_last());
    }
}

/// The same samples in another order count the same.
proof fn lemma_how_many_shuffled(
    rtts: Seq<u64>,
    shuffled: Seq<u64>,
    counts: spec_fn(u64) -> bool,
)
    requires
        rtts.to_multiset() == shuffled.to_multiset(),
    ensures
        how_many(rtts, counts) == how_many(shuffled, counts),
    decreases rtts.len(),
{
    broadcast use vstd::seq_lib::group_to_multiset_ensures;

    rtts.to_multiset_ensures();
    shuffled.to_multiset_ensures();
    if rtts.len() > 0 {
        let last = rtts.last();
        assert(rtts.to_multiset().count(last) > 0);
        assert(shuffled.contains(last));
        let at = choose|at: int| 0 <= at < shuffled.len() && shuffled[at] == last;
        assert(rtts.drop_last() =~= rtts.remove(rtts.len() - 1));
        assert(rtts.drop_last().to_multiset() =~= shuffled.remove(at).to_multiset());
        lemma_how_many_shuffled(rtts.drop_last(), shuffled.remove(at), counts);
        lemma_how_many_remove(shuffled, counts, at);
    }
}

/// At most `n` samples count if none behind the first `n` does, and at least `n`
/// count if all of the first `n` do.
proof fn lemma_how_many_first(rtts: Seq<u64>, counts: spec_fn(u64) -> bool, n: int)
    requires
        0 <= n <= rtts.len(),
    ensures
        (forall|i: int| n <= i < rtts.len() ==> !counts(#[trigger] rtts[i])) ==> how_many(
            rtts,
            counts,
        ) <= n,
        (forall|i: int| 0 <= i < n ==> counts(#[trigger] rtts[i])) ==> how_many(rtts, counts) >= n,
    decreases rtts.len(),
{
    if rtts.len() > 0 {
        let fewer = rtts.drop_last();
        let m = if n < rtts.len() {
            n
        } else {
            n - 1
        };
        lemma_how_many_first(fewer, counts, m);
        if forall|i: int| n <= i < rtts.len() ==> !counts(#[trigger] rtts[i]) {
            assert forall|i: int| m <= i < fewer.len() implies !counts(#[trigger] fewer[i]) by {
                assert(fewer[i] == rtts[i]);
            }
            if n < rtts.len() {
                assert(!counts(rtts[rtts.len() - 1]));
            }
        }
        if forall|i: int| 0 <= i < n ==> counts(#[trigger] rtts[i]) {
            assert forall|i: int| 0 <= i < m implies counts(#[trigger] fewer[i]) by {
                assert(fewer[i] == rtts[i]);
            }
            if n == rtts.len() {
                assert(counts(rtts[n - 1]));
            }
        }
    }
}

/// Of the samples, at most 95 percent are below the 95th percentile, and more
/// than 95 percent are not above it.
pub proof fn p95_splits_the_samples(rtts: Seq<u64>)
    requires
        rtts.len() > 0,
    ensures
        100 * how_many(rtts, |rtt: u64| rtt < percentile95(rtts)) <= 95 * rtts.len(),
        95 * rtts.len() < 100 * how_many(rtts, |rtt: u64| rtt <= percentile95(rtts)),
{
    let p95 = percentile95(rtts);
    let below = |rtt: u64| rtt < p95;
    let within = |rtt: u64| rtt <= p95;
    let sorted = ascending(rtts);
    let rank = p95_rank(rtts.len()) as int;
    lemma_sorted(rtts);
    assert(sorted[rank] == p95);
    lemma_how_many_shuffled(rtts, sorted, below);
    lemma_how_many_shuffled(rtts, sorted, within);
    assert forall|i: int| rank <= i < sorted.len() implies !below(#[trigger] sorted[i]) by {
        assert(sorted[rank] <= sorted[i]);
    }
    assert forall|i: int| 0 <= i < rank + 1 implies within(#[trigger] sorted[i]) by {
        assert(sorted[i] <= sorted[rank]);
    }
    lemma_how_many_first(sorted, below, rank);
    lemma_how_many_first(sorted, within, rank + 1);
}

/// The report names the label, the number of samples, and then the smallest, the
/// mean, the 95th percentile and the largest of them, each in milliseconds. On
/// no samples it says so.
pub proof fn report_reads(label: Seq<char>, rtts: Seq<u64>)
    ensures
        empty_report(label) == "\n--- "@ + label + " stats: no samples ---"@,
        report(label, rtts) == "\n--- "@ + label + " ("@ + text::decimal(rtts.len())
            + " pings) ---\nmin="@ + text::decimal(smallest(rtts) as nat) + "ms  avg="@
            + text::decimal(mean(rtts)) + "ms  p95="@ + text::decimal(percentile95(rtts) as nat)
            + "ms  max="@ + text::decimal(largest(rtts) as nat) + "ms"@,
{
}

} // verus!
