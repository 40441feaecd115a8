use vstd::prelude::*;

use crate::geom::Direction;
use crate::ids::NodeId;

verus! {

/// How a resize request is spread over the eligible ancestor splits.
#[derive(Debug, Clone, Copy, PartialEq, Eq, Structural)]
pub enum ResizeStrategy {
    Local,
    AncestorChain,
    DistributedBySlack,
}

/// An ancestor split whose shared edge is the focus edge being moved, with the
/// range `[lo, hi]` of leading extents its children's limits allow.
#[derive(Debug, Clone, Copy, PartialEq, Eq, Structural)]
pub struct EligibleSplit {
    pub split: NodeId,
    pub total: u32,
    pub current_a: u32,
    pub lo: u32,
    pub hi: u32,
}

/// `a - b`, or zero when `b > a`.
pub open spec fn sat_sub(a: u32, b: u32) -> u32 {
    if b <= a {
        (a - b) as u32
    } else {
        0
    }
}

/// Smaller of two numbers.
pub open spec fn min_u32(a: u32, b: u32) -> u32 {
    if a <= b {
        a
    } else {
        b
    }
}

impl EligibleSplit {
    /// Room to move the split edge: towards `hi` for a positive sign, towards
    /// `lo` otherwise; zero when the range is empty.
    pub open spec fn spec_slack(self, sign: i8) -> u32 {
        if self.lo > self.hi {
            0
        } else if sign > 0 {
            sat_sub(self.hi, self.current_a)
        } else {
            sat_sub(self.current_a, self.lo)
        }
    }

    pub fn slack(self, sign: i8) -> (r: u32)
        ensures
            r == self.spec_slack(sign),
    {
        if self.lo > self.hi {
            return 0;
        }
        if sign > 0 {
            if self.current_a <= self.hi {
                self.hi - self.current_a
            } else {
                0
            }
        } else {
            if self.lo <= self.current_a {
                self.current_a - self.lo
            } else {
                0
            }
        }
    }
}

/// Sign of the change of the leading extent: growing right/down or shrinking
/// left/up moves the shared edge forward.
pub open spec fn spec_resize_sign(dir: Direction, outward: bool) -> i8 {
    match (dir, outward) {
        (Direction::Right, true) | (Direction::Down, true) | (Direction::Left, false) | (
            Direction::Up,
            false,
        ) => 1i8,
        _ => -1i8,
    }
}

pub fn resize_sign(dir: Direction, outward: bool) -> (r: i8)
    ensures
        r == spec_resize_sign(dir, outward),
        r == 1 || r == -1,
{
    match (dir, outward) {
        (Direction::Right, true) | (Direction::Down, true) | (Direction::Left, false) | (
            Direction::Up,
            false,
        ) => 1,
        _ => -1,
    }
}

/// Greedy allocation nearest-first: each split takes as much of the remaining
/// amount as its slack allows; splits that take nothing are left out.
pub open spec fn chain_alloc(es: Seq<EligibleSplit>, sign: i8, i: int, remaining: u32) -> Seq<
    (NodeId, u32),
>
    decreases es.len() - i,
{
    if i < 0 || i >= es.len() || remaining == 0 {
        Seq::empty()
    } else {
        let d = min_u32(remaining, es[i].spec_slack(sign));
        if d != 0 {
            seq![(es[i].split, d)] + chain_alloc(es, sign, i + 1, (remaining - d) as u32)
        } else {
            chain_alloc(es, sign, i + 1, remaining)
        }
    }
}

/// Sum of the slacks of the first `n` entries.
pub open spec fn total_slack(es: Seq<EligibleSplit>, sign: i8, n: int) -> nat
    decreases n,
{
    if n <= 0 {
        0
    } else {
        total_slack(es, sign, n - 1) + es[n - 1].spec_slack(sign) as nat
    }
}

/// The floor share of entry `i` when `request` is spread in proportion to slack.
pub open spec fn base_share(es: Seq<EligibleSplit>, sign: i8, request: nat, i: int) -> nat {
    (request * (es[i].spec_slack(sign) as nat)) / total_slack(es, sign, es.len() as int)
}

/// The remainder left by entry `i`'s floor share.
pub open spec fn share_remainder(es: Seq<EligibleSplit>, sign: i8, request: nat, i: int) -> nat {
    (request * (es[i].spec_slack(sign) as nat)) % total_slack(es, sign, es.len() as int)
}

/// Sum of the floor shares of the first `n` entries.
pub open spec fn assigned_shares(es: Seq<EligibleSplit>, sign: i8, request: nat, n: int) -> nat
    decreases n,
{
    if n <= 0 {
        0
    } else {
        assigned_shares(es, sign, request, n - 1) + base_share(es, sign, request, n - 1)
    }
}

/// Entry `j` comes before entry `i` when handing out leftover units: larger
/// remainder first, ties by position.
pub open spec fn leftover_before(es: Seq<EligibleSplit>, sign: i8, request: nat, j: int, i: int) -> bool {
    let rj = share_remainder(es, sign, request, j);
    let ri = share_remainder(es, sign, request, i);
    rj > ri || (rj == ri && j < i)
}

/// Entry `j` can still take a leftover unit.
pub open spec fn has_room(es: Seq<EligibleSplit>, sign: i8, request: nat, j: int) -> bool {
    base_share(es, sign, request, j) < es[j].spec_slack(sign)
}

/// Number of entries among the first `n` that come before `i` and have room.
pub open spec fn count_before(es: Seq<EligibleSplit>, sign: i8, request: nat, i: int, n: int) -> nat
    decreases n,
{
    if n <= 0 {
        0
    } else {
        count_before(es, sign, request, i, n - 1) + if leftover_before(es, sign, request, n - 1, i)
            && has_room(es, sign, request, n - 1) {
            1nat
        } else {
            0nat
        }
    }
}

/// The request actually spread: the amount capped at the total slack.
pub open spec fn capped_request(es: Seq<EligibleSplit>, sign: i8, amount: u32) -> nat {
    let t = total_slack(es, sign, es.len() as int);
    if amount <= t {
        amount as nat
    } else {
        t
    }
}

/// Share of entry `i` under proportional allocation: its floor share, plus one
/// unit if it has room and fewer than the leftover units went to entries
/// before it.
pub open spec fn proportional_share(es: Seq<EligibleSplit>, sign: i8, amount: u32, i: int) -> nat {
    let request = capped_request(es, sign, amount);
    let leftover = request - assigned_shares(es, sign, request, es.len() as int);
    let base = base_share(es, sign, request, i);
    if has_room(es, sign, request, i) && count_before(es, sign, request, i, es.len() as int)
        < leftover {
        base + 1
    } else {
        base
    }
}

/// Keeps the pairs whose amount is non-zero, in order.
pub open spec fn keep_nonzero(s: Seq<(NodeId, u32)>) -> Seq<(NodeId, u32)>
    decreases s.len(),
{
    if s.len() == 0 {
        s
    } else {
        let rest = keep_nonzero(s.drop_last());
        if s.last().1 != 0 {
            rest.push(s.last())
        } else {
            rest
        }
    }
}

/// Proportional allocation over all entries, in input order, without zero shares.
pub open spec fn proportional_alloc(es: Seq<EligibleSplit>, sign: i8, amount: u32) -> Seq<
    (NodeId, u32),
> {
    if total_slack(es, sign, es.len() as int) == 0 {
        Seq::empty()
    } else {
        keep_nonzero(
            Seq::new(
                es.len(),
                |i: int| (es[i].split, proportional_share(es, sign, amount, i) as u32),
            ),
        )
    }
}

/// What `distribute_resize` hands out for each strategy.
pub open spec fn spec_distribute(amount: u32, strategy: ResizeStrategy, sign: i8, es: Seq<
    EligibleSplit,
>) -> Seq<(NodeId, u32)> {
    match strategy {
        ResizeStrategy::Local => if es.len() == 0 {
            Seq::empty()
        } else {
            seq![(es[0].split, min_u32(amount, es[0].spec_slack(sign)))]
        },
        ResizeStrategy::AncestorChain => chain_alloc(es, sign, 0, amount),
        ResizeStrategy::DistributedBySlack => proportional_alloc(es, sign, amount),
    }
}

/// Every allocation names the split of an eligible entry and moves it by at
/// most that entry's slack.
pub open spec fn alloc_within(es: Seq<EligibleSplit>, sign: i8, allocs: Seq<(NodeId, u32)>) -> bool {
    forall|i: int|
        #![trigger allocs[i]]
        0 <= i < allocs.len() ==> exists|j: int|
            #![trigger es[j]]
            0 <= j < es.len() && es[j].split == allocs[i].0 && allocs[i].1 <= es[j].spec_slack(sign)
}

proof fn lemma_chain_within(es: Seq<EligibleSplit>, sign: i8, i: int, remaining: u32)
    ensures
        alloc_within(es, sign, chain_alloc(es, sign, i, remaining)),
    decreases es.len() - i,
{
    if !(i < 0 || i >= es.len() || remaining == 0) {
        let d = min_u32(remaining, es[i].spec_slack(sign));
        if d != 0 {
            lemma_chain_within(es, sign, i + 1, (remaining - d) as u32);
            let rest = chain_alloc(es, sign, i + 1, (remaining - d) as u32);
            let all = seq![(es[i].split, d)] + rest;
            assert forall|k: int| #![trigger all[k]] 0 <= k < all.len() implies exists|j: int|
                #![trigger es[j]]
                0 <= j < es.len() && es[j].split == all[k].0 && all[k].1 <= es[j].spec_slack(sign) by {
                if k == 0 {
                    assert(es[i].split == all[k].0);
                } else {
                    assert(all[k] == rest[k - 1]);
                }
            }
        } else {
            lemma_chain_within(es, sign, i + 1, remaining);
        }
    }
}

proof fn lemma_keep_nonzero_sub(s: Seq<(NodeId, u32)>)
    ensures
        forall|k: int|
            #![trigger keep_nonzero(s)[k]]
            0 <= k < keep_nonzero(s).len() ==> exists|j: int|
                0 <= j < s.len() && #[trigger] s[j] == keep_nonzero(s)[k],
    decreases s.len(),
{
    if s.len() > 0 {
        lemma_keep_nonzero_sub(s.drop_last());
        let rest = keep_nonzero(s.drop_last());
        assert forall|k: int| #![trigger keep_nonzero(s)[k]] 0 <= k < keep_nonzero(s).len() implies exists|j: int|
            0 <= j < s.len() && #[trigger] s[j] == keep_nonzero(s)[k] by {
            if k < rest.len() {
                let j = choose|j: int| 0 <= j < s.drop_last().len() && #[trigger] s.drop_last()[j] == rest[k];
                assert(s[j] == s.drop_last()[j]);
            } else {
                assert(s[s.len() - 1] == keep_nonzero(s)[k]);
            }
        }
    }
}

proof fn lemma_proportional_within(es: Seq<EligibleSplit>, sign: i8, amount: u32)
    ensures
        alloc_within(es, sign, proportional_alloc(es, sign, amount)),
{
    let t = total_slack(es, sign, es.len() as int);
    if t != 0 {
        let all = Seq::new(
            es.len(),
            |i: int| (es[i].split, proportional_share(es, sign, amount, i) as u32),
        );
        let out = keep_nonzero(all);
        lemma_keep_nonzero_sub(all);
        assert forall|k: int| #![trigger out[k]] 0 <= k < out.len() implies exists|j: int|
            #![trigger es[j]]
            0 <= j < es.len() && es[j].split == out[k].0 && out[k].1 <= es[j].spec_slack(sign) by {
            let j = choose|j: int| 0 <= j < all.len() && #[trigger] all[j] == out[k];
            let request = capped_request(es, sign, amount);
            lemma_share_bounds(request, es[j].spec_slack(sign) as nat, t);
            assert(proportional_share(es, sign, amount, j) <= es[j].spec_slack(sign));
            assert(es[j].split == out[k].0);
        }
    }
}

proof fn lemma_share_bounds(request: nat, slack: nat, total: nat)
    requires
        total > 0,
        request <= total,
    ensures
        (request * slack) / total <= slack,
        (request * slack) % total < total,
{
    assert((request * slack) / total <= slack) by (nonlinear_arith)
        requires
            total > 0,
            request <= total,
    {
        assert(request * slack <= total * slack);
    }
    assert((request * slack) % total < total) by (nonlinear_arith)
        requires
            total > 0,
    ;
}

proof fn lemma_total_slack_bound(es: Seq<EligibleSplit>, sign: i8, n: int)
    requires
        0 <= n <= es.len(),
    ensures
        total_slack(es, sign, n) <= n * 0xffff_ffff,
    decreases n,
{
    if n > 0 {
        lemma_total_slack_bound(es, sign, n - 1);
    }
}

proof fn lemma_keep_nonzero_push(s: Seq<(NodeId, u32)>, x: (NodeId, u32))
    ensures
        keep_nonzero(s.push(x)) == if x.1 != 0 {
            keep_nonzero(s).push(x)
        } else {
            keep_nonzero(s)
        },
{
    assert(s.push(x).drop_last() =~= s);
}

fn chain_distribute(amount: u32, sign: i8, eligible: &[EligibleSplit]) -> (r: Vec<(NodeId, u32)>)
    ensures
        r@ == chain_alloc(eligible@, sign, 0, amount),
{
    let mut remaining = amount;
    let mut out: Vec<(NodeId, u32)> = Vec::new();
    let mut i: usize = 0;
    while i < eligible.len()
        invariant
            i <= eligible@.len(),
            chain_alloc(eligible@, sign, 0, amount) == out@ + chain_alloc(
                eligible@,
                sign,
                i as int,
                remaining,
            ),
        ensures
            i >= eligible@.len() || remaining == 0,
            chain_alloc(eligible@, sign, 0, amount) == out@ + chain_alloc(
                eligible@,
                sign,
                i as int,
                remaining,
            ),
        decreases eligible@.len() - i,
    {
        if remaining == 0 {
            break;
        }
        let entry = eligible[i];
        let slack = entry.slack(sign);
        let delta = if remaining <= slack {
            remaining
        } else {
            slack
        };
        let ghost before = out@;
        if delta != 0 {
            out.push((entry.split, delta));
            remaining = remaining - delta;
            assert(before + chain_alloc(eligible@, sign, i as int, (remaining + delta) as u32)
                =~= out@ + chain_alloc(eligible@, sign, i + 1, remaining));
        }
        i = i + 1;
    }
    assert(chain_alloc(eligible@, sign, i as int, remaining) =~= Seq::<(NodeId, u32)>::empty());
    assert(out@ + Seq::<(NodeId, u32)>::empty() =~= out@);
    out
}

fn proportional_distribute(amount: u32, sign: i8, eligible: &[EligibleSplit]) -> (r: Vec<
    (NodeId, u32),
>)
    ensures
        r@ == proportional_alloc(eligible@, sign, amount),
{
    let ghost es = eligible@;
    let n = eligible.len();
    let mut slacks: Vec<u32> = Vec::new();
    let mut total: u128 = 0;
    let mut i: usize = 0;
    while i < n
        invariant
            n == es.len(),
            es == eligible@,
            i <= n,
            slacks@.len() == i,
            forall|j: int| 0 <= j < i ==> slacks@[j] == #[trigger] es[j].spec_slack(sign),
            total == total_slack(es, sign, i as int),
        decreases n - i,
    {
        let s = eligible[i].slack(sign);
        proof {
            lemma_total_slack_bound(es, sign, i as int);
        }
        slacks.push(s);
        total = total + s as u128;
        i = i + 1;
    }
    if total == 0 {
        return Vec::new();
    }
    let request: u32 = if (amount as u128) <= total {
        amount
    } else {
        total as u32
    };
    assert(request == capped_request(es, sign, amount));
    let mut bases: Vec<u32> = Vec::new();
    let mut rems: Vec<u128> = Vec::new();
    let mut assigned: u128 = 0;
    i = 0;
    while i < n
        invariant
            n == es.len(),
            es == eligible@,
            i <= n,
            total > 0,
            total == total_slack(es, sign, n as int),
            request <= total,
            slacks@.len() == n,
            forall|j: int| 0 <= j < n ==> slacks@[j] == #[trigger] es[j].spec_slack(sign),
            bases@.len() == i,
            rems@.len() == i,
            forall|j: int|
                0 <= j < i ==> bases@[j] == #[trigger] base_share(es, sign, request as nat, j),
            forall|j: int|
                0 <= j < i ==> rems@[j] == #[trigger] share_remainder(es, sign, request as nat, j),
            assigned == assigned_shares(es, sign, request as nat, i as int),
            assigned <= i * 0xffff_ffff,
        decreases n - i,
    {
        let slack = slacks[i];
        assert((request as u128) * (slack as u128) <= 0xffff_ffff_ffff_ffff) by (nonlinear_arith)
            requires
                request <= 0xffff_ffff,
                slack <= 0xffff_ffff,
        ;
        let product: u128 = request as u128 * slack as u128;
        proof {
            lemma_share_bounds(request as nat, slack as nat, total as nat);
        }
        let base = (product / total) as u32;
        assert(assigned + base <= (i + 1) * 0xffff_ffff);
        assert((i + 1) * 0xffff_ffff <= 0x1_0000_0000_0000_0000_0000_0000) by (nonlinear_arith)
            requires
                i < n,
                n <= usize::MAX,
        ;
        let rem = product % total;
        bases.push(base);
        rems.push(rem);
        assigned = assigned + base as u128;
        i = i + 1;
    }
    let leftover: u128 = if assigned <= request as u128 {
        request as u128 - assigned
    } else {
        0
    };
    let mut out: Vec<(NodeId, u32)> = Vec::new();
    let ghost all = Seq::new(
        es.len(),
        |k: int| (es[k].split, proportional_share(es, sign, amount, k) as u32),
    );
    i = 0;
    while i < n
        invariant
            n == es.len(),
            es == eligible@,
            i <= n,
            total > 0,
            total == total_slack(es, sign, n as int),
            request == capped_request(es, sign, amount),
            slacks@.len() == n,
            forall|j: int| 0 <= j < n ==> slacks@[j] == #[trigger] es[j].spec_slack(sign),
            bases@.len() == n,
            rems@.len() == n,
            forall|j: int|
                0 <= j < n ==> bases@[j] == #[trigger] base_share(es, sign, request as nat, j),
            forall|j: int|
                0 <= j < n ==> rems@[j] == #[trigger] share_remainder(es, sign, request as nat, j),
            leftover == (if request - assigned_shares(es, sign, request as nat, n as int) >= 0 {
                request - assigned_shares(es, sign, request as nat, n as int)
            } else {
                0
            }),
            all == Seq::new(
                es.len(),
                |k: int| (es[k].split, proportional_share(es, sign, amount, k) as u32),
            ),
            out@ == keep_nonzero(all.take(i as int)),
        decreases n - i,
    {
        let base_i = bases[i];
        let rem_i = rems[i];
        let mut count: u64 = 0;
        let mut j: usize = 0;
        while j < n
            invariant
                n == es.len(),
                es == eligible@,
            es == eligible@,
                    i < n,
                j <= n,
                total > 0,
                total == total_slack(es, sign, n as int),
                slacks@.len() == n,
                forall|k: int| 0 <= k < n ==> slacks@[k] == #[trigger] es[k].spec_slack(sign),
                bases@.len() == n,
                rems@.len() == n,
                forall|k: int|
                    0 <= k < n ==> bases@[k] == #[trigger] base_share(es, sign, request as nat, k),
                forall|k: int|
                    0 <= k < n ==> rems@[k] == #[trigger] share_remainder(
                        es,
                        sign,
                        request as nat,
                        k,
                    ),
                base_i == bases@[i as int],
                rem_i == rems@[i as int],
                count == count_before(es, sign, request as nat, i as int, j as int),
                count <= j,
            decreases n - j,
        {
            let rem_j = rems[j];
            if (rem_j > rem_i || (rem_j == rem_i && j < i)) && bases[j] < slacks[j] {
                count = count + 1;
            }
            j = j + 1;
        }
        let share: u32 = if base_i < slacks[i] && (count as u128) < leftover {
            base_i + 1
        } else {
            base_i
        };
        assert(share == proportional_share(es, sign, amount, i as int));
        assert(all[i as int] == (eligible@[i as int].split, share));
        let ghost before = all.take(i as int);
        assert(all.take(i + 1) =~= before.push(all[i as int]));
        proof {
            lemma_keep_nonzero_push(before, all[i as int]);
        }
        if share != 0 {
            out.push((eligible[i].split, share));
        }
        i = i + 1;
    }
    assert(all.take(n as int) =~= all);
    out
}

/// Spreads `amount` over the eligible splits according to `strategy`, returning
/// each split that moves with the amount it moves by.
pub fn distribute_resize(
    amount: u32,
    strategy: ResizeStrategy,
    sign: i8,
    eligible: &[EligibleSplit],
) -> (r: Vec<(NodeId, u32)>)
    ensures
        r@ == spec_distribute(amount, strategy, sign, eligible@),
        alloc_within(eligible@, sign, r@),
{
    proof {
        lemma_chain_within(eligible@, sign, 0, amount);
        lemma_proportional_within(eligible@, sign, amount);
        if eligible@.len() > 0 {
            let out = spec_distribute(amount, ResizeStrategy::Local, sign, eligible@);
            assert(eligible@[0].split == out[0].0);
        }
    }
    match strategy {
        ResizeStrategy::Local => {
            let mut out: Vec<(NodeId, u32)> = Vec::new();
            if eligible.len() > 0 {
                let entry = eligible[0];
                let slack = entry.slack(sign);
                let delta = if amount <= slack {
                    amount
                } else {
                    slack
                };
                out.push((entry.split, delta));
            }
            out
        },
        ResizeStrategy::AncestorChain => chain_distribute(amount, sign, eligible),
        ResizeStrategy::DistributedBySlack => proportional_distribute(amount, sign, eligible),
    }
}

} // verus!
