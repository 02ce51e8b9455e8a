//! The maze topology as a mathematical object.
//!
//! Everything here is specification: what the generator builds for given
//! parameters and amount, before any address is drawn. The node `k` of a
//! plan takes its funds from the consecutive nodes `in_lo .. in_hi`; every
//! level of the maze is a run of consecutive node indices, so the inputs of
//! a node always form such a range.

use vstd::prelude::*;
use crate::error::MazeError;
use crate::params::{MazeParameters, MergeStrategy};
use crate::utils::{spec_add_noise, spec_fibonacci, spec_seeded_random};

verus! {

/// What the topology reads of the parameters.
pub struct TopologyConfig {
    pub seed: Seq<u8>,
    pub fib_offset: u8,
    pub split_ratio: u32,
    pub hop_count: u8,
    pub merge_strategy: MergeStrategy,
    pub amount_noise: u32,
    pub tx_fee: u64,
    /// A pool relay is configured: both its address and its signing material.
    pub pooled: bool,
}

/// The part of the parameters that decides the topology.
pub open spec fn topology_config(p: MazeParameters) -> TopologyConfig {
    TopologyConfig {
        seed: p.seed@,
        fib_offset: p.fib_offset,
        split_ratio: p.split_ratio,
        hop_count: p.hop_count,
        merge_strategy: p.merge_strategy,
        amount_noise: p.amount_noise,
        tx_fee: p.tx_fee,
        pooled: p.pool_address is Some && p.pool_signing_material is Some,
    }
}

/// A node of the topology: its level, the range `in_lo .. in_hi` of the
/// nodes it receives from, and the amount it receives.
#[derive(Clone, Copy, Debug)]
pub struct PlanNode {
    pub level: u8,
    pub in_lo: u32,
    pub in_hi: u32,
    pub amount_in: u64,
}

/// `a - b`, or 0 where `b` exceeds `a`.
pub open spec fn sat_sub(a: nat, b: nat) -> nat {
    if a >= b {
        (a - b) as nat
    } else {
        0
    }
}

// ---------------------------------------------------------------------
// Fees
// ---------------------------------------------------------------------

/// Average branching derived from the split ratio: 1.5 times the ratio,
/// rounded down, saturating at `u16::MAX`.
pub open spec fn avg_branch(c: TopologyConfig) -> nat {
    let q = c.split_ratio as nat * 3 / 2000;
    if q > 65535 {
        65535
    } else {
        q
    }
}

/// Hop count times the average branching, before the floor of 10.
pub open spec fn estimate_product(c: TopologyConfig) -> nat {
    c.hop_count as nat * avg_branch(c)
}

/// The estimated number of transactions (at least 10).
pub open spec fn spec_estimate(c: TopologyConfig) -> nat {
    if estimate_product(c) < 10 {
        10
    } else {
        estimate_product(c)
    }
}

// ---------------------------------------------------------------------
// Split / merge decisions
// ---------------------------------------------------------------------

/// The Fibonacci strategy adds the level and the offset as bytes; past 255
/// that addition overflows.
pub open spec fn fib_index_overflows(c: TopologyConfig, level: u8) -> bool {
    c.merge_strategy == MergeStrategy::Fibonacci && level as nat + c.fib_offset as nat > 255
}

/// Parity of the Fibonacci value that the Fibonacci strategy reads at `level`.
pub open spec fn fib_parity(c: TopologyConfig, level: u8) -> nat {
    spec_fibonacci(((level as nat + c.fib_offset as nat) % 20) as u8) % 2
}

/// Whether nodes split at `level`. The strategies compare `level / hop_count`
/// with 0.5, 0.3 and 0.7; over bytes those comparisons are exactly the
/// integer comparisons below.
pub open spec fn spec_should_split(c: TopologyConfig, level: u8) -> bool {
    let l = level as int;
    let h = c.hop_count as int;
    match c.merge_strategy {
        MergeStrategy::Early => 2 * l > h,
        MergeStrategy::Late => 2 * l < h,
        MergeStrategy::Middle => 10 * l < 3 * h || 10 * l > 7 * h,
        MergeStrategy::Fibonacci => fib_parity(c, level) == 0,
        MergeStrategy::Random => spec_seeded_random(c.seed, level as u64) % 2 == 0,
    }
}

/// Whether nodes merge at `level`.
pub open spec fn spec_should_merge(c: TopologyConfig, level: u8) -> bool {
    let l = level as int;
    let h = c.hop_count as int;
    match c.merge_strategy {
        MergeStrategy::Early => 2 * l < h,
        MergeStrategy::Late => 2 * l > h,
        MergeStrategy::Middle => 10 * l > 3 * h && 10 * l < 7 * h,
        MergeStrategy::Fibonacci => fib_parity(c, level) == 1,
        MergeStrategy::Random => spec_seeded_random(c.seed, (level as u64 + 1000) as u64) % 2
            == 0,
    }
}

/// Into how many parts the `i`-th node of the previous level splits: 2 or 3.
pub open spec fn spec_split_count(c: TopologyConfig, level: u8, i: nat) -> nat {
    (2 + spec_seeded_random(c.seed, (level as nat * 100 + i) as u64) % 2) as nat
}

// ---------------------------------------------------------------------
// Splitting an amount
// ---------------------------------------------------------------------

/// `x` divided by the fixed-point ratio `ratio / 1000`, rounded down and
/// saturating at `u64::MAX`; a zero ratio gives `u64::MAX` for a positive
/// `x` and 0 for a zero `x`.
pub open spec fn scaled_quotient(x: u64, ratio: nat) -> u64 {
    if ratio == 0 {
        if x == 0 {
            0
        } else {
            u64::MAX
        }
    } else {
        let q = x as nat * 1000 / ratio;
        if q > u64::MAX {
            u64::MAX
        } else {
            q as u64
        }
    }
}

/// Parts `i ..` of a split of `remaining` into `parts` parts: part `i`
/// is `remaining` divided by the split ratio plus 0.1 per part before it,
/// at least twice the fee; the last part is what remains.
pub open spec fn split_tail(c: TopologyConfig, remaining: u64, i: nat, parts: nat) -> Seq<u64>
    decreases parts - i,
{
    if i + 1 >= parts {
        seq![remaining]
    } else {
        let q = scaled_quotient(remaining, c.split_ratio as nat + 100 * i);
        let part: u64 = if q >= 2 * c.tx_fee {
            q
        } else {
            (2 * c.tx_fee) as u64
        };
        seq![part] + split_tail(c, sat_sub(remaining as nat, part as nat) as u64, i + 1, parts)
    }
}

/// The split of `amount` into `parts` parts (one part where `parts <= 1`).
pub open spec fn spec_split_amount(c: TopologyConfig, amount: u64, parts: nat) -> Seq<u64> {
    split_tail(c, amount, 0, parts)
}

// ---------------------------------------------------------------------
// Building levels
// ---------------------------------------------------------------------

/// Node indices are 16-bit and the index counter moves past every node but
/// the final one, so at most 65535 nodes come before the final node.
pub open spec fn push_node(nodes: Seq<PlanNode>, n: PlanNode) -> Option<Seq<PlanNode>> {
    if nodes.len() >= 65535 {
        None
    } else {
        Some(nodes.push(n))
    }
}

/// The noised amount with the configuration's noise and seed.
pub open spec fn noise_at(c: TopologyConfig, amount: u64, index: nat) -> Option<u64> {
    spec_add_noise(amount, c.amount_noise, c.seed, index as u64)
}

/// Appends the first `j` children of a split of node `parent` into `parts`;
/// child `j` gets noise index `1000 * (its node index) + j`.
pub open spec fn split_children(
    c: TopologyConfig,
    level: u8,
    parent: nat,
    parts: Seq<u64>,
    nodes: Seq<PlanNode>,
    j: nat,
) -> Option<Seq<PlanNode>>
    decreases j,
{
    if j == 0 {
        Some(nodes)
    } else {
        match split_children(c, level, parent, parts, nodes, (j - 1) as nat) {
            None => None,
            Some(ns) => match noise_at(c, parts[j - 1], (ns.len() * 1000 + (j - 1)) as nat) {
                None => None,
                Some(a) => push_node(
                    ns,
                    PlanNode {
                        level,
                        in_lo: parent as u32,
                        in_hi: (parent + 1) as u32,
                        amount_in: a,
                    },
                ),
            },
        }
    }
}

/// The parts into which the `i`-th node of the previous level splits.
pub open spec fn split_parts_of(c: TopologyConfig, level: u8, i: nat, amount: u64) -> Seq<u64> {
    spec_split_amount(c, amount, spec_split_count(c, level, i))
}

/// Appends the children of the first `i` nodes of the previous level (the
/// nodes `lo ..` with amounts `amounts`) in a split level.
pub open spec fn split_level(
    c: TopologyConfig,
    level: u8,
    lo: nat,
    amounts: Seq<u64>,
    nodes: Seq<PlanNode>,
    i: nat,
) -> Option<Seq<PlanNode>>
    decreases i,
{
    if i == 0 {
        Some(nodes)
    } else {
        match split_level(c, level, lo, amounts, nodes, (i - 1) as nat) {
            None => None,
            Some(ns) => {
                let parts = split_parts_of(c, level, (i - 1) as nat, amounts[i - 1]);
                split_children(c, level, (lo + i - 1) as nat, parts, ns, parts.len())
            },
        }
    }
}

/// Appends the first `g` merge nodes of a merge level: node `g` receives
/// the previous level's nodes `2g` and `2g + 1` (or only `2g` at the end).
pub open spec fn merge_level(
    c: TopologyConfig,
    level: u8,
    lo: nat,
    amounts: Seq<u64>,
    nodes: Seq<PlanNode>,
    g: nat,
) -> Option<Seq<PlanNode>>
    decreases g,
{
    if g == 0 {
        Some(nodes)
    } else {
        match merge_level(c, level, lo, amounts, nodes, (g - 1) as nat) {
            None => None,
            Some(ns) => {
                let first = 2 * (g - 1);
                let paired = first + 1 < amounts.len();
                let total = amounts[first] as nat + if paired {
                    amounts[first + 1] as nat
                } else {
                    0
                };
                if total > u64::MAX {
                    None
                } else {
                    push_node(
                        ns,
                        PlanNode {
                            level,
                            in_lo: (lo + first) as u32,
                            in_hi: (lo + first + if paired {
                                2nat
                            } else {
                                1nat
                            }) as u32,
                            amount_in: total as u64,
                        },
                    )
                }
            },
        }
    }
}

/// Appends one node for each of the first `i` nodes of the previous level,
/// with its amount noised.
pub open spec fn pass_level(
    c: TopologyConfig,
    level: u8,
    lo: nat,
    amounts: Seq<u64>,
    nodes: Seq<PlanNode>,
    i: nat,
) -> Option<Seq<PlanNode>>
    decreases i,
{
    if i == 0 {
        Some(nodes)
    } else {
        match pass_level(c, level, lo, amounts, nodes, (i - 1) as nat) {
            None => None,
            Some(ns) => match noise_at(c, amounts[i - 1], ns.len()) {
                None => None,
                Some(a) => push_node(
                    ns,
                    PlanNode {
                        level,
                        in_lo: (lo + i - 1) as u32,
                        in_hi: (lo + i) as u32,
                        amount_in: a,
                    },
                ),
            },
        }
    }
}

/// The nodes after adding level `level` on top of the previous level (the
/// nodes `lo ..` with amounts `amounts`): split where the strategy splits
/// and the previous level has fewer than 4 nodes, merge where it merges and
/// the previous level has more than 2, else pass every node on.
pub open spec fn level_step(
    c: TopologyConfig,
    level: u8,
    lo: nat,
    amounts: Seq<u64>,
    nodes: Seq<PlanNode>,
) -> Option<Seq<PlanNode>> {
    if fib_index_overflows(c, level) {
        None
    } else if spec_should_split(c, level) && amounts.len() < 4 {
        split_level(c, level, lo, amounts, nodes, amounts.len())
    } else if spec_should_merge(c, level) && amounts.len() > 2 {
        merge_level(c, level, lo, amounts, nodes, (amounts.len() + 1) / 2)
    } else {
        pass_level(c, level, lo, amounts, nodes, amounts.len())
    }
}

/// The topology built so far: its nodes and the last level (nodes `lo ..`
/// and the amounts that they pass on).
pub struct Build {
    pub nodes: Seq<PlanNode>,
    pub lo: nat,
    pub amounts: Seq<u64>,
}

/// The amounts received by the nodes `from ..`.
pub open spec fn amounts_from(nodes: Seq<PlanNode>, from: nat) -> Seq<u64> {
    Seq::new((nodes.len() - from) as nat, |k: int| nodes[from + k].amount_in)
}

/// Adds `count` levels, numbered from `first`; a level number past 255
/// overflows.
pub open spec fn run_levels(c: TopologyConfig, first: nat, count: nat, start: Build) -> Option<
    Build,
>
    decreases count,
{
    if count == 0 {
        Some(start)
    } else {
        match run_levels(c, first, (count - 1) as nat, start) {
            None => None,
            Some(b) => {
                let level = first + count - 1;
                if level > 255 {
                    None
                } else {
                    match level_step(c, level as u8, b.lo, b.amounts, b.nodes) {
                        None => None,
                        Some(ns) => Some(
                            Build { nodes: ns, lo: b.nodes.len(), amounts: amounts_from(ns, b.nodes.len()) },
                        ),
                    }
                }
            },
        }
    }
}

/// Sum of a sequence of amounts.
pub open spec fn sum_u64(s: Seq<u64>) -> nat
    decreases s.len(),
{
    if s.len() == 0 {
        0
    } else {
        sum_u64(s.drop_last()) + s.last() as nat
    }
}

// ---------------------------------------------------------------------
// The whole topology
// ---------------------------------------------------------------------

/// A generated topology: the nodes (the last one is the final node), the
/// pool node where there is one, and the number of levels.
pub struct Plan {
    pub nodes: Seq<PlanNode>,
    pub pool_index: Option<nat>,
    pub total_levels: u8,
}

/// The node that takes in the whole last level of `b`, at `level`.
pub open spec fn collector(b: Build, level: nat, amount: nat) -> PlanNode {
    PlanNode {
        level: level as u8,
        in_lo: b.lo as u32,
        in_hi: (b.lo + b.amounts.len()) as u32,
        amount_in: amount as u64,
    }
}

/// Without a pool: levels 1 .. hop_count - 1, then the final node at level
/// hop_count.
pub open spec fn direct_plan(c: TopologyConfig, start: Build) -> Option<Plan> {
    let h = c.hop_count as nat;
    let count: nat = if h >= 1 {
        (h - 1) as nat
    } else {
        0
    };
    match run_levels(c, 1, count, start) {
        None => None,
        Some(b) => {
            let amount = sum_u64(b.amounts);
            if amount > u64::MAX || h + 1 > 255 {
                None
            } else {
                Some(
                    Plan {
                        nodes: b.nodes.push(collector(b, h, amount)),
                        pool_index: None,
                        total_levels: (h + 1) as u8,
                    },
                )
            }
        },
    }
}

/// Levels before the pool: half the hops, at least 2.
pub open spec fn spec_pre_pool_levels(c: TopologyConfig) -> nat {
    let half = c.hop_count as nat / 2;
    if half < 2 {
        2
    } else {
        half
    }
}

/// Levels after the pool: the remaining hops, at least 2.
pub open spec fn spec_post_pool_levels(c: TopologyConfig) -> nat {
    let rest = sat_sub(c.hop_count as nat, spec_pre_pool_levels(c));
    if rest < 2 {
        2
    } else {
        rest
    }
}

/// With a pool: the pre-pool levels, the pool node collecting them, the
/// post-pool levels starting from the pool, and the final node.
pub open spec fn pooled_plan(c: TopologyConfig, start: Build) -> Option<Plan> {
    let pre = spec_pre_pool_levels(c);
    let post = spec_post_pool_levels(c);
    let pool_level = pre + 1;
    match run_levels(c, 1, pre, start) {
        None => None,
        Some(b1) => {
            let pool_amount = sum_u64(b1.amounts);
            if pool_amount > u64::MAX {
                None
            } else {
                match push_node(b1.nodes, collector(b1, pool_level, pool_amount)) {
                    None => None,
                    Some(ns) => {
                        let pool_index = b1.nodes.len();
                        let from_pool = Build {
                            nodes: ns,
                            lo: pool_index,
                            amounts: seq![pool_amount as u64],
                        };
                        match run_levels(c, pool_level + 1, post, from_pool) {
                            None => None,
                            Some(b2) => {
                                let final_level = pool_level + post + 1;
                                let amount = sum_u64(b2.amounts);
                                if final_level + 1 > 255 || amount > u64::MAX {
                                    None
                                } else {
                                    Some(
                                        Plan {
                                            nodes: b2.nodes.push(collector(b2, final_level, amount)),
                                            pool_index: Some(pool_index),
                                            total_levels: (final_level + 1) as u8,
                                        },
                                    )
                                }
                            },
                        }
                    },
                }
            }
        },
    }
}

/// The fees reserved for the estimated transactions.
pub open spec fn reserved_fees(c: TopologyConfig) -> nat {
    c.tx_fee as nat * spec_estimate(c)
}

/// The topology for `total` before outputs and fees are worked out:
/// `None` where the generator's 64-, 16- or 8-bit arithmetic overflows,
/// an error where the amount does not exceed the reserved fees.
pub open spec fn spec_plan(c: TopologyConfig, total: u64) -> Option<Result<Plan, MazeError>> {
    if estimate_product(c) > 65535 || reserved_fees(c) > u64::MAX {
        None
    } else if total <= reserved_fees(c) {
        if reserved_fees(c) + 1 > u64::MAX {
            None
        } else {
            Some(
                Err(
                    MazeError::InsufficientFunds {
                        required: (reserved_fees(c) + 1) as u64,
                        available: total,
                    },
                ),
            )
        }
    } else {
        let net = (total - reserved_fees(c)) as u64;
        let deposit = PlanNode { level: 0, in_lo: 0, in_hi: 0, amount_in: total };
        let start = Build { nodes: seq![deposit], lo: 0, amounts: seq![net] };
        let built = if c.pooled {
            pooled_plan(c, start)
        } else {
            direct_plan(c, start)
        };
        match built {
            None => None,
            Some(plan) => Some(Ok(plan)),
        }
    }
}

// ---------------------------------------------------------------------
// Outputs, fees and transaction count
// ---------------------------------------------------------------------

/// The nodes among the first `n` that receive from node `p`, in order.
pub open spec fn outputs_upto(nodes: Seq<PlanNode>, p: nat, n: nat) -> Seq<u16>
    decreases n,
{
    if n == 0 {
        seq![]
    } else {
        let prev = outputs_upto(nodes, p, (n - 1) as nat);
        let q = nodes[n - 1];
        if q.in_lo <= p < q.in_hi {
            prev.push((n - 1) as u16)
        } else {
            prev
        }
    }
}

/// The nodes that receive from node `p`, in order.
pub open spec fn outputs_of(nodes: Seq<PlanNode>, p: nat) -> Seq<u16> {
    outputs_upto(nodes, p, nodes.len())
}

/// The number of transactions sent by the first `n` nodes.
pub open spec fn edges_upto(nodes: Seq<PlanNode>, n: nat) -> nat
    decreases n,
{
    if n == 0 {
        0
    } else {
        edges_upto(nodes, (n - 1) as nat) + outputs_of(nodes, (n - 1) as nat).len()
    }
}

/// All transactions of the maze: one per edge, plus the delivery.
pub open spec fn spec_total_transactions(nodes: Seq<PlanNode>) -> nat {
    edges_upto(nodes, nodes.len()) + 1
}

/// What node `p` sends on: its amount minus one fee per output; the final
/// node, which has no outputs, minus one fee for the delivery; 0 for any
/// other node without outputs.
pub open spec fn spec_amount_out(c: TopologyConfig, nodes: Seq<PlanNode>, p: nat) -> u64 {
    let outs = outputs_of(nodes, p).len();
    let a = nodes[p as int].amount_in as nat;
    if outs > 0 {
        sat_sub(a, c.tx_fee as nat * outs) as u64
    } else if p + 1 == nodes.len() {
        sat_sub(a, c.tx_fee as nat) as u64
    } else {
        0
    }
}

/// The fee arithmetic of every node and the transaction count stay in range.
pub open spec fn plan_completes(c: TopologyConfig, nodes: Seq<PlanNode>) -> bool {
    &&& forall|p: nat| p < nodes.len() ==> c.tx_fee as nat * #[trigger] outputs_of(nodes, p).len() <= u64::MAX
    &&& spec_total_transactions(nodes) <= 65535
}

/// What generation yields for `total`, before any address is drawn: `None`
/// where the generator's fixed-width arithmetic overflows.
pub open spec fn spec_outcome(c: TopologyConfig, total: u64) -> Option<Result<Plan, MazeError>> {
    match spec_plan(c, total) {
        Some(Ok(plan)) => if plan_completes(c, plan.nodes) {
            Some(Ok(plan))
        } else {
            None
        },
        other => other,
    }
}


// ---------------------------------------------------------------------
// Overflow is final: once a step overflows, every later step does too.
// ---------------------------------------------------------------------

pub proof fn lemma_split_children_none(
    c: TopologyConfig,
    level: u8,
    parent: nat,
    parts: Seq<u64>,
    nodes: Seq<PlanNode>,
    j: nat,
    k: nat,
)
    requires
        j <= k,
        split_children(c, level, parent, parts, nodes, j) is None,
    ensures
        split_children(c, level, parent, parts, nodes, k) is None,
    decreases k - j,
{
    if j < k {
        lemma_split_children_none(c, level, parent, parts, nodes, j, (k - 1) as nat);
    }
}

pub proof fn lemma_split_level_none(
    c: TopologyConfig,
    level: u8,
    lo: nat,
    amounts: Seq<u64>,
    nodes: Seq<PlanNode>,
    i: nat,
    k: nat,
)
    requires
        i <= k,
        split_level(c, level, lo, amounts, nodes, i) is None,
    ensures
        split_level(c, level, lo, amounts, nodes, k) is None,
    decreases k - i,
{
    if i < k {
        lemma_split_level_none(c, level, lo, amounts, nodes, i, (k - 1) as nat);
    }
}

pub proof fn lemma_merge_level_none(
    c: TopologyConfig,
    level: u8,
    lo: nat,
    amounts: Seq<u64>,
    nodes: Seq<PlanNode>,
    g: nat,
    k: nat,
)
    requires
        g <= k,
        merge_level(c, level, lo, amounts, nodes, g) is None,
    ensures
        merge_level(c, level, lo, amounts, nodes, k) is None,
    decreases k - g,
{
    if g < k {
        lemma_merge_level_none(c, level, lo, amounts, nodes, g, (k - 1) as nat);
    }
}

pub proof fn lemma_pass_level_none(
    c: TopologyConfig,
    level: u8,
    lo: nat,
    amounts: Seq<u64>,
    nodes: Seq<PlanNode>,
    i: nat,
    k: nat,
)
    requires
        i <= k,
        pass_level(c, level, lo, amounts, nodes, i) is None,
    ensures
        pass_level(c, level, lo, amounts, nodes, k) is None,
    decreases k - i,
{
    if i < k {
        lemma_pass_level_none(c, level, lo, amounts, nodes, i, (k - 1) as nat);
    }
}

pub proof fn lemma_run_levels_none(c: TopologyConfig, first: nat, i: nat, k: nat, start: Build)
    requires
        i <= k,
        run_levels(c, first, i, start) is None,
    ensures
        run_levels(c, first, k, start) is None,
    decreases k - i,
{
    if i < k {
        lemma_run_levels_none(c, first, i, (k - 1) as nat, start);
    }
}

/// A node has at most as many outputs as there are nodes.
pub proof fn lemma_outputs_len(nodes: Seq<PlanNode>, p: nat, n: nat)
    ensures
        outputs_upto(nodes, p, n).len() <= n,
    decreases n,
{
    if n > 0 {
        lemma_outputs_len(nodes, p, (n - 1) as nat);
    }
}


/// A split into `parts` parts has `parts` parts.
pub proof fn lemma_split_tail_len(c: TopologyConfig, remaining: u64, i: nat, parts: nat)
    requires
        i < parts,
    ensures
        split_tail(c, remaining, i, parts).len() == parts - i,
    decreases parts - i,
{
    if i + 1 < parts {
        let q = scaled_quotient(remaining, c.split_ratio as nat + 100 * i);
        let part: u64 = if q >= 2 * c.tx_fee {
            q
        } else {
            (2 * c.tx_fee) as u64
        };
        lemma_split_tail_len(c, sat_sub(remaining as nat, part as nat) as u64, i + 1, parts);
    }
}


/// A prefix never sums to more than the whole.
pub proof fn lemma_sum_prefix(s: Seq<u64>, i: nat)
    requires
        i <= s.len(),
    ensures
        sum_u64(s.take(i as int)) <= sum_u64(s),
    decreases s.len() - i,
{
    if i < s.len() {
        lemma_sum_prefix(s, i + 1);
        assert(s.take((i + 1) as int).drop_last() =~= s.take(i as int));
    } else {
        assert(s.take(i as int) =~= s);
    }
}


// ---------------------------------------------------------------------
// Levels only append
// ---------------------------------------------------------------------

/// `longer` starts with `shorter`.
pub open spec fn extends(longer: Seq<PlanNode>, shorter: Seq<PlanNode>) -> bool {
    shorter.len() <= longer.len() && longer.take(shorter.len() as int) == shorter
}

pub proof fn lemma_split_children_extends(
    c: TopologyConfig,
    level: u8,
    parent: nat,
    parts: Seq<u64>,
    nodes: Seq<PlanNode>,
    j: nat,
)
    ensures
        split_children(c, level, parent, parts, nodes, j) matches Some(v) ==> extends(v, nodes)
            && v.len() == nodes.len() + j,
    decreases j,
{
    assert(nodes.take(nodes.len() as int) =~= nodes);
    if j > 0 {
        lemma_split_children_extends(c, level, parent, parts, nodes, (j - 1) as nat);
        if let Some(ns) = split_children(c, level, parent, parts, nodes, (j - 1) as nat) {
            if let Some(v) = split_children(c, level, parent, parts, nodes, j) {
                assert(v.take(nodes.len() as int) =~= ns.take(nodes.len() as int));
            }
        }
    }
}

pub proof fn lemma_split_level_extends(
    c: TopologyConfig,
    level: u8,
    lo: nat,
    amounts: Seq<u64>,
    nodes: Seq<PlanNode>,
    i: nat,
)
    ensures
        split_level(c, level, lo, amounts, nodes, i) matches Some(v) ==> extends(v, nodes),
    decreases i,
{
    assert(nodes.take(nodes.len() as int) =~= nodes);
    if i > 0 {
        lemma_split_level_extends(c, level, lo, amounts, nodes, (i - 1) as nat);
        if let Some(ns) = split_level(c, level, lo, amounts, nodes, (i - 1) as nat) {
            let parts = split_parts_of(c, level, (i - 1) as nat, amounts[i - 1]);
            lemma_split_children_extends(c, level, (lo + i - 1) as nat, parts, ns, parts.len());
            if let Some(v) = split_level(c, level, lo, amounts, nodes, i) {
                assert(v.take(nodes.len() as int) =~= ns.take(nodes.len() as int));
            }
        }
    }
}

pub proof fn lemma_merge_level_extends(
    c: TopologyConfig,
    level: u8,
    lo: nat,
    amounts: Seq<u64>,
    nodes: Seq<PlanNode>,
    g: nat,
)
    ensures
        merge_level(c, level, lo, amounts, nodes, g) matches Some(v) ==> extends(v, nodes)
            && v.len() == nodes.len() + g,
    decreases g,
{
    assert(nodes.take(nodes.len() as int) =~= nodes);
    if g > 0 {
        lemma_merge_level_extends(c, level, lo, amounts, nodes, (g - 1) as nat);
        if let Some(ns) = merge_level(c, level, lo, amounts, nodes, (g - 1) as nat) {
            if let Some(v) = merge_level(c, level, lo, amounts, nodes, g) {
                assert(v.take(nodes.len() as int) =~= ns.take(nodes.len() as int));
            }
        }
    }
}

pub proof fn lemma_pass_level_extends(
    c: TopologyConfig,
    level: u8,
    lo: nat,
    amounts: Seq<u64>,
    nodes: Seq<PlanNode>,
    i: nat,
)
    ensures
        pass_level(c, level, lo, amounts, nodes, i) matches Some(v) ==> extends(v, nodes)
            && v.len() == nodes.len() + i,
    decreases i,
{
    assert(nodes.take(nodes.len() as int) =~= nodes);
    if i > 0 {
        lemma_pass_level_extends(c, level, lo, amounts, nodes, (i - 1) as nat);
        if let Some(ns) = pass_level(c, level, lo, amounts, nodes, (i - 1) as nat) {
            if let Some(v) = pass_level(c, level, lo, amounts, nodes, i) {
                assert(v.take(nodes.len() as int) =~= ns.take(nodes.len() as int));
            }
        }
    }
}

/// A level only appends nodes.
pub proof fn lemma_level_grows(
    c: TopologyConfig,
    level: u8,
    lo: nat,
    amounts: Seq<u64>,
    nodes: Seq<PlanNode>,
)
    ensures
        level_step(c, level, lo, amounts, nodes) matches Some(v) ==> extends(v, nodes),
{
    lemma_split_level_extends(c, level, lo, amounts, nodes, amounts.len());
    lemma_merge_level_extends(c, level, lo, amounts, nodes, (amounts.len() + 1) / 2);
    lemma_pass_level_extends(c, level, lo, amounts, nodes, amounts.len());
}


/// Levels only append nodes.
pub proof fn lemma_run_levels_extends(c: TopologyConfig, first: nat, count: nat, start: Build)
    ensures
        run_levels(c, first, count, start) matches Some(b) ==> extends(b.nodes, start.nodes),
    decreases count,
{
    if count == 0 {
        assert(start.nodes.take(start.nodes.len() as int) =~= start.nodes);
    } else {
        lemma_run_levels_extends(c, first, (count - 1) as nat, start);
        if let Some(b) = run_levels(c, first, (count - 1) as nat, start) {
            let level = first + count - 1;
            if level <= 255 {
                lemma_level_grows(c, level as u8, b.lo, b.amounts, b.nodes);
                if let Some(ns) = level_step(c, level as u8, b.lo, b.amounts, b.nodes) {
                    assert(ns.take(start.nodes.len() as int) =~= b.nodes.take(
                        start.nodes.len() as int,
                    ));
                }
            }
        }
    }
}

/// A plan ends with its final node, and has a pool node, before the final
/// node, exactly when a pool is configured.
pub proof fn lemma_plan_pool(c: TopologyConfig, total: u64)
    ensures
        spec_plan(c, total) matches Some(Ok(p)) ==> {
            &&& p.nodes.len() >= 1
            &&& (p.pool_index is Some <==> c.pooled)
            &&& (p.pool_index matches Some(k) ==> k + 1 < p.nodes.len())
        },
{
    if let Some(Ok(p)) = spec_plan(c, total) {
        let net = (total - reserved_fees(c)) as u64;
        let deposit = PlanNode { level: 0, in_lo: 0, in_hi: 0, amount_in: total };
        let start = Build { nodes: seq![deposit], lo: 0, amounts: seq![net] };
        if c.pooled {
            let pre = spec_pre_pool_levels(c);
            let post = spec_post_pool_levels(c);
            let pool_level = pre + 1;
            let b1 = run_levels(c, 1, pre, start).unwrap();
            let pool_amount = sum_u64(b1.amounts);
            let ns = push_node(b1.nodes, collector(b1, pool_level, pool_amount)).unwrap();
            let from_pool = Build { nodes: ns, lo: b1.nodes.len(), amounts: seq![pool_amount as u64] };
            lemma_run_levels_extends(c, pool_level + 1, post, from_pool);
        }
    }
}

} // verus!
