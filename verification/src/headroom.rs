//! Headroom: validated parameters with a bounded fee and amount never
//! drive the generator's fixed-width arithmetic past its limits.
//!
//! Every level keeps at most 9 nodes. From one level to the next the total
//! amount grows by at most four fees for each of at most three split nodes
//! (a split part is at least twice the fee) and by at most 1% of noise;
//! merges keep it. So ten levels stay below `u64::MAX` for a deposit of up
//! to 2^62 base units and a fee of up to 2^56.

use vstd::prelude::*;
use crate::laws::law_noise_within_range;
use crate::params::{spec_validation_error, MazeParameters};
use crate::plan::{
    avg_branch, collector, direct_plan, edges_upto, estimate_product, extends,
    fib_index_overflows, lemma_merge_level_extends, lemma_pass_level_extends,
    lemma_split_children_extends, lemma_split_level_extends, lemma_split_tail_len, level_step,
    merge_level, noise_at, outputs_of, outputs_upto, pass_level, plan_completes, pooled_plan,
    push_node, reserved_fees, run_levels, sat_sub, scaled_quotient, spec_estimate, spec_outcome,
    spec_post_pool_levels, spec_pre_pool_levels, spec_split_count, split_children,
    split_level, split_parts_of, split_tail, sum_u64, topology_config, Build, PlanNode,
    TopologyConfig,
};

verus! {

/// The settings under which the bounds below hold.
pub open spec fn tame(c: TopologyConfig) -> bool {
    &&& c.split_ratio >= 1000
    &&& c.amount_noise <= 100
    &&& c.tx_fee <= 0x100_0000_0000_0000
}

proof fn lemma_split_tail_bound(c: TopologyConfig, rem: u64, i: nat, parts: nat)
    requires
        i < parts,
        tame(c),
    ensures
        forall|k: int|
            0 <= k < split_tail(c, rem, i, parts).len() ==> #[trigger] split_tail(c, rem, i, parts)[k]
                <= rem + 2 * c.tx_fee,
    decreases parts - i,
{
    if i + 1 < parts {
        let ratio = c.split_ratio as nat + 100 * i;
        let q = scaled_quotient(rem, ratio);
        assert(rem as nat * 1000 / ratio <= rem) by (nonlinear_arith)
            requires
                ratio >= 1000,
        ;
        let part: u64 = if q >= 2 * c.tx_fee {
            q
        } else {
            (2 * c.tx_fee) as u64
        };
        let next = sat_sub(rem as nat, part as nat) as u64;
        lemma_split_tail_bound(c, next, i + 1, parts);
        let all = split_tail(c, rem, i, parts);
        let rest = split_tail(c, next, i + 1, parts);
        assert(all == seq![part] + rest);
        assert forall|k: int| 0 <= k < all.len() implies #[trigger] all[k] <= rem + 2 * c.tx_fee by {
            if k > 0 {
                assert(all[k] == rest[k - 1]);
            }
        }
    }
}

/// No level number (plus the Fibonacci offset) passes 255.
pub open spec fn levels_fit(c: TopologyConfig, first: nat, count: nat) -> bool {
    first + count + c.fib_offset <= 256
}

proof fn lemma_outputs_len(nodes: Seq<PlanNode>, p: nat, n: nat)
    ensures
        outputs_upto(nodes, p, n).len() <= n,
    decreases n,
{
    if n > 0 {
        lemma_outputs_len(nodes, p, (n - 1) as nat);
    }
}

proof fn lemma_edges_within(nodes: Seq<PlanNode>, n: nat)
    requires
        n <= nodes.len(),
    ensures
        edges_upto(nodes, n) <= n * nodes.len(),
    decreases n,
{
    if n > 0 {
        lemma_edges_within(nodes, (n - 1) as nat);
        lemma_outputs_len(nodes, (n - 1) as nat, nodes.len());
        assert((n - 1) * nodes.len() + nodes.len() == n * nodes.len()) by (nonlinear_arith);
    }
}

proof fn lemma_small_plan_completes(c: TopologyConfig, nodes: Seq<PlanNode>)
    requires
        nodes.len() <= 200,
        c.tx_fee <= 0x100_0000_0000_0000,
    ensures
        plan_completes(c, nodes),
{
    assert forall|p: nat| p < nodes.len() implies c.tx_fee as nat * #[trigger] outputs_of(
        nodes,
        p,
    ).len() <= u64::MAX by {
        lemma_outputs_len(nodes, p, nodes.len());
        let l = outputs_of(nodes, p).len();
        assert(c.tx_fee as nat * l <= 0x100_0000_0000_0000 * 200) by (nonlinear_arith)
            requires
                c.tx_fee <= 0x100_0000_0000_0000,
                l <= 200,
        ;
    }
    lemma_edges_within(nodes, nodes.len());
    assert(nodes.len() * nodes.len() <= 200 * 200) by (nonlinear_arith)
        requires
            nodes.len() <= 200,
    ;
}

// ---------------------------------------------------------------------
// Level sums
// ---------------------------------------------------------------------

/// The largest amount whose noised value (at most 1% more) still fits in
/// a `u64`.
pub open spec fn amount_cap() -> nat {
    0xfd00_0000_0000_0000
}

/// What one level can make of a level total `s`: at most three split
/// nodes each add up to four fees, and the noise adds at most 1%.
pub open spec fn grow(s: nat, fee: nat) -> nat {
    (s + 12 * fee) + (s + 12 * fee) / 100
}

/// `grow` applied `n` times.
pub open spec fn grown(s: nat, fee: nat, n: nat) -> nat
    decreases n,
{
    if n == 0 {
        s
    } else {
        grow(grown(s, fee, (n - 1) as nat), fee)
    }
}

/// The total amount received by the nodes `from ..`.
pub open spec fn level_sum(ns: Seq<PlanNode>, from: nat) -> nat {
    sum_u64(crate::plan::amounts_from(ns, from))
}

proof fn lemma_sum_push(s: Seq<u64>, x: u64)
    ensures
        sum_u64(s.push(x)) == sum_u64(s) + x,
{
    assert(s.push(x).drop_last() =~= s);
}

proof fn lemma_sum_take_step(s: Seq<u64>, k: nat)
    requires
        k < s.len(),
    ensures
        sum_u64(s.take(k + 1 as int)) == sum_u64(s.take(k as int)) + s[k as int],
{
    assert(s.take(k + 1 as int).drop_last() =~= s.take(k as int));
}

proof fn lemma_elem_le_sum(s: Seq<u64>, k: int)
    requires
        0 <= k < s.len(),
    ensures
        s[k] <= sum_u64(s),
    decreases s.len(),
{
    if k < s.len() - 1 {
        lemma_elem_le_sum(s.drop_last(), k);
        assert(s.drop_last()[k] == s[k]);
    }
}

proof fn lemma_level_sum_empty(ns: Seq<PlanNode>)
    ensures
        level_sum(ns, ns.len()) == 0,
{
    assert(crate::plan::amounts_from(ns, ns.len()) =~= Seq::<u64>::empty());
}

proof fn lemma_level_sum_push(ns: Seq<PlanNode>, from: nat, n: PlanNode)
    requires
        from <= ns.len(),
    ensures
        level_sum(ns.push(n), from) == level_sum(ns, from) + n.amount_in,
{
    assert(crate::plan::amounts_from(ns.push(n), from) =~= crate::plan::amounts_from(ns, from).push(
        n.amount_in,
    ));
    lemma_sum_push(crate::plan::amounts_from(ns, from), n.amount_in);
}

/// Adding at most 1% is monotone and superadditive.
proof fn lemma_percent(x: nat, y: nat)
    ensures
        x / 100 + y / 100 <= (x + y) / 100,
{
}

proof fn lemma_noise_small(c: TopologyConfig, a: u64, index: nat)
    requires
        c.amount_noise <= 100,
        a <= amount_cap(),
    ensures
        noise_at(c, a, index) matches Some(r) && r <= a + a / 100,
{
    let n = c.amount_noise as nat;
    assert(a as nat * n / 10_000 <= a as nat / 100) by (nonlinear_arith)
        requires
            n <= 100,
    ;
    law_noise_within_range(a, c.amount_noise, c.seed, index as u64);
}

proof fn lemma_split_tail_sum(c: TopologyConfig, rem: u64, i: nat, parts: nat)
    requires
        i < parts,
        tame(c),
    ensures
        sum_u64(split_tail(c, rem, i, parts)) <= rem + 2 * c.tx_fee * (parts - 1 - i),
    decreases parts - i,
{
    if i + 1 < parts {
        let ratio = c.split_ratio as nat + 100 * i;
        let q = scaled_quotient(rem, ratio);
        assert(rem as nat * 1000 / ratio <= rem) by (nonlinear_arith)
            requires
                ratio >= 1000,
        ;
        let part: u64 = if q >= 2 * c.tx_fee {
            q
        } else {
            (2 * c.tx_fee) as u64
        };
        let next = sat_sub(rem as nat, part as nat) as u64;
        lemma_split_tail_sum(c, next, i + 1, parts);
        let rest = split_tail(c, next, i + 1, parts);
        assert(split_tail(c, rem, i, parts) == seq![part] + rest);
        crate::laws::lemma_sum_prepend(part, rest);
        assert(2 * c.tx_fee * (parts - 1 - i) == 2 * c.tx_fee * (parts - 1 - (i + 1)) + 2
            * c.tx_fee) by (nonlinear_arith)
            requires
                i + 1 < parts,
        ;
    } else {
        crate::laws::lemma_sum_single(rem);
    }
}

proof fn lemma_split_children_sum(
    c: TopologyConfig,
    level: u8,
    parent: nat,
    parts: Seq<u64>,
    nodes: Seq<PlanNode>,
    j: nat,
)
    requires
        tame(c),
        j <= parts.len(),
        forall|k: int| 0 <= k < parts.len() ==> #[trigger] parts[k] <= amount_cap(),
        nodes.len() + j < 65535,
    ensures
        split_children(c, level, parent, parts, nodes, j) matches Some(ns) && ns.len() == nodes.len()
            + j && extends(ns, nodes) && level_sum(ns, nodes.len()) <= sum_u64(parts.take(j as int))
            + sum_u64(parts.take(j as int)) / 100,
    decreases j,
{
    lemma_split_children_extends(c, level, parent, parts, nodes, j);
    if j == 0 {
        lemma_level_sum_empty(nodes);
        assert(parts.take(0) =~= Seq::<u64>::empty());
    } else {
        lemma_split_children_sum(c, level, parent, parts, nodes, (j - 1) as nat);
        let ns = split_children(c, level, parent, parts, nodes, (j - 1) as nat).unwrap();
        let p = parts[j - 1];
        lemma_noise_small(c, p, (ns.len() * 1000 + (j - 1)) as nat);
        let v = split_children(c, level, parent, parts, nodes, j).unwrap();
        lemma_split_children_extends(c, level, parent, parts, ns, 1);
        assert(v == ns.push(v[ns.len() as int]));
        lemma_level_sum_push(ns, nodes.len(), v[ns.len() as int]);
        lemma_sum_take_step(parts, (j - 1) as nat);
        let t = sum_u64(parts.take(j - 1));
        lemma_percent(t, p as nat);
    }
}

proof fn lemma_split_level_sum(
    c: TopologyConfig,
    level: u8,
    lo: nat,
    amounts: Seq<u64>,
    nodes: Seq<PlanNode>,
    i: nat,
)
    requires
        tame(c),
        i <= amounts.len(),
        forall|k: int| 0 <= k < amounts.len() ==> #[trigger] amounts[k] + 2 * c.tx_fee <= amount_cap(),
        nodes.len() + 3 * i < 65535,
    ensures
        split_level(c, level, lo, amounts, nodes, i) matches Some(ns) && nodes.len() + i
            <= ns.len() <= nodes.len() + 3 * i && extends(ns, nodes) && level_sum(ns, nodes.len())
            <= (sum_u64(amounts.take(i as int)) + 4 * c.tx_fee * i) + (sum_u64(
            amounts.take(i as int),
        ) + 4 * c.tx_fee * i) / 100,
    decreases i,
{
    lemma_split_level_extends(c, level, lo, amounts, nodes, i);
    if i == 0 {
        lemma_level_sum_empty(nodes);
        assert(amounts.take(0) =~= Seq::<u64>::empty());
    } else {
        lemma_split_level_sum(c, level, lo, amounts, nodes, (i - 1) as nat);
        let ns = split_level(c, level, lo, amounts, nodes, (i - 1) as nat).unwrap();
        let a = amounts[i - 1];
        let count = spec_split_count(c, level, (i - 1) as nat);
        let parts = split_parts_of(c, level, (i - 1) as nat, a);
        lemma_split_tail_len(c, a, 0, count);
        lemma_split_tail_bound(c, a, 0, count);
        lemma_split_tail_sum(c, a, 0, count);
        assert(2 * c.tx_fee * (count - 1) <= 4 * c.tx_fee) by (nonlinear_arith)
            requires
                count <= 3,
        ;
        assert forall|k: int| 0 <= k < parts.len() implies #[trigger] parts[k] <= amount_cap() by {
            assert(parts[k] <= a + 2 * c.tx_fee);
        }
        lemma_split_children_sum(c, level, (lo + i - 1) as nat, parts, ns, parts.len());
        assert(parts.take(parts.len() as int) =~= parts);
        let v = split_level(c, level, lo, amounts, nodes, i).unwrap();
        // the level total splits into what came before and the new children
        assert(crate::plan::amounts_from(v, nodes.len()) =~= crate::plan::amounts_from(ns, nodes.len())
            + crate::plan::amounts_from(v, ns.len())) by {
            assert(v.take(ns.len() as int) == ns);
        }
        lemma_sum_concat(crate::plan::amounts_from(ns, nodes.len()), crate::plan::amounts_from(v, ns.len()));
        lemma_sum_take_step(amounts, (i - 1) as nat);
        let w0: nat = (sum_u64(amounts.take(i - 1)) + 4 * c.tx_fee * (i - 1)) as nat;
        let pp = sum_u64(parts);
        lemma_percent(w0, pp);
        assert(4 * c.tx_fee * i == 4 * c.tx_fee * (i - 1) + 4 * c.tx_fee) by (nonlinear_arith)
            requires
                i >= 1,
        ;
        let w1: nat = (sum_u64(amounts.take(i as int)) + 4 * c.tx_fee * i) as nat;
        assert(w0 + pp <= w1);
        assert((w0 + pp) / 100 <= w1 / 100) by (nonlinear_arith)
            requires
                w0 + pp <= w1,
        ;
    }
}

proof fn lemma_sum_concat(s: Seq<u64>, t: Seq<u64>)
    ensures
        sum_u64(s + t) == sum_u64(s) + sum_u64(t),
    decreases t.len(),
{
    if t.len() == 0 {
        assert(s + t =~= s);
    } else {
        lemma_sum_concat(s, t.drop_last());
        assert((s + t).drop_last() =~= s + t.drop_last());
    }
}

proof fn lemma_merge_level_sum(
    c: TopologyConfig,
    level: u8,
    lo: nat,
    amounts: Seq<u64>,
    nodes: Seq<PlanNode>,
    g: nat,
)
    requires
        2 * g <= amounts.len() + 1,
        sum_u64(amounts) <= u64::MAX,
        nodes.len() + g < 65535,
    ensures
        merge_level(c, level, lo, amounts, nodes, g) matches Some(ns) && ns.len() == nodes.len() + g
            && extends(ns, nodes) && level_sum(ns, nodes.len()) == sum_u64(
            amounts.take(if 2 * g <= amounts.len() {
                (2 * g) as int
            } else {
                amounts.len() as int
            }),
        ),
    decreases g,
{
    lemma_merge_level_extends(c, level, lo, amounts, nodes, g);
    if g == 0 {
        lemma_level_sum_empty(nodes);
        assert(amounts.take(0) =~= Seq::<u64>::empty());
    } else {
        lemma_merge_level_sum(c, level, lo, amounts, nodes, (g - 1) as nat);
        let ns = merge_level(c, level, lo, amounts, nodes, (g - 1) as nat).unwrap();
        let first = 2 * (g - 1);
        lemma_sum_take_step(amounts, first as nat);
        let end: int = if 2 * g <= amounts.len() {
            (2 * g) as int
        } else {
            amounts.len() as int
        };
        if first + 1 < amounts.len() {
            lemma_sum_take_step(amounts, (first + 1) as nat);
        } else {
            assert(end == first + 1);
        }
        crate::plan::lemma_sum_prefix(amounts, end as nat);
        let v = merge_level(c, level, lo, amounts, nodes, g).unwrap();
        lemma_merge_level_extends(c, level, lo, amounts, ns, 1);
        assert(v == ns.push(v[ns.len() as int]));
        lemma_level_sum_push(ns, nodes.len(), v[ns.len() as int]);
    }
}

proof fn lemma_pass_level_sum(
    c: TopologyConfig,
    level: u8,
    lo: nat,
    amounts: Seq<u64>,
    nodes: Seq<PlanNode>,
    i: nat,
)
    requires
        tame(c),
        i <= amounts.len(),
        forall|k: int| 0 <= k < amounts.len() ==> #[trigger] amounts[k] <= amount_cap(),
        nodes.len() + i < 65535,
    ensures
        pass_level(c, level, lo, amounts, nodes, i) matches Some(ns) && ns.len() == nodes.len() + i
            && extends(ns, nodes) && level_sum(ns, nodes.len()) <= sum_u64(amounts.take(i as int))
            + sum_u64(amounts.take(i as int)) / 100,
    decreases i,
{
    lemma_pass_level_extends(c, level, lo, amounts, nodes, i);
    if i == 0 {
        lemma_level_sum_empty(nodes);
        assert(amounts.take(0) =~= Seq::<u64>::empty());
    } else {
        lemma_pass_level_sum(c, level, lo, amounts, nodes, (i - 1) as nat);
        let ns = pass_level(c, level, lo, amounts, nodes, (i - 1) as nat).unwrap();
        let a = amounts[i - 1];
        lemma_noise_small(c, a, ns.len());
        let v = pass_level(c, level, lo, amounts, nodes, i).unwrap();
        lemma_pass_level_extends(c, level, lo, amounts, ns, 1);
        assert(v == ns.push(v[ns.len() as int]));
        lemma_level_sum_push(ns, nodes.len(), v[ns.len() as int]);
        lemma_sum_take_step(amounts, (i - 1) as nat);
        lemma_percent(sum_u64(amounts.take(i - 1)), a as nat);
    }
}

proof fn lemma_level_step_sum(
    c: TopologyConfig,
    level: u8,
    lo: nat,
    amounts: Seq<u64>,
    nodes: Seq<PlanNode>,
    s: nat,
)
    requires
        tame(c),
        !fib_index_overflows(c, level),
        1 <= amounts.len() <= 9,
        sum_u64(amounts) <= s,
        grow(s, c.tx_fee as nat) <= amount_cap(),
        nodes.len() + 9 < 65535,
    ensures
        level_step(c, level, lo, amounts, nodes) matches Some(ns) && nodes.len() + 1 <= ns.len()
            <= nodes.len() + 9 && extends(ns, nodes) && level_sum(ns, nodes.len()) <= grow(
            s,
            c.tx_fee as nat,
        ),
{
    let n = amounts.len();
    let f = c.tx_fee as nat;
    assert forall|k: int| 0 <= k < n implies #[trigger] amounts[k] + 2 * c.tx_fee <= amount_cap() by {
        lemma_elem_le_sum(amounts, k);
    }
    assert(amounts.take(n as int) =~= amounts);
    if crate::plan::spec_should_split(c, level) && n < 4 {
        lemma_split_level_sum(c, level, lo, amounts, nodes, n);
        let w = sum_u64(amounts) + 4 * f * n;
        assert(4 * f * n <= 12 * f) by (nonlinear_arith)
            requires
                n <= 3,
        ;
        assert(w + w / 100 <= grow(s, f)) by (nonlinear_arith)
            requires
                w <= s + 12 * f,
                grow(s, f) == (s + 12 * f) + (s + 12 * f) / 100,
        ;
    } else if crate::plan::spec_should_merge(c, level) && n > 2 {
        lemma_merge_level_sum(c, level, lo, amounts, nodes, (n + 1) / 2);
        let end: int = if 2 * ((n + 1) / 2) <= n {
            (2 * ((n + 1) / 2)) as int
        } else {
            n as int
        };
        crate::plan::lemma_sum_prefix(amounts, end as nat);
    } else {
        lemma_pass_level_sum(c, level, lo, amounts, nodes, n);
        let w = sum_u64(amounts);
        assert(w + w / 100 <= grow(s, f)) by (nonlinear_arith)
            requires
                w <= s,
                grow(s, f) == (s + 12 * f) + (s + 12 * f) / 100,
        ;
    }
}

proof fn lemma_run_levels_sum(c: TopologyConfig, first: nat, count: nat, start: Build, s0: nat)
    requires
        tame(c),
        first >= 1,
        levels_fit(c, first, count),
        1 <= start.amounts.len() <= 9,
        sum_u64(start.amounts) <= s0,
        grown(s0, c.tx_fee as nat, count) <= amount_cap(),
        start.nodes.len() + 9 * count + 9 < 65535,
    ensures
        run_levels(c, first, count, start) matches Some(b) && 1 <= b.amounts.len() <= 9
            && b.nodes.len() <= start.nodes.len() + 9 * count && sum_u64(b.amounts) <= grown(
            s0,
            c.tx_fee as nat,
            count,
        ),
    decreases count,
{
    if count > 0 {
        let f = c.tx_fee as nat;
        let prev = grown(s0, f, (count - 1) as nat);
        assert(prev <= grow(prev, f));
        lemma_run_levels_sum(c, first, (count - 1) as nat, start, s0);
        let b = run_levels(c, first, (count - 1) as nat, start).unwrap();
        let level = first + count - 1;
        lemma_level_step_sum(c, level as u8, b.lo, b.amounts, b.nodes, prev);
    }
}

proof fn lemma_grown_mono(s: nat, s2: nat, f: nat, f2: nat, n: nat)
    requires
        s <= s2,
        f <= f2,
    ensures
        grown(s, f, n) <= grown(s2, f2, n),
    decreases n,
{
    if n > 0 {
        lemma_grown_mono(s, s2, f, f2, (n - 1) as nat);
        let x = grown(s, f, (n - 1) as nat);
        let y = grown(s2, f2, (n - 1) as nat);
        assert((x + 12 * f) / 100 <= (y + 12 * f2) / 100) by (nonlinear_arith)
            requires
                x + 12 * f <= y + 12 * f2,
        ;
    }
}

proof fn lemma_grown_steps(s: nat, f: nat, n: nat, k: nat)
    requires
        n <= k,
    ensures
        grown(s, f, n) <= grown(s, f, k),
    decreases k,
{
    if n < k {
        lemma_grown_steps(s, f, n, (k - 1) as nat);
    }
}

proof fn lemma_grown_compose(s: nat, f: nat, a: nat, b: nat)
    ensures
        grown(grown(s, f, a), f, b) == grown(s, f, a + b),
    decreases b,
{
    if b > 0 {
        lemma_grown_compose(s, f, a, (b - 1) as nat);
    }
}

/// Ten levels from a deposit of at most 2^62 with a fee of at most 2^56
/// stay below the cap.
proof fn lemma_ten_levels_fit()
    ensures
        grown(0x4000_0000_0000_0000, 0x100_0000_0000_0000, 10) <= amount_cap(),
{
    let f: nat = 0x100_0000_0000_0000;
    assert(grown(0x4000_0000_0000_0000, f, 0) == 0x4000_0000_0000_0000);
    assert(grown(0x4000_0000_0000_0000, f, 1) == 5531140918351348367);
    assert(grown(0x4000_0000_0000_0000, f, 2) == 6459790367274548434);
    assert(grown(0x4000_0000_0000_0000, f, 3) == 7397726310686980502);
    assert(grown(0x4000_0000_0000_0000, f, 4) == 8345041613533536891);
    assert(grown(0x4000_0000_0000_0000, f, 5) == 9301830069408558844);
    assert(grown(0x4000_0000_0000_0000, f, 6) == 10268186409842331016);
    assert(grown(0x4000_0000_0000_0000, f, 7) == 11244206313680440910);
    assert(grown(0x4000_0000_0000_0000, f, 8) == 12229986416556931903);
    assert(grown(0x4000_0000_0000_0000, f, 9) == 13225624320462187806);
    assert(grown(0x4000_0000_0000_0000, f, 10) == 14231218603406496268);
}

/// Validated parameters (hop count 5 to 10, split ratio 1.1 to 3.0, noise
/// at most 1%), with a Fibonacci offset of at most 100, a fee of at most
/// 2^56 and an amount of at most 2^62 base units, never make generation
/// overflow: `spec_outcome` is defined, so `generate` may be called, and
/// it is a topology exactly when the amount exceeds the reserved fees
/// (with callbacks that cannot fail, `generate` then returns `Ok`).
pub proof fn law_valid_parameters_never_overflow(params: MazeParameters, total: u64)
    requires
        spec_validation_error(params) is None,
        params.fib_offset <= 100,
        params.tx_fee <= 0x100_0000_0000_0000,
        total <= 0x4000_0000_0000_0000,
    ensures
        spec_outcome(topology_config(params), total) is Some,
        spec_outcome(topology_config(params), total) matches Some(Ok(_)) <==> total > reserved_fees(
            topology_config(params),
        ),
{
    let c = topology_config(params);
    let fee = c.tx_fee as nat;
    assert(avg_branch(c) <= 4);
    assert(estimate_product(c) <= 40) by (nonlinear_arith)
        requires
            estimate_product(c) == c.hop_count as nat * avg_branch(c),
            c.hop_count <= 10,
            avg_branch(c) <= 4,
    ;
    assert(reserved_fees(c) <= 0x100_0000_0000_0000 * 40) by (nonlinear_arith)
        requires
            reserved_fees(c) == fee * spec_estimate(c),
            fee <= 0x100_0000_0000_0000,
            spec_estimate(c) <= 40,
    ;
    if total > reserved_fees(c) {
        let net = (total - reserved_fees(c)) as u64;
        let deposit = PlanNode { level: 0, in_lo: 0, in_hi: 0, amount_in: total };
        let start = Build { nodes: seq![deposit], lo: 0, amounts: seq![net] };
        let s0 = net as nat;
        crate::laws::lemma_sum_single(net);
        lemma_ten_levels_fit();
        lemma_grown_mono(s0, 0x4000_0000_0000_0000, fee, 0x100_0000_0000_0000, 10);
        if c.pooled {
            let pre = spec_pre_pool_levels(c);
            let post = spec_post_pool_levels(c);
            let pool_level = pre + 1;
            assert(2 <= pre <= 5 && 2 <= post <= 5 && pre + post <= 10);
            lemma_grown_steps(s0, fee, pre, 10);
            lemma_run_levels_sum(c, 1, pre, start, s0);
            let b1 = run_levels(c, 1, pre, start).unwrap();
            let pool_amount = sum_u64(b1.amounts);
            let ns = push_node(b1.nodes, collector(b1, pool_level, pool_amount)).unwrap();
            let from_pool = Build {
                nodes: ns,
                lo: b1.nodes.len(),
                amounts: seq![pool_amount as u64],
            };
            crate::laws::lemma_sum_single(pool_amount as u64);
            let s1 = grown(s0, fee, pre);
            lemma_grown_compose(s0, fee, pre, post);
            lemma_grown_steps(s0, fee, pre + post, 10);
            lemma_grown_mono(pool_amount, s1, fee, fee, post);
            lemma_run_levels_sum(c, pool_level + 1, post, from_pool, pool_amount);
            let plan = pooled_plan(c, start).unwrap();
            lemma_small_plan_completes(c, plan.nodes);
        } else {
            let h = c.hop_count as nat;
            let count = (h - 1) as nat;
            lemma_grown_steps(s0, fee, count, 10);
            lemma_run_levels_sum(c, 1, count, start, s0);
            let plan = direct_plan(c, start).unwrap();
            lemma_small_plan_completes(c, plan.nodes);
        }
    }
}

} // verus!
