//! Laws of the library: properties of generated topologies and graphs,
//! of the noise and of the parameters that hold for every input.

use vstd::prelude::*;
use crate::topology::{
    completed_upto, execution_order, graph_matches, input_indices, level_members, node_matches, order_below,
    MazeGraph, MazeNode,
};
use crate::params::{has_default_settings, spec_validation_error, MazeParameters, MergeStrategy};
use crate::address_gen::{hex_digit, hex_of, lemma_hex_len};
use crate::utils::{fib, spec_add_noise, spec_fibonacci, spec_noise_range, spec_seeded_random};
use crate::plan::{
    amounts_from, collector, extends, fib_parity, spec_should_merge, spec_should_split, lemma_merge_level_extends, lemma_pass_level_extends,
    lemma_split_children_extends, lemma_split_level_extends, lemma_split_tail_len, level_step,
    merge_level, outputs_of, outputs_upto, pass_level, push_node, reserved_fees, run_levels,
    sat_sub, scaled_quotient, spec_outcome, spec_plan, spec_post_pool_levels, spec_pre_pool_levels,
    spec_split_amount, spec_split_count, split_children, split_level, split_parts_of, split_tail,
    sum_u64, topology_config, Build, Plan, PlanNode, TopologyConfig,
};

verus! {

// ---------------------------------------------------------------------
// Layering: inputs precede their node and sit one level below it
// ---------------------------------------------------------------------

/// Node `q` receives from a run of earlier nodes, nonempty unless `q` is
/// the deposit node, each one level below `q`.
pub open spec fn well_placed(nodes: Seq<PlanNode>, q: int) -> bool {
    let n = nodes[q];
    &&& n.in_lo <= n.in_hi <= q
    &&& q > 0 ==> n.in_lo < n.in_hi
    &&& forall|p: int| n.in_lo <= p < n.in_hi ==> #[trigger] nodes[p].level + 1 == n.level
}

/// The deposit node opens level 0 and every node is well placed.
pub open spec fn layered(nodes: Seq<PlanNode>) -> bool {
    &&& nodes.len() >= 1
    &&& nodes[0].level == 0
    &&& forall|q: int| 0 <= q < nodes.len() ==> #[trigger] well_placed(nodes, q)
}

/// A layered build whose last level (the nodes `lo ..`, one amount each)
/// is nonempty and sits at `level`.
pub open spec fn build_ok(b: Build, level: nat) -> bool {
    &&& layered(b.nodes)
    &&& b.nodes.len() <= 65535
    &&& b.lo + b.amounts.len() == b.nodes.len()
    &&& b.amounts.len() >= 1
    &&& forall|p: int| b.lo <= p < b.nodes.len() ==> #[trigger] b.nodes[p].level == level
}

/// The nodes from `base` on sit at `level` and receive from nonempty runs
/// inside `lo .. hi`.
pub open spec fn appended_within(ns: Seq<PlanNode>, base: nat, level: u8, lo: nat, hi: nat) -> bool {
    forall|k: int|
        base <= k < ns.len() ==> {
            &&& (#[trigger] ns[k]).level == level
            &&& lo <= ns[k].in_lo
            &&& ns[k].in_lo < ns[k].in_hi
            &&& ns[k].in_hi <= hi
        }
}

proof fn lemma_split_children_within(
    c: TopologyConfig,
    level: u8,
    parent: nat,
    parts: Seq<u64>,
    nodes: Seq<PlanNode>,
    j: nat,
)
    requires
        nodes.len() <= 65535,
        parent + 1 <= u32::MAX,
    ensures
        split_children(c, level, parent, parts, nodes, j) matches Some(v) ==> appended_within(
            v,
            nodes.len(),
            level,
            parent,
            parent + 1,
        ),
        split_children(c, level, parent, parts, nodes, j) matches Some(v) ==> v.len() <= 65535,
    decreases j,
{
    if j > 0 {
        lemma_split_children_within(c, level, parent, parts, nodes, (j - 1) as nat);
    }
}

proof fn lemma_split_level_within(
    c: TopologyConfig,
    level: u8,
    lo: nat,
    amounts: Seq<u64>,
    nodes: Seq<PlanNode>,
    i: nat,
)
    requires
        nodes.len() <= 65535,
        i <= amounts.len(),
        lo + amounts.len() <= u32::MAX,
    ensures
        split_level(c, level, lo, amounts, nodes, i) matches Some(v) ==> appended_within(
            v,
            nodes.len(),
            level,
            lo,
            lo + i,
        ) && v.len() >= nodes.len() + i,
        split_level(c, level, lo, amounts, nodes, i) matches Some(v) ==> v.len() <= 65535,
    decreases i,
{
    if i > 0 {
        lemma_split_level_within(c, level, lo, amounts, nodes, (i - 1) as nat);
        lemma_split_level_extends(c, level, lo, amounts, nodes, (i - 1) as nat);
        if let Some(ns) = split_level(c, level, lo, amounts, nodes, (i - 1) as nat) {
            let parts = split_parts_of(c, level, (i - 1) as nat, amounts[i - 1]);
            let parent = (lo + i - 1) as nat;
            lemma_split_children_within(c, level, parent, parts, ns, parts.len());
            lemma_split_children_extends(c, level, parent, parts, ns, parts.len());
            lemma_split_tail_len(
                c,
                amounts[i - 1],
                0,
                spec_split_count(c, level, (i - 1) as nat),
            );
            if let Some(v) = split_level(c, level, lo, amounts, nodes, i) {
                assert forall|k: int| nodes.len() <= k < v.len() implies {
                    &&& (#[trigger] v[k]).level == level
                    &&& lo <= v[k].in_lo
                    &&& v[k].in_lo < v[k].in_hi
                    &&& v[k].in_hi <= lo + i
                } by {
                    if k < ns.len() {
                        assert(v[k] == v.take(ns.len() as int)[k]);
                    }
                }
            }
        }
    }
}

proof fn lemma_merge_level_within(
    c: TopologyConfig,
    level: u8,
    lo: nat,
    amounts: Seq<u64>,
    nodes: Seq<PlanNode>,
    g: nat,
)
    requires
        nodes.len() <= 65535,
        g <= (amounts.len() + 1) / 2,
        lo + amounts.len() <= u32::MAX,
    ensures
        merge_level(c, level, lo, amounts, nodes, g) matches Some(v) ==> appended_within(
            v,
            nodes.len(),
            level,
            lo,
            lo + amounts.len(),
        ),
        merge_level(c, level, lo, amounts, nodes, g) matches Some(v) ==> v.len() <= 65535,
    decreases g,
{
    if g > 0 {
        lemma_merge_level_within(c, level, lo, amounts, nodes, (g - 1) as nat);
    }
}

proof fn lemma_pass_level_within(
    c: TopologyConfig,
    level: u8,
    lo: nat,
    amounts: Seq<u64>,
    nodes: Seq<PlanNode>,
    i: nat,
)
    requires
        nodes.len() <= 65535,
        i <= amounts.len(),
        lo + amounts.len() <= u32::MAX,
    ensures
        pass_level(c, level, lo, amounts, nodes, i) matches Some(v) ==> appended_within(
            v,
            nodes.len(),
            level,
            lo,
            lo + i,
        ),
        pass_level(c, level, lo, amounts, nodes, i) matches Some(v) ==> v.len() <= 65535,
    decreases i,
{
    if i > 0 {
        lemma_pass_level_within(c, level, lo, amounts, nodes, (i - 1) as nat);
    }
}

/// A level appends at least one node, each receiving from the previous
/// level.
proof fn lemma_level_within(
    c: TopologyConfig,
    level: u8,
    lo: nat,
    amounts: Seq<u64>,
    nodes: Seq<PlanNode>,
)
    requires
        nodes.len() <= 65535,
        amounts.len() >= 1,
        lo + amounts.len() <= u32::MAX,
    ensures
        level_step(c, level, lo, amounts, nodes) matches Some(v) ==> {
            &&& extends(v, nodes)
            &&& v.len() > nodes.len()
            &&& appended_within(v, nodes.len(), level, lo, lo + amounts.len())
            &&& v.len() <= 65535
        },
{
    let len = amounts.len();
    lemma_split_level_within(c, level, lo, amounts, nodes, len);
    lemma_split_level_extends(c, level, lo, amounts, nodes, len);
    lemma_merge_level_within(c, level, lo, amounts, nodes, (len + 1) / 2);
    lemma_merge_level_extends(c, level, lo, amounts, nodes, (len + 1) / 2);
    lemma_pass_level_within(c, level, lo, amounts, nodes, len);
    lemma_pass_level_extends(c, level, lo, amounts, nodes, len);
}

/// Appending nodes one level above a run of the last level keeps a
/// layered sequence layered.
proof fn lemma_append_layered(
    nodes: Seq<PlanNode>,
    ns: Seq<PlanNode>,
    level: u8,
    lo: nat,
    hi: nat,
)
    requires
        layered(nodes),
        extends(ns, nodes),
        hi <= nodes.len(),
        forall|p: int| lo <= p < hi ==> #[trigger] nodes[p].level + 1 == level,
        appended_within(ns, nodes.len(), level, lo, hi),
    ensures
        layered(ns),
{
    assert forall|k: int| 0 <= k < nodes.len() implies ns[k] == nodes[k] by {
        assert(ns.take(nodes.len() as int)[k] == ns[k]);
    }
    assert forall|q: int| 0 <= q < ns.len() implies #[trigger] well_placed(ns, q) by {
        if q < nodes.len() {
            assert(well_placed(nodes, q));
            let n = nodes[q];
            assert forall|p: int| n.in_lo <= p < n.in_hi implies #[trigger] ns[p].level + 1
                == n.level by {
                assert(nodes[p].level + 1 == n.level);
            }
        } else {
            let n = ns[q];
            assert forall|p: int| n.in_lo <= p < n.in_hi implies #[trigger] ns[p].level + 1
                == n.level by {
                assert(nodes[p].level + 1 == level);
            }
        }
    }
}

/// Every level of a run keeps the build layered.
proof fn lemma_run_levels_layered(c: TopologyConfig, first: nat, count: nat, start: Build)
    requires
        first >= 1,
        build_ok(start, (first - 1) as nat),
    ensures
        run_levels(c, first, count, start) matches Some(b) ==> build_ok(
            b,
            (first + count - 1) as nat,
        ),
    decreases count,
{
    if count > 0 {
        lemma_run_levels_layered(c, first, (count - 1) as nat, start);
        if let Some(b) = run_levels(c, first, (count - 1) as nat, start) {
            let level = first + count - 1;
            if level <= 255 {
                lemma_level_within(c, level as u8, b.lo, b.amounts, b.nodes);
                if let Some(ns) = level_step(c, level as u8, b.lo, b.amounts, b.nodes) {
                    lemma_append_layered(
                        b.nodes,
                        ns,
                        level as u8,
                        b.lo,
                        b.lo + b.amounts.len(),
                    );
                }
            }
        }
    }
}


/// The build a generation starts from: the deposit node and the amount it
/// passes on.
pub open spec fn start_build(c: TopologyConfig, total: u64) -> Build {
    Build {
        nodes: seq![PlanNode { level: 0, in_lo: 0, in_hi: 0, amount_in: total }],
        lo: 0,
        amounts: seq![(total - reserved_fees(c)) as u64],
    }
}

/// Collecting the whole last level into one node one level up keeps the
/// nodes layered.
proof fn lemma_collect_layered(b: Build, level: nat, amount: nat)
    requires
        build_ok(b, level),
        level + 1 <= 255,
    ensures
        layered(b.nodes.push(collector(b, level + 1, amount))),
{
    let ns = b.nodes.push(collector(b, level + 1, amount));
    assert(ns.take(b.nodes.len() as int) =~= b.nodes);
    assert(appended_within(ns, b.nodes.len(), (level + 1) as u8, b.lo, b.lo + b.amounts.len()));
    lemma_append_layered(b.nodes, ns, (level + 1) as u8, b.lo, b.lo + b.amounts.len());
}

/// Every transfer of a generated maze goes up exactly one level: each node
/// other than the deposit node receives from a nonempty run of earlier
/// nodes, all one level below it, and the deposit node opens level 0 and
/// receives from nobody. Without a pool this takes at least one hop.
pub proof fn law_transfers_climb_one_level(c: TopologyConfig, total: u64)
    requires
        c.pooled || c.hop_count >= 1,
    ensures
        spec_outcome(c, total) matches Some(Ok(p)) ==> layered(p.nodes),
{
    if let Some(Ok(p)) = spec_plan(c, total) {
        let start = start_build(c, total);
        assert(well_placed(start.nodes, 0));
        assert(build_ok(start, 0));
        if c.pooled {
            let pre = spec_pre_pool_levels(c);
            let post = spec_post_pool_levels(c);
            let pool_level = pre + 1;
            lemma_run_levels_layered(c, 1, pre, start);
            let b1 = run_levels(c, 1, pre, start).unwrap();
            let pool_amount = sum_u64(b1.amounts);
            lemma_collect_layered(b1, pre, pool_amount);
            let ns = push_node(b1.nodes, collector(b1, pool_level, pool_amount)).unwrap();
            let from_pool = Build { nodes: ns, lo: b1.nodes.len(), amounts: seq![pool_amount as u64] };
            assert(build_ok(from_pool, pool_level));
            lemma_run_levels_layered(c, pool_level + 1, post, from_pool);
            let b2 = run_levels(c, pool_level + 1, post, from_pool).unwrap();
            lemma_collect_layered(b2, pool_level + post, sum_u64(b2.amounts));
        } else {
            let h = c.hop_count as nat;
            lemma_run_levels_layered(c, 1, (h - 1) as nat, start);
            let b = run_levels(c, 1, (h - 1) as nat, start).unwrap();
            lemma_collect_layered(b, (h - 1) as nat, sum_u64(b.amounts));
        }
    }
}


// ---------------------------------------------------------------------
// Coverage: every node but the final one passes its funds on
// ---------------------------------------------------------------------

/// Some node from `from` on receives from node `p`.
pub open spec fn fed_from(ns: Seq<PlanNode>, from: nat, p: int) -> bool {
    exists|q: int| from <= q < ns.len() && #[trigger] ns[q].in_lo <= p && p < ns[q].in_hi
}

proof fn lemma_fed_extends(ns: Seq<PlanNode>, v: Seq<PlanNode>, from: nat, p: int)
    requires
        extends(v, ns),
        fed_from(ns, from, p),
    ensures
        fed_from(v, from, p),
{
    let q = choose|q: int| from <= q < ns.len() && #[trigger] ns[q].in_lo <= p && p < ns[q].in_hi;
    assert(v.take(ns.len() as int)[q] == v[q]);
    assert(v[q].in_lo <= p && p < v[q].in_hi);
}

proof fn lemma_split_level_covers(
    c: TopologyConfig,
    level: u8,
    lo: nat,
    amounts: Seq<u64>,
    nodes: Seq<PlanNode>,
    i: nat,
)
    requires
        nodes.len() <= 65535,
        i <= amounts.len(),
        lo + amounts.len() <= u32::MAX,
    ensures
        split_level(c, level, lo, amounts, nodes, i) matches Some(v) ==> forall|p: int|
            lo <= p < lo + i ==> #[trigger] fed_from(v, nodes.len(), p),
    decreases i,
{
    if i > 0 {
        lemma_split_level_covers(c, level, lo, amounts, nodes, (i - 1) as nat);
        lemma_split_level_extends(c, level, lo, amounts, nodes, (i - 1) as nat);
        lemma_split_level_within(c, level, lo, amounts, nodes, (i - 1) as nat);
        if let Some(ns) = split_level(c, level, lo, amounts, nodes, (i - 1) as nat) {
            let parts = split_parts_of(c, level, (i - 1) as nat, amounts[i - 1]);
            let parent = (lo + i - 1) as nat;
            lemma_split_children_within(c, level, parent, parts, ns, parts.len());
            lemma_split_children_extends(c, level, parent, parts, ns, parts.len());
            lemma_split_tail_len(
                c,
                amounts[i - 1],
                0,
                spec_split_count(c, level, (i - 1) as nat),
            );
            if let Some(v) = split_level(c, level, lo, amounts, nodes, i) {
                assert forall|p: int| lo <= p < lo + i implies #[trigger] fed_from(
                    v,
                    nodes.len(),
                    p,
                ) by {
                    if p < parent {
                        lemma_fed_extends(ns, v, nodes.len(), p);
                    } else {
                        let q = ns.len() as int;
                        assert(v[q].in_lo <= p && p < v[q].in_hi);
                    }
                }
            }
        }
    }
}

proof fn lemma_merge_level_covers(
    c: TopologyConfig,
    level: u8,
    lo: nat,
    amounts: Seq<u64>,
    nodes: Seq<PlanNode>,
    g: nat,
)
    requires
        nodes.len() <= 65535,
        g <= (amounts.len() + 1) / 2,
        lo + amounts.len() <= u32::MAX,
    ensures
        merge_level(c, level, lo, amounts, nodes, g) matches Some(v) ==> forall|p: int|
            lo <= p < lo + amounts.len() && p < lo + 2 * g ==> #[trigger] fed_from(
                v,
                nodes.len(),
                p,
            ),
    decreases g,
{
    if g > 0 {
        lemma_merge_level_covers(c, level, lo, amounts, nodes, (g - 1) as nat);
        lemma_merge_level_extends(c, level, lo, amounts, nodes, (g - 1) as nat);
        if let Some(ns) = merge_level(c, level, lo, amounts, nodes, (g - 1) as nat) {
            lemma_merge_level_extends(c, level, lo, amounts, nodes, g);
            if let Some(v) = merge_level(c, level, lo, amounts, nodes, g) {
                assert forall|p: int|
                    lo <= p < lo + amounts.len() && p < lo + 2 * g implies #[trigger] fed_from(
                    v,
                    nodes.len(),
                    p,
                ) by {
                    if p < lo + 2 * (g - 1) {
                        assert(v.take(ns.len() as int) =~= ns);
                        lemma_fed_extends(ns, v, nodes.len(), p);
                    } else {
                        let q = ns.len() as int;
                        assert(v[q].in_lo <= p && p < v[q].in_hi);
                    }
                }
            }
        }
    }
}

proof fn lemma_pass_level_covers(
    c: TopologyConfig,
    level: u8,
    lo: nat,
    amounts: Seq<u64>,
    nodes: Seq<PlanNode>,
    i: nat,
)
    requires
        nodes.len() <= 65535,
        i <= amounts.len(),
        lo + amounts.len() <= u32::MAX,
    ensures
        pass_level(c, level, lo, amounts, nodes, i) matches Some(v) ==> forall|p: int|
            lo <= p < lo + i ==> #[trigger] fed_from(v, nodes.len(), p),
    decreases i,
{
    if i > 0 {
        lemma_pass_level_covers(c, level, lo, amounts, nodes, (i - 1) as nat);
        lemma_pass_level_extends(c, level, lo, amounts, nodes, (i - 1) as nat);
        if let Some(ns) = pass_level(c, level, lo, amounts, nodes, (i - 1) as nat) {
            lemma_pass_level_extends(c, level, lo, amounts, nodes, i);
            if let Some(v) = pass_level(c, level, lo, amounts, nodes, i) {
                assert forall|p: int| lo <= p < lo + i implies #[trigger] fed_from(
                    v,
                    nodes.len(),
                    p,
                ) by {
                    if p < lo + i - 1 {
                        assert(v.take(ns.len() as int) =~= ns);
                        lemma_fed_extends(ns, v, nodes.len(), p);
                    } else {
                        let q = ns.len() as int;
                        assert(v[q].in_lo <= p && p < v[q].in_hi);
                    }
                }
            }
        }
    }
}

/// Every node of the previous level feeds some node of the new level.
proof fn lemma_level_covers(
    c: TopologyConfig,
    level: u8,
    lo: nat,
    amounts: Seq<u64>,
    nodes: Seq<PlanNode>,
)
    requires
        nodes.len() <= 65535,
        amounts.len() >= 1,
        lo + amounts.len() <= u32::MAX,
    ensures
        level_step(c, level, lo, amounts, nodes) matches Some(v) ==> forall|p: int|
            lo <= p < lo + amounts.len() ==> #[trigger] fed_from(v, nodes.len(), p),
{
    let len = amounts.len();
    lemma_split_level_covers(c, level, lo, amounts, nodes, len);
    lemma_merge_level_covers(c, level, lo, amounts, nodes, (len + 1) / 2);
    lemma_pass_level_covers(c, level, lo, amounts, nodes, len);
}

/// A build whose nodes before the last level all feed some node.
pub open spec fn build_fed(b: Build) -> bool {
    forall|p: int| 0 <= p < b.lo ==> #[trigger] fed_from(b.nodes, 0, p)
}

proof fn lemma_run_levels_fed(c: TopologyConfig, first: nat, count: nat, start: Build)
    requires
        first >= 1,
        build_ok(start, (first - 1) as nat),
        build_fed(start),
    ensures
        run_levels(c, first, count, start) matches Some(b) ==> build_fed(b),
    decreases count,
{
    if count > 0 {
        lemma_run_levels_fed(c, first, (count - 1) as nat, start);
        lemma_run_levels_layered(c, first, (count - 1) as nat, start);
        if let Some(b) = run_levels(c, first, (count - 1) as nat, start) {
            let level = first + count - 1;
            if level <= 255 {
                lemma_level_within(c, level as u8, b.lo, b.amounts, b.nodes);
                lemma_level_covers(c, level as u8, b.lo, b.amounts, b.nodes);
                if let Some(ns) = level_step(c, level as u8, b.lo, b.amounts, b.nodes) {
                    let nb = Build { nodes: ns, lo: b.nodes.len(), amounts: amounts_from(ns, b.nodes.len()) };
                    assert forall|p: int| 0 <= p < nb.lo implies #[trigger] fed_from(
                        nb.nodes,
                        0,
                        p,
                    ) by {
                        if p < b.lo {
                            lemma_fed_extends(b.nodes, ns, 0, p);
                        } else {
                            assert(fed_from(ns, b.nodes.len(), p));
                            let q = choose|q: int|
                                b.nodes.len() <= q < ns.len() && #[trigger] ns[q].in_lo <= p && p
                                    < ns[q].in_hi;
                            assert(0 <= q < ns.len() && ns[q].in_lo <= p && p < ns[q].in_hi);
                        }
                    }
                }
            }
        }
    }
}


/// Collecting the whole last level of a fed build into one node leaves
/// every earlier node feeding some node.
proof fn lemma_collect_fed(b: Build, level: nat, amount: nat)
    requires
        b.lo + b.amounts.len() == b.nodes.len(),
        b.nodes.len() + 1 <= u32::MAX,
        build_fed(b),
    ensures
        forall|p: int|
            0 <= p < b.nodes.len() ==> #[trigger] fed_from(
                b.nodes.push(collector(b, level, amount)),
                0,
                p,
            ),
{
    let ns = b.nodes.push(collector(b, level, amount));
    assert(ns.take(b.nodes.len() as int) =~= b.nodes);
    assert forall|p: int| 0 <= p < b.nodes.len() implies #[trigger] fed_from(ns, 0, p) by {
        if p < b.lo {
            lemma_fed_extends(b.nodes, ns, 0, p);
        } else {
            let q = b.nodes.len() as int;
            assert(ns[q].in_lo <= p && p < ns[q].in_hi);
        }
    }
}

/// Node `q` is among the nodes receiving from `p` exactly when `p` is in
/// its input range.
pub proof fn lemma_outputs_contains(nodes: Seq<PlanNode>, p: nat, n: nat, q: nat)
    requires
        n <= nodes.len(),
        n <= 65536,
        q < 65536,
    ensures
        outputs_upto(nodes, p, n).contains(q as u16) <==> (q < n && nodes[q as int].in_lo <= p
            && p < nodes[q as int].in_hi),
    decreases n,
{
    if n > 0 {
        lemma_outputs_contains(nodes, p, (n - 1) as nat, q);
        let prev = outputs_upto(nodes, p, (n - 1) as nat);
        let node = nodes[n - 1];
        if node.in_lo <= p && p < node.in_hi {
            let out = prev.push((n - 1) as u16);
            assert(out[out.len() - 1] == (n - 1) as u16);
            if out.contains(q as u16) {
                let k = choose|k: int| 0 <= k < out.len() && out[k] == q as u16;
                if k < prev.len() {
                    assert(prev[k] == out[k]);
                }
            }
            if prev.contains(q as u16) {
                let k = choose|k: int| 0 <= k < prev.len() && prev[k] == q as u16;
                assert(out[k] == prev[k]);
            }
        }
    }
}

/// Without any node receiving from `p`, `p` has no outputs.
proof fn lemma_outputs_empty(nodes: Seq<PlanNode>, p: nat, n: nat)
    requires
        n <= nodes.len(),
        forall|q: int| 0 <= q < n ==> !(nodes[q].in_lo <= p && p < #[trigger] nodes[q].in_hi),
    ensures
        outputs_upto(nodes, p, n).len() == 0,
    decreases n,
{
    if n > 0 {
        lemma_outputs_empty(nodes, p, (n - 1) as nat);
    }
}

/// Every node of a generated maze except the final one passes its funds
/// on to at least one node, and the final node to none: all paths
/// converge on the final node.
pub proof fn law_every_node_forwards(c: TopologyConfig, total: u64)
    ensures
        spec_outcome(c, total) matches Some(Ok(p)) ==> {
            &&& forall|k: nat| k + 1 < p.nodes.len() ==> #[trigger] outputs_of(p.nodes, k).len() > 0
            &&& outputs_of(p.nodes, (p.nodes.len() - 1) as nat).len() == 0
        },
{
    if let Some(Ok(p)) = spec_plan(c, total) {
        let start = start_build(c, total);
        assert(well_placed(start.nodes, 0));
        assert(build_ok(start, 0));
        assert(build_fed(start));
        let nodes = p.nodes;
        let n = nodes.len();
        if c.pooled {
            let pre = spec_pre_pool_levels(c);
            let post = spec_post_pool_levels(c);
            let pool_level = pre + 1;
            lemma_run_levels_layered(c, 1, pre, start);
            lemma_run_levels_fed(c, 1, pre, start);
            let b1 = run_levels(c, 1, pre, start).unwrap();
            let pool_amount = sum_u64(b1.amounts);
            lemma_collect_layered(b1, pre, pool_amount);
            lemma_collect_fed(b1, pool_level, pool_amount);
            let ns = push_node(b1.nodes, collector(b1, pool_level, pool_amount)).unwrap();
            let from_pool = Build { nodes: ns, lo: b1.nodes.len(), amounts: seq![pool_amount as u64] };
            assert(build_ok(from_pool, pool_level));
            assert(build_fed(from_pool));
            lemma_run_levels_layered(c, pool_level + 1, post, from_pool);
            lemma_run_levels_fed(c, pool_level + 1, post, from_pool);
            let b2 = run_levels(c, pool_level + 1, post, from_pool).unwrap();
            lemma_collect_layered(b2, pool_level + post, sum_u64(b2.amounts));
            lemma_collect_fed(b2, pool_level + post + 1, sum_u64(b2.amounts));
        } else {
            let h = c.hop_count as nat;
            let count: nat = if h >= 1 {
                (h - 1) as nat
            } else {
                0
            };
            lemma_run_levels_layered(c, 1, count, start);
            lemma_run_levels_fed(c, 1, count, start);
            let b = run_levels(c, 1, count, start).unwrap();
            lemma_collect_fed(b, h, sum_u64(b.amounts));
            if h >= 1 {
                lemma_collect_layered(b, (h - 1) as nat, sum_u64(b.amounts));
            } else {
                assert(nodes =~= seq![start.nodes[0], collector(start, 0, sum_u64(start.amounts))]);
            }
        }
        // the nodes before the final one each feed some node
        assert forall|k: nat| k + 1 < n implies #[trigger] outputs_of(nodes, k).len() > 0 by {
            assert(fed_from(nodes, 0, k as int));
            let q = choose|q: int| 0 <= q < nodes.len() && #[trigger] nodes[q].in_lo <= k && k
                < nodes[q].in_hi;
            lemma_outputs_contains(nodes, k, n, q as nat);
        }
        // inputs precede their node, so nothing receives from the final node
        assert forall|q: int| 0 <= q < n implies !(nodes[q].in_lo <= n - 1 && n - 1
            < #[trigger] nodes[q].in_hi) by {
            if c.pooled || c.hop_count >= 1 {
                assert(well_placed(nodes, q));
            }
        }
        lemma_outputs_empty(nodes, (n - 1) as nat, n);
    }
}


// ---------------------------------------------------------------------
// Inputs precede their node
// ---------------------------------------------------------------------

/// Every node receives from a run of earlier nodes, nonempty for every
/// node but the deposit node.
pub open spec fn inputs_precede(nodes: Seq<PlanNode>) -> bool {
    &&& nodes.len() >= 1
    &&& nodes.len() <= 65536
    &&& forall|q: int|
        0 <= q < nodes.len() ==> #[trigger] nodes[q].in_lo <= nodes[q].in_hi && nodes[q].in_hi <= q
            && (q > 0 ==> nodes[q].in_lo < nodes[q].in_hi)
}

/// Without pool and hops, a topology is the deposit node and the final node.
proof fn lemma_zero_hop_plan(c: TopologyConfig, total: u64)
    requires
        !c.pooled,
        c.hop_count == 0,
    ensures
        spec_plan(c, total) matches Some(Ok(p)) ==> p.nodes == seq![
            start_build(c, total).nodes[0],
            collector(start_build(c, total), 0, sum_u64(start_build(c, total).amounts)),
        ],
{
    if let Some(Ok(p)) = spec_plan(c, total) {
        let start = start_build(c, total);
        assert(p.nodes =~= seq![start.nodes[0], collector(start, 0, sum_u64(start.amounts))]);
    }
}

/// In every generated topology, each node receives from earlier nodes
/// only, and every node but the deposit node receives from at least one.
pub proof fn law_inputs_precede(c: TopologyConfig, total: u64)
    ensures
        spec_outcome(c, total) matches Some(Ok(p)) ==> inputs_precede(p.nodes),
{
    if let Some(Ok(p)) = spec_outcome(c, total) {
        assert(spec_plan(c, total) == Some(Ok::<Plan, crate::error::MazeError>(p)));
        law_plan_size(c, total);
        if c.pooled || c.hop_count >= 1 {
            law_transfers_climb_one_level(c, total);
            assert forall|q: int| 0 <= q < p.nodes.len() implies #[trigger] p.nodes[q].in_lo
                <= p.nodes[q].in_hi && p.nodes[q].in_hi <= q && (q > 0 ==> p.nodes[q].in_lo
                < p.nodes[q].in_hi) by {
                assert(well_placed(p.nodes, q));
            }
        } else {
            lemma_zero_hop_plan(c, total);
        }
    }
}

/// A generated topology has at most 65536 nodes: 16-bit indices.
pub proof fn law_plan_size(c: TopologyConfig, total: u64)
    ensures
        spec_plan(c, total) matches Some(Ok(p)) ==> 1 <= p.nodes.len() <= 65536,
{
    if let Some(Ok(p)) = spec_plan(c, total) {
        let start = start_build(c, total);
        assert(well_placed(start.nodes, 0));
        assert(build_ok(start, 0));
        if c.pooled {
            let pre = spec_pre_pool_levels(c);
            let post = spec_post_pool_levels(c);
            let pool_level = pre + 1;
            lemma_run_levels_layered(c, 1, pre, start);
            let b1 = run_levels(c, 1, pre, start).unwrap();
            let pool_amount = sum_u64(b1.amounts);
            let ns = push_node(b1.nodes, collector(b1, pool_level, pool_amount)).unwrap();
            let from_pool = Build { nodes: ns, lo: b1.nodes.len(), amounts: seq![pool_amount as u64] };
            lemma_collect_layered(b1, pre, pool_amount);
            assert(build_ok(from_pool, pool_level));
            lemma_run_levels_layered(c, pool_level + 1, post, from_pool);
        } else {
            let h = c.hop_count as nat;
            let count: nat = if h >= 1 {
                (h - 1) as nat
            } else {
                0
            };
            lemma_run_levels_layered(c, 1, count, start);
        }
    }
}

// ---------------------------------------------------------------------
// The same laws on generated graphs
// ---------------------------------------------------------------------

/// In a generated maze graph, node `q` is among the outputs of node `p`
/// exactly when `p` is among the inputs of `q`.
pub proof fn law_graph_edges_mirror(
    g: MazeGraph,
    params: MazeParameters,
    total: u64,
    plan: Plan,
    p: int,
    q: int,
)
    requires
        spec_outcome(topology_config(params), total) == Some(Ok::<Plan, crate::error::MazeError>(plan)),
        graph_matches(g, params, plan),
        0 <= p < g.nodes@.len(),
        0 <= q < g.nodes@.len(),
    ensures
        g.nodes@[p].outputs@.contains(q as u16) <==> g.nodes@[q].inputs@.contains(p as u16),
{
    let c = topology_config(params);
    law_inputs_precede(c, total);
    let nodes = plan.nodes;
    assert(node_matches(g.nodes@[p], p as nat, c, nodes));
    assert(node_matches(g.nodes@[q], q as nat, c, nodes));
    lemma_outputs_contains(nodes, p as nat, nodes.len(), q as nat);
    let n = nodes[q];
    assert(nodes[q].in_hi <= q);
    let ins = input_indices(n);
    if ins.contains(p as u16) {
        let t = choose|t: int| 0 <= t < ins.len() && ins[t] == p as u16;
        assert(ins[t] == (n.in_lo + t) as u16);
    }
    if n.in_lo <= p && p < n.in_hi {
        assert(ins[p - n.in_lo] == p as u16);
    }
}

/// In a generated maze graph (with a pool, or at least one hop), the
/// deposit node is node 0 at level 0 with no inputs, and every other node
/// receives from at least one node, each one level below it.
pub proof fn law_graph_levels(g: MazeGraph, params: MazeParameters, total: u64, plan: Plan)
    requires
        spec_outcome(topology_config(params), total) == Some(Ok::<Plan, crate::error::MazeError>(plan)),
        graph_matches(g, params, plan),
        topology_config(params).pooled || params.hop_count >= 1,
    ensures
        g.nodes@[g.deposit_index as int].level == 0,
        g.nodes@[g.deposit_index as int].inputs@.len() == 0,
        forall|q: int|
            0 < q < g.nodes@.len() ==> #[trigger] g.nodes@[q].inputs@.len() > 0,
        forall|p: int, q: int|
            0 <= p < g.nodes@.len() && 0 <= q < g.nodes@.len() && g.nodes@[q].inputs@.contains(
                p as u16,
            ) ==> #[trigger] g.nodes@[p].level + 1 == #[trigger] g.nodes@[q].level,
{
    let c = topology_config(params);
    law_transfers_climb_one_level(c, total);
    law_inputs_precede(c, total);
    let nodes = plan.nodes;
    assert(well_placed(nodes, 0));
    assert(node_matches(g.nodes@[0], 0, c, nodes));
    assert forall|q: int| 0 < q < g.nodes@.len() implies #[trigger] g.nodes@[q].inputs@.len()
        > 0 by {
        assert(node_matches(g.nodes@[q], q as nat, c, nodes));
        assert(well_placed(nodes, q));
    }
    assert forall|p: int, q: int|
        0 <= p < g.nodes@.len() && 0 <= q < g.nodes@.len() && g.nodes@[q].inputs@.contains(
            p as u16,
        ) implies #[trigger] g.nodes@[p].level + 1 == #[trigger] g.nodes@[q].level by {
        assert(node_matches(g.nodes@[p], p as nat, c, nodes));
        assert(node_matches(g.nodes@[q], q as nat, c, nodes));
        assert(well_placed(nodes, q));
        let n = nodes[q];
        let ins = input_indices(n);
        let t = choose|t: int| 0 <= t < ins.len() && ins[t] == p as u16;
        assert(ins[t] == (n.in_lo + t) as u16);
        assert(n.in_lo + t == p);
        assert(nodes[p].level + 1 == n.level);
    }
}

/// In a generated maze graph, the final node is the last node and sends
/// to nobody, and every other node sends to at least one node.
pub proof fn law_graph_funds_converge(g: MazeGraph, params: MazeParameters, total: u64, plan: Plan)
    requires
        spec_outcome(topology_config(params), total) == Some(Ok::<Plan, crate::error::MazeError>(plan)),
        graph_matches(g, params, plan),
    ensures
        g.final_index as int == g.nodes@.len() - 1,
        g.nodes@[g.final_index as int].outputs@.len() == 0,
        forall|k: int| 0 <= k < g.final_index ==> #[trigger] g.nodes@[k].outputs@.len() > 0,
{
    let c = topology_config(params);
    law_every_node_forwards(c, total);
    law_inputs_precede(c, total);
    let nodes = plan.nodes;
    assert(node_matches(g.nodes@[g.final_index as int], g.final_index as nat, c, nodes));
    assert forall|k: int| 0 <= k < g.final_index implies #[trigger] g.nodes@[k].outputs@.len()
        > 0 by {
        assert(node_matches(g.nodes@[k], k as nat, c, nodes));
        assert(outputs_of(nodes, k as nat).len() > 0);
    }
}


/// The outputs of `p` among the first `n` nodes are increasing indices
/// below `n`.
proof fn lemma_outputs_increasing(nodes: Seq<PlanNode>, p: nat, n: nat)
    requires
        n <= 65536,
    ensures
        forall|i: int| 0 <= i < outputs_upto(nodes, p, n).len() ==> (#[trigger] outputs_upto(nodes, p, n)[i]) < n,
        forall|i: int, j: int|
            0 <= i < j < outputs_upto(nodes, p, n).len() ==> #[trigger] outputs_upto(nodes, p, n)[i]
                < #[trigger] outputs_upto(nodes, p, n)[j],
    decreases n,
{
    if n > 0 {
        lemma_outputs_increasing(nodes, p, (n - 1) as nat);
        let prev = outputs_upto(nodes, p, (n - 1) as nat);
        let out = outputs_upto(nodes, p, n);
        if nodes[n - 1].in_lo <= p && p < nodes[n - 1].in_hi {
            assert(out == prev.push((n - 1) as u16));
            assert forall|i: int| 0 <= i < out.len() implies (#[trigger] out[i]) < n by {
                if i < prev.len() {
                    assert(out[i] == prev[i]);
                }
            }
            assert forall|i: int, j: int| 0 <= i < j < out.len() implies #[trigger] out[i]
                < #[trigger] out[j] by {
                assert(out[i] == prev[i]);
                if j < prev.len() {
                    assert(out[j] == prev[j]);
                }
            }
        } else {
            assert(out == prev);
        }
    }
}

/// In a generated maze graph no inputs or outputs list names a node twice.
pub proof fn law_graph_edges_distinct(g: MazeGraph, params: MazeParameters, total: u64, plan: Plan)
    requires
        spec_outcome(topology_config(params), total) == Some(Ok::<Plan, crate::error::MazeError>(plan)),
        graph_matches(g, params, plan),
    ensures
        forall|k: int|
            0 <= k < g.nodes@.len() ==> (#[trigger] g.nodes@[k]).inputs@.no_duplicates()
                && g.nodes@[k].outputs@.no_duplicates(),
{
    let c = topology_config(params);
    law_inputs_precede(c, total);
    let nodes = plan.nodes;
    assert forall|k: int| 0 <= k < g.nodes@.len() implies (#[trigger] g.nodes@[k]).inputs@.no_duplicates()
        && g.nodes@[k].outputs@.no_duplicates() by {
        assert(node_matches(g.nodes@[k], k as nat, c, nodes));
        let n = nodes[k];
        let ins = input_indices(n);
        assert(n.in_hi <= k);
        assert forall|i: int, j: int| 0 <= i < ins.len() && 0 <= j < ins.len() && i != j implies ins[i]
            != ins[j] by {
            assert(ins[i] == (n.in_lo + i) as u16);
            assert(ins[j] == (n.in_lo + j) as u16);
        }
        let outs = outputs_of(nodes, k as nat);
        lemma_outputs_increasing(nodes, k as nat, nodes.len());
        assert forall|i: int, j: int| 0 <= i < outs.len() && 0 <= j < outs.len() && i != j implies outs[i]
            != outs[j] by {
            if i < j {
                assert(outs[i] < outs[j]);
            } else {
                assert(outs[j] < outs[i]);
            }
        }
    }
}

/// In a layered topology where every node but the last forwards its funds,
/// node `k` sits below the last node.
proof fn lemma_below_last(nodes: Seq<PlanNode>, k: int)
    requires
        layered(nodes),
        nodes.len() <= 65536,
        forall|q: nat| q + 1 < nodes.len() ==> #[trigger] outputs_of(nodes, q).len() > 0,
        0 <= k < nodes.len() - 1,
    ensures
        nodes[k].level < nodes[nodes.len() - 1].level,
    decreases nodes.len() - k,
{
    let n = nodes.len();
    let outs = outputs_of(nodes, k as nat);
    assert(outputs_of(nodes, k as nat).len() > 0);
    let q = outs[0] as int;
    lemma_outputs_increasing(nodes, k as nat, n);
    assert(outs.contains(outs[0]));
    lemma_outputs_contains(nodes, k as nat, n, q as nat);
    assert(nodes[q].in_lo <= k < nodes[q].in_hi);
    assert(well_placed(nodes, q));
    assert(nodes[k].level + 1 == nodes[q].level);
    if q < n - 1 {
        lemma_below_last(nodes, q);
    }
}

/// In a generated maze graph (with a pool, or at least one hop), the
/// deposit node is alone on level 0 and the final node alone on the last
/// level: every other node sits strictly between them.
pub proof fn law_deposit_and_final_alone(g: MazeGraph, params: MazeParameters, total: u64, plan: Plan)
    requires
        spec_outcome(topology_config(params), total) == Some(Ok::<Plan, crate::error::MazeError>(plan)),
        graph_matches(g, params, plan),
        topology_config(params).pooled || params.hop_count >= 1,
    ensures
        g.nodes@[g.deposit_index as int].level == 0,
        forall|k: int|
            0 < k < g.nodes@.len() ==> 0 < #[trigger] g.nodes@[k].level,
        forall|k: int|
            0 <= k < g.nodes@.len() && k != g.final_index ==> #[trigger] g.nodes@[k].level
                < g.nodes@[g.final_index as int].level,
{
    let c = topology_config(params);
    law_transfers_climb_one_level(c, total);
    law_every_node_forwards(c, total);
    law_inputs_precede(c, total);
    let nodes = plan.nodes;
    let n = nodes.len();
    assert(node_matches(g.nodes@[0], 0, c, nodes));
    assert(node_matches(g.nodes@[n - 1], (n - 1) as nat, c, nodes));
    assert forall|k: int| 0 < k < g.nodes@.len() implies 0 < #[trigger] g.nodes@[k].level by {
        assert(node_matches(g.nodes@[k], k as nat, c, nodes));
        assert(well_placed(nodes, k));
        assert(nodes[nodes[k].in_lo as int].level + 1 == nodes[k].level);
    }
    assert forall|k: int| 0 <= k < g.nodes@.len() && k != g.final_index implies #[trigger] g.nodes@[k].level
        < g.nodes@[g.final_index as int].level by {
        assert(node_matches(g.nodes@[k], k as nat, c, nodes));
        lemma_below_last(nodes, k);
    }
}

// ---------------------------------------------------------------------
// Determinism
// ---------------------------------------------------------------------

/// Two graphs have the same structure: the same nodes with the same
/// levels, inputs, outputs and amounts, and the same counters. Addresses
/// and signing material may differ.
pub open spec fn same_structure(a: MazeGraph, b: MazeGraph) -> bool {
    &&& a.nodes@.len() == b.nodes@.len()
    &&& forall|k: int|
        0 <= k < a.nodes@.len() ==> {
            let x = #[trigger] a.nodes@[k];
            let y = b.nodes@[k];
            &&& x.index == y.index
            &&& x.level == y.level
            &&& x.inputs@ == y.inputs@
            &&& x.outputs@ == y.outputs@
            &&& x.amount_in == y.amount_in
            &&& x.amount_out == y.amount_out
        }
    &&& a.total_levels == b.total_levels
    &&& a.deposit_index == b.deposit_index
    &&& a.final_index == b.final_index
    &&& a.total_transactions == b.total_transactions
}

/// The same parameters and seed always produce the same topology: graphs
/// generated for the same amount with parameters that agree on seed,
/// Fibonacci offset, split ratio, hop count, merge strategy, noise, fee and
/// pool presence have the same structure, whatever addresses and
/// encryption produce.
pub proof fn law_same_parameters_same_topology(
    g1: MazeGraph,
    g2: MazeGraph,
    p1: MazeParameters,
    p2: MazeParameters,
    total: u64,
    plan1: Plan,
    plan2: Plan,
)
    requires
        topology_config(p1) == topology_config(p2),
        spec_outcome(topology_config(p1), total) == Some(Ok::<Plan, crate::error::MazeError>(plan1)),
        spec_outcome(topology_config(p2), total) == Some(Ok::<Plan, crate::error::MazeError>(plan2)),
        graph_matches(g1, p1, plan1),
        graph_matches(g2, p2, plan2),
    ensures
        same_structure(g1, g2),
{
    let c = topology_config(p1);
    assert(plan1 == plan2);
    assert forall|k: int| 0 <= k < g1.nodes@.len() implies {
        let x = #[trigger] g1.nodes@[k];
        let y = g2.nodes@[k];
        &&& x.index == y.index
        &&& x.level == y.level
        &&& x.inputs@ == y.inputs@
        &&& x.outputs@ == y.outputs@
        &&& x.amount_in == y.amount_in
        &&& x.amount_out == y.amount_out
    } by {
        assert(node_matches(g1.nodes@[k], k as nat, c, plan1.nodes));
        assert(node_matches(g2.nodes@[k], k as nat, c, plan2.nodes));
    }
}

// ---------------------------------------------------------------------
// Fees
// ---------------------------------------------------------------------

/// A transfer is refused for insufficient funds exactly when it does not
/// exceed the fees reserved for the estimated transactions, and the
/// refusal names that reserve plus one as the amount required.
pub proof fn law_insufficient_funds(c: TopologyConfig, total: u64)
    ensures
        spec_outcome(c, total) matches Some(Err(e)) ==> total <= reserved_fees(c) && e
            == (crate::error::MazeError::InsufficientFunds {
            required: (reserved_fees(c) + 1) as u64,
            available: total,
        }),
        spec_outcome(c, total) matches Some(Ok(_)) ==> total > reserved_fees(c),
{
}

/// The deposit node receives the whole amount; the final node, the last
/// node, sits on the last level.
pub proof fn law_deposit_and_final(c: TopologyConfig, total: u64)
    ensures
        spec_outcome(c, total) matches Some(Ok(p)) ==> {
            &&& p.nodes[0].amount_in == total
            &&& p.nodes[0].level == 0
            &&& p.nodes.last().level + 1 == p.total_levels
            &&& !c.pooled ==> p.total_levels == c.hop_count + 1
        },
{
    if let Some(Ok(p)) = spec_outcome(c, total) {
        let start = start_build(c, total);
        assert(well_placed(start.nodes, 0));
        assert(build_ok(start, 0));
        if c.pooled {
            let pre = spec_pre_pool_levels(c);
            let post = spec_post_pool_levels(c);
            let pool_level = pre + 1;
            lemma_run_levels_extends_start(c, 1, pre, start);
            let b1 = run_levels(c, 1, pre, start).unwrap();
            let pool_amount = sum_u64(b1.amounts);
            let ns = push_node(b1.nodes, collector(b1, pool_level, pool_amount)).unwrap();
            let from_pool = Build { nodes: ns, lo: b1.nodes.len(), amounts: seq![pool_amount as u64] };
            lemma_run_levels_extends_start(c, pool_level + 1, post, from_pool);
        } else {
            let h = c.hop_count as nat;
            let count: nat = if h >= 1 {
                (h - 1) as nat
            } else {
                0
            };
            lemma_run_levels_extends_start(c, 1, count, start);
        }
    }
}

proof fn lemma_run_levels_extends_start(c: TopologyConfig, first: nat, count: nat, start: Build)
    requires
        start.nodes.len() >= 1,
    ensures
        run_levels(c, first, count, start) matches Some(b) ==> b.nodes.len() >= start.nodes.len()
            && b.nodes[0] == start.nodes[0],
{
    crate::plan::lemma_run_levels_extends(c, first, count, start);
    if let Some(b) = run_levels(c, first, count, start) {
        assert(b.nodes.take(start.nodes.len() as int)[0] == b.nodes[0]);
    }
}

// ---------------------------------------------------------------------
// Noise and the seeded stream
// ---------------------------------------------------------------------

/// The same seed and index always give the same pseudo-random number.
pub proof fn law_seeded_random_deterministic(seed1: Seq<u8>, seed2: Seq<u8>, index: u64)
    requires
        seed1 == seed2,
    ensures
        spec_seeded_random(seed1, index) == spec_seeded_random(seed2, index),
{
}

/// Zero noise leaves every amount as it is.
pub proof fn law_zero_noise_is_identity(amount: u64, seed: Seq<u8>, index: u64)
    ensures
        spec_add_noise(amount, 0, seed, index) == Some(amount),
{
}

/// The noise stays within +/- its range: for a noise of at most 100%, the
/// noised amount lies in `[amount - range, amount + range)` (it is the
/// amount itself where the range is 0), and it is defined wherever
/// `amount + range` fits in a `u64`.
pub proof fn law_noise_within_range(amount: u64, noise: u32, seed: Seq<u8>, index: u64)
    requires
        noise <= 10_000,
    ensures
        spec_noise_range(amount, noise) <= amount,
        spec_add_noise(amount, noise, seed, index) matches Some(r) ==> {
            let range = spec_noise_range(amount, noise);
            &&& range == 0 ==> r == amount
            &&& range > 0 ==> amount - range <= r < amount + range
        },
        amount + spec_noise_range(amount, noise) <= u64::MAX ==> spec_add_noise(
            amount,
            noise,
            seed,
            index,
        ) is Some,
{
    assert(amount as nat * noise as nat <= amount as nat * 10_000) by (nonlinear_arith)
        requires
            noise <= 10_000,
    ;
    let range = spec_noise_range(amount, noise);
    let random = spec_seeded_random(seed, index);
    if range > 0 && 2 * range <= u64::MAX {
        let m = (random % (2 * range) as u64) as nat;
        assert(m < 2 * range);
    }
}

// ---------------------------------------------------------------------
// Parameters
// ---------------------------------------------------------------------

/// Default parameters pass validation.
pub proof fn law_default_parameters_are_valid(p: MazeParameters)
    requires
        has_default_settings(p),
    ensures
        spec_validation_error(p) is None,
{
}

// ---------------------------------------------------------------------
// Execution order
// ---------------------------------------------------------------------

/// How many of the first `n` nodes sit below level `l`.
pub open spec fn count_below(nodes: Seq<MazeNode>, l: nat, n: nat) -> nat
    decreases n,
{
    if n == 0 {
        0
    } else {
        count_below(nodes, l, (n - 1) as nat) + if (nodes[n - 1].level as nat) < l {
            1nat
        } else {
            0nat
        }
    }
}

/// The nodes of the first `n` at the levels below `l`, level by level.
pub open spec fn order_below_upto(nodes: Seq<MazeNode>, l: nat, n: nat) -> Seq<MazeNode>
    decreases l,
{
    if l == 0 {
        seq![]
    } else {
        order_below_upto(nodes, (l - 1) as nat, n) + level_members(nodes, (l - 1) as u8, n)
    }
}

proof fn lemma_members_level(nodes: Seq<MazeNode>, level: u8, n: nat)
    requires
        n <= nodes.len(),
    ensures
        forall|k: int|
            0 <= k < level_members(nodes, level, n).len() ==> (#[trigger] level_members(
                nodes,
                level,
                n,
            )[k]).level == level,
    decreases n,
{
    if n > 0 {
        lemma_members_level(nodes, level, (n - 1) as nat);
    }
}

proof fn lemma_count_step(nodes: Seq<MazeNode>, l: nat, n: nat)
    requires
        n <= nodes.len(),
        l < 256,
    ensures
        count_below(nodes, l + 1, n) == count_below(nodes, l, n) + level_members(
            nodes,
            l as u8,
            n,
        ).len(),
    decreases n,
{
    if n > 0 {
        lemma_count_step(nodes, l, (n - 1) as nat);
    }
}

proof fn lemma_order_below(nodes: Seq<MazeNode>, l: nat, n: nat)
    requires
        n <= nodes.len(),
        l <= 256,
    ensures
        order_below_upto(nodes, l, n).len() == count_below(nodes, l, n),
        forall|k: int|
            0 <= k < order_below_upto(nodes, l, n).len() ==> ((#[trigger] order_below_upto(
                nodes,
                l,
                n,
            )[k]).level as nat) < l,
        forall|i: int, j: int|
            0 <= i < j < order_below_upto(nodes, l, n).len() ==> (#[trigger] order_below_upto(
                nodes,
                l,
                n,
            )[i]).level <= (#[trigger] order_below_upto(nodes, l, n)[j]).level,
    decreases l,
{
    if l == 0 {
        lemma_count_zero(nodes, n);
    } else {
        let prev = order_below_upto(nodes, (l - 1) as nat, n);
        let members = level_members(nodes, (l - 1) as u8, n);
        lemma_order_below(nodes, (l - 1) as nat, n);
        lemma_members_level(nodes, (l - 1) as u8, n);
        lemma_count_step(nodes, (l - 1) as nat, n);
        let all = order_below_upto(nodes, l, n);
        assert(all == prev + members);
        assert forall|k: int| 0 <= k < all.len() implies ((#[trigger] all[k]).level as nat) < l by {
            if k < prev.len() {
                assert(all[k] == prev[k]);
            } else {
                assert(all[k] == members[k - prev.len()]);
            }
        }
        assert forall|i: int, j: int| 0 <= i < j < all.len() implies (#[trigger] all[i]).level
            <= (#[trigger] all[j]).level by {
            if j < prev.len() {
                assert(all[i] == prev[i]);
                assert(all[j] == prev[j]);
            } else if i < prev.len() {
                assert(all[i] == prev[i]);
                assert(all[j] == members[j - prev.len()]);
            } else {
                assert(all[i] == members[i - prev.len()]);
                assert(all[j] == members[j - prev.len()]);
            }
        }
    }
}

proof fn lemma_count_zero(nodes: Seq<MazeNode>, n: nat)
    ensures
        count_below(nodes, 0, n) == 0,
    decreases n,
{
    if n > 0 {
        lemma_count_zero(nodes, (n - 1) as nat);
    }
}

proof fn lemma_count_all(nodes: Seq<MazeNode>, n: nat)
    requires
        n <= nodes.len(),
    ensures
        count_below(nodes, 256, n) == n,
    decreases n,
{
    if n > 0 {
        lemma_count_all(nodes, (n - 1) as nat);
    }
}

proof fn lemma_order_below_whole(nodes: Seq<MazeNode>, l: nat)
    ensures
        order_below(nodes, l) == order_below_upto(nodes, l, nodes.len()),
    decreases l,
{
    if l > 0 {
        lemma_order_below_whole(nodes, (l - 1) as nat);
    }
}

/// The execution order has as many entries as the graph has nodes (no node
/// is lost) and never goes down a level.
pub proof fn law_execution_order_sorted(nodes: Seq<MazeNode>)
    ensures
        execution_order(nodes).len() == nodes.len(),
        forall|i: int, j: int|
            0 <= i < j < execution_order(nodes).len() ==> (#[trigger] execution_order(nodes)[i]).level
                <= (#[trigger] execution_order(nodes)[j]).level,
{
    lemma_order_below_whole(nodes, 256);
    lemma_order_below(nodes, 256, nodes.len());
    lemma_count_all(nodes, nodes.len());
}


// ---------------------------------------------------------------------
// Splitting amounts
// ---------------------------------------------------------------------

pub proof fn lemma_sum_single(x: u64)
    ensures
        sum_u64(seq![x]) == x,
{
    let one = seq![x];
    assert(one.drop_last() =~= Seq::<u64>::empty());
    assert(sum_u64(one.drop_last()) == 0);
    assert(sum_u64(one) == sum_u64(one.drop_last()) + one.last());
}

pub proof fn lemma_sum_prepend(x: u64, s: Seq<u64>)
    ensures
        sum_u64(seq![x] + s) == x + sum_u64(s),
    decreases s.len(),
{
    let all = seq![x] + s;
    if s.len() > 0 {
        lemma_sum_prepend(x, s.drop_last());
        assert(all.drop_last() =~= seq![x] + s.drop_last());
        assert(all.last() == s.last());
        assert(sum_u64(all) == sum_u64(all.drop_last()) + all.last());
    } else {
        lemma_sum_single(x);
        assert(all =~= seq![x]);
    }
}

proof fn lemma_split_tail_parts(c: TopologyConfig, remaining: u64, i: nat, parts: nat)
    requires
        2 * c.tx_fee <= u64::MAX,
    ensures
        forall|j: int|
            0 <= j < split_tail(c, remaining, i, parts).len() - 1 ==> #[trigger] split_tail(
                c,
                remaining,
                i,
                parts,
            )[j] >= 2 * c.tx_fee,
        sum_u64(split_tail(c, remaining, i, parts)) >= remaining,
    decreases parts - i,
{
    if i + 1 < parts {
        let q = scaled_quotient(remaining, c.split_ratio as nat + 100 * i);
        let part: u64 = if q >= 2 * c.tx_fee {
            q
        } else {
            (2 * c.tx_fee) as u64
        };
        let next = sat_sub(remaining as nat, part as nat) as u64;
        lemma_split_tail_parts(c, next, i + 1, parts);
        let rest = split_tail(c, next, i + 1, parts);
        let all = split_tail(c, remaining, i, parts);
        assert(all == seq![part] + rest);
        lemma_sum_prepend(part, rest);
        assert forall|j: int| 0 <= j < all.len() - 1 implies #[trigger] all[j] >= 2 * c.tx_fee by {
            if j > 0 {
                assert(all[j] == rest[j - 1]);
            }
        }
    } else {
        lemma_sum_single(remaining);
    }
}

/// Splitting an amount into `k` parts (`k >= 1`) gives `k` parts; every
/// part before the last is at least twice the fee, and together the parts
/// hold at least the amount.
pub proof fn law_split_parts(c: TopologyConfig, amount: u64, k: nat)
    requires
        k >= 1,
        2 * c.tx_fee <= u64::MAX,
    ensures
        spec_split_amount(c, amount, k).len() == k,
        forall|j: int|
            0 <= j < k - 1 ==> #[trigger] spec_split_amount(c, amount, k)[j] >= 2 * c.tx_fee,
        sum_u64(spec_split_amount(c, amount, k)) >= amount,
{
    lemma_split_tail_len(c, amount, 0, k);
    lemma_split_tail_parts(c, amount, 0, k);
}

// ---------------------------------------------------------------------
// Split and merge decisions
// ---------------------------------------------------------------------

/// Under the Early, Late, Middle and Fibonacci strategies no level both
/// splits and merges; under Fibonacci every level does exactly one of them.
pub proof fn law_split_merge_exclusive(c: TopologyConfig, level: u8)
    requires
        c.merge_strategy != MergeStrategy::Random,
    ensures
        !(spec_should_split(c, level) && spec_should_merge(c, level)),
        c.merge_strategy == MergeStrategy::Fibonacci ==> spec_should_split(c, level)
            != spec_should_merge(c, level),
{
    assert(fib_parity(c, level) < 2);
}

// ---------------------------------------------------------------------
// Progress
// ---------------------------------------------------------------------

/// The completed count never exceeds the number of nodes, and it reaches
/// it exactly when every node is completed: `get_progress` and
/// `is_completed` agree.
pub proof fn law_progress(nodes: Seq<MazeNode>)
    ensures
        completed_upto(nodes, nodes.len()) <= nodes.len(),
        completed_upto(nodes, nodes.len()) == nodes.len() <==> forall|k: int|
            0 <= k < nodes.len() ==> #[trigger] nodes[k].status@ == "completed"@,
{
    lemma_completed_upto(nodes, nodes.len());
}

proof fn lemma_completed_upto(nodes: Seq<MazeNode>, n: nat)
    requires
        n <= nodes.len(),
    ensures
        completed_upto(nodes, n) <= n,
        completed_upto(nodes, n) == n <==> forall|k: int|
            0 <= k < n ==> #[trigger] nodes[k].status@ == "completed"@,
    decreases n,
{
    if n > 0 {
        lemma_completed_upto(nodes, (n - 1) as nat);
        if nodes[n - 1].status@ != "completed"@ {
            assert(!(forall|k: int| 0 <= k < n ==> #[trigger] nodes[k].status@ == "completed"@));
        }
    }
}

// ---------------------------------------------------------------------
// Hex addresses
// ---------------------------------------------------------------------

/// Distinct signing materials get distinct hex addresses: hex notation is
/// injective.
pub proof fn law_hex_injective(a: Seq<u8>, b: Seq<u8>)
    requires
        hex_of(a) == hex_of(b),
    ensures
        a == b,
    decreases a.len(),
{
    lemma_hex_len(a);
    lemma_hex_len(b);
    if a.len() > 0 {
        let ha = hex_of(a);
        let pa = hex_of(a.drop_last());
        let pb = hex_of(b.drop_last());
        lemma_hex_len(a.drop_last());
        lemma_hex_len(b.drop_last());
        let x = a.last() as nat;
        let y = b.last() as nat;
        assert(ha[ha.len() - 2] == hex_digit(x / 16));
        assert(ha[ha.len() - 1] == hex_digit(x % 16));
        assert(hex_of(b)[ha.len() - 2] == hex_digit(y / 16));
        assert(hex_of(b)[ha.len() - 1] == hex_digit(y % 16));
        lemma_hex_digit_injective(x / 16, y / 16);
        lemma_hex_digit_injective(x % 16, y % 16);
        assert(x == y);
        assert(pa =~= ha.take(ha.len() - 2));
        assert(pb =~= hex_of(b).take(ha.len() - 2));
        law_hex_injective(a.drop_last(), b.drop_last());
        assert(a =~= a.drop_last().push(a.last()));
        assert(b =~= b.drop_last().push(b.last()));
    } else {
        assert(a =~= b);
    }
}

proof fn lemma_hex_digit_injective(d: nat, e: nat)
    requires
        d < 16,
        e < 16,
        hex_digit(d) == hex_digit(e),
    ensures
        d == e,
{
}

// ---------------------------------------------------------------------
// What each strategy decides
// ---------------------------------------------------------------------

/// Each merge strategy's decision at `level`, over the ratio
/// `level / hop_count`:
/// Early splits past half the maze and merges before it; Late the reverse;
/// Middle splits at both edges (ratio below 0.3 or above 0.7) and merges
/// strictly between them; Fibonacci splits where the Fibonacci number at
/// `(level + fib_offset) % 20` is even and merges where it is odd; Random
/// splits where the seeded draw at `level` is even and merges where the
/// draw at `level + 1000` is even.
pub proof fn law_strategy_decisions(c: TopologyConfig, level: u8)
    ensures
        c.merge_strategy == MergeStrategy::Early ==> {
            &&& spec_should_split(c, level) <==> level * 2 > c.hop_count
            &&& spec_should_merge(c, level) <==> level * 2 < c.hop_count
        },
        c.merge_strategy == MergeStrategy::Late ==> {
            &&& spec_should_split(c, level) <==> level * 2 < c.hop_count
            &&& spec_should_merge(c, level) <==> level * 2 > c.hop_count
        },
        c.merge_strategy == MergeStrategy::Middle ==> {
            &&& spec_should_split(c, level) <==> (level * 10 < c.hop_count * 3 || level * 10
                > c.hop_count * 7)
            &&& spec_should_merge(c, level) <==> (level * 10 > c.hop_count * 3 && level * 10
                < c.hop_count * 7)
        },
        c.merge_strategy == MergeStrategy::Fibonacci ==> {
            let m = (level as nat + c.fib_offset as nat) % 20;
            let f = if m <= 10 {
                fib(m)
            } else {
                fib(m + 1)
            };
            &&& spec_should_split(c, level) <==> f % 2 == 0
            &&& spec_should_merge(c, level) <==> f % 2 == 1
        },
        c.merge_strategy == MergeStrategy::Random ==> {
            &&& spec_should_split(c, level) <==> spec_seeded_random(c.seed, level as u64) % 2 == 0
            &&& spec_should_merge(c, level) <==> spec_seeded_random(c.seed, (level + 1000) as u64)
                % 2 == 0
        },
{
}

/// Under the Middle strategy the late edge of the maze splits: with ten
/// hops, levels 8 and 9 split, and with any hop count every level past
/// 70% of it does.
pub proof fn law_middle_splits_late_edge(c: TopologyConfig, level: u8)
    requires
        c.merge_strategy == MergeStrategy::Middle,
        level * 10 > c.hop_count * 7,
    ensures
        spec_should_split(c, level),
        !spec_should_merge(c, level),
{
}

// ---------------------------------------------------------------------
// Fibonacci numbers
// ---------------------------------------------------------------------

/// `fibonacci` follows the Fibonacci recurrence: F(0) = 0, F(1) = 1 and
/// each value the sum of the two before, for the table (up to 10) and for
/// the computed values past it (which are F(n + 1)).
pub proof fn law_fibonacci_recurrence(n: u8)
    ensures
        spec_fibonacci(0) == 0,
        spec_fibonacci(1) == 1,
        2 <= n <= 10 ==> spec_fibonacci(n) == spec_fibonacci((n - 1) as u8) + spec_fibonacci(
            (n - 2) as u8,
        ),
        13 <= n ==> spec_fibonacci(n) == spec_fibonacci((n - 1) as u8) + spec_fibonacci(
            (n - 2) as u8,
        ),
        n <= 10 ==> spec_fibonacci(n) == fib(n as nat),
        n > 10 ==> spec_fibonacci(n) == fib(n as nat + 1),
{
    reveal_with_fuel(fib, 3);
}

// ---------------------------------------------------------------------
// Split counts
// ---------------------------------------------------------------------

/// A node splits into three parts exactly when the seeded draw at
/// `level * 100 + i` is odd, and into two when it is even.
pub proof fn law_split_count_parity(c: TopologyConfig, level: u8, i: nat)
    requires
        level as nat * 100 + i <= u64::MAX,
    ensures
        spec_split_count(c, level, i) == 3 <==> spec_seeded_random(
            c.seed,
            (level as nat * 100 + i) as u64,
        ) % 2 == 1,
        spec_split_count(c, level, i) == 2 <==> spec_seeded_random(
            c.seed,
            (level as nat * 100 + i) as u64,
        ) % 2 == 0,
{
}

// ---------------------------------------------------------------------
// Progress counts every completed node
// ---------------------------------------------------------------------

/// The progress count of nodes none of which is completed is 0.
pub proof fn law_progress_none_completed(nodes: Seq<MazeNode>)
    requires
        forall|k: int| 0 <= k < nodes.len() ==> #[trigger] nodes[k].status@ != "completed"@,
    ensures
        completed_upto(nodes, nodes.len()) == 0,
{
    lemma_progress_none(nodes, nodes.len());
}

proof fn lemma_progress_none(nodes: Seq<MazeNode>, n: nat)
    requires
        n <= nodes.len(),
        forall|k: int| 0 <= k < nodes.len() ==> #[trigger] nodes[k].status@ != "completed"@,
    ensures
        completed_upto(nodes, n) == 0,
    decreases n,
{
    if n > 0 {
        lemma_progress_none(nodes, (n - 1) as nat);
    }
}

/// Marking one more node completed, at any index, raises the progress
/// count by exactly one; replacing a node by one of the same completion
/// leaves it as it is. So the count is the number of completed nodes,
/// wherever they stand.
pub proof fn law_progress_counts_each(nodes: Seq<MazeNode>, k: int, node: MazeNode)
    requires
        0 <= k < nodes.len(),
    ensures
        nodes[k].status@ != "completed"@ && node.status@ == "completed"@ ==> completed_upto(
            nodes.update(k, node),
            nodes.len(),
        ) == completed_upto(nodes, nodes.len()) + 1,
        (nodes[k].status@ == "completed"@) == (node.status@ == "completed"@) ==> completed_upto(
            nodes.update(k, node),
            nodes.len(),
        ) == completed_upto(nodes, nodes.len()),
{
    lemma_progress_update(nodes, k, node, nodes.len());
}

proof fn lemma_progress_update(nodes: Seq<MazeNode>, k: int, node: MazeNode, n: nat)
    requires
        0 <= k < nodes.len(),
        n <= nodes.len(),
    ensures
        n <= k ==> completed_upto(nodes.update(k, node), n) == completed_upto(nodes, n),
        n > k ==> completed_upto(nodes.update(k, node), n) + (if nodes[k].status@ == "completed"@ {
            1int
        } else {
            0int
        }) == completed_upto(nodes, n) + (if node.status@ == "completed"@ {
            1int
        } else {
            0int
        }),
    decreases n,
{
    if n > 0 {
        lemma_progress_update(nodes, k, node, (n - 1) as nat);
        let u = nodes.update(k, node);
        if n - 1 != k {
            assert(u[n - 1] == nodes[n - 1]);
        } else {
            assert(u[n - 1] == node);
        }
    }
}

} // verus!
