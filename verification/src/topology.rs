//! Maze topology generator.
//!
//! Generates a dynamic maze graph for privacy-preserving transaction
//! routing. The topology consists of multiple splits and merges across
//! levels, parameterized with a seed for deterministic but unpredictable
//! routing patterns.
//!
//! This module is fully chain-agnostic. Chain-specific address generation
//! is injected via the `AddressGenerator` trait.

use vstd::prelude::*;
use crate::address_gen::AddressGenerator;
use crate::error::{error_text, MazeError};
use crate::params::{
    offset_of_draw, pattern_of_draw, ratio_of_draw, strategy_of_draw, MazeParameters, MergeStrategy,
};
use crate::plan::{
    amounts_from, collector, direct_plan, edges_upto, estimate_product, fib_index_overflows,
    lemma_level_grows, lemma_merge_level_none, lemma_outputs_len, lemma_pass_level_none,
    lemma_plan_pool, lemma_run_levels_none, lemma_split_children_none, lemma_split_level_none,
    lemma_split_tail_len, lemma_sum_prefix, level_step, merge_level, outputs_of, outputs_upto,
    pass_level, plan_completes, pooled_plan, reserved_fees, run_levels, sat_sub, scaled_quotient,
    spec_amount_out, spec_estimate, spec_outcome, spec_plan, spec_post_pool_levels,
    spec_pre_pool_levels, spec_should_merge, spec_should_split, spec_split_amount,
    spec_split_count, spec_total_transactions, split_children, split_level, split_parts_of,
    split_tail, sum_u64, topology_config, Build, Plan, PlanNode, TopologyConfig,
};
use crate::utils::{checked_add_noise, fibonacci, seeded_random};

verus! {

/// A node in the maze graph
#[derive(Debug, Clone)]
pub struct MazeNode {
    /// Unique index of this node
    pub index: u16,
    /// Level/depth in the maze (0 = deposit, max = final)
    pub level: u8,
    /// Address string in the chain's native format
    pub address: String,
    /// Encrypted signing material bytes
    pub signing_material_encrypted: Vec<u8>,
    /// Incoming edges (node indices that send to this node)
    pub inputs: Vec<u16>,
    /// Outgoing edges (node indices this node sends to)
    pub outputs: Vec<u16>,
    /// Amount to receive (in base units, e.g. lamports)
    pub amount_in: u64,
    /// Amount to send out (after TX fee)
    pub amount_out: u64,
    /// Transaction signature for incoming TX
    pub tx_in_signature: Option<String>,
    /// Transaction signatures for outgoing TXs
    pub tx_out_signatures: Vec<Option<String>>,
    /// Status: pending, completed, failed
    pub status: String,
}

/// The complete maze graph
#[derive(Debug, Clone)]
pub struct MazeGraph {
    /// All nodes in the maze
    pub nodes: Vec<MazeNode>,
    /// Maze parameters used for generation
    pub parameters: MazeParameters,
    /// Total levels in maze
    pub total_levels: u8,
    /// Deposit node index (always 0)
    pub deposit_index: u16,
    /// Final node index (sends to destination)
    pub final_index: u16,
    /// Total TX count
    pub total_transactions: u16,
}

/// The node indices `in_lo .. in_hi` of a planned node's inputs.
pub open spec fn input_indices(n: PlanNode) -> Seq<u16> {
    Seq::new(sat_sub(n.in_hi as nat, n.in_lo as nat), |t: int| (n.in_lo + t) as u16)
}

/// Node `k` of a graph carries what the plan says of node `k`, and is
/// pending with no transaction signed yet.
pub open spec fn node_matches(n: MazeNode, k: nat, c: TopologyConfig, nodes: Seq<PlanNode>) -> bool {
    &&& n.index == k
    &&& n.level == nodes[k as int].level
    &&& n.inputs@ == input_indices(nodes[k as int])
    &&& n.outputs@ == outputs_of(nodes, k)
    &&& n.amount_in == nodes[k as int].amount_in
    &&& n.amount_out == spec_amount_out(c, nodes, k)
    &&& n.tx_in_signature is None
    &&& n.tx_out_signatures@.len() == 0
    &&& n.status@ == "pending"@
}

/// Two parameter sets hold the same values.
pub open spec fn same_parameters(a: MazeParameters, b: MazeParameters) -> bool {
    &&& a.seed@ == b.seed@
    &&& a.fib_offset == b.fib_offset
    &&& a.split_ratio == b.split_ratio
    &&& a.hop_count == b.hop_count
    &&& a.merge_strategy == b.merge_strategy
    &&& a.delay_pattern == b.delay_pattern
    &&& a.amount_noise == b.amount_noise
    &&& a.delay_ms == b.delay_ms
    &&& a.delay_scope == b.delay_scope
    &&& a.tx_fee == b.tx_fee
    &&& match (a.pool_address, b.pool_address) {
        (Some(x), Some(y)) => x@ == y@,
        (None, None) => true,
        _ => false,
    }
    &&& match (a.pool_signing_material, b.pool_signing_material) {
        (Some(x), Some(y)) => x@ == y@,
        (None, None) => true,
        _ => false,
    }
}

/// The graph lays out the plan: its nodes carry the plan's levels, inputs,
/// outputs and amounts, its counters are the plan's, and its parameters
/// are `params`.
pub open spec fn graph_layout(g: MazeGraph, params: MazeParameters, plan: Plan) -> bool {
    let c = topology_config(params);
    &&& g.nodes@.len() == plan.nodes.len()
    &&& forall|k: int|
        0 <= k < g.nodes@.len() ==> node_matches(#[trigger] g.nodes@[k], k as nat, c, plan.nodes)
    &&& g.total_levels == plan.total_levels
    &&& g.deposit_index == 0
    &&& g.final_index as nat + 1 == plan.nodes.len()
    &&& g.total_transactions == spec_total_transactions(plan.nodes)
    &&& same_parameters(g.parameters, params)
}

/// The graph realizes the plan: it lays the plan out, and the pool node
/// carries the pool address.
pub open spec fn graph_matches(g: MazeGraph, params: MazeParameters, plan: Plan) -> bool {
    &&& graph_layout(g, params, plan)
    &&& match plan.pool_index {
        Some(k) => params.pool_address matches Some(a) && g.nodes@[k as int].address@ == a@,
        None => true,
    }
}

/// The pool node (where the plan has one) holds the pool signing material
/// encrypted by `encrypt_fn`.
pub open spec fn pool_material_encrypted<F: Fn(&[u8]) -> Result<Vec<u8>, MazeError>>(
    g: MazeGraph,
    params: MazeParameters,
    plan: Plan,
    encrypt_fn: F,
) -> bool {
    plan.pool_index matches Some(p) ==> (params.pool_signing_material matches Some(m)
        && encryption_of(encrypt_fn, m@, Ok(g.nodes@[p as int].signing_material_encrypted)))
}

/// A secret is the pool's: the pool address, and the pool signing
/// material encrypted by `encrypt_fn`.
pub open spec fn pool_secret_holds<F: Fn(&[u8]) -> Result<Vec<u8>, MazeError>>(
    params: MazeParameters,
    encrypt_fn: F,
    secret: (String, Vec<u8>),
) -> bool {
    &&& params.pool_address matches Some(a) && secret.0@ == a@
    &&& params.pool_signing_material matches Some(m) && encryption_of(encrypt_fn, m@, Ok(secret.1))
}

/// A copy of the parameters.
fn copy_parameters(p: &MazeParameters) -> (r: MazeParameters)
    ensures
        same_parameters(r, *p),
{
    let pool_address = match &p.pool_address {
        Some(a) => Some(a.clone()),
        None => None,
    };
    let pool_signing_material = match &p.pool_signing_material {
        Some(m) => {
            let v = m.clone();
            assert(v@ =~= m@);
            Some(v)
        },
        None => None,
    };
    MazeParameters {
        seed: p.seed,
        fib_offset: p.fib_offset,
        split_ratio: p.split_ratio,
        hop_count: p.hop_count,
        merge_strategy: p.merge_strategy,
        delay_pattern: p.delay_pattern,
        amount_noise: p.amount_noise,
        delay_ms: p.delay_ms,
        delay_scope: p.delay_scope,
        tx_fee: p.tx_fee,
        pool_address,
        pool_signing_material,
    }
}

/// The indices of a planned node's inputs.
fn input_vec(n: PlanNode) -> (r: Vec<u16>)
    ensures
        r@ == input_indices(n),
{
    let mut v: Vec<u16> = Vec::new();
    let mut x: u32 = n.in_lo;
    while x < n.in_hi
        invariant
            n.in_lo <= x <= n.in_hi || (x == n.in_lo && n.in_hi <= n.in_lo),
            v@ == Seq::new((x - n.in_lo) as nat, |t: int| (n.in_lo + t) as u16),
        decreases n.in_hi - x,
    {
        v.push(x as u16);
        x = x + 1;
        assert(v@ =~= Seq::new((x - n.in_lo) as nat, |t: int| (n.in_lo + t) as u16));
    }
    assert(v@ =~= input_indices(n));
    v
}

/// The nodes that receive from node `p`, in order.
fn outputs_for(nodes: &Vec<PlanNode>, p: usize) -> (r: Vec<u16>)
    ensures
        r@ == outputs_of(nodes@, p as nat),
{
    let mut v: Vec<u16> = Vec::new();
    let n = nodes.len();
    let mut q: usize = 0;
    while q < n
        invariant
            q <= n,
            n == nodes@.len(),
            v@ == outputs_upto(nodes@, p as nat, q as nat),
        decreases n - q,
    {
        let node = nodes[q];
        if node.in_lo as usize <= p && p < node.in_hi as usize {
            v.push(q as u16);
        }
        q = q + 1;
    }
    v
}

/// `out` is a possible result of `encrypt_fn` on bytes that read `data`.
pub open spec fn encryption_of<F: Fn(&[u8]) -> Result<Vec<u8>, MazeError>>(
    encrypt_fn: F,
    data: Seq<u8>,
    out: Result<Vec<u8>, MazeError>,
) -> bool {
    exists|d: &[u8]| d@ == data && #[trigger] encrypt_fn.ensures((d,), out)
}

/// A node secret drawn from `addr_gen`: its address belongs to some
/// signing material (as `addr_gen` declares), and its encrypted material is
/// what `encrypt_fn` made of that signing material.
pub open spec fn drawn_secret<G: AddressGenerator + ?Sized, F: Fn(&[u8]) -> Result<Vec<u8>, MazeError>>(
    addr_gen: &G,
    encrypt_fn: F,
    address: String,
    encrypted: Vec<u8>,
) -> bool {
    exists|m: Seq<u8>|
        addr_gen.belongs(address@, m) && #[trigger] encryption_of(encrypt_fn, m, Ok(encrypted))
}

/// `material` is a possible result of encrypting some signing material.
pub open spec fn encrypted_by<F: Fn(&[u8]) -> Result<Vec<u8>, MazeError>>(
    encrypt_fn: F,
    material: Vec<u8>,
) -> bool {
    exists|data: &[u8]| #[trigger] encrypt_fn.ensures((data,), Ok(material))
}

/// `e` is an error that generation passes on: an error `addr_gen` may
/// return, as `AddressGeneration` with its text, or an error that
/// `encrypt_fn` returned, unchanged.
pub open spec fn generation_failure<
    G: AddressGenerator + ?Sized,
    F: Fn(&[u8]) -> Result<Vec<u8>, MazeError>,
>(e: MazeError, addr_gen: &G, encrypt_fn: F) -> bool {
    ||| (e matches MazeError::AddressGeneration(m) && exists|inner: MazeError|
        #[trigger] addr_gen.fails_with(inner) && error_text(inner) == m@)
    ||| exists|data: &[u8]| #[trigger] encrypt_fn.ensures((data,), Err(e))
}

/// Neither callback can fail: `addr_gen` returns no error, and
/// `encrypt_fn` returns no error on any input.
pub open spec fn callbacks_cannot_fail<
    G: AddressGenerator + ?Sized,
    F: Fn(&[u8]) -> Result<Vec<u8>, MazeError>,
>(addr_gen: &G, encrypt_fn: F) -> bool {
    &&& forall|e: MazeError| !#[trigger] addr_gen.fails_with(e)
    &&& forall|data: &[u8], e: MazeError| !#[trigger] encrypt_fn.ensures((data,), Err(e))
}

/// The secret of a node from what the address generator returned: the
/// address as generated and the signing material encrypted by
/// `encrypt_fn`; an encryption error as `encrypt_fn` returned it; a
/// generator error `e` as `AddressGeneration` with the text of `e`.
pub fn node_secret<F>(drawn: Result<(String, Vec<u8>), MazeError>, encrypt_fn: &F) -> (r: Result<
    (String, Vec<u8>),
    MazeError,
>) where F: Fn(&[u8]) -> Result<Vec<u8>, MazeError>
    requires
        forall|data: &[u8]| encrypt_fn.requires((data,)),
    ensures
        match drawn {
            Err(e) => r matches Err(MazeError::AddressGeneration(m)) && m@ == error_text(e),
            Ok((address, material)) => match r {
                Ok((a, encrypted)) => a == address && encryption_of(
                    *encrypt_fn,
                    material@,
                    Ok(encrypted),
                ),
                Err(e) => encryption_of(*encrypt_fn, material@, Err(e)),
            },
        },
{
    match drawn {
        Err(e) => {
            let text = e.to_string();
            Err(MazeError::AddressGeneration(text))
        },
        Ok((address, material)) => {
            let data = material.as_slice();
            let encrypted = encrypt_fn(data);
            assert(encrypt_fn.ensures((data,), encrypted));
            match encrypted {
                Ok(v) => Ok((address, v)),
                Err(e) => Err(e),
            }
        },
    }
}

/// A fresh address from `addr_gen` passed through `node_secret`.
fn draw_secret<A: AddressGenerator + ?Sized, F>(addr_gen: &A, encrypt_fn: &F) -> (r: Result<
    (String, Vec<u8>),
    MazeError,
>) where F: Fn(&[u8]) -> Result<Vec<u8>, MazeError>
    requires
        forall|data: &[u8]| encrypt_fn.requires((data,)),
    ensures
        r matches Ok((a, enc)) ==> drawn_secret(addr_gen, *encrypt_fn, a, enc),
        r matches Err(e) ==> generation_failure(e, addr_gen, *encrypt_fn),
{
    let drawn = addr_gen.generate();
    let ghost d = drawn;
    let secret = node_secret(drawn, encrypt_fn);
    let ghost sc = secret;
    proof {
        match sc {
            Ok((a, enc)) => {
                let (_, m) = d.unwrap();
                assert(encryption_of(*encrypt_fn, m@, Ok(enc)));
            },
            Err(e) => {
                if let Err(inner) = d {
                    assert(addr_gen.fails_with(inner));
                } else {
                    let (_, m) = d.unwrap();
                    let w = choose|w: &[u8]| w@ == m@ && #[trigger] encrypt_fn.ensures((w,), Err(e));
                    assert(encrypt_fn.ensures((w,), Err(e)));
                }
            },
        }
    }
    secret
}

/// The secret of the pool node: the pool address and the pool signing
/// material encrypted by `encrypt_fn`, or the encryption error.
fn pool_secret<F>(address: &String, material: &Vec<u8>, encrypt_fn: &F) -> (r: Result<
    (String, Vec<u8>),
    MazeError,
>) where F: Fn(&[u8]) -> Result<Vec<u8>, MazeError>
    requires
        forall|data: &[u8]| encrypt_fn.requires((data,)),
    ensures
        match r {
            Ok((a, encrypted)) => a@ == address@ && encryption_of(
                *encrypt_fn,
                material@,
                Ok(encrypted),
            ),
            Err(e) => encryption_of(*encrypt_fn, material@, Err(e)),
        },
{
    let data = material.as_slice();
    let encrypted = encrypt_fn(data);
    assert(encrypt_fn.ensures((data,), encrypted));
    match encrypted {
        Ok(v) => Ok((address.clone(), v)),
        Err(e) => Err(e),
    }
}

/// Maze Generator
///
/// Generates maze topologies using the provided parameters and address
/// generator. The same parameters + seed always produce the same topology
/// structure (deterministic).
pub struct MazeGenerator {
    params: MazeParameters,
}

/// Merge groups: node indices and their amounts, in pairs (the last group
/// alone where the count is odd).
pub open spec fn spec_merge_groups(nodes: Seq<u16>, amounts: Seq<u64>) -> Seq<(Seq<u16>, Seq<u64>)> {
    Seq::new(
        ((nodes.len() + 1) / 2) as nat,
        |g: int|
            if 2 * g + 1 < nodes.len() {
                (seq![nodes[2 * g], nodes[2 * g + 1]], seq![amounts[2 * g], amounts[2 * g + 1]])
            } else {
                (seq![nodes[2 * g]], seq![amounts[2 * g]])
            },
    )
}

/// `x` divided by the fixed-point ratio `ratio / 1000`, rounded down,
/// saturating (see `scaled_quotient`).
fn divide_by_ratio(x: u64, ratio: u128) -> (r: u64)
    ensures
        r == scaled_quotient(x, ratio as nat),
{
    if ratio == 0 {
        if x == 0 {
            0
        } else {
            u64::MAX
        }
    } else {
        assert(x as nat * 1000 <= 0xffff_ffff_ffff_ffff * 1000) by (nonlinear_arith);
        let q: u128 = x as u128 * 1000 / ratio;
        if q > 0xffff_ffff_ffff_ffff {
            u64::MAX
        } else {
            q as u64
        }
    }
}

/// The node indices `lo .. lo + n`.
fn index_range(lo: usize, n: usize) -> (r: Vec<u16>)
    requires
        lo + n <= 65536,
    ensures
        r@ == Seq::new(n as nat, |k: int| (lo + k) as u16),
{
    let mut v: Vec<u16> = Vec::new();
    let mut k: usize = 0;
    while k < n
        invariant
            k <= n,
            lo + n <= 65536,
            v@ == Seq::new(k as nat, |t: int| (lo + t) as u16),
        decreases n - k,
    {
        v.push((lo + k) as u16);
        k = k + 1;
        assert(v@ =~= Seq::new(k as nat, |t: int| (lo + t) as u16));
    }
    v
}

/// The amounts received by the nodes `from ..`.
fn level_amounts(nodes: &Vec<PlanNode>, from: usize) -> (r: Vec<u64>)
    requires
        from <= nodes@.len(),
    ensures
        r@ == amounts_from(nodes@, from as nat),
{
    let mut v: Vec<u64> = Vec::new();
    let n = nodes.len();
    let mut k = from;
    while k < n
        invariant
            from <= k <= n,
            n == nodes@.len(),
            v@ == Seq::new((k - from) as nat, |t: int| nodes@[from + t].amount_in),
        decreases n - k,
    {
        v.push(nodes[k].amount_in);
        k = k + 1;
        assert(v@ =~= Seq::new((k - from) as nat, |t: int| nodes@[from + t].amount_in));
    }
    v
}

/// The sum of the amounts, or `None` where it exceeds `u64::MAX`.
fn sum_amounts(amounts: &Vec<u64>) -> (r: Option<u64>)
    ensures
        match r {
            Some(v) => v == sum_u64(amounts@),
            None => sum_u64(amounts@) > u64::MAX,
        },
{
    let n = amounts.len();
    let mut acc: u64 = 0;
    let mut i: usize = 0;
    while i < n
        invariant
            i <= n,
            n == amounts@.len(),
            acc == sum_u64(amounts@.take(i as int)),
        decreases n - i,
    {
        assert(amounts@.take((i + 1) as int).drop_last() =~= amounts@.take(i as int));
        match acc.checked_add(amounts[i]) {
            None => {
                proof {
                    lemma_sum_prefix(amounts@, (i + 1) as nat);
                }
                return None;
            },
            Some(v) => {
                acc = v;
            },
        }
        i = i + 1;
    }
    assert(amounts@.take(n as int) =~= amounts@);
    Some(acc)
}

/// A planned topology: the nodes (the last is the final node), the pool
/// node where there is one, and the number of levels.
pub struct TopologyPlan {
    pub nodes: Vec<PlanNode>,
    pub pool_index: Option<usize>,
    pub total_levels: u8,
}

impl View for TopologyPlan {
    type V = Plan;

    open spec fn view(&self) -> Plan {
        Plan {
            nodes: self.nodes@,
            pool_index: match self.pool_index {
                Some(i) => Some(i as nat),
                None => None,
            },
            total_levels: self.total_levels,
        }
    }
}

impl MazeGenerator {
    /// The parameters the generator was made with.
    pub closed spec fn params(&self) -> MazeParameters {
        self.params
    }

    /// The part of the parameters that decides the topology.
    pub open spec fn config(&self) -> TopologyConfig {
        topology_config(self.params())
    }

    /// A generator for the given parameters.
    pub fn new(params: MazeParameters) -> (r: Self)
        ensures
            r.params() == params,
    {
        Self { params }
    }

    /// A generator with randomized parameters (see `MazeParameters::random`).
    pub fn with_random_params() -> (r: Self)
        ensures
            exists|o: u8| r.params().fib_offset == #[trigger] offset_of_draw(o),
            exists|w: u32| r.params().split_ratio == #[trigger] ratio_of_draw(w),
            exists|m: u8| r.params().merge_strategy == #[trigger] strategy_of_draw(m),
            exists|d: u8| r.params().delay_pattern == #[trigger] pattern_of_draw(d),
            r.params().hop_count == crate::params::DEFAULT_HOPS,
            r.params().amount_noise == crate::params::DEFAULT_AMOUNT_NOISE,
            r.params().delay_ms == crate::params::DEFAULT_DELAY_MS,
            r.params().delay_scope == crate::params::DelayScope::Node,
            r.params().tx_fee == crate::params::DEFAULT_TX_FEE,
            r.params().pool_address is None,
            r.params().pool_signing_material is None,
    {
        Self { params: MazeParameters::random() }
    }

    /// Estimate transaction count before generation: hop count times 1.5
    /// times the split ratio (rounded down), at least 10; `None` where the
    /// 16-bit product overflows.
    fn estimate_transaction_count(&self) -> (r: Option<u16>)
        ensures
            match r {
                Some(e) => estimate_product(self.config()) <= 65535 && e == spec_estimate(
                    self.config(),
                ),
                None => estimate_product(self.config()) > 65535,
            },
    {
        let scaled: u64 = self.params.split_ratio as u64 * 3 / 2000;
        let avg_branch: u16 = if scaled > 65535 {
            65535
        } else {
            scaled as u16
        };
        let product = (self.params.hop_count as u16).checked_mul(avg_branch);
        match product {
            None => None,
            Some(p) => if p < 10 {
                Some(10)
            } else {
                Some(p)
            },
        }
    }

    /// Determine if we should split at this level
    pub fn should_split_at_level(&self, level: u8) -> (r: bool)
        requires
            !fib_index_overflows(self.config(), level),
        ensures
            r == spec_should_split(self.config(), level),
    {
        let l = level as u32;
        let h = self.params.hop_count as u32;
        match self.params.merge_strategy {
            MergeStrategy::Early => 2 * l > h,
            MergeStrategy::Late => 2 * l < h,
            MergeStrategy::Middle => 10 * l < 3 * h || 10 * l > 7 * h,
            MergeStrategy::Fibonacci => {
                let fib_idx = (level + self.params.fib_offset) % 20;
                fibonacci(fib_idx) % 2 == 0
            },
            MergeStrategy::Random => seeded_random(self.params.seed.as_slice(), level as u64) % 2
                == 0,
        }
    }

    /// Determine if we should merge at this level
    pub fn should_merge_at_level(&self, level: u8) -> (r: bool)
        requires
            !fib_index_overflows(self.config(), level),
        ensures
            r == spec_should_merge(self.config(), level),
    {
        let l = level as u32;
        let h = self.params.hop_count as u32;
        match self.params.merge_strategy {
            MergeStrategy::Early => 2 * l < h,
            MergeStrategy::Late => 2 * l > h,
            MergeStrategy::Middle => 10 * l > 3 * h && 10 * l < 7 * h,
            MergeStrategy::Fibonacci => {
                let fib_idx = (level + self.params.fib_offset) % 20;
                fibonacci(fib_idx) % 2 == 1
            },
            MergeStrategy::Random => seeded_random(
                self.params.seed.as_slice(),
                level as u64 + 1000,
            ) % 2 == 0,
        }
    }

    /// Get number of splits for a node: 2 or 3.
    fn get_split_count(&self, level: u8, node_idx: u64) -> (r: usize)
        requires
            level as nat * 100 + node_idx <= u64::MAX,
        ensures
            r == spec_split_count(self.config(), level, node_idx as nat),
            2 <= r <= 3,
    {
        let rand_val = seeded_random(self.params.seed.as_slice(), level as u64 * 100 + node_idx);
        let base: usize = 2 + (rand_val % 2) as usize;
        if base < 4 {
            base
        } else {
            4
        }
    }

    /// Split amount into parts using the golden ratio variant: part `i` is
    /// the remainder divided by the split ratio plus 0.1 per part before it,
    /// at least twice the fee; the last part is what remains.
    fn split_amount(&self, amount: u64, parts: usize) -> (r: Vec<u64>)
        requires
            2 * self.config().tx_fee <= u64::MAX,
        ensures
            r@ == spec_split_amount(self.config(), amount, parts as nat),
            parts >= 1 ==> r@.len() == parts,
    {
        proof {
            if parts >= 1 {
                lemma_split_tail_len(self.config(), amount, 0, parts as nat);
            }
        }
        let ghost c = self.config();
        if parts <= 1 {
            return vec![amount];
        }
        let mut amounts: Vec<u64> = Vec::with_capacity(parts);
        let mut remaining = amount;
        let min_part: u64 = self.params.tx_fee * 2;
        let mut i: usize = 0;
        while i < parts - 1
            invariant
                c == self.config(),
                2 <= parts,
                i <= parts - 1,
                min_part == 2 * c.tx_fee,
                amounts@ + split_tail(c, remaining, i as nat, parts as nat) == split_tail(
                    c,
                    amount,
                    0,
                    parts as nat,
                ),
            decreases parts - 1 - i,
        {
            let ratio: u128 = self.params.split_ratio as u128 + 100 * i as u128;
            let q = divide_by_ratio(remaining, ratio);
            let part = if q >= min_part {
                q
            } else {
                min_part
            };
            let ghost before = amounts@;
            amounts.push(part);
            let next = remaining.saturating_sub(part);
            assert(split_tail(c, remaining, i as nat, parts as nat) == seq![part] + split_tail(
                c,
                next,
                (i + 1) as nat,
                parts as nat,
            ));
            assert(amounts@ + split_tail(c, next, (i + 1) as nat, parts as nat) =~= before
                + split_tail(c, remaining, i as nat, parts as nat));
            remaining = next;
            i = i + 1;
        }
        let ghost before = amounts@;
        amounts.push(remaining);
        assert(split_tail(c, remaining, i as nat, parts as nat) == seq![remaining]);
        assert(amounts@ =~= before + split_tail(c, remaining, i as nat, parts as nat));
        amounts
    }

    /// Create merge groups from previous nodes: consecutive pairs, the last
    /// node alone where their number is odd; each node takes the amount at
    /// its position (amounts past the last node are not used).
    fn create_merge_groups(&self, prev_nodes: &[u16], prev_amounts: &[u64]) -> (r: Vec<
        (Vec<u16>, Vec<u64>),
    >)
        requires
            prev_nodes@.len() <= prev_amounts@.len(),
        ensures
            r@.len() == spec_merge_groups(prev_nodes@, prev_amounts@).len(),
            forall|g: int|
                0 <= g < r@.len() ==> (#[trigger] r@[g]).0@ == spec_merge_groups(
                    prev_nodes@,
                    prev_amounts@,
                )[g].0 && r@[g].1@ == spec_merge_groups(prev_nodes@, prev_amounts@)[g].1,
    {
        let ghost spec = spec_merge_groups(prev_nodes@, prev_amounts@);
        let mut groups: Vec<(Vec<u16>, Vec<u64>)> = Vec::new();
        let n = prev_nodes.len();
        let mut i: usize = 0;
        while i < n
            invariant
                n == prev_nodes@.len(),
                n <= prev_amounts@.len(),
                spec == spec_merge_groups(prev_nodes@, prev_amounts@),
                i <= n,
                i % 2 == 0 || i == n,
                groups@.len() == (i + 1) / 2,
                forall|g: int|
                    0 <= g < groups@.len() ==> (#[trigger] groups@[g]).0@ == spec[g].0
                        && groups@[g].1@ == spec[g].1,
            decreases n - i,
        {
            if i + 1 < n {
                let pair = (vec![prev_nodes[i], prev_nodes[i + 1]], vec![prev_amounts[i], prev_amounts[i + 1]]);
                assert(pair.0@ =~= spec[(i / 2) as int].0);
                assert(pair.1@ =~= spec[(i / 2) as int].1);
                groups.push(pair);
                i = i + 2;
            } else {
                let single = (vec![prev_nodes[i]], vec![prev_amounts[i]]);
                assert(single.0@ =~= spec[(i / 2) as int].0);
                assert(single.1@ =~= spec[(i / 2) as int].1);
                groups.push(single);
                i = i + 1;
            }
        }
        groups
    }

    /// Plans a split level: each node of the previous level (the nodes
    /// `lo ..` passing on `amounts`) splits into 2-3 nodes.
    fn split_level_nodes(&self, level: u8, lo: usize, amounts: &Vec<u64>, nodes: Vec<PlanNode>) -> (r:
        Option<Vec<PlanNode>>)
        requires
            nodes@.len() <= 65535,
            lo + amounts@.len() <= nodes@.len(),
            amounts@.len() < 4,
            2 * self.config().tx_fee <= u64::MAX,
        ensures
            r matches Some(v) ==> split_level(self.config(), level, lo as nat, amounts@, nodes@, amounts@.len()) == Some(v@) && v@.len() <= 65535,
            r is None ==> split_level(self.config(), level, lo as nat, amounts@, nodes@, amounts@.len()) is None,
    {
        let ghost c = self.config();
        let ghost nodes0 = nodes@;
        let n = amounts.len();
        let mut ns = nodes;
        let mut i: usize = 0;
        while i < n
            invariant
                c == self.config(),
                2 * c.tx_fee <= u64::MAX,
                n == amounts@.len(),
                n < 4,
                i <= n,
                lo + n <= nodes0.len(),
                nodes0 == nodes@,
                nodes0.len() <= 65535,
                ns@.len() <= 65535,
                split_level(c, level, lo as nat, amounts@, nodes0, i as nat) == Some(ns@),
            decreases n - i,
        {
            let k = self.get_split_count(level, i as u64);
            let parts = self.split_amount(amounts[i], k);
            let ghost base = ns@;
            let mut j: usize = 0;
            while j < parts.len()
                invariant
                    c == self.config(),
                    i < n,
                    n == amounts@.len(),
                    lo + n <= nodes0.len(),
                    nodes0 == nodes@,
                    nodes0.len() <= 65535,
                    ns@.len() <= 65535,
                    j <= parts@.len(),
                    parts@.len() <= 3,
                    parts@ == split_parts_of(c, level, i as nat, amounts@[i as int]),
                    split_children(c, level, (lo + i) as nat, parts@, base, j as nat) == Some(ns@),
                    split_level(c, level, lo as nat, amounts@, nodes0, i as nat) == Some(base),
                decreases parts@.len() - j,
            {
                let noise_index: u64 = ns.len() as u64 * 1000 + j as u64;
                let noised = checked_add_noise(
                    parts[j],
                    self.params.amount_noise,
                    self.params.seed.as_slice(),
                    noise_index,
                );
                if noised.is_none() || ns.len() >= 65535 {
                    proof {
                        lemma_split_children_none(
                            c,
                            level,
                            (lo + i) as nat,
                            parts@,
                            base,
                            (j + 1) as nat,
                            parts@.len(),
                        );
                        lemma_split_level_none(
                            c,
                            level,
                            lo as nat,
                            amounts@,
                            nodes0,
                            (i + 1) as nat,
                            n as nat,
                        );
                    }
                    return None;
                }
                let amount_in = noised.unwrap();
                ns.push(
                    PlanNode { level, in_lo: (lo + i) as u32, in_hi: (lo + i + 1) as u32, amount_in },
                );
                j = j + 1;
            }
            i = i + 1;
        }
        Some(ns)
    }

    /// Plans a merge level: the nodes of the previous level (the nodes
    /// `lo ..` passing on `amounts`) merge pairwise.
    fn merge_level_nodes(&self, level: u8, lo: usize, amounts: &Vec<u64>, nodes: Vec<PlanNode>) -> (r:
        Option<Vec<PlanNode>>)
        requires
            nodes@.len() <= 65535,
            lo + amounts@.len() <= nodes@.len(),
            amounts@.len() > 2,
        ensures
            match r {
                Some(v) => merge_level(
                    self.config(),
                    level,
                    lo as nat,
                    amounts@,
                    nodes@,
                    ((amounts@.len() + 1) / 2) as nat,
                ) == Some(v@) && v@.len() <= 65535,
                None => merge_level(
                    self.config(),
                    level,
                    lo as nat,
                    amounts@,
                    nodes@,
                    ((amounts@.len() + 1) / 2) as nat,
                ) is None,
            },
    {
        let ghost c = self.config();
        let ghost nodes0 = nodes@;
        let n = amounts.len();
        let mut ns = nodes;
        let frontier = index_range(lo, n);
        let groups = self.create_merge_groups(frontier.as_slice(), amounts.as_slice());
        let ghost spec_groups = spec_merge_groups(frontier@, amounts@);
        let count = groups.len();
        let mut g: usize = 0;
        while g < count
            invariant
                c == self.config(),
                n == amounts@.len(),
                n > 2,
                count == groups@.len(),
                count == (n + 1) / 2,
                g <= count,
                lo + n <= nodes0.len(),
                nodes0 == nodes@,
                nodes0.len() <= 65535,
                frontier@ == Seq::new(n as nat, |k: int| (lo + k) as u16),
                spec_groups == spec_merge_groups(frontier@, amounts@),
                forall|h: int|
                    0 <= h < groups@.len() ==> (#[trigger] groups@[h]).0@ == spec_groups[h].0
                        && groups@[h].1@ == spec_groups[h].1,
                ns@.len() <= 65535,
                merge_level(c, level, lo as nat, amounts@, nodes0, g as nat) == Some(ns@),
            decreases count - g,
        {
            let inputs = &groups[g].0;
            let group_amounts = &groups[g].1;
            assert(inputs@ == spec_groups[g as int].0);
            assert(group_amounts@ == spec_groups[g as int].1);
            let paired = group_amounts.len() == 2;
            let total: Option<u64> = if paired {
                group_amounts[0].checked_add(group_amounts[1])
            } else {
                Some(group_amounts[0])
            };
            if total.is_none() || ns.len() >= 65535 {
                proof {
                    lemma_merge_level_none(
                        c,
                        level,
                        lo as nat,
                        amounts@,
                        nodes0,
                        (g + 1) as nat,
                        ((n + 1) / 2) as nat,
                    );
                }
                return None;
            }
            let last = inputs.len() - 1;
            ns.push(
                PlanNode {
                    level,
                    in_lo: inputs[0] as u32,
                    in_hi: inputs[last] as u32 + 1,
                    amount_in: total.unwrap(),
                },
            );
            g = g + 1;
        }
        Some(ns)
    }

    /// Plans a pass-through level: one node for each node of the previous
    /// level (the nodes `lo ..` passing on `amounts`), amount noised.
    fn pass_level_nodes(&self, level: u8, lo: usize, amounts: &Vec<u64>, nodes: Vec<PlanNode>) -> (r:
        Option<Vec<PlanNode>>)
        requires
            nodes@.len() <= 65535,
            lo + amounts@.len() <= nodes@.len(),
        ensures
            match r {
                Some(v) => pass_level(
                    self.config(),
                    level,
                    lo as nat,
                    amounts@,
                    nodes@,
                    amounts@.len(),
                ) == Some(v@) && v@.len() <= 65535,
                None => pass_level(
                    self.config(),
                    level,
                    lo as nat,
                    amounts@,
                    nodes@,
                    amounts@.len(),
                ) is None,
            },
    {
        let ghost c = self.config();
        let ghost nodes0 = nodes@;
        let n = amounts.len();
        let mut ns = nodes;
        let mut i: usize = 0;
        while i < n
            invariant
                c == self.config(),
                n == amounts@.len(),
                i <= n,
                lo + n <= nodes0.len(),
                nodes0 == nodes@,
                nodes0.len() <= 65535,
                ns@.len() <= 65535,
                pass_level(c, level, lo as nat, amounts@, nodes0, i as nat) == Some(ns@),
            decreases n - i,
        {
            let noised = checked_add_noise(
                amounts[i],
                self.params.amount_noise,
                self.params.seed.as_slice(),
                ns.len() as u64,
            );
            if noised.is_none() || ns.len() >= 65535 {
                proof {
                    lemma_pass_level_none(
                        c,
                        level,
                        lo as nat,
                        amounts@,
                        nodes0,
                        (i + 1) as nat,
                        n as nat,
                    );
                }
                return None;
            }
            let amount_in = noised.unwrap();
            ns.push(
                PlanNode { level, in_lo: (lo + i) as u32, in_hi: (lo + i + 1) as u32, amount_in },
            );
            i = i + 1;
        }
        Some(ns)
    }

    /// Plans the nodes of a single level on top of the previous level (the
    /// nodes `lo ..` passing on `amounts`); `None` where the arithmetic of
    /// the level overflows.
    fn generate_level(&self, level: u8, lo: usize, amounts: &Vec<u64>, nodes: Vec<PlanNode>) -> (r:
        Option<Vec<PlanNode>>)
        requires
            nodes@.len() <= 65535,
            lo + amounts@.len() <= nodes@.len(),
            2 * self.config().tx_fee <= u64::MAX,
        ensures
            match r {
                Some(v) => level_step(self.config(), level, lo as nat, amounts@, nodes@) == Some(
                    v@,
                ) && v@.len() <= 65535,
                None => level_step(self.config(), level, lo as nat, amounts@, nodes@) is None,
            },
    {
        let fib_overflow = match self.params.merge_strategy {
            MergeStrategy::Fibonacci => level as u16 + self.params.fib_offset as u16 > 255,
            _ => false,
        };
        if fib_overflow {
            return None;
        }
        // Determine split/merge behavior based on strategy and level
        let should_split = self.should_split_at_level(level);
        let should_merge = self.should_merge_at_level(level);
        let n = amounts.len();
        if should_split && n < 4 {
            self.split_level_nodes(level, lo, amounts, nodes)
        } else if should_merge && n > 2 {
            self.merge_level_nodes(level, lo, amounts, nodes)
        } else {
            self.pass_level_nodes(level, lo, amounts, nodes)
        }
    }

    /// Plans `count` levels numbered from `first` on top of the last level
    /// (the nodes `lo ..` passing on `amounts`).
    fn run_levels(
        &self,
        first: usize,
        count: usize,
        nodes: Vec<PlanNode>,
        lo: usize,
        amounts: Vec<u64>,
    ) -> (r: Option<(Vec<PlanNode>, usize, Vec<u64>)>)
        requires
            first <= 256,
            count <= 256,
            nodes@.len() <= 65535,
            lo + amounts@.len() <= nodes@.len(),
            2 * self.config().tx_fee <= u64::MAX,
        ensures
            r matches Some((ns, l, am)) ==> run_levels(
                self.config(),
                first as nat,
                count as nat,
                Build { nodes: nodes@, lo: lo as nat, amounts: amounts@ },
            ) == Some(Build { nodes: ns@, lo: l as nat, amounts: am@ }) && ns@.len() <= 65535 && l
                + am@.len() <= ns@.len(),
            r is None ==> run_levels(
                self.config(),
                first as nat,
                count as nat,
                Build { nodes: nodes@, lo: lo as nat, amounts: amounts@ },
            ) is None,
    {
        let ghost c = self.config();
        let ghost start = Build { nodes: nodes@, lo: lo as nat, amounts: amounts@ };
        let mut ns = nodes;
        let mut cur_lo = lo;
        let mut cur_amounts = amounts;
        let mut k: usize = 0;
        while k < count
            invariant
                c == self.config(),
                2 * c.tx_fee <= u64::MAX,
                first <= 256,
                k <= count <= 256,
                ns@.len() <= 65535,
                cur_lo + cur_amounts@.len() <= ns@.len(),
                start == (Build { nodes: nodes@, lo: lo as nat, amounts: amounts@ }),
                run_levels(c, first as nat, k as nat, start) == Some(
                    Build { nodes: ns@, lo: cur_lo as nat, amounts: cur_amounts@ },
                ),
            decreases count - k,
        {
            let level = first + k;
            if level > 255 {
                proof {
                    lemma_run_levels_none(c, first as nat, (k + 1) as nat, count as nat, start);
                }
                return None;
            }
            let before = ns.len();
            let ghost prev = ns@;
            match self.generate_level(level as u8, cur_lo, &cur_amounts, ns) {
                None => {
                    proof {
                        lemma_run_levels_none(c, first as nat, (k + 1) as nat, count as nat, start);
                    }
                    return None;
                },
                Some(v) => {
                    proof {
                        lemma_level_grows(c, level as u8, cur_lo as nat, cur_amounts@, prev);
                    }
                    cur_amounts = level_amounts(&v, before);
                    cur_lo = before;
                    ns = v;
                },
            }
            k = k + 1;
        }
        Some((ns, cur_lo, cur_amounts))
    }

    /// Plans the whole topology for `total_amount`: `None` where the
    /// generator's fixed-width arithmetic overflows, an error where the
    /// amount does not exceed the reserved fees.
    pub fn plan_topology(&self, total_amount: u64) -> (r: Option<Result<TopologyPlan, MazeError>>)
        ensures
            match spec_plan(self.config(), total_amount) {
                None => r is None,
                Some(Err(e)) => r == Some(Err::<TopologyPlan, MazeError>(e)),
                Some(Ok(p)) => r matches Some(Ok(tp)) && tp@ == p && tp.nodes@.len() <= 65536,
            },
    {
        let ghost c = self.config();
        // Calculate total TX fees needed
        let estimated_txs = match self.estimate_transaction_count() {
            None => return None,
            Some(e) => e,
        };
        let total_fees = match self.params.tx_fee.checked_mul(estimated_txs as u64) {
            None => return None,
            Some(f) => f,
        };
        assert(total_fees == reserved_fees(c));
        if total_amount <= total_fees {
            if total_fees == u64::MAX {
                return None;
            }
            return Some(
                Err(MazeError::InsufficientFunds { required: total_fees + 1, available: total_amount }),
            );
        }
        let net_amount = total_amount - total_fees;
        assert(2 * c.tx_fee <= u64::MAX) by (nonlinear_arith)
            requires
                c.tx_fee * spec_estimate(c) <= u64::MAX,
                spec_estimate(c) >= 10,
        ;
        // Level 0: deposit node
        let mut nodes: Vec<PlanNode> = Vec::new();
        nodes.push(PlanNode { level: 0, in_lo: 0, in_hi: 0, amount_in: total_amount });
        let ghost start = Build { nodes: nodes@, lo: 0, amounts: seq![net_amount] };
        let first_amounts = vec![net_amount];
        assert(first_amounts@ == seq![net_amount]);
        let num_levels = self.params.hop_count;
        let has_pool = self.params.pool_address.is_some() && self.params.pool_signing_material.is_some();
        if has_pool {
            // Split hop_count: pre-pool gets ~half, post-pool gets the rest
            let half = num_levels / 2;
            let pre_pool_levels: u8 = if half < 2 {
                2
            } else {
                half
            };
            let rest = num_levels.saturating_sub(pre_pool_levels);
            let post_pool_levels: u8 = if rest < 2 {
                2
            } else {
                rest
            };
            assert(pre_pool_levels == spec_pre_pool_levels(c));
            assert(post_pool_levels == spec_post_pool_levels(c));
            let (ns1, lo1, amounts1) = match self.run_levels(
                1,
                pre_pool_levels as usize,
                nodes,
                0,
                first_amounts,
            ) {
                None => return None,
                Some(x) => x,
            };
            let ghost b1 = Build { nodes: ns1@, lo: lo1 as nat, amounts: amounts1@ };
            // Pool node: merge all pre-pool paths into the pool
            let pool_amount = match sum_amounts(&amounts1) {
                None => return None,
                Some(v) => v,
            };
            let pool_level: u8 = pre_pool_levels + 1;
            if ns1.len() >= 65535 {
                return None;
            }
            let pool_index = ns1.len();
            let mut ns = ns1;
            let pool_node = PlanNode {
                level: pool_level,
                in_lo: lo1 as u32,
                in_hi: (lo1 + amounts1.len()) as u32,
                amount_in: pool_amount,
            };
            assert(pool_node == collector(b1, pool_level as nat, pool_amount as nat));
            ns.push(pool_node);
            let ghost from_pool = Build { nodes: ns@, lo: pool_index as nat, amounts: seq![pool_amount] };
            let pool_amounts = vec![pool_amount];
            assert(pool_amounts@ == seq![pool_amount]);
            // Post-pool hops: the pool is the new starting point
            let (ns2, lo2, amounts2) = match self.run_levels(
                pool_level as usize + 1,
                post_pool_levels as usize,
                ns,
                pool_index,
                pool_amounts,
            ) {
                None => return None,
                Some(x) => x,
            };
            let ghost b2 = Build { nodes: ns2@, lo: lo2 as nat, amounts: amounts2@ };
            // Final node
            let final_level_wide: usize = pool_level as usize + post_pool_levels as usize + 1;
            if final_level_wide + 1 > 255 {
                return None;
            }
            let final_amount = match sum_amounts(&amounts2) {
                None => return None,
                Some(v) => v,
            };
            let final_node = PlanNode {
                level: final_level_wide as u8,
                in_lo: lo2 as u32,
                in_hi: (lo2 + amounts2.len()) as u32,
                amount_in: final_amount,
            };
            assert(final_node == collector(b2, final_level_wide as nat, final_amount as nat));
            let mut all = ns2;
            all.push(final_node);
            let r = TopologyPlan {
                nodes: all,
                pool_index: Some(pool_index),
                total_levels: (final_level_wide + 1) as u8,
            };
            assert(pooled_plan(c, start) == Some(r@));
            Some(Ok(r))
        } else {
            let count: usize = if num_levels >= 1 {
                num_levels as usize - 1
            } else {
                0
            };
            let (ns, lo1, amounts1) = match self.run_levels(1, count, nodes, 0, first_amounts) {
                None => return None,
                Some(x) => x,
            };
            let ghost b = Build { nodes: ns@, lo: lo1 as nat, amounts: amounts1@ };
            // Final level: merge all to a single node
            let final_amount = match sum_amounts(&amounts1) {
                None => return None,
                Some(v) => v,
            };
            if num_levels as usize + 1 > 255 {
                return None;
            }
            let final_node = PlanNode {
                level: num_levels,
                in_lo: lo1 as u32,
                in_hi: (lo1 + amounts1.len()) as u32,
                amount_in: final_amount,
            };
            assert(final_node == collector(b, num_levels as nat, final_amount as nat));
            let mut all = ns;
            all.push(final_node);
            let r = TopologyPlan { nodes: all, pool_index: None, total_levels: num_levels + 1 };
            assert(direct_plan(c, start) == Some(r@));
            Some(Ok(r))
        }
    }

    /// Calculate amount_out for all nodes: a node with outputs sends its
    /// amount minus one fee per output; the final node its amount minus one
    /// fee. `None` where a node's fees overflow.
    fn calculate_amounts(&self, nodes: &Vec<PlanNode>) -> (r: Option<Vec<u64>>)
        ensures
            match r {
                Some(v) => v@.len() == nodes@.len() && (forall|p: int|
                    0 <= p < nodes@.len() ==> v@[p] == spec_amount_out(
                        self.config(),
                        nodes@,
                        p as nat,
                    )) && (forall|p: nat|
                    p < nodes@.len() ==> self.config().tx_fee as nat * #[trigger] outputs_of(
                        nodes@,
                        p,
                    ).len() <= u64::MAX),
                None => exists|p: nat|
                    p < nodes@.len() && self.config().tx_fee as nat * #[trigger] outputs_of(
                        nodes@,
                        p,
                    ).len() > u64::MAX,
            },
    {
        let ghost c = self.config();
        let n = nodes.len();
        let mut amounts: Vec<u64> = Vec::new();
        let mut i: usize = 0;
        while i < n
            invariant
                c == self.config(),
                i <= n,
                n == nodes@.len(),
                amounts@.len() == i,
                forall|p: int| 0 <= p < i ==> amounts@[p] == spec_amount_out(c, nodes@, p as nat),
                forall|p: nat| p < i ==> c.tx_fee as nat * #[trigger] outputs_of(nodes@, p).len() <= u64::MAX,
            decreases n - i,
        {
            let outputs = outputs_for(nodes, i);
            let output_count = outputs.len();
            let ghost outs = outputs_of(nodes@, i as nat).len();
            assert(output_count == outs);
            let amount_in = nodes[i].amount_in;
            if output_count == 0 {
                assert(c.tx_fee as nat * outs == 0) by (nonlinear_arith)
                    requires
                        outs == 0,
                ;
            }
            let amount_out = if output_count > 0 {
                match self.params.tx_fee.checked_mul(output_count as u64) {
                    None => {
                        assert(c.tx_fee as nat * outputs_of(nodes@, i as nat).len() > u64::MAX);
                        return None;
                    },
                    Some(total_fees) => amount_in.saturating_sub(total_fees),
                }
            } else if i + 1 == n {
                amount_in.saturating_sub(self.params.tx_fee)
            } else {
                0
            };
            assert(c.tx_fee as nat * outputs_of(nodes@, i as nat).len() <= u64::MAX);
            amounts.push(amount_out);
            i = i + 1;
        }
        Some(amounts)
    }

    /// Count total transactions in the maze: one per output, plus the
    /// delivery. `None` where the 16-bit count overflows.
    fn count_transactions(&self, nodes: &Vec<PlanNode>) -> (r: Option<u16>)
        requires
            nodes@.len() <= 65536,
        ensures
            match r {
                Some(t) => t == spec_total_transactions(nodes@),
                None => spec_total_transactions(nodes@) > 65535,
            },
    {
        let n = nodes.len();
        let mut total: u64 = 0;
        let mut i: usize = 0;
        while i < n
            invariant
                i <= n,
                n == nodes@.len(),
                n <= 65536,
                total == edges_upto(nodes@, i as nat),
                total <= i * 65536,
            decreases n - i,
        {
            proof {
                lemma_outputs_len(nodes@, i as nat, n as nat);
            }
            let output_count = outputs_for(nodes, i).len();
            total = total + output_count as u64;
            i = i + 1;
        }
        if total + 1 > 65535 {
            None
        } else {
            Some((total + 1) as u16)
        }
    }

    /// Whether `generate` runs for `total_amount` without its fixed-width
    /// arithmetic overflowing.
    pub fn can_generate(&self, total_amount: u64) -> (r: bool)
        ensures
            r == spec_outcome(self.config(), total_amount) is Some,
    {
        match self.plan_topology(total_amount) {
            None => false,
            Some(Err(_)) => true,
            Some(Ok(tp)) => {
                let amounts = self.calculate_amounts(&tp.nodes);
                let count = self.count_transactions(&tp.nodes);
                amounts.is_some() && count.is_some()
            },
        }
    }

    /// Builds the maze graph of a plan from the secrets of its nodes: node
    /// `k` takes the address and encrypted signing material `secrets[k]`,
    /// its level, inputs, outputs and amounts from the plan; `None` where
    /// the fee or transaction count arithmetic overflows.
    pub fn assemble(&self, plan: TopologyPlan, secrets: Vec<(String, Vec<u8>)>) -> (r: Option<
        MazeGraph,
    >)
        requires
            1 <= plan@.nodes.len() <= 65536,
            secrets@.len() == plan@.nodes.len(),
        ensures
            match r {
                Some(g) => {
                    &&& graph_layout(g, self.params(), plan@)
                    &&& forall|k: int|
                        0 <= k < g.nodes@.len() ==> (#[trigger] g.nodes@[k]).address
                            == secrets@[k].0 && g.nodes@[k].signing_material_encrypted
                            == secrets@[k].1
                },
                None => !plan_completes(self.config(), plan@.nodes),
            },
    {
        let ghost c = self.config();
        let ghost pv = plan@;
        // Calculate amount_out for all nodes
        let amounts_out = match self.calculate_amounts(&plan.nodes) {
            None => return None,
            Some(v) => v,
        };
        // Count total transactions
        let total_transactions = match self.count_transactions(&plan.nodes) {
            None => return None,
            Some(t) => t,
        };
        let n = plan.nodes.len();
        let mut rest = secrets;
        let mut nodes: Vec<MazeNode> = Vec::new();
        let mut i: usize = n;
        // the secrets are taken from the back, the nodes built from the back
        let mut reversed: Vec<MazeNode> = Vec::new();
        while i > 0
            invariant
                c == self.config(),
                pv == plan@,
                n == pv.nodes.len(),
                1 <= n <= 65536,
                i <= n,
                secrets@.len() == n,
                rest@ == secrets@.take(i as int),
                amounts_out@.len() == n,
                forall|p: int| 0 <= p < n ==> amounts_out@[p] == spec_amount_out(c, pv.nodes, p as nat),
                reversed@.len() == n - i,
                forall|t: int|
                    0 <= t < n - i ==> {
                        let k = n - 1 - t;
                        &&& node_matches(#[trigger] reversed@[t], k as nat, c, pv.nodes)
                        &&& reversed@[t].address == secrets@[k].0
                        &&& reversed@[t].signing_material_encrypted == secrets@[k].1
                    },
            decreases i,
        {
            i = i - 1;
            let (address, signing_material_encrypted) = rest.pop().unwrap();
            assert(secrets@.take((i + 1) as int)[i as int] == secrets@[i as int]);
            let pn = plan.nodes[i];
            let node = MazeNode {
                index: i as u16,
                level: pn.level,
                address,
                signing_material_encrypted,
                inputs: input_vec(pn),
                outputs: outputs_for(&plan.nodes, i),
                amount_in: pn.amount_in,
                amount_out: amounts_out[i],
                tx_in_signature: None,
                tx_out_signatures: Vec::new(),
                status: String::from_str("pending"),
            };
            reversed.push(node);
            assert(rest@ =~= secrets@.take(i as int));
        }
        while reversed.len() > 0
            invariant
                c == self.config(),
                pv == plan@,
                n == pv.nodes.len(),
                secrets@.len() == n,
                reversed@.len() + nodes@.len() == n,
                forall|t: int|
                    0 <= t < reversed@.len() ==> {
                        let k = n - 1 - t;
                        &&& node_matches(#[trigger] reversed@[t], k as nat, c, pv.nodes)
                        &&& reversed@[t].address == secrets@[k].0
                        &&& reversed@[t].signing_material_encrypted == secrets@[k].1
                    },
                forall|k: int|
                    0 <= k < nodes@.len() ==> {
                        &&& node_matches(#[trigger] nodes@[k], k as nat, c, pv.nodes)
                        &&& nodes@[k].address == secrets@[k].0
                        &&& nodes@[k].signing_material_encrypted == secrets@[k].1
                    },
            decreases reversed@.len(),
        {
            let node = reversed.pop().unwrap();
            let ghost k = nodes@.len() as int;
            assert(node == reversed@.push(node)[reversed@.len() as int]);
            nodes.push(node);
            assert(node_matches(nodes@[k], k as nat, c, pv.nodes));
        }
        Some(
            MazeGraph {
                nodes,
                parameters: copy_parameters(&self.params),
                total_levels: plan.total_levels,
                deposit_index: 0,
                final_index: (n - 1) as u16,
                total_transactions,
            },
        )
    }

    /// Generate a maze graph for a transfer.
    ///
    /// * `total_amount` - Total amount to transfer (in base units)
    /// * `encrypt_fn` - Function to encrypt signing material bytes
    /// * `addr_gen` - Chain-specific address generator
    ///
    /// The topology (levels, inputs, outputs, amounts, counters) is the
    /// plan of `spec_outcome`, a function of the parameters and the amount
    /// alone. Node by node in index order, each node other than the pool
    /// node takes what `addr_gen` returns, passed through `node_secret`
    /// (its address, and its signing material encrypted by `encrypt_fn`);
    /// the pool node takes the pool address and the pool signing material
    /// encrypted by `encrypt_fn`. The first failure is returned.
    pub fn generate<F, A: AddressGenerator + ?Sized>(&self, total_amount: u64, encrypt_fn: F, addr_gen: &A) -> (r:
        Result<MazeGraph, MazeError>) where F: Fn(&[u8]) -> Result<Vec<u8>, MazeError>
        requires
            forall|data: &[u8]| encrypt_fn.requires((data,)),
            spec_outcome(self.config(), total_amount) is Some,
        ensures
            match spec_outcome(self.config(), total_amount) {
                Some(Err(e)) => r == Err::<MazeGraph, MazeError>(e),
                Some(Ok(plan)) => match r {
                    Ok(g) => {
                        &&& graph_matches(g, self.params(), plan)
                        &&& pool_material_encrypted(g, self.params(), plan, encrypt_fn)
                        &&& forall|k: int|
                            0 <= k < g.nodes@.len() && plan.pool_index != Some(k as nat)
                                ==> drawn_secret(
                                addr_gen,
                                encrypt_fn,
                                #[trigger] g.nodes@[k].address,
                                g.nodes@[k].signing_material_encrypted,
                            )
                        &&& forall|k: int|
                            0 <= k < g.nodes@.len() ==> encrypted_by(
                                encrypt_fn,
                                #[trigger] g.nodes@[k].signing_material_encrypted,
                            )
                    },
                    Err(e) => generation_failure(e, addr_gen, encrypt_fn),
                },
                None => false,
            },
            spec_outcome(self.config(), total_amount) matches Some(Ok(_)) && callbacks_cannot_fail(
                addr_gen,
                encrypt_fn,
            ) ==> r is Ok,
    {
        let ghost c = self.config();
        let tp = match self.plan_topology(total_amount).unwrap() {
            Err(e) => return Err(e),
            Ok(tp) => tp,
        };
        let ghost plan = tp@;
        proof {
            lemma_plan_pool(c, total_amount);
        }
        let n = tp.nodes.len();
        let mut secrets: Vec<(String, Vec<u8>)> = Vec::new();
        let mut i: usize = 0;
        while i < n
            invariant
                c == self.config(),
                c == topology_config(self.params()),
                forall|data: &[u8]| encrypt_fn.requires((data,)),
                plan == tp@,
                spec_outcome(c, total_amount) == Some(Ok::<Plan, MazeError>(plan)),
                n == plan.nodes.len(),
                plan.pool_index is Some <==> c.pooled,
                plan.pool_index matches Some(k) ==> k + 1 < n,
                i <= n,
                secrets@.len() == i,
                forall|k: int| 0 <= k < i ==> encrypted_by(encrypt_fn, #[trigger] secrets@[k].1),
                forall|k: int|
                    0 <= k < i && plan.pool_index != Some(k as nat) ==> drawn_secret(
                        addr_gen,
                        encrypt_fn,
                        #[trigger] secrets@[k].0,
                        secrets@[k].1,
                    ),
                forall|p: nat|
                    plan.pool_index == Some(p) && p < i ==> pool_secret_holds(
                        self.params(),
                        encrypt_fn,
                        #[trigger] secrets@[p as int],
                    ),
            decreases n - i,
        {
            let is_pool = match tp.pool_index {
                Some(k) => k == i,
                None => false,
            };
            let secret = if is_pool {
                match (&self.params.pool_address, &self.params.pool_signing_material) {
                    (Some(address), Some(material)) => pool_secret(address, material, &encrypt_fn),
                    _ => draw_secret(addr_gen, &encrypt_fn),
                }
            } else {
                draw_secret(addr_gen, &encrypt_fn)
            };
            match secret {
                Ok(x) => {
                    let ghost before = secrets@;
                    proof {
                        let (_, enc) = x;
                        let d = choose|d: &[u8]| #[trigger] encrypt_fn.ensures((d,), Ok(enc));
                        assert(encrypt_fn.ensures((d,), Ok(enc)));
                        if is_pool {
                            assert(pool_secret_holds(self.params(), encrypt_fn, x));
                        }
                    }
                    secrets.push(x);
                    assert(secrets@ == before.push(x));
                },
                Err(e) => return Err(e),
            }
            i = i + 1;
        }
        let ghost sec = secrets@;
        let g = self.assemble(tp, secrets).unwrap();
        proof {
            assert forall|k: int|
                0 <= k < g.nodes@.len() && plan.pool_index != Some(k as nat) implies drawn_secret(
                addr_gen,
                encrypt_fn,
                #[trigger] g.nodes@[k].address,
                g.nodes@[k].signing_material_encrypted,
            ) by {
                assert(drawn_secret(addr_gen, encrypt_fn, sec[k].0, sec[k].1));
            }
            if let Some(p) = plan.pool_index {
                assert(g.nodes@[p as int].address == sec[p as int].0);
                assert(g.nodes@[p as int].signing_material_encrypted == sec[p as int].1);
                assert(pool_secret_holds(self.params(), encrypt_fn, sec[p as int]));
            }
        }
        Ok(g)
    }

    /// `generate`, or `None` where its fixed-width arithmetic would overflow
    /// for these parameters and this amount.
    pub fn try_generate<F, A: AddressGenerator + ?Sized>(
        &self,
        total_amount: u64,
        encrypt_fn: F,
        addr_gen: &A,
    ) -> (r: Option<Result<MazeGraph, MazeError>>) where
        F: Fn(&[u8]) -> Result<Vec<u8>, MazeError>,
        requires
            forall|data: &[u8]| encrypt_fn.requires((data,)),
        ensures
            match spec_outcome(self.config(), total_amount) {
                None => r is None,
                Some(Err(e)) => r == Some(Err::<MazeGraph, MazeError>(e)),
                Some(Ok(plan)) => match r {
                    Some(Ok(g)) => {
                        &&& graph_matches(g, self.params(), plan)
                        &&& pool_material_encrypted(g, self.params(), plan, encrypt_fn)
                        &&& forall|k: int|
                            0 <= k < g.nodes@.len() && plan.pool_index != Some(k as nat)
                                ==> drawn_secret(
                                addr_gen,
                                encrypt_fn,
                                #[trigger] g.nodes@[k].address,
                                g.nodes@[k].signing_material_encrypted,
                            )
                        &&& forall|k: int|
                            0 <= k < g.nodes@.len() ==> encrypted_by(
                                encrypt_fn,
                                #[trigger] g.nodes@[k].signing_material_encrypted,
                            )
                    },
                    Some(Err(e)) => generation_failure(e, addr_gen, encrypt_fn),
                    None => false,
                },
            },
            spec_outcome(self.config(), total_amount) matches Some(Ok(_)) && callbacks_cannot_fail(
                addr_gen,
                encrypt_fn,
            ) ==> r matches Some(Ok(_)),
    {
        if !self.can_generate(total_amount) {
            return None;
        }
        Some(self.generate(total_amount, encrypt_fn, addr_gen))
    }
}

} // verus!

verus! {

/// The nodes among the first `n` that sit at `level`, in order.
pub open spec fn level_members(nodes: Seq<MazeNode>, level: u8, n: nat) -> Seq<MazeNode>
    decreases n,
{
    if n == 0 {
        seq![]
    } else {
        let prev = level_members(nodes, level, (n - 1) as nat);
        if nodes[n - 1].level == level {
            prev.push(nodes[n - 1])
        } else {
            prev
        }
    }
}

/// The nodes at `level`, in order.
pub open spec fn nodes_at_level(nodes: Seq<MazeNode>, level: u8) -> Seq<MazeNode> {
    level_members(nodes, level, nodes.len())
}

/// The nodes at the levels below `l`, level by level, each level in node
/// order.
pub open spec fn order_below(nodes: Seq<MazeNode>, l: nat) -> Seq<MazeNode>
    decreases l,
{
    if l == 0 {
        seq![]
    } else {
        order_below(nodes, (l - 1) as nat) + nodes_at_level(nodes, (l - 1) as u8)
    }
}

/// The nodes sorted by level, stably: level 0 first, and within a level in
/// node order.
pub open spec fn execution_order(nodes: Seq<MazeNode>) -> Seq<MazeNode> {
    order_below(nodes, 256)
}

/// The referenced nodes.
pub open spec fn deref_all(refs: Seq<&MazeNode>) -> Seq<MazeNode> {
    refs.map_values(|r: &MazeNode| *r)
}

/// The number of completed nodes among the first `n`.
pub open spec fn completed_upto(nodes: Seq<MazeNode>, n: nat) -> nat
    decreases n,
{
    if n == 0 {
        0
    } else {
        completed_upto(nodes, (n - 1) as nat) + if nodes[n - 1].status@ == "completed"@ {
            1nat
        } else {
            0nat
        }
    }
}

impl MazeGraph {
    /// Get execution order (topological sort by level): the nodes sorted by
    /// level, stably.
    pub fn get_execution_order(&self) -> (r: Vec<&MazeNode>)
        ensures
            deref_all(r@) == execution_order(self.nodes@),
    {
        let n = self.nodes.len();
        let mut ordered: Vec<&MazeNode> = Vec::new();
        let mut level: u16 = 0;
        while level < 256
            invariant
                level <= 256,
                n == self.nodes@.len(),
                deref_all(ordered@) == order_below(self.nodes@, level as nat),
            decreases 256 - level,
        {
            let mut k: usize = 0;
            let lv = level as u8;
            let ghost before = deref_all(ordered@);
            while k < n
                invariant
                    level < 256,
                    lv == level as u8,
                    k <= n,
                    n == self.nodes@.len(),
                    before == order_below(self.nodes@, level as nat),
                    deref_all(ordered@) == before + level_members(
                        self.nodes@,
                        level as u8,
                        k as nat,
                    ),
                decreases n - k,
            {
                let node = &self.nodes[k];
                let ghost prev_members = level_members(self.nodes@, level as u8, k as nat);
                let ghost prev_ordered = ordered@;
                if node.level == lv {
                    ordered.push(node);
                    assert(deref_all(ordered@) =~= deref_all(prev_ordered).push(*node));
                } else {
                    assert(ordered@ == prev_ordered);
                }
                k = k + 1;
                assert(deref_all(ordered@) =~= before + level_members(
                    self.nodes@,
                    level as u8,
                    k as nat,
                ));
            }
            level = level + 1;
        }
        ordered
    }

    /// Get nodes at a specific level, in node order.
    pub fn get_nodes_at_level(&self, level: u8) -> (r: Vec<&MazeNode>)
        ensures
            deref_all(r@) == nodes_at_level(self.nodes@, level),
    {
        let n = self.nodes.len();
        let mut found: Vec<&MazeNode> = Vec::new();
        let mut k: usize = 0;
        while k < n
            invariant
                k <= n,
                n == self.nodes@.len(),
                deref_all(found@) == level_members(self.nodes@, level, k as nat),
            decreases n - k,
        {
            let node = &self.nodes[k];
            if node.level == level {
                found.push(node);
            }
            k = k + 1;
            assert(deref_all(found@) =~= level_members(self.nodes@, level, k as nat));
        }
        found
    }

    /// Get deposit node
    pub fn get_deposit_node(&self) -> (r: Option<&MazeNode>)
        ensures
            match r {
                Some(node) => self.deposit_index < self.nodes@.len() && *node
                    == self.nodes@[self.deposit_index as int],
                None => self.deposit_index >= self.nodes@.len(),
            },
    {
        let i = self.deposit_index as usize;
        if i < self.nodes.len() {
            Some(&self.nodes[i])
        } else {
            None
        }
    }

    /// Get final node
    pub fn get_final_node(&self) -> (r: Option<&MazeNode>)
        ensures
            match r {
                Some(node) => self.final_index < self.nodes@.len() && *node
                    == self.nodes@[self.final_index as int],
                None => self.final_index >= self.nodes@.len(),
            },
    {
        let i = self.final_index as usize;
        if i < self.nodes.len() {
            Some(&self.nodes[i])
        } else {
            None
        }
    }

    /// Check if all nodes are completed
    pub fn is_completed(&self) -> (r: bool)
        ensures
            r == forall|k: int| 0 <= k < self.nodes@.len() ==> #[trigger] self.nodes@[k].status@
                == "completed"@,
    {
        let completed = String::from_str("completed");
        let n = self.nodes.len();
        let mut k: usize = 0;
        while k < n
            invariant
                k <= n,
                n == self.nodes@.len(),
                completed@ == "completed"@,
                forall|j: int| 0 <= j < k ==> #[trigger] self.nodes@[j].status@ == "completed"@,
            decreases n - k,
        {
            if self.nodes[k].status != completed {
                return false;
            }
            k = k + 1;
        }
        true
    }

    /// Get progress (completed nodes / total nodes)
    pub fn get_progress(&self) -> (r: (usize, usize))
        ensures
            r.0 == completed_upto(self.nodes@, self.nodes@.len()),
            r.1 == self.nodes@.len(),
    {
        let completed = String::from_str("completed");
        let n = self.nodes.len();
        let mut count: usize = 0;
        let mut k: usize = 0;
        while k < n
            invariant
                k <= n,
                n == self.nodes@.len(),
                completed@ == "completed"@,
                count == completed_upto(self.nodes@, k as nat),
                count <= k,
            decreases n - k,
        {
            if self.nodes[k].status == completed {
                count = count + 1;
            }
            k = k + 1;
        }
        (count, n)
    }
}

} // verus!
