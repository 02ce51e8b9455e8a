//! Deterministic helpers of the maze generator: the seeded pseudo-random
//! stream, the Fibonacci lookup and the amount noise.

use vstd::prelude::*;
use sha2::{Digest, Sha256};

verus! {

// ---------------------------------------------------------------------
// Fibonacci
// ---------------------------------------------------------------------

/// The n-th Fibonacci number, with F(0) = 0 and F(1) = 1.
pub open spec fn fib(n: nat) -> nat
    decreases n,
{
    if n == 0 {
        0
    } else if n == 1 {
        1
    } else {
        fib((n - 2) as nat) + fib((n - 1) as nat)
    }
}

/// What `fibonacci(n)` returns: the table holds F(0)..F(10); past the table,
/// the iteration runs `n` steps from (F(0), F(1)) and yields F(n + 1).
pub open spec fn spec_fibonacci(n: u8) -> nat {
    if n <= 10 {
        fib(n as nat)
    } else {
        fib(n as nat + 1)
    }
}

/// Fibonacci numbers never decrease.
pub proof fn lemma_fib_monotonic(i: nat, j: nat)
    requires
        i <= j,
    ensures
        fib(i) <= fib(j),
    decreases j - i,
{
    if i < j {
        lemma_fib_monotonic(i, (j - 1) as nat);
        if j >= 2 {
            assert(fib(j) == fib((j - 2) as nat) + fib((j - 1) as nat));
        }
    }
}

/// F(93) is the largest Fibonacci number that fits in a `u64`.
proof fn lemma_fib_93()
    ensures
        fib(93) == 12200160415121876738,
{
        assert(fib(0) == 0);
        assert(fib(1) == 1);
        assert(fib(2) == 1);
        assert(fib(3) == 2);
        assert(fib(4) == 3);
        assert(fib(5) == 5);
        assert(fib(6) == 8);
        assert(fib(7) == 13);
        assert(fib(8) == 21);
        assert(fib(9) == 34);
        assert(fib(10) == 55);
        assert(fib(11) == 89);
        assert(fib(12) == 144);
        assert(fib(13) == 233);
        assert(fib(14) == 377);
        assert(fib(15) == 610);
        assert(fib(16) == 987);
        assert(fib(17) == 1597);
        assert(fib(18) == 2584);
        assert(fib(19) == 4181);
        assert(fib(20) == 6765);
        assert(fib(21) == 10946);
        assert(fib(22) == 17711);
        assert(fib(23) == 28657);
        assert(fib(24) == 46368);
        assert(fib(25) == 75025);
        assert(fib(26) == 121393);
        assert(fib(27) == 196418);
        assert(fib(28) == 317811);
        assert(fib(29) == 514229);
        assert(fib(30) == 832040);
        assert(fib(31) == 1346269);
        assert(fib(32) == 2178309);
        assert(fib(33) == 3524578);
        assert(fib(34) == 5702887);
        assert(fib(35) == 9227465);
        assert(fib(36) == 14930352);
        assert(fib(37) == 24157817);
        assert(fib(38) == 39088169);
        assert(fib(39) == 63245986);
        assert(fib(40) == 102334155);
        assert(fib(41) == 165580141);
        assert(fib(42) == 267914296);
        assert(fib(43) == 433494437);
        assert(fib(44) == 701408733);
        assert(fib(45) == 1134903170);
        assert(fib(46) == 1836311903);
        assert(fib(47) == 2971215073);
        assert(fib(48) == 4807526976);
        assert(fib(49) == 7778742049);
        assert(fib(50) == 12586269025);
        assert(fib(51) == 20365011074);
        assert(fib(52) == 32951280099);
        assert(fib(53) == 53316291173);
        assert(fib(54) == 86267571272);
        assert(fib(55) == 139583862445);
        assert(fib(56) == 225851433717);
        assert(fib(57) == 365435296162);
        assert(fib(58) == 591286729879);
        assert(fib(59) == 956722026041);
        assert(fib(60) == 1548008755920);
        assert(fib(61) == 2504730781961);
        assert(fib(62) == 4052739537881);
        assert(fib(63) == 6557470319842);
        assert(fib(64) == 10610209857723);
        assert(fib(65) == 17167680177565);
        assert(fib(66) == 27777890035288);
        assert(fib(67) == 44945570212853);
        assert(fib(68) == 72723460248141);
        assert(fib(69) == 117669030460994);
        assert(fib(70) == 190392490709135);
        assert(fib(71) == 308061521170129);
        assert(fib(72) == 498454011879264);
        assert(fib(73) == 806515533049393);
        assert(fib(74) == 1304969544928657);
        assert(fib(75) == 2111485077978050);
        assert(fib(76) == 3416454622906707);
        assert(fib(77) == 5527939700884757);
        assert(fib(78) == 8944394323791464);
        assert(fib(79) == 14472334024676221);
        assert(fib(80) == 23416728348467685);
        assert(fib(81) == 37889062373143906);
        assert(fib(82) == 61305790721611591);
        assert(fib(83) == 99194853094755497);
        assert(fib(84) == 160500643816367088);
        assert(fib(85) == 259695496911122585);
        assert(fib(86) == 420196140727489673);
        assert(fib(87) == 679891637638612258);
        assert(fib(88) == 1100087778366101931);
        assert(fib(89) == 1779979416004714189);
        assert(fib(90) == 2880067194370816120);
        assert(fib(91) == 4660046610375530309);
        assert(fib(92) == 7540113804746346429);
        assert(fib(93) == 12200160415121876738);
}

/// Get fibonacci number at index.
///
/// Values for n <= 10 come from a table; beyond it the value is computed
/// by iteration (which yields F(n + 1), see `spec_fibonacci`). Inputs above
/// 92 would overflow a `u64`.
pub fn fibonacci(n: u8) -> (r: u64)
    requires
        n <= 92,
    ensures
        r == spec_fibonacci(n),
{
    proof {
        reveal_with_fuel(fib, 11);
    }
    match n {
        0 => 0,
        1 => 1,
        2 => 1,
        3 => 2,
        4 => 3,
        5 => 5,
        6 => 8,
        7 => 13,
        8 => 21,
        9 => 34,
        10 => 55,
        _ => {
            proof {
                lemma_fib_93();
            }
            let mut a: u64 = 0;
            let mut b: u64 = 1;
            let mut k: u8 = 0;
            while k < n
                invariant
                    k <= n,
                    n <= 92,
                    a == fib(k as nat),
                    b == fib(k as nat + 1),
                    fib(93) == 12200160415121876738,
                decreases n - k,
            {
                proof {
                    lemma_fib_monotonic(k as nat + 2, 93);
                }
                assert(fib(k as nat + 2) == fib(k as nat) + fib(k as nat + 1));
                let temp = a + b;
                a = b;
                b = temp;
                k = k + 1;
            }
            b
        },
    }
}


// ---------------------------------------------------------------------
// Seeded pseudo-random stream
// ---------------------------------------------------------------------

/// The SHA-256 digest of a byte string.
pub uninterp spec fn sha256(data: Seq<u8>) -> Seq<u8>;

/// Calls `sha2::Sha256::digest`. Trusted: the result is the SHA-256 digest
/// of `data` (named `sha256`) and, as every SHA-256 digest, is 32 bytes long.
#[verifier::external_body]
fn sha256_digest(data: &[u8]) -> (res: Vec<u8>)
    ensures
        res@ == sha256(data@),
        res@.len() == 32,
{
    Sha256::digest(data).to_vec()
}

/// The `n` lowest bytes of `x`, least significant first.
pub open spec fn le_bytes(x: nat, n: nat) -> Seq<u8>
    decreases n,
{
    if n == 0 {
        seq![]
    } else {
        seq![(x % 256) as u8] + le_bytes(x / 256, (n - 1) as nat)
    }
}

/// The number whose little-endian bytes are `s`.
pub open spec fn le_value(s: Seq<u8>) -> nat
    decreases s.len(),
{
    if s.len() == 0 {
        0
    } else {
        s[0] as nat + 256 * le_value(s.drop_first())
    }
}

/// 256 to the power `n`.
pub open spec fn pow256(n: nat) -> nat
    decreases n,
{
    if n == 0 {
        1
    } else {
        256 * pow256((n - 1) as nat)
    }
}

/// The bytes that are hashed for `index`: the seed, then the index as
/// 8 little-endian bytes.
pub open spec fn spec_seed_message(seed: Seq<u8>, index: u64) -> Seq<u8> {
    seed + le_bytes(index as nat, 8)
}

/// The `u64` read little-endian from the first 8 bytes of a digest.
pub open spec fn spec_random_from_digest(digest: Seq<u8>) -> u64 {
    le_value(digest.take(8)) as u64
}

/// The pseudo-random number of `index` in the stream of `seed`.
pub open spec fn spec_seeded_random(seed: Seq<u8>, index: u64) -> u64 {
    spec_random_from_digest(sha256(spec_seed_message(seed, index)))
}

proof fn lemma_le_value_bound(s: Seq<u8>)
    ensures
        le_value(s) < pow256(s.len()),
    decreases s.len(),
{
    if s.len() > 0 {
        lemma_le_value_bound(s.drop_first());
        assert(le_value(s) == s[0] as nat + 256 * le_value(s.drop_first()));
        assert(s[0] as nat + 256 * le_value(s.drop_first()) < 256 * pow256(
            s.drop_first().len(),
        )) by (nonlinear_arith)
            requires
                s[0] < 256,
                le_value(s.drop_first()) < pow256(s.drop_first().len()),
        ;
    }
}

/// The message hashed for `index`: the seed followed by the index as
/// 8 little-endian bytes.
pub fn seed_message(seed: &[u8], index: u64) -> (r: Vec<u8>)
    ensures
        r@ == spec_seed_message(seed@, index),
{
    let mut out: Vec<u8> = Vec::new();
    let n = seed.len();
    let mut i: usize = 0;
    while i < n
        invariant
            n == seed@.len(),
            i <= n,
            out@ == seed@.take(i as int),
        decreases n - i,
    {
        out.push(seed[i]);
        i = i + 1;
        assert(out@ =~= seed@.take(i as int));
    }
    assert(out@ =~= seed@);
    let mut v: u64 = index;
    let mut k: u64 = 0;
    while k < 8
        invariant
            k <= 8,
            out@ + le_bytes(v as nat, (8 - k) as nat) == spec_seed_message(seed@, index),
        decreases 8 - k,
    {
        let ghost before = out@;
        out.push((v % 256) as u8);
        assert(le_bytes(v as nat, (8 - k) as nat) == seq![(v % 256) as u8] + le_bytes(
            (v / 256) as nat,
            (8 - k - 1) as nat,
        ));
        assert(out@ + le_bytes((v / 256) as nat, (8 - k - 1) as nat) =~= before + le_bytes(
            v as nat,
            (8 - k) as nat,
        ));
        v = v / 256;
        k = k + 1;
    }
    assert(le_bytes(v as nat, 0) =~= seq![]);
    assert(out@ =~= out@ + le_bytes(v as nat, 0));
    out
}

/// Reads a `u64` little-endian from the first 8 bytes of a digest.
pub fn random_from_digest(digest: &[u8]) -> (r: u64)
    requires
        digest@.len() >= 8,
    ensures
        r == spec_random_from_digest(digest@),
{
    proof {
        reveal_with_fuel(pow256, 9);
    }
    let mut acc: u64 = 0;
    let mut i: usize = 8;
    while i > 0
        invariant
            i <= 8,
            digest@.len() >= 8,
            acc as nat == le_value(digest@.subrange(i as int, 8)),
            pow256(8) == 0x1_0000_0000_0000_0000,
        decreases i,
    {
        let ghost rest = digest@.subrange(i as int, 8);
        proof {
            lemma_le_value_bound(rest);
            lemma_pow256_monotonic(rest.len(), 7);
        }
        i = i - 1;
        let ghost cur = digest@.subrange(i as int, 8);
        assert(cur.drop_first() =~= rest);
        let b = digest[i];
        assert(acc * 256 + b < 0x1_0000_0000_0000_0000) by (nonlinear_arith)
            requires
                acc < pow256(7),
                pow256(7) == 0x100_0000_0000_0000,
                b < 256,
        ;
        acc = acc * 256 + b as u64;
    }
    assert(digest@.subrange(0, 8) =~= digest@.take(8));
    acc
}

proof fn lemma_pow256_monotonic(i: nat, j: nat)
    requires
        i <= j,
    ensures
        pow256(i) <= pow256(j),
    decreases j - i,
{
    if i < j {
        lemma_pow256_monotonic(i, (j - 1) as nat);
    }
}

/// Generate a deterministic random number from seed and index.
///
/// Hashes the seed followed by the index (8 bytes, little-endian) with
/// SHA-256 and reads the first 8 bytes of the digest as a little-endian
/// `u64`. Same seed + index always produces the same output.
pub fn seeded_random(seed: &[u8], index: u64) -> (r: u64)
    ensures
        r == spec_seeded_random(seed@, index),
{
    let message = seed_message(seed, index);
    let digest = sha256_digest(message.as_slice());
    random_from_digest(digest.as_slice())
}


// ---------------------------------------------------------------------
// Amount noise
// ---------------------------------------------------------------------

/// Noise percentages are counted in hundredths of a percent (basis points):
/// 50 is 0.5%, 100 is 1%.
pub const NOISE_SCALE: u64 = 10_000;

/// The half-width of the noise interval for `amount` at `noise` hundredths
/// of a percent, rounded down; a value too large for `u64` saturates.
pub open spec fn spec_noise_range(amount: u64, noise: u32) -> u64 {
    let q = amount as nat * noise as nat / 10_000;
    if q > u64::MAX {
        u64::MAX
    } else {
        q as u64
    }
}

/// The noised amount for a noise interval of half-width `range`, driven by
/// `random`: the amount moved by `random % (2 * range) - range`, so that it
/// lands in `[amount - range, amount + range)`; a negative total becomes 0.
/// `None` where `2 * range` or the total does not fit in a `u64`.
pub open spec fn spec_apply_noise(amount: u64, range: u64, random: u64) -> Option<u64> {
    if range == 0 {
        Some(amount)
    } else if 2 * range > u64::MAX {
        None
    } else {
        let total = amount - range + random % (2 * range) as u64;
        if total < 0 {
            Some(0)
        } else if total > u64::MAX {
            None
        } else {
            Some(total as u64)
        }
    }
}

/// `add_noise` on its arguments; `None` where its arithmetic overflows.
pub open spec fn spec_add_noise(amount: u64, noise: u32, seed: Seq<u8>, index: u64) -> Option<
    u64,
> {
    spec_apply_noise(amount, spec_noise_range(amount, noise), spec_seeded_random(seed, index))
}

/// The half-width of the noise interval of `amount` at `noise` hundredths
/// of a percent.
pub fn noise_range(amount: u64, noise: u32) -> (r: u64)
    ensures
        r == spec_noise_range(amount, noise),
{
    assert(amount as nat * noise as nat <= 0xffff_ffff_ffff_ffff * 0xffff_ffff) by (
    nonlinear_arith);
    let q: u128 = amount as u128 * noise as u128 / 10_000;
    if q > 0xffff_ffff_ffff_ffff {
        u64::MAX
    } else {
        q as u64
    }
}

/// Moves `amount` by a pseudo-random offset in `[-range, range)` taken from
/// `random`; `None` where the result or `2 * range` does not fit in a `u64`.
pub fn apply_noise(amount: u64, range: u64, random: u64) -> (r: Option<u64>)
    ensures
        r == spec_apply_noise(amount, range, random),
{
    if range == 0 {
        return Some(amount);
    }
    if range > u64::MAX / 2 {
        return None;
    }
    let modulus: u64 = range * 2;
    let total: i128 = amount as i128 - range as i128 + (random % modulus) as i128;
    if total < 0 {
        Some(0)
    } else if total > 0xffff_ffff_ffff_ffff {
        None
    } else {
        Some(total as u64)
    }
}

/// Add noise to an amount based on seed, or `None` where the noised amount
/// (or twice the noise range) does not fit in a `u64`.
pub fn checked_add_noise(amount: u64, noise: u32, seed: &[u8], index: u64) -> (r: Option<u64>)
    ensures
        r == spec_add_noise(amount, noise, seed@, index),
{
    let random = seeded_random(seed, index);
    let range = noise_range(amount, noise);
    apply_noise(amount, range, random)
}

/// Add noise to an amount based on seed.
///
/// Applies a deterministic pseudo-random noise within +/- `noise` hundredths
/// of a percent of the original amount. Used to obfuscate transaction
/// amounts so that split patterns are not easily recognizable.
pub fn add_noise(amount: u64, noise: u32, seed: &[u8], index: u64) -> (r: u64)
    requires
        spec_add_noise(amount, noise, seed@, index) is Some,
    ensures
        spec_add_noise(amount, noise, seed@, index) == Some(r),
{
    match checked_add_noise(amount, noise, seed, index) {
        Some(v) => v,
        None => 0,
    }
}

} // verus!
