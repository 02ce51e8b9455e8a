//! Solana adapter: an `AddressGenerator` from Solana keypairs.

use vstd::prelude::*;
use crate::address_gen::AddressGenerator;
use crate::error::MazeError;
use solana_sdk::pubkey::Pubkey;
use solana_sdk::signature::Keypair;

verus! {

/// Solana transaction fee in lamports
pub const TX_FEE_LAMPORTS: u64 = 5_000;

#[verifier::external_type_specification]
#[verifier::external_body]
pub struct ExKeypair(Keypair);

/// The base58 digit of a value below 58, in the Bitcoin alphabet
/// `123456789ABCDEFGHJKLMNPQRSTUVWXYZabcdefghijkmnopqrstuvwxyz`.
pub open spec fn base58_digit(d: nat) -> char {
    if d < 9 {
        (49 + d) as char
    } else if d < 17 {
        (65 + d - 9) as char
    } else if d < 22 {
        (74 + d - 17) as char
    } else if d < 33 {
        (80 + d - 22) as char
    } else if d < 44 {
        (97 + d - 33) as char
    } else {
        (109 + d - 44) as char
    }
}

/// The bytes read as a big-endian number.
pub open spec fn big_endian_value(bytes: Seq<u8>) -> nat
    decreases bytes.len(),
{
    if bytes.len() == 0 {
        0
    } else {
        big_endian_value(bytes.drop_last()) * 256 + bytes.last() as nat
    }
}

/// The base58 digits of `n`, most significant first (none for 0).
pub open spec fn base58_digits(n: nat) -> Seq<char>
    decreases n,
{
    if n == 0 {
        seq![]
    } else {
        base58_digits(n / 58).push(base58_digit(n % 58))
    }
}

/// The number of zero bytes that the bytes start with.
pub open spec fn leading_zeros(bytes: Seq<u8>) -> nat
    decreases bytes.len(),
{
    if bytes.len() == 0 || bytes[0] != 0 {
        0
    } else {
        1 + leading_zeros(bytes.drop_first())
    }
}

/// The base58 text of bytes, as Solana prints a public key: a `1` for
/// each leading zero byte, then the base58 digits of the bytes read as a
/// big-endian number.
pub open spec fn pubkey_base58(bytes: Seq<u8>) -> Seq<char> {
    Seq::new(leading_zeros(bytes), |i: int| '1') + base58_digits(big_endian_value(bytes))
}

/// Calls `Keypair::new()`: a fresh keypair drawn from the operating
/// system's randomness. Nothing is promised of it.
#[verifier::external_body]
fn new_keypair() -> (r: Keypair) {
    Keypair::new()
}

/// Calls `Keypair::to_bytes`: the 64 bytes of the keypair, the secret key
/// then the public key. Nothing is promised of their values.
#[verifier::external_body]
fn keypair_bytes(keypair: &Keypair) -> (r: [u8; 64]) {
    keypair.to_bytes()
}

/// Calls `Display` of `Pubkey` (what `to_string` prints for
/// `Keypair::pubkey()`): the base58 text of the public key bytes
/// (`pubkey_base58`), which the `Display` impl writes with
/// `five8::encode_32`.
#[verifier::external_body]
fn public_key_text(public_key: &[u8; 32]) -> (r: String)
    ensures
        r@ == pubkey_base58(public_key@),
{
    Pubkey::from(*public_key).to_string()
}

/// The public half (the last 32 bytes) of the keypair bytes.
fn public_half(bytes: &[u8; 64]) -> (r: [u8; 32])
    ensures
        r@ == bytes@.subrange(32, 64),
{
    let mut out = [0u8; 32];
    let mut i: usize = 0;
    while i < 32
        invariant
            i <= 32,
            out@.len() == 32,
            forall|k: int| 0 <= k < i ==> out@[k] == bytes@[32 + k],
        decreases 32 - i,
    {
        out[i] = bytes[32 + i];
        i = i + 1;
    }
    assert(out@ =~= bytes@.subrange(32, 64));
    out
}

/// Solana address generator for maze routing.
///
/// Generates ephemeral Solana keypairs for use as intermediate maze nodes.
/// Each call produces a unique keypair that has never existed before.
pub struct SolanaAddressGenerator;

impl AddressGenerator for SolanaAddressGenerator {
    /// The address is the base58 text of the public half of 64 keypair
    /// bytes.
    open spec fn belongs(&self, address: Seq<char>, material: Seq<u8>) -> bool {
        material.len() == 64 && address == pubkey_base58(material.subrange(32, 64))
    }

    /// It never fails.
    open spec fn fails_with(&self, e: MazeError) -> bool {
        false
    }

    /// A fresh keypair: its public key in base58, and its 64 bytes.
    fn generate(&self) -> (r: Result<(String, Vec<u8>), MazeError>)
        ensures
            r matches Ok((address, bytes)) && bytes@.len() == 64 && address@ == pubkey_base58(
                bytes@.subrange(32, 64),
            ),
    {
        let keypair = new_keypair();
        let bytes = keypair_bytes(&keypair);
        let public_key = public_half(&bytes);
        let address = public_key_text(&public_key);
        Ok((address, vstd::slice::slice_to_vec(bytes.as_slice())))
    }
}

} // verus!
