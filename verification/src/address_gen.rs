//! Address generator trait.
//!
//! This trait is the single abstraction point between the chain-agnostic
//! maze algorithm and chain-specific implementations. Each chain only needs
//! to implement one method: `generate()`.

use vstd::prelude::*;
use crate::error::MazeError;
use crate::rng::random_bytes32;

verus! {

/// Trait for chain-specific address generation.
///
/// Implementors generate a new address with corresponding signing material
/// (e.g. private key bytes) for use as intermediate maze nodes.
pub trait AddressGenerator: Send + Sync {
    /// The address `address` belongs to the signing material `material`.
    /// A generator that says nothing of its addresses keeps this default.
    open spec fn belongs(&self, address: Seq<char>, material: Seq<u8>) -> bool {
        true
    }

    /// `e` is an error that this generator may return. A generator that
    /// says nothing of its failures keeps this default.
    open spec fn fails_with(&self, e: MazeError) -> bool {
        true
    }

    /// Generate a new address with corresponding signing material: the
    /// address in the chain's native format, and the signing material
    /// (e.g. private key bytes) that the consumer encrypts for later
    /// transaction signing.
    fn generate(&self) -> (r: Result<(String, Vec<u8>), MazeError>)
        ensures
            r matches Ok((address, material)) ==> self.belongs(address@, material@),
            r matches Err(e) ==> self.fails_with(e),
    ;
}

/// The lowercase hexadecimal digit of a value below 16.
pub open spec fn hex_digit(d: nat) -> char {
    if d < 10 {
        (d + 48) as char
    } else {
        (d + 87) as char
    }
}

/// Lowercase hexadecimal notation of bytes, two digits per byte.
pub open spec fn hex_of(bytes: Seq<u8>) -> Seq<char>
    decreases bytes.len(),
{
    if bytes.len() == 0 {
        seq![]
    } else {
        hex_of(bytes.drop_last()) + seq![
            hex_digit(bytes.last() as nat / 16),
            hex_digit(bytes.last() as nat % 16),
        ]
    }
}

/// Hex notation has two digits per byte.
pub proof fn lemma_hex_len(bytes: Seq<u8>)
    ensures
        hex_of(bytes).len() == 2 * bytes.len(),
    decreases bytes.len(),
{
    if bytes.len() > 0 {
        lemma_hex_len(bytes.drop_last());
    }
}

/// Appends one hexadecimal digit.
fn push_hex_digit(s: &mut String, d: u8)
    requires
        d < 16,
    ensures
        final(s)@ == old(s)@.push(hex_digit(d as nat)),
{
    let table: &str = "0123456789abcdef";
    proof {
        reveal_strlit("0123456789abcdef");
    }
    let piece = table.substring_ascii(d as usize, d as usize + 1);
    assert(piece@ =~= seq![hex_digit(d as nat)]);
    s.append(piece);
}

/// Lowercase hexadecimal notation of bytes, two digits per byte.
pub fn to_hex(bytes: &[u8]) -> (r: String)
    ensures
        r@ == hex_of(bytes@),
        r@.len() == 2 * bytes@.len(),
{
    let mut s = String::new();
    let n = bytes.len();
    let mut i: usize = 0;
    while i < n
        invariant
            i <= n,
            n == bytes@.len(),
            s@ == hex_of(bytes@.take(i as int)),
        decreases n - i,
    {
        let b = bytes[i];
        push_hex_digit(&mut s, b / 16);
        push_hex_digit(&mut s, b % 16);
        assert(bytes@.take((i + 1) as int).drop_last() =~= bytes@.take(i as int));
        i = i + 1;
        assert(s@ =~= hex_of(bytes@.take(i as int)));
    }
    assert(bytes@.take(n as int) =~= bytes@);
    proof {
        lemma_hex_len(bytes@);
    }
    s
}

/// Dummy generator for testing.
///
/// Generates fake hex addresses with random 32-byte signing material.
/// Not for production use.
pub struct DummyAddressGenerator;

impl AddressGenerator for DummyAddressGenerator {
    /// The address is the hex notation of 32 bytes of material.
    open spec fn belongs(&self, address: Seq<char>, material: Seq<u8>) -> bool {
        material.len() == 32 && address == hex_of(material)
    }

    /// It never fails.
    open spec fn fails_with(&self, e: MazeError) -> bool {
        false
    }

    /// A random 32-byte signing material and its hex notation as address.
    fn generate(&self) -> (r: Result<(String, Vec<u8>), MazeError>)
        ensures
            r matches Ok((address, bytes)) && bytes@.len() == 32 && address@ == hex_of(bytes@)
                && address@.len() == 64,
    {
        let bytes: [u8; 32] = random_bytes32();
        let address = to_hex(bytes.as_slice());
        Ok((address, vstd::slice::slice_to_vec(bytes.as_slice())))
    }
}

} // verus!
