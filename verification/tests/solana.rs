use maze_core::solana::SolanaAddressGenerator;
use maze_core::AddressGenerator;

#[test]
fn test_solana_address_generator() {
    let gen = SolanaAddressGenerator;
    let (addr, bytes) = gen.generate().unwrap();
    assert!(addr.len() >= 43 && addr.len() <= 44); // Base58 Solana pubkey
    assert_eq!(bytes.len(), 64); // Solana keypair is 64 bytes
}

#[test]
fn test_solana_address_unique() {
    let gen = SolanaAddressGenerator;
    let (a, _) = gen.generate().unwrap();
    let (b, _) = gen.generate().unwrap();
    assert_ne!(a, b);
}

#[test]
fn solana_address_is_base58() {
    let alphabet = "123456789ABCDEFGHJKLMNPQRSTUVWXYZabcdefghijkmnopqrstuvwxyz";
    let gen = SolanaAddressGenerator;
    let (addr, _) = gen.generate().unwrap();
    assert!(addr.chars().all(|ch| alphabet.contains(ch)));
}

/// Base58 by repeated division, the textbook way.
fn base58(bytes: &[u8]) -> String {
    let alphabet: Vec<char> = "123456789ABCDEFGHJKLMNPQRSTUVWXYZabcdefghijkmnopqrstuvwxyz".chars().collect();
    let zeros = bytes.iter().take_while(|b| **b == 0).count();
    let mut num: Vec<u8> = bytes[zeros..].to_vec();
    let mut digits: Vec<char> = Vec::new();
    while !num.is_empty() {
        let mut rem: u32 = 0;
        let mut next: Vec<u8> = Vec::new();
        for b in &num {
            let acc = rem * 256 + *b as u32;
            let q = (acc / 58) as u8;
            rem = acc % 58;
            if !(next.is_empty() && q == 0) {
                next.push(q);
            }
        }
        digits.push(alphabet[rem as usize]);
        num = next;
    }
    let mut out: String = std::iter::repeat('1').take(zeros).collect();
    out.extend(digits.iter().rev());
    out
}

#[test]
fn solana_address_is_base58_of_public_half() {
    let gen = SolanaAddressGenerator;
    for _ in 0..20 {
        let (addr, bytes) = gen.generate().unwrap();
        assert_eq!(addr, base58(&bytes[32..64]));
        assert!(addr.len() >= 32 && addr.len() <= 44);
    }
    assert_eq!(base58(&[0u8; 32]), "11111111111111111111111111111111");
}
