use maze_core::address_gen::to_hex;
use maze_core::{AddressGenerator, DummyAddressGenerator};

#[test]
fn test_dummy_generator() {
    let gen = DummyAddressGenerator;
    let (addr, bytes) = gen.generate().unwrap();
    assert_eq!(addr.len(), 64, "hex address should be 64 chars");
    assert_eq!(bytes.len(), 32, "signing material should be 32 bytes");
}

#[test]
fn test_dummy_generator_unique() {
    let gen = DummyAddressGenerator;
    let (addr_a, _) = gen.generate().unwrap();
    let (addr_b, _) = gen.generate().unwrap();
    assert_ne!(addr_a, addr_b, "each call should produce unique address");
}

#[test]
fn dummy_address_is_hex_of_material() {
    let gen = DummyAddressGenerator;
    let (addr, bytes) = gen.generate().unwrap();
    let expected: String = bytes.iter().map(|b| format!("{:02x}", b)).collect();
    assert_eq!(addr, expected);
}

#[test]
fn to_hex_known_bytes() {
    assert_eq!(to_hex(&[0x00, 0x0f, 0xa5, 0xff]), "000fa5ff");
    assert_eq!(to_hex(&[]), "");
}
