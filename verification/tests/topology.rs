use maze_core::error::Result;
use maze_core::{DummyAddressGenerator, MazeError, MazeGenerator, MazeParameters, MergeStrategy};

fn dummy_encrypt(data: &[u8]) -> Result<Vec<u8>> {
    Ok(data.to_vec())
}

#[test]
fn test_maze_generation() {
    let params = MazeParameters::default();
    let generator = MazeGenerator::new(params);
    let addr_gen = DummyAddressGenerator;

    let amount = 1_000_000_000;
    let maze = generator.generate(amount, dummy_encrypt, &addr_gen).unwrap();

    assert!(maze.nodes.len() >= 2);
    assert_eq!(maze.deposit_index, 0);
    assert!(maze.final_index > 0);
    assert!(maze.total_transactions > 0);
}

#[test]
fn test_maze_topology() {
    let mut params = MazeParameters::default();
    params.hop_count = 5;
    let generator = MazeGenerator::new(params);
    let addr_gen = DummyAddressGenerator;

    let amount = 5_000_000_000;
    let maze = generator.generate(amount, dummy_encrypt, &addr_gen).unwrap();

    // Check deposit node
    let deposit = maze.get_deposit_node().unwrap();
    assert_eq!(deposit.level, 0);
    assert!(deposit.inputs.is_empty());

    // Check final node
    let final_node = maze.get_final_node().unwrap();
    assert!(final_node.outputs.is_empty());
}

#[test]
fn test_execution_order() {
    let params = MazeParameters::default();
    let generator = MazeGenerator::new(params);
    let addr_gen = DummyAddressGenerator;

    let maze = generator.generate(1_000_000_000, dummy_encrypt, &addr_gen).unwrap();
    let order = maze.get_execution_order();

    let mut prev_level = 0;
    for node in order {
        assert!(node.level >= prev_level);
        prev_level = node.level;
    }
}

#[test]
fn test_insufficient_funds() {
    let params = MazeParameters::default();
    let generator = MazeGenerator::new(params);
    let addr_gen = DummyAddressGenerator;

    let result = generator.generate(100, dummy_encrypt, &addr_gen);
    assert!(result.is_err());
}

#[test]
fn insufficient_funds_names_the_reserve() {
    // 7 hops times floor(1.5 * 1.618) = 14 transactions of 5000
    let generator = MazeGenerator::new(MazeParameters::default());
    match generator.generate(70_000, dummy_encrypt, &DummyAddressGenerator) {
        Err(MazeError::InsufficientFunds { required, available }) => {
            assert_eq!(required, 70_001);
            assert_eq!(available, 70_000);
        }
        other => panic!("unexpected {:?}", other.map(|m| m.nodes.len())),
    }
    assert!(generator.generate(70_001, dummy_encrypt, &DummyAddressGenerator).is_ok());
}

#[test]
fn overflowing_fees_are_reported_by_try_generate() {
    let mut params = MazeParameters::default();
    params.tx_fee = u64::MAX / 2;
    let generator = MazeGenerator::new(params);
    assert!(!generator.can_generate(1_000_000_000));
    assert!(generator.try_generate(1_000_000_000, dummy_encrypt, &DummyAddressGenerator).is_none());
}

#[test]
fn every_strategy_generates() {
    for strategy in [
        MergeStrategy::Early,
        MergeStrategy::Late,
        MergeStrategy::Middle,
        MergeStrategy::Random,
        MergeStrategy::Fibonacci,
    ] {
        for hops in 5..=10u8 {
            let mut params = MazeParameters::default();
            params.merge_strategy = strategy;
            params.hop_count = hops;
            let generator = MazeGenerator::new(params);
            let maze = generator.generate(10_000_000_000, dummy_encrypt, &DummyAddressGenerator).unwrap();
            assert_eq!(maze.total_levels, hops + 1);
            assert_eq!(maze.nodes[maze.final_index as usize].level, hops);
            assert_eq!(maze.final_index as usize, maze.nodes.len() - 1);
        }
    }
}

#[test]
fn address_errors_are_wrapped() {
    struct Failing;
    impl maze_core::AddressGenerator for Failing {
        fn generate(&self) -> Result<(String, Vec<u8>)> {
            Err(MazeError::AddressGeneration("no entropy".to_string()))
        }
    }
    let generator = MazeGenerator::new(MazeParameters::default());
    match generator.generate(1_000_000_000, dummy_encrypt, &Failing) {
        Err(MazeError::AddressGeneration(m)) => {
            assert_eq!(m, "address generation failed: no entropy");
        }
        _ => panic!("expected an address generation error"),
    }
}

#[test]
fn encryption_errors_pass_through() {
    let failing = |_: &[u8]| -> Result<Vec<u8>> { Err(MazeError::Encryption("key missing".to_string())) };
    let generator = MazeGenerator::new(MazeParameters::default());
    match generator.generate(1_000_000_000, failing, &DummyAddressGenerator) {
        Err(MazeError::Encryption(m)) => assert_eq!(m, "key missing"),
        _ => panic!("expected an encryption error"),
    }
}

#[test]
fn nodes_start_pending_and_progress_counts_completed() {
    let generator = MazeGenerator::new(MazeParameters::default());
    let mut maze = generator.generate(1_000_000_000, dummy_encrypt, &DummyAddressGenerator).unwrap();
    let n = maze.nodes.len();
    assert!(maze.nodes.iter().all(|node| node.status == "pending"));
    assert!(!maze.is_completed());
    assert_eq!(maze.get_progress(), (0, n));
    maze.nodes[0].status = "completed".to_string();
    assert_eq!(maze.get_progress(), (1, n));
    for node in maze.nodes.iter_mut() {
        node.status = "completed".to_string();
    }
    assert!(maze.is_completed());
    assert_eq!(maze.get_progress(), (n, n));
}

#[test]
fn nodes_at_level_partition_the_maze() {
    let generator = MazeGenerator::new(MazeParameters::default());
    let maze = generator.generate(1_000_000_000, dummy_encrypt, &DummyAddressGenerator).unwrap();
    let mut total = 0;
    for level in 0..maze.total_levels {
        let nodes = maze.get_nodes_at_level(level);
        assert!(!nodes.is_empty());
        assert!(nodes.iter().all(|node| node.level == level));
        total += nodes.len();
    }
    assert_eq!(total, maze.nodes.len());
    assert_eq!(maze.get_nodes_at_level(0).len(), 1);
}

#[test]
fn pool_mode_routes_through_the_pool() {
    let mut params = MazeParameters::default();
    params.hop_count = 6;
    params.pool_address = Some("POOL".to_string());
    params.pool_signing_material = Some(vec![9, 9, 9]);
    let generator = MazeGenerator::new(params);
    let maze = generator.generate(10_000_000_000, dummy_encrypt, &DummyAddressGenerator).unwrap();
    let pools: Vec<_> = maze.nodes.iter().filter(|node| node.address == "POOL").collect();
    assert_eq!(pools.len(), 1);
    let pool = pools[0];
    // pre-pool levels: 3, so the pool sits at level 4; post-pool: 3 levels, final at 8
    assert_eq!(pool.level, 4);
    assert_eq!(pool.signing_material_encrypted, vec![9, 9, 9]);
    assert_eq!(maze.total_levels, 9);
    let level_three: Vec<u16> = maze.get_nodes_at_level(3).iter().map(|node| node.index).collect();
    assert_eq!(pool.inputs, level_three);
    assert_eq!(pool.amount_in, maze.get_nodes_at_level(3).iter().map(|node| node.amount_in).sum::<u64>());
}

#[test]
fn zero_hops_give_deposit_and_final() {
    let mut params = MazeParameters::default();
    params.hop_count = 0;
    let generator = MazeGenerator::new(params);
    let maze = generator.generate(1_000_000, dummy_encrypt, &DummyAddressGenerator).unwrap();
    assert_eq!(maze.nodes.len(), 2);
    assert_eq!(maze.nodes[1].level, 0);
    assert_eq!(maze.nodes[1].inputs, vec![0]);
    assert_eq!(maze.nodes[0].outputs, vec![1]);
    assert_eq!(maze.total_levels, 1);
    assert_eq!(maze.total_transactions, 2);
}

#[test]
fn node_secret_passes_address_and_encrypts_material() {
    let encrypt = |data: &[u8]| -> Result<Vec<u8>> { Ok(data.iter().map(|b| b ^ 0xff).collect()) };
    let r = maze_core::topology::node_secret(Ok(("addr".to_string(), vec![1u8, 2])), &encrypt);
    assert_eq!(r.unwrap(), ("addr".to_string(), vec![0xfeu8, 0xfd]));
    let failing = |_data: &[u8]| -> Result<Vec<u8>> { Err(MazeError::Encryption("no key".to_string())) };
    let r = maze_core::topology::node_secret(Ok(("addr".to_string(), vec![1u8])), &failing);
    assert!(matches!(r, Err(MazeError::Encryption(m)) if m == "no key"));
    let inner = MazeError::Encryption("rng down".to_string());
    let r = maze_core::topology::node_secret(Err(inner), &encrypt);
    assert!(matches!(r, Err(MazeError::AddressGeneration(m)) if m == "encryption failed: rng down"));
}

#[test]
fn each_node_holds_its_own_encrypted_material() {
    let mut params = MazeParameters::default();
    params.pool_address = Some("POOL".to_string());
    params.pool_signing_material = Some(vec![5, 6, 7]);
    let generator = MazeGenerator::new(params);
    let encrypt = |data: &[u8]| -> Result<Vec<u8>> { Ok(data.iter().map(|b| b ^ 0x5a).collect()) };
    let maze = generator.generate(1_000_000_000, encrypt, &DummyAddressGenerator).unwrap();
    for node in &maze.nodes {
        let plain: Vec<u8> = node.signing_material_encrypted.iter().map(|b| b ^ 0x5a).collect();
        if node.address == "POOL" {
            assert_eq!(plain, vec![5, 6, 7]);
        } else {
            assert_eq!(plain.len(), 32);
            assert_eq!(maze_core::address_gen::to_hex(&plain), node.address);
        }
    }
}

#[test]
fn split_and_merge_never_coincide() {
    let mut params = MazeParameters::default();
    params.merge_strategy = MergeStrategy::Early;
    params.hop_count = 10;
    let generator = MazeGenerator::new(params);
    assert_eq!((generator.should_split_at_level(3), generator.should_merge_at_level(3)), (false, true));
    assert_eq!((generator.should_split_at_level(5), generator.should_merge_at_level(5)), (false, false));
    assert_eq!((generator.should_split_at_level(8), generator.should_merge_at_level(8)), (true, false));
    let mut params = MazeParameters::default();
    params.merge_strategy = MergeStrategy::Fibonacci;
    params.fib_offset = 3;
    let generator = MazeGenerator::new(params);
    for level in 0..20u8 {
        assert_ne!(generator.should_split_at_level(level), generator.should_merge_at_level(level));
    }
}
