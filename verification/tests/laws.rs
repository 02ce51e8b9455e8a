//! The laws of the library on concrete mazes.

use maze_core::error::Result;
use maze_core::topology::MazeGraph;
use maze_core::{AddressGenerator, DummyAddressGenerator, MazeGenerator, MazeParameters, MergeStrategy};

fn dummy_encrypt(data: &[u8]) -> Result<Vec<u8>> {
    Ok(data.to_vec())
}

struct Counter(std::sync::Mutex<u64>);

impl AddressGenerator for Counter {
    fn generate(&self) -> Result<(String, Vec<u8>)> {
        let mut guard = self.0.lock().unwrap();
        let n = *guard;
        *guard = n + 1;
        Ok((format!("addr-{}", n), n.to_le_bytes().to_vec()))
    }
}

fn mazes() -> Vec<MazeGraph> {
    let mut out = Vec::new();
    for (k, strategy) in [
        MergeStrategy::Early,
        MergeStrategy::Late,
        MergeStrategy::Middle,
        MergeStrategy::Random,
        MergeStrategy::Fibonacci,
    ]
    .into_iter()
    .enumerate()
    {
        let mut params = MazeParameters::default();
        params.seed = [k as u8 + 1; 32];
        params.merge_strategy = strategy;
        params.hop_count = 5 + k as u8;
        if k % 2 == 1 {
            params.pool_address = Some("pool".to_string());
            params.pool_signing_material = Some(vec![1, 2]);
        }
        let generator = MazeGenerator::new(params);
        out.push(generator.generate(50_000_000_000, dummy_encrypt, &DummyAddressGenerator).unwrap());
    }
    out
}

#[test]
fn edges_mirror_on_concrete_mazes() {
    for maze in mazes() {
        for p in 0..maze.nodes.len() {
            for q in 0..maze.nodes.len() {
                let out = maze.nodes[p].outputs.contains(&(q as u16));
                let inp = maze.nodes[q].inputs.contains(&(p as u16));
                assert_eq!(out, inp);
            }
        }
    }
}

#[test]
fn transfers_climb_one_level_on_concrete_mazes() {
    for maze in mazes() {
        assert_eq!(maze.nodes[0].level, 0);
        assert!(maze.nodes[0].inputs.is_empty());
        for (q, node) in maze.nodes.iter().enumerate() {
            assert_eq!(node.index as usize, q);
            if q > 0 {
                assert!(!node.inputs.is_empty());
            }
            for &p in &node.inputs {
                assert!((p as usize) < q);
                assert_eq!(maze.nodes[p as usize].level + 1, node.level);
            }
        }
    }
}

#[test]
fn funds_converge_on_concrete_mazes() {
    for maze in mazes() {
        let last = maze.nodes.len() - 1;
        assert_eq!(maze.final_index as usize, last);
        assert!(maze.nodes[last].outputs.is_empty());
        for node in &maze.nodes[..last] {
            assert!(!node.outputs.is_empty());
        }
    }
}

#[test]
fn amounts_out_and_transaction_count() {
    for maze in mazes() {
        let fee = maze.parameters.tx_fee;
        let last = maze.nodes.len() - 1;
        let mut edges = 0u16;
        for (k, node) in maze.nodes.iter().enumerate() {
            let outs = node.outputs.len() as u64;
            edges += node.outputs.len() as u16;
            let expected = if outs > 0 {
                node.amount_in.saturating_sub(fee * outs)
            } else if k == last {
                node.amount_in.saturating_sub(fee)
            } else {
                0
            };
            assert_eq!(node.amount_out, expected);
        }
        assert_eq!(maze.total_transactions, edges + 1);
    }
}

#[test]
fn same_parameters_same_topology() {
    let mut params = MazeParameters::default();
    params.seed = [5; 32];
    params.merge_strategy = MergeStrategy::Random;
    let a = MazeGenerator::new(params.clone())
        .generate(3_000_000_000, dummy_encrypt, &DummyAddressGenerator)
        .unwrap();
    let mut other = params.clone();
    other.delay_ms = 1;
    let b = MazeGenerator::new(other)
        .generate(3_000_000_000, |d: &[u8]| Ok(d.iter().rev().cloned().collect()), &Counter(Default::default()))
        .unwrap();
    assert_eq!(a.nodes.len(), b.nodes.len());
    for (x, y) in a.nodes.iter().zip(b.nodes.iter()) {
        assert_eq!(x.index, y.index);
        assert_eq!(x.level, y.level);
        assert_eq!(x.inputs, y.inputs);
        assert_eq!(x.outputs, y.outputs);
        assert_eq!(x.amount_in, y.amount_in);
        assert_eq!(x.amount_out, y.amount_out);
    }
    assert_eq!(a.total_levels, b.total_levels);
    assert_eq!(a.total_transactions, b.total_transactions);
    assert_ne!(a.nodes[0].address, b.nodes[0].address);
}

#[test]
fn deposit_receives_the_whole_amount() {
    for maze in mazes() {
        assert_eq!(maze.nodes[0].amount_in, 50_000_000_000);
    }
}

#[test]
fn execution_order_is_sorted_and_complete() {
    for maze in mazes() {
        let order = maze.get_execution_order();
        assert_eq!(order.len(), maze.nodes.len());
        for w in order.windows(2) {
            assert!(w[0].level <= w[1].level);
        }
    }
}

#[test]
fn addresses_follow_node_order() {
    let generator = MazeGenerator::new(MazeParameters::default());
    let maze = generator.generate(1_000_000_000, dummy_encrypt, &Counter(Default::default())).unwrap();
    for (k, node) in maze.nodes.iter().enumerate() {
        assert_eq!(node.address, format!("addr-{}", k));
        assert_eq!(node.signing_material_encrypted, (k as u64).to_le_bytes().to_vec());
    }
}

#[test]
fn edges_never_repeat_and_ends_sit_alone() {
    for maze in mazes() {
        let last = maze.nodes[maze.final_index as usize].level;
        for (k, node) in maze.nodes.iter().enumerate() {
            let mut ins = node.inputs.clone();
            ins.sort();
            ins.dedup();
            assert_eq!(ins.len(), node.inputs.len());
            let mut outs = node.outputs.clone();
            outs.sort();
            outs.dedup();
            assert_eq!(outs.len(), node.outputs.len());
            if k > 0 {
                assert!(node.level > 0);
            }
            if k != maze.final_index as usize {
                assert!(node.level < last);
            }
        }
    }
}

#[test]
fn progress_matches_completion() {
    let mut maze = mazes().remove(0);
    let n = maze.nodes.len();
    assert_eq!(maze.get_progress(), (0, n));
    assert!(!maze.is_completed());
    for node in maze.nodes.iter_mut() {
        node.status = "completed".to_string();
    }
    assert_eq!(maze.get_progress(), (n, n));
    assert!(maze.is_completed());
}

#[test]
fn hex_addresses_differ_with_their_bytes() {
    assert_ne!(maze_core::address_gen::to_hex(&[0x01, 0x23]), maze_core::address_gen::to_hex(&[0x12, 0x03]));
    assert_eq!(maze_core::address_gen::to_hex(&[0x01, 0x23]), "0123");
}

#[test]
fn validated_parameters_can_always_generate() {
    for strategy in [MergeStrategy::Early, MergeStrategy::Late, MergeStrategy::Middle, MergeStrategy::Random, MergeStrategy::Fibonacci] {
        for hops in 5..=10u8 {
            for pooled in [false, true] {
                let mut params = MazeParameters::default();
                params.merge_strategy = strategy;
                params.hop_count = hops;
                params.fib_offset = 100;
                params.split_ratio = 1100;
                params.amount_noise = 100;
                if pooled {
                    params.pool_address = Some("pool".to_string());
                    params.pool_signing_material = Some(vec![7]);
                }
                assert!(params.validate().is_ok());
                let generator = MazeGenerator::new(params.clone());
                assert!(generator.can_generate(1u64 << 40));
                assert!(generator.can_generate(1u64 << 62));
                assert!(generator.can_generate(100));
                params.tx_fee = 1u64 << 56;
                let generator = MazeGenerator::new(params);
                assert!(generator.can_generate(1u64 << 62));
                let outcome = generator.try_generate(1u64 << 62, dummy_encrypt, &DummyAddressGenerator);
                assert!(matches!(outcome, Some(Ok(_))));
            }
        }
    }
}
