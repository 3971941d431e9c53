use eth2_ee::contracts::hello_world::HelloWorld;
use eth2_ee::contracts::u32_to_value;
use eth2_ee::contracts::wallet::Wallet;
use eth2_ee::interface::contract::Contract;
use std::cmp::min;
use std::collections::BTreeMap;

fn build_value(n: &u32) -> Vec<u8> {
    u32_to_value(*n).to_vec()
}

#[test]
fn to_map() {
    let mut bytecode = vec![1u32, 2, 3, 4, 5, 6]
        .iter()
        .flat_map(build_value)
        .collect::<Vec<u8>>();
    bytecode.push(7);
    let wallet = Wallet::new(bytecode.clone());

    let mut map = BTreeMap::<u128, [u8; 32]>::new();
    map.insert(2, u32_to_value(0));
    map.insert(7, u32_to_value(6 * 32 + 1));

    for i in (0..bytecode.len()).step_by(32) {
        let mut buf = [0u8; 32];
        let begin = i as usize;
        let end = min(i + 32, bytecode.len()) as usize;

        buf[0..(if end % 32 != 0 { end % 32 } else { 32 })].copy_from_slice(&bytecode[begin..end]);

        map.insert((24 + (i / 32)) as u128, buf);
    }

    map.insert(31, [0u8; 32]);

    let mut oof = oof::Oof::from_map(map.clone());
    let _ = oof.root().expect("the expected storage hashes up to a root");

    assert_eq!(wallet.to_map(), map);
}

#[test]
fn u32_to_value_layout() {
    let v = u32_to_value(0x0403_0201);
    assert_eq!(&v[0..4], &[1, 2, 3, 4]);
    assert_eq!(&v[4..], &[0u8; 28][..]);
}

#[test]
fn wallet_storage_for_shortest_code() {
    let bytecode: Vec<u8> = (1..=33u8).collect();
    let wallet = Wallet::new(bytecode.clone());
    let map = wallet.to_map();
    // 33 bytes pad to 64: two leaves, the first of them at 6.
    let mut chunk0 = [0u8; 32];
    chunk0.copy_from_slice(&bytecode[0..32]);
    let mut chunk1 = [0u8; 32];
    chunk1[0] = 33;
    assert_eq!(map.len(), 3);
    assert_eq!(map[&2], u32_to_value(0));
    assert_eq!(map[&6], chunk0);
    // the second chunk shares its index with the length mix-in and wins
    assert_eq!(map[&7], chunk1);
}

#[test]
fn wallet_storage_keeps_length_mixin() {
    let bytecode = vec![0xaau8; 100];
    let wallet = Wallet::new(bytecode.clone());
    let map = wallet.to_map();
    // 100 bytes pad to 128: four leaves from 12.
    assert_eq!(map[&7], u32_to_value(100));
    for j in 0..4u128 {
        let mut chunk = [0u8; 32];
        let begin = (32 * j) as usize;
        let end = min(begin + 32, 100);
        chunk[0..end - begin].copy_from_slice(&bytecode[begin..end]);
        assert_eq!(map[&(12 + j)], chunk);
    }
    assert_eq!(map.len(), 6);
    assert_eq!(wallet.bytecode(), &bytecode[..]);
}

#[test]
fn hello_world_storage() {
    let bytecode: Vec<u8> = (0..40u8).collect();
    let hello = HelloWorld::new(bytecode.clone());
    let map = hello.to_map();
    let mut tree = arborist::Tree::new();
    tree.insert(2, u32_to_value(0));
    tree.insert(7, u32_to_value(40));
    tree.insert_bytes(6, bytecode.clone());
    let expected: BTreeMap<u128, [u8; 32]> = BTreeMap::from(tree);
    assert_eq!(map, expected);
    assert_eq!(hello.bytecode(), &bytecode[..]);
    // 40 bytes take two leaves under 6, at 12 and 13; 6 itself is pruned.
    let mut chunk1 = [0u8; 32];
    chunk1[0..8].copy_from_slice(&bytecode[32..40]);
    assert_eq!(map[&13], chunk1);
    assert!(!map.contains_key(&6));
    assert_eq!(map[&7], u32_to_value(40));
    assert_eq!(map[&2], u32_to_value(0));
}

#[test]
fn wallet_code_reads_back() {
    let bytecode: Vec<u8> = (0..200u32).map(|i| (i % 251) as u8 + 1).collect();
    let map = Wallet::new(bytecode.clone()).to_map();
    // the length mix-in holds the length in its first sixteen bytes
    let mut len = [0u8; 16];
    len.copy_from_slice(&map[&7][0..16]);
    assert_eq!(u128::from_le_bytes(len), 200);
    // 200 bytes pad to 256: eight leaves from 24, read in key order
    let mut bytes = Vec::new();
    for k in 24..32u128 {
        bytes.extend_from_slice(&map[&k]);
    }
    assert_eq!(&bytes[..200], &bytecode[..]);
    assert!(bytes[200..].iter().all(|b| *b == 0));
}
