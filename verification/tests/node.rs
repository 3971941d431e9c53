use eth2_ee::contracts::u32_to_value;
use eth2_ee::interface::address::Address;
use eth2_ee::interface::transaction::Transaction;
use eth2_ee::node::error::Error;
use eth2_ee::node::process::{
    find_missing_code, process_data_blob, process_raw_transactions, proof_is_whole,
    transactions_are_processable, try_process_data_blob, BlobError,
};
use eth2_ee::node::state::{Oof, State};
use std::collections::BTreeMap;

const HEIGHT: u32 = 2;

fn chunk(bytes: &[u8]) -> [u8; 32] {
    let mut c = [0u8; 32];
    c[..bytes.len()].copy_from_slice(bytes);
    c
}

/// Nodes that hold 40 bytes of code for the zero address in a tree whose
/// address layer is at height 2, with every sibling up to the root.
fn code_nodes(code: &[u8]) -> BTreeMap<u128, [u8; 32]> {
    // address root 4 + 256 = 260; length mix-in at 260 * 4 + 3 = 1043;
    // code root 1042; two chunks from 1042 * 2 = 2084.
    let mut m = BTreeMap::new();
    m.insert(1043, u32_to_value(code.len() as u32));
    m.insert(2084, chunk(&code[0..32]));
    m.insert(2085, chunk(&code[32..]));
    for sibling in [520u128, 261, 131, 64, 33, 17, 9, 5, 3] {
        m.insert(sibling, [0u8; 32]);
    }
    m
}

fn proof_bytes(m: &BTreeMap<u128, [u8; 32]>) -> (Vec<u8>, [u8; 32]) {
    let mut store = oof::Oof::from_map(m.clone());
    let bytes = store.to_bytes();
    let root = *store.root().expect("the nodes hash up to a root");
    (bytes, root)
}

fn blob(txs: &[u8], proof: &[u8]) -> Vec<u8> {
    let mut b = (txs.len() as u32).to_le_bytes().to_vec();
    b.extend_from_slice(txs);
    b.extend_from_slice(proof);
    b
}

#[test]
fn real_proof_blob() {
    let blob = [
        8, 0, 0, 0, 3, 0, 0, 0, 0, 0, 0, 0, 0, 0, 0, 0, 0, 0, 0, 0, 4, 0, 0, 0, 0, 0, 0, 0, 0,
        0, 0, 0, 0, 0, 0, 0, 10, 0, 0, 0, 0, 0, 0, 0, 0, 0, 0, 0, 0, 0, 0, 0, 23, 0, 0, 0, 0,
        0, 0, 0, 0, 0, 0, 0, 0, 0, 0, 0, 88, 0, 0, 0, 0, 0, 0, 0, 0, 0, 0, 0, 0, 0, 0, 0, 89,
        0, 0, 0, 0, 0, 0, 0, 0, 0, 0, 0, 0, 0, 0, 0, 90, 0, 0, 0, 0, 0, 0, 0, 0, 0, 0, 0, 0, 0,
        0, 0, 91, 0, 0, 0, 0, 0, 0, 0, 0, 0, 0, 0, 0, 0, 0, 0, 245, 165, 253, 66, 209, 106, 32,
        48, 39, 152, 239, 110, 211, 9, 151, 155, 67, 0, 61, 35, 32, 217, 240, 232, 234, 152,
        49, 169, 39, 89, 251, 75, 0, 0, 0, 0, 0, 0, 0, 0, 0, 0, 0, 0, 0, 0, 0, 0, 0, 0, 0, 0,
        0, 0, 0, 0, 0, 0, 0, 0, 0, 0, 0, 0, 0, 0, 0, 0, 0, 0, 0, 0, 0, 0, 0, 0, 0, 0, 0, 0, 0,
        0, 0, 0, 0, 0, 0, 0, 0, 0, 0, 0, 0, 0, 0, 0, 0, 95, 0, 0, 0, 0, 0, 0, 0, 0, 0, 0, 0, 0, 0,
        0, 0, 0, 0, 0, 0, 0, 0, 0, 0, 0, 0, 0, 0, 0, 0, 0, 0, 0, 97, 115, 109, 1, 0, 0, 0, 1,
        9, 2, 96, 2, 127, 127, 0, 96, 0, 0, 2, 13, 1, 3, 101, 110, 118, 5, 112, 114, 105, 110,
        116, 0, 0, 3, 2, 1, 1, 5, 3, 1, 0, 1, 7, 17, 2, 6, 109, 101, 109, 111, 114, 121, 2, 0,
        4, 109, 97, 105, 110, 0, 1, 10, 11, 1, 9, 0, 65, 232, 7, 65, 11, 16, 0, 11, 11, 18, 1,
        0, 65, 232, 7, 11, 11, 104, 101, 108, 108, 111, 32, 119, 111, 114, 108, 100, 0, 0, 0,
        0, 0, 0, 0, 0, 0, 0, 0, 0, 0, 0, 0, 0, 0, 0, 0, 0, 0, 0, 0, 0, 0, 0, 0, 0, 0, 0, 0, 0,
        0,
    ];

    let mut oof = Oof::from_raw(&blob, 2);
    oof.root().unwrap();
    println!("{:?}", oof.code(&Address::one()));
}

#[test]
fn from_raw_reads_nodes() {
    let mut blob = 2u32.to_le_bytes().to_vec();
    blob.extend_from_slice(&5u128.to_le_bytes());
    blob.extend_from_slice(&9u128.to_le_bytes());
    blob.extend_from_slice(&[1u8; 32]);
    blob.extend_from_slice(&[2u8; 32]);
    assert!(proof_is_whole(&blob));
    assert!(!proof_is_whole(&blob[..blob.len() - 1]));
    let oof = Oof::from_raw(&blob, HEIGHT);
    assert_eq!(oof.get(&Address::zero(), &0), None);
    assert_eq!(oof.address_root(Address::zero()), 260);
    let key_of_5 = oof.get_bytes(5, 32);
    assert_eq!(key_of_5, Ok(vec![1u8; 32]));
    assert_eq!(oof.get_bytes(9, 5), Ok(vec![2u8; 5]));
    // two chunks under 4 would be at 8 and 9: 8 is missing
    assert_eq!(oof.get_bytes(4, 40), Err(Error::MissingNode(8)));
}

#[test]
fn get_after_set() {
    let (bytes, _) = proof_bytes(&code_nodes(&[7u8; 40]));
    let mut oof = Oof::from_raw(&bytes, HEIGHT);
    let a = Address::new([3]);
    // slot 5 of address 3 (key 259) is general index 259 * 4 + 1 = 1037
    assert_eq!(oof.get(&a, &5), None);
    assert_eq!(oof.set(&a, 5, [8u8; 32]), Ok(None));
    assert_eq!(oof.get(&a, &5), Some(&[8u8; 32]));
    assert_eq!(oof.set(&a, 5, [9u8; 32]), Ok(Some([8u8; 32])));
    assert_eq!(oof.get(&a, &5), Some(&[9u8; 32]));
}

#[test]
fn code_reads_back() {
    let code: Vec<u8> = (100..140u8).collect();
    let (bytes, _) = proof_bytes(&code_nodes(&code));
    let oof = Oof::from_raw(&bytes, HEIGHT);
    assert_eq!(oof.code(&Address::zero()), Ok(code));
    assert_eq!(oof.code(&Address::one()), Err(Error::MissingNode(261 * 4 + 3)));
}

#[test]
fn data_blob_runs_transactions() {
    let code: Vec<u8> = (100..140u8).collect();
    let (proof, root) = proof_bytes(&code_nodes(&code));
    let tx = Transaction::new(Address::zero(), vec![1, 2, 3]).to_bytes();
    let data = blob(&tx, &proof);
    let (calls, post) = process_data_blob(&data, &root, HEIGHT);
    assert_eq!(calls.len(), 1);
    assert_eq!(calls[0].code, code);
    assert_eq!(calls[0].argument, vec![1, 2, 3]);
    assert_eq!(post, root);
    let (calls, post) = try_process_data_blob(&data, &root, HEIGHT).unwrap();
    assert_eq!(calls.len(), 1);
    assert_eq!(post, root);
}

#[test]
fn data_blob_rejects_wrong_root() {
    let code: Vec<u8> = (100..140u8).collect();
    let (proof, _) = proof_bytes(&code_nodes(&code));
    let data = blob(&[], &proof);
    let r = try_process_data_blob(&data, &[0u8; 32], HEIGHT);
    assert_eq!(r.err(), Some(BlobError::RootMismatch));
}

#[test]
fn data_blob_truncated() {
    let r = try_process_data_blob(&[1, 0], &[0u8; 32], HEIGHT);
    assert_eq!(r.err(), Some(BlobError::Truncated));
    let r = try_process_data_blob(&[9, 0, 0, 0, 1], &[0u8; 32], HEIGHT);
    assert_eq!(r.err(), Some(BlobError::Truncated));
}

#[test]
fn data_blob_without_proof_root() {
    let mut m = BTreeMap::new();
    m.insert(2u128, [1u8; 32]);
    let store = oof::Oof::from_map(m);
    let data = blob(&[], &store.to_bytes());
    let r = try_process_data_blob(&data, &[0u8; 32], HEIGHT);
    assert_eq!(r.err(), Some(BlobError::NoRoot(Error::MissingProof(Address::zero()))));
}

#[test]
fn data_blob_stops_at_missing_code() {
    let code: Vec<u8> = (100..140u8).collect();
    let (proof, root) = proof_bytes(&code_nodes(&code));
    let mut txs = Transaction::new(Address::zero(), vec![4]).to_bytes();
    txs.extend(Transaction::new(Address::one(), vec![5]).to_bytes());
    txs.extend(Transaction::new(Address::zero(), vec![6]).to_bytes());
    let data = blob(&txs, &proof);
    let r = try_process_data_blob(&data, &root, HEIGHT);
    assert_eq!(r.err(), Some(BlobError::Code(Error::MissingNode(261 * 4 + 3))));
    let oof = Oof::from_raw(&proof, HEIGHT);
    assert_eq!(find_missing_code(&oof, &txs), Err(Error::MissingNode(261 * 4 + 3)));
}

#[test]
fn data_blob_rejects_partial_transaction() {
    let code: Vec<u8> = (100..140u8).collect();
    let (proof, root) = proof_bytes(&code_nodes(&code));
    let data = blob(&[5, 0, 0, 0, 0], &proof);
    let r = try_process_data_blob(&data, &root, HEIGHT);
    assert_eq!(r.err(), Some(BlobError::BadTransactions));
}

#[test]
fn raw_transactions_in_order() {
    let code: Vec<u8> = (100..140u8).collect();
    let (bytes, _) = proof_bytes(&code_nodes(&code));
    let oof = Oof::from_raw(&bytes, HEIGHT);
    let mut txs = Transaction::new(Address::zero(), vec![1]).to_bytes();
    txs.extend(Transaction::new(Address::zero(), vec![2, 2]).to_bytes());
    assert!(transactions_are_processable(&oof, &txs));
    assert_eq!(find_missing_code(&oof, &txs), Ok(()));
    let calls = process_raw_transactions(&oof, &txs).unwrap();
    assert_eq!(calls.len(), 2);
    assert_eq!(calls[0].argument, vec![1]);
    assert_eq!(calls[1].argument, vec![2, 2]);
    assert_eq!(calls[1].code, code);
}

#[test]
fn framed_blob_reads_back() {
    let code: Vec<u8> = (100..140u8).collect();
    let (proof, root) = proof_bytes(&code_nodes(&code));
    let first = Transaction::new(Address::zero(), vec![1, 2]);
    let second = Transaction::new(Address::zero(), vec![3]);
    let mut txs = first.to_bytes();
    txs.extend(second.to_bytes());
    // the header is the byte length of both framed transactions
    assert_eq!(txs.len(), (4 + first.len() + 4 + second.len()) as usize);
    let data = blob(&txs, &proof);
    let (calls, post) = try_process_data_blob(&data, &root, HEIGHT).unwrap();
    assert_eq!(calls.len(), 2);
    assert_eq!(calls[0].argument, vec![1, 2]);
    assert_eq!(calls[1].argument, vec![3]);
    assert_eq!(post, root);
}

#[test]
fn address_roots_are_distinct() {
    let oof = Oof::from_raw(&0u32.to_le_bytes(), HEIGHT);
    let mut seen = std::collections::BTreeSet::new();
    for b in 0..=255u8 {
        assert!(seen.insert(oof.address_root(Address::new([b]))));
    }
    assert_eq!(oof.address_root(Address::new([7])), 4 + 256 + 7);
}
