use eth2_ee::contracts::u32_to_value;
use eth2_ee::contracts::wallet::Wallet;
use eth2_ee::engine::Engine;
use eth2_ee::interface::address::Address;
use eth2_ee::interface::transaction::Transaction;

fn wallet_code() -> Vec<u8> {
    let mut bytecode: Vec<u8> = (1..=192u32).map(|i| i as u8).collect();
    bytecode.push(7);
    bytecode
}

#[test]
fn state_proof() {
    let mut engine = Engine::new(4);
    let bytecode = wallet_code();
    let wallet = Wallet::new(bytecode.clone());

    let address = engine.deploy(wallet);
    let oof = engine.state_proof().expect("the contract fits under its address");

    println!("address: {:?}", address);
    println!("{:?}", oof.map.keys().collect::<Vec<_>>());
    // The contract is rooted at 4 + 256 = 260. Its data root (2) moves to
    // 520, its length mix-in (7) to 1043, and its first code chunk (24) to
    // 24 + 259 * 16 = 4168. The nodes filled in at 1 and 3 move to 260 and
    // 521, and are pruned: each has a child.
    assert_eq!(oof.map[&520], u32_to_value(0));
    assert!(!oof.map.contains_key(&521));
    assert_eq!(oof.map[&1043], u32_to_value(193));
    let mut first_chunk = [0u8; 32];
    first_chunk.copy_from_slice(&bytecode[0..32]);
    assert_eq!(oof.map[&4168], first_chunk);
    assert!(!oof.map.contains_key(&260));
}

#[test]
fn deploy_answers_zero_address() {
    let mut engine = Engine::new(4);
    let wallet = Wallet::new(vec![1u8; 40]);
    assert_eq!(engine.deploy(wallet), Address::zero());
}

#[test]
fn blob_of_unrooted_proof_is_none() {
    let mut engine = Engine::new(4);
    engine.deploy(Wallet::new(wallet_code()));
    let tx = Transaction::new(Address::zero(), vec![]);
    // the proof lacks the siblings on the way up to the state root
    assert!(engine.blob(vec![tx]).is_none());
}

#[test]
fn blob_without_contracts_is_none() {
    let engine: Engine<Wallet> = Engine::new(1);
    let tx = Transaction::new(Address::zero(), vec![7, 7]);
    // no contracts: the proof is empty and has no root
    assert!(engine.blob(vec![tx]).is_none());
}
