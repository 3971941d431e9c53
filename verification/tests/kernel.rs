use eth2_ee::kernel::address::Address;
use eth2_ee::kernel::transaction::Transaction;

#[test]
fn kernel_new_call() {
    let length = 143u32;
    let to = [0u8; 20];
    let data = [3u8; 123];

    let mut raw_tx = [0u8; 4 + 20 + 123];
    raw_tx[0..4].copy_from_slice(&length.to_le_bytes());
    raw_tx[4..24].copy_from_slice(&to);
    raw_tx[24..147].copy_from_slice(&data);

    let tx = Transaction::from_ptr(&raw_tx);

    assert_eq!(tx.length(), length);
    assert_eq!(tx.to(), &Address::new(to));
    assert_eq!(&tx.data()[..], &data[..]);
}

#[test]
fn kernel_transaction_with_only_a_recipient() {
    let mut raw_tx = vec![20u8, 0, 0, 0];
    raw_tx.extend_from_slice(&[7u8; 20]);
    raw_tx.extend_from_slice(&[1, 2]);
    let tx = Transaction::from_ptr(&raw_tx);
    assert_eq!(tx.length(), 20);
    assert_eq!(tx.to(), &Address::new([7u8; 20]));
    assert!(tx.data().is_empty());
    assert_eq!(Address::zero(), Address::new([0u8; 20]));
}
