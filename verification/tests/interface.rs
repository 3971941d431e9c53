use eth2_ee::interface::address::{Address, ADDRESS_SIZE};
use eth2_ee::interface::raw_transaction::RawTransaction;
use eth2_ee::interface::transaction::Transaction;
use std::convert::TryFrom;

#[test]
fn raw_transaction_new_call() {
    let length = ADDRESS_SIZE as u32 + 123u32;
    let to = [0u8; ADDRESS_SIZE];
    let data = [3u8; 123];

    let mut raw_tx = [0u8; 4 + ADDRESS_SIZE + 123];
    raw_tx[0..4].copy_from_slice(&length.to_le_bytes());
    raw_tx[4..(4 + ADDRESS_SIZE)].copy_from_slice(&to);
    raw_tx[(4 + ADDRESS_SIZE)..(4 + ADDRESS_SIZE + 123)].copy_from_slice(&data);

    let tx = RawTransaction::from_ptr(&raw_tx);

    assert_eq!(tx.length(), length);
    assert_eq!(tx.to(), &Address::new(to));
    assert_eq!(&tx.data()[..], &data[..]);
}

#[test]
fn to_bytes() {
    let tx = Transaction::new(Address::one(), vec![2; 100]);
    let bytes = tx.to_bytes();
    let raw = RawTransaction::from_ptr(&bytes);

    assert_eq!(&Address::one(), raw.to());
    assert_eq!(&vec![2u8; 100][..], &raw.data()[..]);
}

#[test]
fn transaction_len_counts_address_and_data() {
    let tx = Transaction::new(Address::zero(), vec![9; 7]);
    assert_eq!(tx.len(), 8);
}

#[test]
fn transaction_bytes_layout() {
    let tx = Transaction::new(Address::new([5]), vec![1, 2, 3]);
    assert_eq!(tx.to_bytes(), vec![4, 0, 0, 0, 5, 1, 2, 3]);
}

#[test]
fn transaction_bytes_read_back_with_empty_data() {
    let tx = Transaction::new(Address::new([200]), vec![]);
    let bytes = tx.to_bytes();
    let raw = RawTransaction::from_ptr(&bytes);
    assert_eq!(raw.length(), 1);
    assert_eq!(raw.to(), &Address::new([200]));
    assert!(raw.data().is_empty());
}

#[test]
fn raw_transaction_ignores_trailing_bytes() {
    let bytes = [2u8, 0, 0, 0, 7, 42, 99, 99];
    let raw = RawTransaction::from_ptr(&bytes);
    assert_eq!(raw.length(), 2);
    assert_eq!(raw.to(), &Address::new([7]));
    assert_eq!(raw.data(), &[42u8][..]);
}

#[test]
fn address_try_from_range() {
    assert_eq!(Address::try_from(255u128), Err(0));
    assert_eq!(Address::try_from(256u128), Ok(Address::new([0])));
    assert_eq!(Address::try_from(300u128), Ok(Address::new([44])));
    assert_eq!(Address::try_from(65536u128), Ok(Address::new([0])));
    assert_eq!(Address::try_from(65537u128), Err(0));
}

#[test]
fn address_key_roundtrip() {
    for b in 0..=255u8 {
        let a = Address::new([b]);
        let k = u128::from(a);
        assert_eq!(k, 256 + b as u128);
        assert_eq!(Address::try_from(k), Ok(a));
    }
}

#[test]
fn address_constants() {
    assert_eq!(Address::zero(), Address::new([0]));
    assert_eq!(Address::one(), Address::new([1]));
    assert_eq!(Address::one().as_bytes(), &[1u8]);
}
