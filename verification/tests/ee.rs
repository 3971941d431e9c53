use eth2_ee::ee::transaction::{Call, Transaction};

#[test]
fn transaction_new_call() {
    let ty = 1u32;
    let to = [0u8; 20];
    let from = [1u8; 20];
    let nonce = 42u64;
    let signature = [2u8; 96];
    let data_length = 123u32;
    let data = [3u8; 123];

    let mut raw_call = [0u8; 4 + 32 + 32 + 8 + 96 + 123];
    raw_call[0..4].copy_from_slice(&ty.to_le_bytes());
    raw_call[4..24].copy_from_slice(&to);
    raw_call[24..44].copy_from_slice(&from);
    raw_call[44..52].copy_from_slice(&nonce.to_le_bytes());
    raw_call[52..148].copy_from_slice(&signature);
    raw_call[148..152].copy_from_slice(&data_length.to_le_bytes());
    raw_call[152..275].copy_from_slice(&data);

    let tx = Transaction::from_ptr(&raw_call);
    let call = Call::new(&raw_call[4..]);

    assert_eq!(tx, Transaction::Call(call.clone()));
    assert_eq!(call.to(), &to);
    assert_eq!(call.from(), &from);
    assert_eq!(call.nonce(), nonce);
    assert_eq!(&call.signature()[..], &signature[..]);
    assert_eq!(call.length(), 148 + data_length);
    assert_eq!(&call.data()[..], &data[..]);
}

#[test]
fn call_transaction_length_adds_header() {
    let mut raw = vec![1u8, 0, 0, 0];
    raw.extend_from_slice(&[0u8; 144]);
    raw.extend_from_slice(&5u32.to_le_bytes());
    raw.extend_from_slice(&[7u8; 5]);
    let tx = Transaction::from_ptr(&raw);
    assert_eq!(tx.length(), 144 + 148 + 5);
}

#[test]
fn call_with_empty_data() {
    let mut raw = vec![9u8; 144];
    raw.extend_from_slice(&0u32.to_le_bytes());
    let call = Call::new(&raw);
    assert_eq!(call.length(), 148);
    assert!(call.data().is_empty());
    assert_eq!(call.nonce(), u64::from_le_bytes([9; 8]));
}

#[test]
fn call_header_only() {
    let mut raw = vec![4u8; 144];
    raw.extend_from_slice(&300u32.to_le_bytes());
    let call = Call::new(&raw);
    assert_eq!(call.length(), 148 + 300);
    assert_eq!(call.to(), &[4u8; 20]);
    assert_eq!(call.from(), &[4u8; 20]);
}
