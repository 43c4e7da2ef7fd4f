use account_ledger::ACCOUNT_STATE_SPACE;
use account_ledger::ENTRY_BYTES;
use account_ledger::HEADER_BYTES;
use account_ledger::Key;
use account_ledger::LedgerError;
use account_ledger::MAX_LEDGER_ENTRIES;
use account_ledger::ProgramAccountState;

fn key(n: u64) -> Key {
    Key { w0: 0, w1: 0, w2: 0, w3: n }
}

#[test]
fn space_constant_fits_exactly_max_entries() {
    assert_eq!(ACCOUNT_STATE_SPACE, HEADER_BYTES + MAX_LEDGER_ENTRIES * ENTRY_BYTES);
}

#[test]
fn key_from_bytes_reads_little_endian_words() {
    let mut b = vec![0u8; 32];
    b[0] = 1;
    b[9] = 3;
    b[31] = 2;
    let k = Key::from_bytes(&b);
    assert_eq!(k.w0, 1);
    assert_eq!(k.w1, 3u64 << 8);
    assert_eq!(k.w2, 0);
    assert_eq!(k.w3, 2u64 << 56);
}

#[test]
fn round_trip_preserves_flag_and_entries() {
    let mut st = ProgramAccountState::new();
    st.set_initialized();
    assert_eq!(st.deposit(key(30), 3), Ok(()));
    assert_eq!(st.deposit(key(10), 1), Ok(()));
    assert_eq!(st.deposit(key(20), u64::MAX), Ok(()));
    let mut buf = vec![0u8; ACCOUNT_STATE_SPACE];
    assert_eq!(st.pack_into_slice(&mut buf), Ok(()));
    let back = ProgramAccountState::unpack_from_slice(&buf).unwrap();
    assert!(back == st);
}

#[test]
fn round_trip_preserves_uninitialized_flag() {
    let mut st = ProgramAccountState::new();
    assert_eq!(st.deposit(key(1), 11), Ok(()));
    let mut buf = vec![0u8; ACCOUNT_STATE_SPACE];
    assert_eq!(st.pack_into_slice(&mut buf), Ok(()));
    let back = ProgramAccountState::unpack_from_slice(&buf).unwrap();
    assert!(!back.is_initialized());
    assert!(back == st);
}

#[test]
fn encode_is_byte_exact() {
    let mut st = ProgramAccountState::new();
    st.set_initialized();
    let k = Key {
        w0: 0x0102030405060708,
        w1: 0,
        w2: 0xFFFFFFFFFFFFFFFF,
        w3: 0xAABBCCDDEEFF0011,
    };
    assert_eq!(st.deposit(k, 0x1122334455667788), Ok(()));
    let mut buf = vec![0u8; ACCOUNT_STATE_SPACE];
    assert_eq!(st.pack_into_slice(&mut buf), Ok(()));
    assert_eq!(buf[0], 1);
    assert_eq!(&buf[1..5], &[1, 0, 0, 0]);
    assert_eq!(&buf[5..13], &[0x08, 0x07, 0x06, 0x05, 0x04, 0x03, 0x02, 0x01]);
    assert_eq!(&buf[13..21], &[0; 8]);
    assert_eq!(&buf[21..29], &[0xFF; 8]);
    assert_eq!(&buf[29..37], &[0x11, 0x00, 0xFF, 0xEE, 0xDD, 0xCC, 0xBB, 0xAA]);
    assert_eq!(&buf[37..45], &[0x88, 0x77, 0x66, 0x55, 0x44, 0x33, 0x22, 0x11]);
    assert!(buf[45..].iter().all(|b| *b == 0));
}

#[test]
fn reencode_of_unchanged_state_is_byte_identical() {
    let mut st = ProgramAccountState::new();
    st.set_initialized();
    assert_eq!(st.deposit(key(4), 44), Ok(()));
    let mut buf = vec![0xABu8; ACCOUNT_STATE_SPACE];
    assert_eq!(st.pack_into_slice(&mut buf), Ok(()));
    let first = buf.clone();
    assert_eq!(st.pack_into_slice(&mut buf), Ok(()));
    assert_eq!(first, buf);
}

#[test]
fn encode_zeroes_the_tail() {
    let mut st = ProgramAccountState::new();
    st.set_initialized();
    assert_eq!(st.deposit(key(4), 44), Ok(()));
    let mut buf = vec![0xEEu8; ACCOUNT_STATE_SPACE];
    assert_eq!(st.pack_into_slice(&mut buf), Ok(()));
    assert!(buf[45..].iter().all(|b| *b == 0));
}

#[test]
fn exact_fit_succeeds_one_byte_short_fails_unmodified() {
    let mut st = ProgramAccountState::new();
    st.set_initialized();
    assert_eq!(st.deposit(key(1), 1), Ok(()));
    assert_eq!(st.deposit(key(2), 2), Ok(()));
    let mut exact = vec![0u8; 5 + 2 * 40];
    assert_eq!(st.pack_into_slice(&mut exact), Ok(()));
    let mut short = vec![0x55u8; 5 + 2 * 40 - 1];
    let before = short.clone();
    assert_eq!(st.pack_into_slice(&mut short), Err(LedgerError::InvalidData));
    assert_eq!(short, before);
}

#[test]
fn full_capacity_fits_one_more_entry_fails() {
    let mut st = ProgramAccountState::new();
    st.set_initialized();
    for n in 0..MAX_LEDGER_ENTRIES as u64 {
        assert_eq!(st.deposit(key(n), n), Ok(()));
    }
    let mut buf = vec![0u8; ACCOUNT_STATE_SPACE];
    assert_eq!(st.pack_into_slice(&mut buf), Ok(()));
    let back = ProgramAccountState::unpack_from_slice(&buf).unwrap();
    assert!(back == st);
    assert_eq!(st.deposit(key(1000), 1), Ok(()));
    let before = buf.clone();
    assert_eq!(st.pack_into_slice(&mut buf), Err(LedgerError::InvalidData));
    assert_eq!(buf, before);
}

#[test]
fn decode_rejects_truncated_buffer() {
    assert_eq!(
        ProgramAccountState::unpack_from_slice(&vec![1, 0, 0]),
        Err(LedgerError::InvalidData)
    );
    assert_eq!(ProgramAccountState::unpack_from_slice(&Vec::new()), Err(LedgerError::InvalidData));
}

#[test]
fn decode_rejects_count_past_buffer_end() {
    let mut buf = vec![0u8; ACCOUNT_STATE_SPACE];
    buf[0] = 1;
    buf[1] = 200;
    assert_eq!(ProgramAccountState::unpack_from_slice(&buf), Err(LedgerError::InvalidData));
    let small = vec![1u8, 1, 0, 0, 0];
    assert_eq!(ProgramAccountState::unpack_from_slice(&small), Err(LedgerError::InvalidData));
}

#[test]
fn decode_rejects_bad_flag_byte() {
    let mut buf = vec![0u8; ACCOUNT_STATE_SPACE];
    buf[0] = 2;
    assert_eq!(ProgramAccountState::unpack_from_slice(&buf), Err(LedgerError::InvalidData));
}

#[test]
fn decode_rejects_out_of_order_entries() {
    let mut st = ProgramAccountState::new();
    st.set_initialized();
    assert_eq!(st.deposit(key(1), 1), Ok(()));
    let mut buf = vec![0u8; ACCOUNT_STATE_SPACE];
    assert_eq!(st.pack_into_slice(&mut buf), Ok(()));
    // claim two entries: the second is all zeros, below the first key
    buf[1] = 2;
    assert_eq!(ProgramAccountState::unpack_from_slice(&buf), Err(LedgerError::InvalidData));
}

#[test]
fn decode_accepts_all_zero_buffer_as_empty() {
    let buf = vec![0u8; ACCOUNT_STATE_SPACE];
    let st = ProgramAccountState::unpack_from_slice(&buf).unwrap();
    assert!(!st.is_initialized());
    assert_eq!(st.entry_count(), 0);
}

#[test]
fn tolerant_decode_takes_garbage_as_fresh() {
    let mut buf = vec![0x77u8; ACCOUNT_STATE_SPACE];
    buf[0] = 0;
    let st = ProgramAccountState::unpack_unchecked(&buf).unwrap();
    assert!(!st.is_initialized());
    assert_eq!(st.entry_count(), 0);
    let garbage = vec![9u8, 9, 9];
    let st2 = ProgramAccountState::unpack_unchecked(&garbage).unwrap();
    assert!(!st2.is_initialized());
    assert_eq!(st2.entry_count(), 0);
    let st3 = ProgramAccountState::unpack_unchecked(&Vec::new()).unwrap();
    assert_eq!(st3.entry_count(), 0);
}

#[test]
fn tolerant_decode_still_rejects_corrupt_initialized_buffer() {
    let mut buf = vec![0u8; ACCOUNT_STATE_SPACE];
    buf[0] = 1;
    buf[1] = 200;
    assert_eq!(ProgramAccountState::unpack_unchecked(&buf), Err(LedgerError::InvalidData));
}

#[test]
fn tolerant_decode_reads_valid_initialized_buffer() {
    let mut st = ProgramAccountState::new();
    st.set_initialized();
    assert_eq!(st.deposit(key(6), 66), Ok(()));
    let mut buf = vec![0u8; ACCOUNT_STATE_SPACE];
    assert_eq!(st.pack_into_slice(&mut buf), Ok(()));
    let back = ProgramAccountState::unpack_unchecked(&buf).unwrap();
    assert!(back == st);
}
