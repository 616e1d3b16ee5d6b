use libpijul::base32::{decode_u64, encode_u64};
use libpijul::pristine::ChangeId;
use libpijul::txn::Merkle;

#[test]
fn change_id_base32_round_trip() {
    let id = ChangeId(0x0123_4567_89ab_cdef);
    let s = id.to_base32();
    assert_eq!(s.len(), 13);
    assert_eq!(ChangeId::from_base32(&s), Some(id));
}

#[test]
fn base32_of_small_identifiers() {
    assert_eq!(encode_u64(0), "AAAAAAAAAAAAA");
    // The bytes are little-endian: 1 is the byte 0x01 first.
    assert_eq!(encode_u64(1), "AEAAAAAAAAAAA");
    assert_eq!(ChangeId(1).to_base32(), "AEAAAAAAAAAAA");
    assert_eq!(encode_u64(u64::MAX), "7777777777776");
}

#[test]
fn base32_rejects_malformed_text() {
    // The trailing bit must be zero.
    assert_eq!(decode_u64("AEAAAAAAAAAAB"), None);
    // Lower case is not in the alphabet.
    assert_eq!(decode_u64("aeaaaaaaaaaaa"), None);
    // Digits 0, 1, 8 and 9 are not either.
    assert_eq!(decode_u64("AEAAAAAAAAAA0"), None);
    // Exactly 13 characters.
    assert_eq!(decode_u64("AEAAAAAAAAAA"), None);
    assert_eq!(decode_u64(""), None);
    assert_eq!(decode_u64("7777777777776"), Some(u64::MAX));
}

#[test]
fn merkle_base32_round_trip() {
    for x in [0u64, 1, 31, 32, 0xdead_beef, u64::MAX - 1] {
        let m = Merkle(x);
        assert_eq!(Merkle::from_base32(&m.to_base32()), Some(m));
    }
}
