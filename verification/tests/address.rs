use copernica::address::{bloom_filter_index, frame_index, hash_bytes, FNV_OFFSET_BASIS, HBFI};

#[test]
fn hash_of_nothing_is_the_offset_basis() {
    assert_eq!(hash_bytes(&[]), FNV_OFFSET_BASIS);
    assert_eq!(bloom_filter_index(""), 0xcbf2_9ce4_8422_2325);
}

#[test]
fn hash_matches_known_fnv1a_values() {
    assert_eq!(bloom_filter_index("a"), 0xaf63_dc4c_8601_ec8c);
    assert_eq!(bloom_filter_index("foobar"), 0x8594_4171_f739_67e8);
    assert_eq!(hash_bytes(b"foobar"), 0x8594_4171_f739_67e8);
}

#[test]
fn frame_index_hashes_the_little_endian_bytes() {
    assert_eq!(frame_index(0), hash_bytes(&[0, 0, 0, 0, 0, 0, 0, 0]));
    assert_eq!(frame_index(0x0102), hash_bytes(&[2, 1, 0, 0, 0, 0, 0, 0]));
    assert_ne!(frame_index(0), frame_index(1));
}

#[test]
fn new_address_hashes_each_field_and_starts_at_frame_zero() {
    let hbfi = HBFI::new("alice", "echo", "mod", "fun", "arg");
    assert_eq!(hbfi.res, bloom_filter_index("alice"));
    assert_eq!(hbfi.app, bloom_filter_index("echo"));
    assert_eq!(hbfi.m0d, bloom_filter_index("mod"));
    assert_eq!(hbfi.fun, bloom_filter_index("fun"));
    assert_eq!(hbfi.arg, bloom_filter_index("arg"));
    assert_eq!(hbfi.frm, 0);
}

#[test]
fn offset_changes_the_frame_only() {
    let hbfi = HBFI::new("alice", "echo", "echo", "echo", "ping");
    let seventh = hbfi.offset(7);
    assert_eq!(seventh.frm, 7);
    assert_eq!(seventh.offset(0), hbfi);
    assert_ne!(seventh, hbfi);
}

#[test]
fn features_are_the_fields_in_order_and_the_hashed_frame() {
    let hbfi = HBFI { res: 1, app: 2, m0d: 3, fun: 4, arg: 5, frm: 6 };
    assert_eq!(hbfi.to_bfis(), vec![1, 2, 3, 4, 5, frame_index(6)]);
}

#[test]
fn equal_addresses_have_equal_fingerprints() {
    let a = HBFI::new("alice", "echo", "echo", "echo", "ping").offset(3);
    let b = HBFI::new("alice", "echo", "echo", "echo", "ping").offset(3);
    assert_eq!(a, b);
    assert_eq!(a.fingerprint(), b.fingerprint());
    assert_ne!(a.fingerprint(), a.offset(4).fingerprint());
}

#[test]
fn fingerprint_folds_the_six_words() {
    let hbfi = HBFI { res: 0, app: 0, m0d: 0, fun: 0, arg: 0, frm: 0 };
    let prime: u64 = 0x0000_0100_0000_01b3;
    let mut h: u64 = FNV_OFFSET_BASIS;
    for _ in 0..6 {
        h = h.wrapping_mul(prime);
    }
    assert_eq!(hbfi.fingerprint(), h);
}
