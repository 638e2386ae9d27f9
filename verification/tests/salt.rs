use commitments::salt::{salt_eq, store_dir_name};
use commitments::Salt;

#[test]
fn dir_name_is_the_lowercase_hex_of_the_salt() {
    let salt: Salt = [0x00, 0x1a, 0x2b, 0x3c, 0x4d, 0x5e, 0x6f, 0xff];
    assert_eq!(store_dir_name(&salt), "001a2b3c4d5e6fff");
}

#[test]
fn dir_name_matches_the_hex_crate() {
    let salt: Salt = [0xde, 0xad, 0xbe, 0xef, 0x00, 0x01, 0x02, 0x03];
    assert_eq!(store_dir_name(&salt), hex::encode(salt));
    assert_eq!(store_dir_name(&salt), "deadbeef00010203");
}

#[test]
fn salts_compare_by_bytes() {
    let a: Salt = [9, 8, 7, 6, 5, 4, 3, 2];
    let b: Salt = [9, 8, 7, 6, 5, 4, 3, 2];
    let c: Salt = [9, 8, 7, 6, 5, 4, 3, 1];
    assert!(salt_eq(&a, &b));
    assert!(!salt_eq(&a, &c));
    assert!(!salt_eq(&c, &a));
}
