use swarm_bot::auth::{calc_hash, hexdigest};

#[test]
fn test_hash() {
    assert_eq!(calc_hash("jeb_", &[], &[]), "-7c9d5b0044c130109a5d7b5fb5c317c02b4e28c1");
    assert_eq!(calc_hash("simon", &[], &[]), "88e16a1019277b15d58faf0541e11910eb756f6");
    assert_eq!(calc_hash("Notch", &[], &[]), "4ed1f46bbe04bc756bcb17c0c7ce3e4632f06a48");
}

#[test]
fn hash_covers_every_part() {
    assert_eq!(calc_hash("No", b"tc", b"h"), calc_hash("Notch", &[], &[]));
    assert_ne!(calc_hash("Notch", &[1], &[]), calc_hash("Notch", &[], &[]));
}

#[test]
fn signed_hex_forms() {
    assert_eq!(hexdigest(&[]), "0");
    assert_eq!(hexdigest(&[0xff]), "-1");
    assert_eq!(hexdigest(&[0x80]), "-80");
    assert_eq!(hexdigest(&[0x00, 0x10]), "10");
    assert_eq!(hexdigest(&[0x7f, 0x01]), "7f01");
}
