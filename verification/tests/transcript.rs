use zk_sumcheck::field::{Field128, MODULUS_128};
use zk_sumcheck::transcript::{HashableField, Transcript};

const SHA256_ABC: [u8; 32] = [
    0xba, 0x78, 0x16, 0xbf, 0x8f, 0x01, 0xcf, 0xea, 0x41, 0x41, 0x40, 0xde, 0x5d, 0xae, 0x22, 0x23,
    0xb0, 0x03, 0x61, 0xa3, 0x96, 0x17, 0x7a, 0x9c, 0xb4, 0x10, 0xff, 0x61, 0xf2, 0x00, 0x15, 0xad,
];

#[test]
fn transcript_hashes_label_then_message() {
    let mut t = Transcript::new();
    t.append_message(b"a", b"bc");
    assert_eq!(t.random(), SHA256_ABC);
    let mut u = Transcript::default();
    u.append_message(b"ab", b"");
    u.append_message(b"", b"c");
    assert_eq!(u.random(), SHA256_ABC);
}

#[test]
fn transcript_random_does_not_advance() {
    let mut t = Transcript::new();
    t.append_message(b"label", b"message");
    let r1 = t.random();
    let r2 = t.random();
    assert_eq!(r1, r2);
    t.append_message(b"label", b"message");
    assert_ne!(t.random(), r1);
}

#[test]
fn field128_from_digest_reads_low_half() {
    let mut digest = [0u8; 32];
    digest[0] = 1;
    digest[1] = 2;
    digest[31] = 0xff;
    assert_eq!(Field128::from_digest(&digest).value(), 0x0201);
    let all = [0xffu8; 32];
    assert_eq!(Field128::from_digest(&all).value(), u128::MAX - MODULUS_128);
    let x = Field128::from_u64(42);
    assert_eq!(HashableField::to_bytes(&x), x.to_bytes());
}

#[test]
fn transcript_challenge_hashes_all_appends() {
    let mut a = zk_sumcheck::transcript::Transcript::new();
    a.append_message(b"ab", b"c");
    a.append_message(b"", b"");
    let mut b = zk_sumcheck::transcript::Transcript::new();
    b.append_message(b"a", b"bc");
    assert_eq!(a.random(), b.random());
}
