use hmac::{Hmac, KeyInit, Mac};
use sha2::Sha256;
use wiki_graph::identity::{Identity, ID_BYTES};

fn ident() -> Identity {
    Identity::from_secret(vec![7u8; 32])
}

const ENTROPY: [u8; 16] = [
    0x00, 0x01, 0x7f, 0x80, 0xff, 0x10, 0xab, 0xcd, 0xef, 0x12, 0x34, 0x56, 0x78, 0x9a, 0xbc, 0xde,
];

#[test]
fn issued_cookies_verify() {
    let i = ident();
    let c = i.issue(&ENTROPY);
    let id = i.verify(&c).expect("freshly issued cookie must verify");
    assert_eq!(id.len(), ID_BYTES * 2);
    // Stable: the same cookie always names the same player.
    assert_eq!(i.verify(&c).unwrap(), id);
}

#[test]
fn cookies_are_an_id_a_dot_and_a_signature() {
    let c = ident().issue(&ENTROPY);
    assert_eq!(c.len(), 65);
    assert!(c[..32].chars().all(|d| matches!(d, '0'..='9' | 'a'..='f')));
    assert_eq!(&c[32..33], ".");
    assert_eq!(ident().verify(&c).as_deref(), Some(&c[..32]));
}

#[test]
fn tampered_id_is_rejected() {
    let i = ident();
    let c = i.issue(&ENTROPY);
    let (id, mac) = c.split_once('.').unwrap();
    let mut bad: Vec<char> = id.chars().collect();
    bad[0] = if bad[0] == 'a' { 'b' } else { 'a' };
    let forged = format!("{}.{}", bad.into_iter().collect::<String>(), mac);
    assert_eq!(i.verify(&forged), None, "id must not be swappable");
}

#[test]
fn unsigned_and_malformed_are_rejected() {
    let i = ident();
    assert_eq!(i.verify("deadbeef"), None);
    assert_eq!(i.verify(&format!("{}.{}", "a".repeat(32), "0".repeat(32))), None);
    assert_eq!(i.verify("zz.00"), None);
    assert_eq!(i.verify(""), None);
}

#[test]
fn a_different_secret_cannot_sign_for_us() {
    let a = ident();
    let b = Identity::from_secret(vec![9u8; 32]);
    let c = b.issue(&ENTROPY);
    assert_eq!(a.verify(&c), None);
}

#[test]
fn cookie_is_parsed_out_of_a_crowded_header() {
    assert_eq!(
        Identity::from_header("foo=1; wr_id=abc.def; bar=2").as_deref(),
        Some("abc.def")
    );
    assert_eq!(Identity::from_header("wr_id=x").as_deref(), Some("x"));
    assert_eq!(Identity::from_header("other=1"), None);
}

#[test]
fn cookie_header_flags() {
    let h = Identity::cookie_header("v", false);
    assert!(h.contains("HttpOnly") && h.contains("SameSite=Lax"));
    assert!(!h.contains("Secure"));
    assert!(Identity::cookie_header("v", true).contains("; Secure"));
}

#[test]
fn cookies_are_spelled_out() {
    let c = ident().issue(&ENTROPY);
    assert!(c.starts_with("00017f80ff10abcdef123456789abcde."));
    assert_eq!(c.len(), 65);
    assert_eq!(
        Identity::cookie_header("v", true),
        "wr_id=v; Path=/; Max-Age=31536000; HttpOnly; SameSite=Lax; Secure"
    );
}

#[test]
fn the_signature_is_a_cut_hmac() {
    let c = ident().issue(&[0u8; 16]);
    let (id, mac) = c.split_once('.').unwrap();
    let mut m = Hmac::<Sha256>::new_from_slice(&[7u8; 32]).unwrap();
    m.update(id.as_bytes());
    let full = m.finalize().into_bytes();
    let expect: String = full[..16].iter().map(|b| format!("{b:02x}")).collect();
    assert_eq!(mac, expect);
}

#[test]
fn headers_without_an_equals_sign_are_passed_over() {
    assert_eq!(Identity::from_header("junk; wr_id=a=b ;x").as_deref(), Some("a=b"));
    assert_eq!(Identity::from_header(""), None);
    assert_eq!(Identity::from_header(";;"), None);
    assert_eq!(Identity::from_header("wr_id"), None);
    assert_eq!(Identity::from_header("WR_ID=a"), None);
}

#[test]
fn short_secrets_are_replaced() {
    let long = vec![1u8; 32];
    let fresh = vec![2u8; 32];
    let (kept, store) = Identity::load_or_create(Some(long.clone()), fresh.clone());
    assert!(!store);
    assert_eq!(kept.issue(&ENTROPY), Identity::from_secret(long).issue(&ENTROPY));
    let (made, store) = Identity::load_or_create(Some(vec![1u8; 31]), fresh.clone());
    assert!(store);
    assert_eq!(made.issue(&ENTROPY), Identity::from_secret(fresh.clone()).issue(&ENTROPY));
    assert!(Identity::load_or_create(None, fresh).1);
}

#[test]
fn upper_case_ids_have_their_own_signature() {
    let i = ident();
    let c = i.issue(&ENTROPY);
    assert_eq!(i.verify(&c.to_uppercase()), None);
    assert_eq!(i.verify(&format!("{c}0")), None);
}
