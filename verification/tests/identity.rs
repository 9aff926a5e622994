use flash::identity::action_key;
use flash::identity::hex_decode;
use flash::identity::hex_encode;
use flash::identity::Attribution;
use flash::identity::Digest;
use flash::identity::Env;
use flash::identity::Hasher;
use flash::identity::NodeKey;
use flash::identity::NodeKind;

#[test]
fn framing_prevents_concatenation_collisions() {
    let mut a = Hasher::new("t");
    a.str("ab").str("c");
    let mut b = Hasher::new("t");
    b.str("a").str("bc");
    assert_ne!(a.finish(), b.finish());
}

#[test]
fn domain_separation_holds() {
    let mut a = Hasher::new("one");
    a.str("x");
    let mut b = Hasher::new("two");
    b.str("x");
    assert_ne!(a.finish(), b.finish());
}

#[test]
fn action_key_is_input_order_sensitive() {
    let env = Env::deterministic("v1");
    let x = Digest::of(b"x");
    let y = Digest::of(b"y");
    let k1 = action_key(NodeKind::Op, b"op", &env, &[x, y]);
    let k2 = action_key(NodeKind::Op, b"op", &env, &[y, x]);
    assert_ne!(k1, k2);
}

#[test]
fn prompt_version_bump_changes_the_action() {
    let x = Digest::of(b"x");
    let a = action_key(NodeKind::Op, b"op", &Env::new("m", "p1", "v1"), &[x]);
    let b = action_key(NodeKind::Op, b"op", &Env::new("m", "p2", "v1"), &[x]);
    assert_ne!(a, b);
}

#[test]
fn hex_roundtrips_and_rejects_junk() {
    let b = vec![0u8, 15, 16, 255, 42];
    assert_eq!(hex_decode(&hex_encode(&b)), Some(b));
    assert_eq!(hex_decode("abc"), None);
    assert_eq!(hex_decode("zz"), None);
}

#[test]
fn digest_hex_roundtrips() {
    let d = Digest::of(b"hello");
    assert_eq!(Digest::from_hex(&d.hex()), Some(d));
}

#[test]
fn a_digest_is_the_blake3_hash_of_the_bytes() {
    // The published test vector for no input at all.
    assert_eq!(
        Digest::of(b"").hex(),
        "af1349b9f5f9a1a6a0404dea36dcc9499bcb25c9adc112b7cc9a93cae41f3262"
    );
    assert_eq!(Digest::of(b"").short(), "af1349b9f5f9");
    assert_eq!(Digest::of(b"x").as_bytes(), blake3::hash(b"x").as_bytes());
}

#[test]
fn hex_is_read_in_either_case_and_only_at_full_length() {
    let d = Digest::of(b"hello");
    assert_eq!(Digest::from_hex(&d.hex().to_uppercase()), Some(d));
    assert_eq!(Digest::from_hex(&d.hex()[..62]), None);
    assert_eq!(hex_encode(&[0, 171]), "00ab");
}

#[test]
fn a_hasher_frames_each_field_with_its_length() {
    let mut h = Hasher::new("d");
    h.u64(7).bytes(b"z").digest(&Digest::of(b"q"));
    let mut fed: Vec<u8> = Vec::new();
    for field in [
        b"d".to_vec(),
        7u64.to_le_bytes().to_vec(),
        b"z".to_vec(),
        Digest::of(b"q").as_bytes().to_vec(),
    ] {
        fed.extend_from_slice(&(field.len() as u64).to_le_bytes());
        fed.extend_from_slice(&field);
    }
    assert_eq!(h.finish(), Digest::of(&fed));
}

#[test]
fn attribution_adds_up() {
    let mut a = Attribution {
        decode_ms: 1,
        verify_ms: 2,
        apply_ms: 3,
        render_ms: 4,
        wait_ms: 5,
    };
    let b = a;
    assert!(a.can_merge(&b));
    a.merge(&b);
    assert_eq!(a.decode_ms, 2);
    assert_eq!(a.wait_ms, 10);
    assert_eq!(b.total_ms(), 15);
    let full = Attribution {
        decode_ms: u64::MAX,
        ..Default::default()
    };
    assert!(!full.can_merge(&b));
}

#[test]
fn keys_of_nodes_differ_by_their_names() {
    assert_ne!(NodeKey::new("a").digest(), NodeKey::new("b").digest());
    assert_eq!(NodeKey::new("a").as_str(), "a");
    assert!(NodeKind::Render.is_inherently_slow());
    assert!(!NodeKind::Op.is_inherently_slow());
}
