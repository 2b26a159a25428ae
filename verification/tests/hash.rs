use craws::hash::{digest_bytes, global_signature, global_tile_hash, pointwise_tile_hash, source_tile_hash};

#[test]
fn domains_are_disjoint() {
    let x = digest_bytes(b"x");
    // same material through different derivations must not collide
    assert_ne!(source_tile_hash(x, 0), pointwise_tile_hash(x, x));
    assert_ne!(source_tile_hash(x, 0), source_tile_hash(x, 1));
    assert_ne!(global_tile_hash(x, 0), source_tile_hash(x, 0));
}

#[test]
fn digest_matches_blake3() {
    assert_eq!(digest_bytes(b"abc").0, *blake3::hash(b"abc").as_bytes());
}

#[test]
fn derivations_are_tagged_hashes() {
    let x = digest_bytes(b"x");
    let mut src = b"craws/src".to_vec();
    src.extend_from_slice(&x.0);
    src.extend_from_slice(&7u32.to_le_bytes());
    assert_eq!(source_tile_hash(x, 7).0, *blake3::hash(&src).as_bytes());

    let y = digest_bytes(b"y");
    let mut pw = b"craws/pw".to_vec();
    pw.extend_from_slice(&x.0);
    pw.extend_from_slice(&y.0);
    assert_eq!(pointwise_tile_hash(x, y).0, *blake3::hash(&pw).as_bytes());

    let mut gl = b"craws/gl".to_vec();
    gl.extend_from_slice(&x.0);
    gl.extend_from_slice(&y.0);
    gl.extend_from_slice(&x.0);
    let sig = global_signature(x, &[y, x]);
    assert_eq!(sig.0, *blake3::hash(&gl).as_bytes());

    let mut glt = b"craws/glt".to_vec();
    glt.extend_from_slice(&sig.0);
    glt.extend_from_slice(&3u32.to_le_bytes());
    assert_eq!(global_tile_hash(sig, 3).0, *blake3::hash(&glt).as_bytes());
}

#[test]
fn signature_depends_on_input_order() {
    let (a, b, op) = (digest_bytes(b"a"), digest_bytes(b"b"), digest_bytes(b"op"));
    assert_ne!(global_signature(op, &[a, b]), global_signature(op, &[b, a]));
    assert_eq!(global_signature(op, &[a, b]), global_signature(op, &[a, b]));
}
