use aish::memory::{
    bits_to_blob, blob_to_bits, features, fts_match_query, truncate_hit, EMBED_DIM, OFFLOAD_TAG,
};

#[test]
fn truncate_hit_keeps_short_and_marks_long() {
    assert_eq!(truncate_hit("a tiny fact", 2000), "a tiny fact");
    let big = "x".repeat(5000);
    let out = truncate_hit(&big, 2000);
    assert!(out.chars().count() < big.chars().count());
    assert!(out.starts_with(&"x".repeat(2000)));
    assert!(out.contains("KB elided"));
    assert!(out.contains("context-offload"));
    assert!(out.contains("+3 KB"), "marker should state elided size: {out}");
}

#[test]
fn truncate_hit_never_splits_utf8() {
    let s = "é".repeat(100);
    let out = truncate_hit(&s, 10);
    assert!(out.starts_with(&"é".repeat(10)));
    assert!(out.contains("KB elided"));
}

#[test]
fn fts_match_query_builds_prefix_or_and_is_syntax_safe() {
    assert_eq!(fts_match_query("fix the build").as_deref(), Some("fix* OR the* OR build*"));
    assert_eq!(fts_match_query("error: NEAR(x)").as_deref(), Some("error* OR near* OR x*"));
    assert_eq!(fts_match_query("   "), None);
    assert_eq!(fts_match_query("%%%"), None);
}

#[test]
fn the_marker_is_exact() {
    assert_eq!(
        truncate_hit("abcdef", 2),
        "ab… [+1 KB elided — recall with a tighter query or the `context-offload` tag]"
    );
    assert_eq!(truncate_hit(&"y".repeat(1024 + 1), 1).matches("[+1 KB").count(), 1);
    assert_eq!(truncate_hit(&"y".repeat(1024 + 2), 1).matches("[+2 KB").count(), 1);
    assert_eq!(OFFLOAD_TAG, "context-offload");
}

#[test]
fn letters_beyond_ascii_are_tokens() {
    assert_eq!(fts_match_query("Straße—ÄÖ 42").as_deref(), Some("straße* OR ÄÖ* OR 42*"));
    assert_eq!(fts_match_query("→"), None);
}

#[test]
fn features_count_tokens_by_hash() {
    let zero = features("   ");
    assert_eq!(zero.len(), EMBED_DIM);
    assert!(zero.iter().all(|&x| x == 0));
    let once = features("rust");
    let twice = features("Rust, RUST!");
    assert_eq!(once.iter().map(|x| x.abs()).sum::<i128>(), 1);
    for i in 0..EMBED_DIM {
        assert_eq!(twice[i], 2 * once[i]);
    }
    // The hash of "a" is 0xaf63dc4c8601ec8c: odd half, so it counts down.
    let a = features("a");
    assert_eq!(a[(0xaf63dc4c8601ec8cu64 % 384) as usize], -1);
}

#[test]
fn stored_vectors_read_back() {
    let v: Vec<u32> = [1.0f32, -0.5, 0.0, 3.25].iter().map(|f| f.to_bits()).collect();
    let blob = bits_to_blob(&v);
    assert_eq!(blob.len(), 16);
    assert_eq!(&blob[..4], &1.0f32.to_le_bytes());
    assert_eq!(blob_to_bits(&blob).unwrap(), v);
    assert!(blob_to_bits(&[1, 2, 3]).is_none());
    assert!(blob_to_bits(&[]).is_none());
    assert_eq!(blob_to_bits(&[1, 2, 3, 4]).unwrap(), vec![0x04030201]);
}
