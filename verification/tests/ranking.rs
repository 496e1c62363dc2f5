use vector_db_core::ranking::{rank_top_k, sort_key};

#[test]
fn test_sort_key_orders_floats() {
    // rank keys must order encoded floats like the floats themselves,
    // with NaN mapped below everything
    let neg_inf = sort_key(f32::NEG_INFINITY.to_bits());
    let minus_one = sort_key((-1.0f32).to_bits());
    let neg_zero = sort_key((-0.0f32).to_bits());
    let zero = sort_key(0.0f32.to_bits());
    let half = sort_key(0.5f32.to_bits());
    let one = sort_key(1.0f32.to_bits());
    let pos_inf = sort_key(f32::INFINITY.to_bits());
    let nan = sort_key(f32::NAN.to_bits());
    let neg_nan = sort_key((-f32::NAN).to_bits());

    assert!(neg_inf < minus_one);
    assert!(minus_one < neg_zero);
    assert!(neg_zero < zero);
    assert!(zero < half);
    assert!(half < one);
    assert!(one < pos_inf);
    assert_eq!(nan, 0);
    assert_eq!(neg_nan, 0);
    assert!(nan < neg_inf);

    // exact key values: positive encodings are offset by the sign bit,
    // negative encodings are reversed below them
    assert_eq!(one, 0x3F80_0000u32 + 0x8000_0000u32);
    assert_eq!(minus_one, 0xFFFF_FFFFu32 - 0xBF80_0000u32);
    assert_eq!(zero, 0x8000_0000u32);
}

#[test]
fn test_rank_top_k_descending_and_truncated() {
    let scored = vec![
        ("low".to_string(), 0.1f32.to_bits()),
        ("high".to_string(), 0.9f32.to_bits()),
        ("mid".to_string(), 0.5f32.to_bits()),
        ("neg".to_string(), (-0.5f32).to_bits()),
    ];
    let top = rank_top_k(scored.clone(), 2);
    assert_eq!(top.len(), 2);
    assert_eq!(top[0].0, "high");
    assert_eq!(top[1].0, "mid");

    let all = rank_top_k(scored, 99);
    assert_eq!(all.len(), 4);
    let ids: Vec<&str> = all.iter().map(|(id, _)| id.as_str()).collect();
    assert_eq!(ids, vec!["high", "mid", "low", "neg"]);
}
