use raytracing2::noise;

#[test]
fn noise_exact_values() {
    // At the origin with seed 0 every multiplier term vanishes and only the
    // additive scramble constant remains.
    assert_eq!(noise::integer(0, 0, 0, 0), 1376312589);
    assert_eq!(noise::integer(1, 2, 3, 4), -6326904363196126319);
    assert_eq!(noise::integer(-5, 7, -11, 13), -7941237089420085823);
}

#[test]
fn noise_is_reproducible() {
    for k in 0..50i64 {
        let first = noise::integer(k, 2 * k, -k, 7);
        let second = noise::integer(k, 2 * k, -k, 7);
        assert_eq!(first, second);
    }
}

#[test]
fn noise_depends_on_seed() {
    // Different seeds at the same lattice point give different hashes.
    assert_ne!(noise::integer(1, 1, 1, 0), noise::integer(1, 1, 1, 1));
    assert_ne!(noise::integer(0, 0, 0, 5), noise::integer(0, 0, 0, 6));
}
