use pllm::{layer_activations, Activation, Rng};

fn xorshift(mut x: u64) -> u64 {
    x ^= x << 13;
    x ^= x >> 7;
    x ^= x << 17;
    x
}

#[test]
fn rng_is_deterministic() {
    let mut a = Rng::new(42);
    let mut b = Rng::new(42);
    for _ in 0..100 {
        let x = a.next_bits();
        assert_eq!(x, b.next_bits());
        assert!(x < 1u64 << 53);
    }
}

#[test]
fn rng_follows_xorshift64() {
    let mut rng = Rng::new(42);
    // 42 is even, so the state starts at 43.
    let first = xorshift(43);
    let second = xorshift(first);
    assert_eq!(rng.next_bits(), first >> 11);
    assert_eq!(rng.next_bits(), second >> 11);
}

#[test]
fn rng_never_starts_at_zero() {
    let mut rng = Rng::new(0);
    assert_eq!(rng.next_bits(), xorshift(1) >> 11);
    assert_ne!(rng.next_bits(), 0);
}

#[test]
fn output_layer_stays_linear() {
    assert_eq!(
        layer_activations(2, Activation::Tanh),
        vec![Activation::Tanh, Activation::Linear]
    );
    assert_eq!(layer_activations(1, Activation::Relu), vec![Activation::Linear]);
    assert_eq!(
        layer_activations(3, Activation::Relu),
        vec![Activation::Relu, Activation::Relu, Activation::Linear]
    );
}
