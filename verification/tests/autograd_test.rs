use xim::{StochasticQuantizer, Xorshift32};

#[test]
fn test_xorshift_sequence() {
    let mut rng = Xorshift32::new(1);
    assert_eq!(rng.next(), 270369);
    assert_eq!(rng.next(), 67634689);
    assert_eq!(rng.next(), 2647435461);
}

#[test]
fn test_xorshift_zero_seed_is_one() {
    let mut a = Xorshift32::new(0);
    let mut b = Xorshift32::new(1);
    for _ in 0..100 {
        assert_eq!(a.next(), b.next());
    }
}

#[test]
fn test_xorshift_never_zero() {
    let mut rng = Xorshift32::new(42);
    assert_eq!(rng.next(), 11355432);
    for _ in 0..10000 {
        assert_ne!(rng.next(), 0);
    }
}

#[test]
fn test_xorshift_u24_sample() {
    let mut rng = Xorshift32::new(1);
    assert_eq!(rng.next_u24(), 270369);
    assert_eq!(rng.next_u24(), 525825);
    assert_eq!(rng.next_u24(), 13412549);
}

#[test]
fn test_stochastic_sample() {
    let mut q = StochasticQuantizer::new(1);
    assert_eq!(q.next_sample(), 270369);
    assert_eq!(q.next_sample(), 525825);
    let mut z = StochasticQuantizer::new(0);
    assert_eq!(z.next_sample(), 270369);
}

#[test]
fn seeds_zero_and_one_draw_alike_and_never_reach_zero() {
    let mut a = xim::Xorshift32::new(0);
    let mut b = xim::Xorshift32::new(1);
    for _ in 0..1000 {
        let x = a.next();
        assert_eq!(x, b.next());
        assert_ne!(x, 0);
    }
}
