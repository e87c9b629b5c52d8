use mouse_testing::polling::Report;
use mouse_testing::sim::{Rng, Truth};

#[test]
fn the_generator_is_deterministic_for_a_seed() {
    let mut a = Rng::new(42);
    let mut b = Rng::new(42);
    for _ in 0..100 {
        assert_eq!(a.next_u64(), b.next_u64());
    }
}

#[test]
fn the_first_outputs_match_xorshift64_star() {
    let mut r = Rng::new(1);
    assert_eq!(r.next_u64(), 5_180_492_295_206_395_165);
    assert_eq!(r.next_u64(), 12_380_297_144_915_551_517);
    assert_eq!(r.next_u64(), 13_389_498_078_930_870_103);
    let mut s = Rng::new(42);
    assert_eq!(s.next_u64(), 11_435_511_379_416_088_765);
}

#[test]
fn a_zero_seed_still_produces_a_stream() {
    // The low bit is forced on, so seed 0 behaves as seed 1 rather than
    // sticking at zero forever.
    let mut z = Rng::new(0);
    let mut one = Rng::new(1);
    let first = z.next_u64();
    assert_ne!(first, 0);
    assert_eq!(first, one.next_u64());
    assert_ne!(z.next_u64(), first);
}

#[test]
fn ground_truth_carries_what_was_generated() {
    let t = Truth {
        reports: vec![Report { t_ns: 1_000_000, counts: 5 }],
        dropped: 3,
        emitted: 1,
    };
    assert_eq!(t.reports.len(), t.emitted);
    assert_eq!(t.dropped + t.emitted, 4);
}
