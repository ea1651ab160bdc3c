//! Seeds, bit patterns and even spacing.

use msg_level_select::generation::attempts::{
    enough_points, stage_columns, unsatisfied, widest_stage,
};
use msg_level_select::generation::generate;
use msg_level_select::generation::selection::SelectionError;
use msg_level_select::geometry::{has_number, order_key};
use msg_level_select::spacing::even_slot;
use msg_level_select::{GenerationError, LevelMapRng};
use rand::rngs::StdRng;
use rand::{Rng, SeedableRng};

#[test]
fn a_seed_fixes_the_stream() {
    let mut a = LevelMapRng::from_seed(42);
    let mut b = LevelMapRng::from_option(Some(42));
    let mut c = StdRng::seed_from_u64(42);
    let mut d = LevelMapRng::from_seed(43);
    let first = a.next_seed();
    assert_eq!(first, b.next_seed());
    assert_eq!(first, c.random::<u64>());
    assert_ne!(first, d.next_seed());
    let second = a.next_seed();
    assert_ne!(first, second);
    assert_eq!(second, b.next_seed());
    assert_eq!(second, c.random::<u64>());
}

#[test]
fn streams_from_the_system_differ() {
    let mut a = LevelMapRng::from_entropy();
    let mut b = LevelMapRng::from_option(None);
    assert_ne!(
        (a.next_seed(), a.next_seed()),
        (b.next_seed(), b.next_seed())
    );
}

#[test]
fn a_map_with_a_seed_leaves_the_stream_alone() {
    let mut a = LevelMapRng::from_seed(1);
    let mut b = LevelMapRng::from_seed(1);
    assert_eq!(a.seed_for(Some(99)), 99);
    assert_eq!(a.seed_for(None), b.next_seed());
    assert_eq!(a.next_seed(), b.next_seed());
}

#[test]
fn order_keys_order_numbers() {
    let numbers = [
        f32::NEG_INFINITY,
        -1.0e30,
        -2.5,
        -1.0,
        -1.0e-40,
        -0.0,
        0.0,
        1.0e-45,
        0.5,
        1.0,
        3.0e20,
        f32::INFINITY,
    ];
    for a in numbers {
        assert!(has_number(a.to_bits()));
        for b in numbers {
            assert_eq!(
                order_key(a.to_bits()).partial_cmp(&order_key(b.to_bits())),
                a.partial_cmp(&b)
            );
        }
    }
    assert!(!has_number(f32::NAN.to_bits()));
    assert!(!has_number(0xffff_ffff));
    assert!(!has_number(0x7f80_0001));
}

#[test]
fn even_slots_are_those_of_single_precision() {
    for len in 1..140usize {
        for n in 1..=len {
            for k in 0..n {
                let frac = (k as f32 + 0.5) / n as f32;
                let idx = ((frac * len as f32).floor() as usize).min(len - 1);
                assert_eq!(even_slot(k, n, len), idx, "{k} of {n} in {len}");
            }
        }
    }
    for (k, n, len) in [
        (3, 6, 108),
        (4, 9, 2),
        (8, 9, 1),
        (999_999_999_999, 1_000_000_000_000, 3),
        (16_777_217, 33_554_431, 50_000_000),
        (99_999_999, 100_000_000, 100_000_000),
        (0, 1, 1),
        (123_456, 1_000_000, 16_777_216),
    ] {
        let frac = (k as f32 + 0.5) / n as f32;
        let idx = ((frac * len as f32).floor() as usize).min(len - 1);
        assert_eq!(even_slot(k, n, len), idx);
    }
}

#[test]
fn even_slots_are_apart_where_there_is_room() {
    for (n, len) in [(2, 3), (5, 6), (7, 100), (1_000, 1_001), (1_294, 1_296), (3, 500_000), (1_000, 2_000), (50_000, 60_000)] {
        for k in 1..n {
            assert!(even_slot(k - 1, n, len) < even_slot(k, n, len), "{k} of {n} in {len}");
        }
        assert!(even_slot(n - 1, n, len) < len);
    }
    // Even in a list whose length is rounded.
    let (n, len) = (1_000_000, 33_554_435);
    for k in (1..n).step_by(997) {
        assert!(even_slot(k - 1, n, len) < even_slot(k, n, len), "{k} of {n} in {len}");
    }
    // Rounding puts two picks at one place where there is hardly any.
    assert_eq!(even_slot(9_990, 20_000, 20_001), 9_991);
    assert_eq!(even_slot(9_991, 20_000, 20_001), 9_991);
}

#[test]
fn counts_of_a_layout() {
    let layout = vec![1, 3, 1, 3, 3, 1];
    assert!(enough_points(24, &layout));
    assert!(!enough_points(23, &layout));
    assert!(enough_points(0, &vec![]));
    assert_eq!(widest_stage(&layout), 3);
    assert_eq!(widest_stage(&vec![7]), 7);
    assert_eq!(stage_columns(6, 5), 16);
}

#[test]
fn attempts_move_the_seed_on() {
    let layout = vec![1, 1];
    // The seeds wrap around, and the first success wins.
    let r = generate(&layout, u64::MAX, 5, |seed| match seed {
        u64::MAX | 0 => Err(GenerationError::Voronoi),
        other => Ok(other),
    });
    assert_eq!(r, Ok(1));
    let r = generate(&layout, 7, 1, |seed| Ok::<u64, GenerationError>(seed));
    assert_eq!(r, Ok(7));
    // One attempt too few.
    let r = generate(&layout, u64::MAX, 2, |seed| match seed {
        u64::MAX | 0 => Err(unsatisfied(SelectionError::EmptyBand(2))),
        other => Ok(other),
    });
    assert_eq!(r, Err(GenerationError::Unsatisfiable(2)));
}

#[test]
fn attempts_end_with_the_last_error() {
    let layout = vec![1, 1];
    let r: Result<u64, GenerationError> =
        generate(&layout, 5, 1, |_| Err(GenerationError::Voronoi));
    assert_eq!(r, Err(GenerationError::Voronoi));
    let r: Result<u64, GenerationError> = generate(&layout, 5, 2, |seed| {
        if seed == 5 {
            Err(GenerationError::Voronoi)
        } else {
            Err(GenerationError::Unsatisfiable(0))
        }
    });
    assert_eq!(r, Err(GenerationError::Unsatisfiable(2)));
    let r: Result<u64, GenerationError> = generate(&layout, 5, 0, |seed| Ok(seed));
    assert_eq!(r, Err(GenerationError::Unsatisfiable(0)));
    let r: Result<u64, GenerationError> = generate(&vec![4], 5, 8, |seed| Ok(seed));
    assert_eq!(r, Err(GenerationError::LayoutTooShort));
}
