use anka::error::{IndexError, MAX_M};
use anka::hnsw::params::{HnswParams, LevelGenerator, MAX_LEVEL};

/// Turns a uniformly distributed word into a level with `P(level >= l) = m^-l`.
fn scale_for(m: usize) -> impl Fn(u64) -> usize {
    let multiplier = if m > 1 { 1.0 / (m as f64).ln() } else { 0.0 };
    move |word: u64| {
        let uniform = 1.0 - (word >> 11) as f64 / (1u64 << 53) as f64;
        (-uniform.ln() * multiplier).floor() as usize
    }
}

#[test]
fn defaults_follow_the_paper() {
    let params = HnswParams::default();
    assert_eq!(params.m(), 16);
    assert_eq!(params.max_degree0(), 32);
    assert_eq!(params.ef_construction(), 200);
    assert_eq!(params.seed(), 0);
}

#[test]
fn layer_zero_gets_the_larger_degree_cap() {
    let params = HnswParams::default();
    assert_eq!(params.max_degree(0), 32);
    assert_eq!(params.max_degree(1), 16);
    assert_eq!(params.max_degree(9), 16);
}

#[test]
fn builders_revalidate() {
    let params = HnswParams::new(8)
        .unwrap()
        .with_ef_construction(64)
        .unwrap()
        .with_seed(42)
        .unwrap();
    assert_eq!(
        (params.m(), params.ef_construction(), params.seed()),
        (8, 64, 42)
    );
}

#[test]
fn invalid_parameters_are_rejected() {
    assert!(matches!(HnswParams::new(0), Err(IndexError::ZeroM)));
    assert!(matches!(
        HnswParams::new(MAX_M + 1),
        Err(IndexError::MTooLarge { .. })
    ));
    assert!(matches!(
        HnswParams::new(16).unwrap().with_max_degree0(8),
        Err(IndexError::MaxDegreeTooSmall {
            m: 16,
            max_degree0: 8
        })
    ));
    assert!(matches!(
        HnswParams::new(16).unwrap().with_ef_construction(0),
        Err(IndexError::ZeroEfConstruction)
    ));
}

#[test]
fn m_of_one_gives_a_flat_graph() {
    let scale = scale_for(1);
    let params = HnswParams::new(1).unwrap();
    let mut levels = params.level_generator();
    for _ in 0..1000 {
        assert_eq!(levels.next_level(&scale), 0);
    }
}

#[test]
fn the_same_seed_gives_the_same_levels() {
    let scale = scale_for(16);
    let params = HnswParams::default();
    let first: Vec<usize> = (0..500)
        .map(|_| params.level_generator().next_level(&scale))
        .collect();
    let second: Vec<usize> = (0..500)
        .map(|_| params.level_generator().next_level(&scale))
        .collect();
    assert_eq!(first, second);

    let mut a = params.level_generator();
    let mut b = params.level_generator();
    let sequence_a: Vec<usize> = (0..500).map(|_| a.next_level(&scale)).collect();
    let sequence_b: Vec<usize> = (0..500).map(|_| b.next_level(&scale)).collect();
    assert_eq!(sequence_a, sequence_b);
}

#[test]
fn a_different_seed_gives_a_different_sequence() {
    let scale = scale_for(16);
    let a = HnswParams::default();
    let b = HnswParams::default().with_seed(1).unwrap();
    let mut ga = a.level_generator();
    let mut gb = b.level_generator();
    let sa: Vec<usize> = (0..2000).map(|_| ga.next_level(&scale)).collect();
    let sb: Vec<usize> = (0..2000).map(|_| gb.next_level(&scale)).collect();
    assert_ne!(sa, sb);
}

#[test]
fn levels_thin_out_geometrically() {
    let scale = scale_for(16);
    let m = 16usize;
    let params = HnswParams::new(m).unwrap();
    let mut generator = params.level_generator();

    let samples = 400_000;
    let mut at_least = [0usize; 4];
    for _ in 0..samples {
        let level = generator.next_level(&scale);
        for (l, count) in at_least.iter_mut().enumerate() {
            if level >= l {
                *count += 1;
            }
        }
    }

    assert_eq!(at_least[0], samples, "every node is on layer 0");

    for (l, count) in at_least.iter().enumerate().skip(1) {
        let observed = *count as f64 / samples as f64;
        let expected = (m as f64).powi(-(l as i32));
        // Three standard deviations of a binomial proportion, with a floor so the l = 3
        // case (expected 1/4096) is not asserted into noise.
        let sigma = (expected * (1.0 - expected) / samples as f64).sqrt();
        let tolerance = (3.0 * sigma).max(expected * 0.25);
        assert!(
            (observed - expected).abs() <= tolerance,
            "P(level >= {l}): observed {observed:.6}, expected {expected:.6}, \
             tolerance {tolerance:.6}"
        );
    }
}

#[test]
fn a_restored_generator_continues_the_same_sequence() {
    let scale = scale_for(16);
    let params = HnswParams::default();

    let mut original = params.level_generator();
    let consumed: Vec<usize> = (0..1_000).map(|_| original.next_level(&scale)).collect();
    let rest: Vec<usize> = (0..500).map(|_| original.next_level(&scale)).collect();
    assert_eq!(original.drawn(), 1_500);

    let mut restored = params.restored_level_generator(consumed.len() as u64);
    assert_eq!(restored.drawn(), 1_000);
    let continued: Vec<usize> = (0..500).map(|_| restored.next_level(&scale)).collect();

    assert_eq!(continued, rest);
    assert_eq!(restored.drawn(), original.drawn());
}

#[test]
fn draws_are_counted_even_on_the_flat_graph_path() {
    let scale = scale_for(1);
    let params = HnswParams::new(1).unwrap();
    let mut generator = params.level_generator();
    for _ in 0..100 {
        generator.next_level(&scale);
    }
    assert_eq!(generator.drawn(), 100);
    assert_eq!(params.restored_level_generator(100).drawn(), 100);
}

#[test]
fn levels_never_exceed_the_guard() {
    let scale = |_: u64| 1_000_000_000usize;
    let mut generator = LevelGenerator::new(7, false);
    for _ in 0..1000 {
        assert!(generator.next_level(&scale) <= MAX_LEVEL);
    }
}

#[test]
fn the_words_are_those_of_the_seeded_generator() {
    use_words(0);
    use_words(42);
}

fn use_words(seed: u64) {
    let words = std::cell::RefCell::new(Vec::new());
    let scale = |word: u64| {
        words.borrow_mut().push(word);
        0usize
    };
    let mut generator = LevelGenerator::new(seed, false);
    for _ in 0..4 {
        generator.next_level(&scale);
    }
    let seen = words.borrow().clone();
    assert_eq!(seen.len(), 4);
    assert!(seen.windows(2).all(|pair| pair[0] != pair[1]));
    let mut rng: rand::rngs::StdRng = rand::SeedableRng::seed_from_u64(seed);
    let expected: Vec<u64> = (0..4).map(|_| rand::RngExt::random(&mut rng)).collect();
    assert_eq!(seen, expected);
}

#[test]
fn a_uniform_word_is_scaled_by_its_logarithm() {
    let scale = scale_for(16);
    assert_eq!(scale(0), 0);
    assert_eq!(scale(u64::MAX / 16 * 15), 0);
    assert_eq!(scale(u64::MAX / 16 * 15 + u64::MAX / 32), 1);
    assert!(scale(u64::MAX) > 10);
}
