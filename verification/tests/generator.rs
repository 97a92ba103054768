use std::collections::HashSet;

use dua_checker::generator::{
    generate_all, generate_random, index_to_handle, Sample, SPACE_4_LETTERS,
};
use dua_checker::{generate, Charset, GenMode, GenerateConfig, Length, SPACE_3_LETTERS};
use rand::rngs::StdRng;
use rand::seq::SliceRandom;
use rand::{Rng, SeedableRng};

fn config(
    length: Length,
    charset: Charset,
    mode: GenMode,
    count: Option<usize>,
    seed: Option<u64>,
) -> GenerateConfig {
    GenerateConfig { length, charset, mode, count, seed }
}

#[test]
fn all_three_letters_is_exact_size() {
    let cfg = config(Length::Three, Charset::Letters, GenMode::All, None, None);
    let out = generate(&cfg);
    assert_eq!(out.len(), SPACE_3_LETTERS);
    // First and last entries (lex order).
    assert_eq!(out.first().map(String::as_str), Some("aaa"));
    assert_eq!(out.last().map(String::as_str), Some("zzz"));
    // No duplicates.
    let set: HashSet<&String> = out.iter().collect();
    assert_eq!(set.len(), out.len());
}

#[test]
fn all_four_letters_is_full_space() {
    let cfg = config(Length::Four, Charset::Letters, GenMode::All, Some(10), None);
    let out = generate(&cfg);
    assert_eq!(out.len(), 10);
    assert_eq!(out.first().map(String::as_str), Some("aaaa"));
}

#[test]
fn random_is_unique_and_correct_length() {
    let cfg = config(Length::Four, Charset::Alnum, GenMode::Random, Some(500), Some(42));
    let out = generate(&cfg);
    assert_eq!(out.len(), 500);
    for handle in &out {
        assert_eq!(handle.len(), 4);
        assert!(handle
            .bytes()
            .all(|b| b.is_ascii_lowercase() || b.is_ascii_digit()));
    }
    let set: HashSet<&String> = out.iter().collect();
    assert_eq!(set.len(), out.len());
}

#[test]
fn random_seed_is_reproducible() {
    let mk = || config(Length::Three, Charset::Letters, GenMode::Random, Some(50), Some(7));
    assert_eq!(generate(&mk()), generate(&mk()));
}

#[test]
fn random_cap_at_space_size() {
    let cfg = config(
        Length::Three,
        Charset::Letters,
        GenMode::Random,
        Some(SPACE_3_LETTERS + 5000),
        Some(1),
    );
    let out = generate(&cfg);
    assert_eq!(out.len(), SPACE_3_LETTERS);
    let set: HashSet<&String> = out.iter().collect();
    assert_eq!(set.len(), SPACE_3_LETTERS);
}

#[test]
fn space_sizes_are_as_documented() {
    let size = |l, c| config(l, c, GenMode::All, None, None).space_size();
    assert_eq!(size(Length::Three, Charset::Letters), 17_576);
    assert_eq!(size(Length::Three, Charset::Alnum), 46_656);
    assert_eq!(size(Length::Four, Charset::Letters), 456_976);
    assert_eq!(size(Length::Four, Charset::Alnum), 1_679_616);
    assert_eq!(SPACE_3_LETTERS, 17_576);
    assert_eq!(SPACE_4_LETTERS, 456_976);
}

#[test]
fn lengths_are_three_and_four() {
    assert_eq!(Length::from_u32(3), Some(Length::Three));
    assert_eq!(Length::from_u32(4), Some(Length::Four));
    assert_eq!(Length::from_u32(2), None);
    assert_eq!(Length::from_u32(5), None);
    assert_eq!(Length::Three.as_usize(), 3);
    assert_eq!(Length::Four.as_usize(), 4);
}

#[test]
fn charsets_have_their_characters_and_names() {
    assert_eq!(Charset::Letters.chars(), b"abcdefghijklmnopqrstuvwxyz");
    assert_eq!(Charset::Alnum.chars(), b"abcdefghijklmnopqrstuvwxyz0123456789");
    assert_eq!(Charset::Letters.label(), "letters");
    assert_eq!(Charset::Alnum.label(), "alnum");
}

#[test]
fn handles_are_numerals() {
    let chars = Charset::Alnum.chars();
    assert_eq!(index_to_handle(0, chars, 3), "aaa");
    assert_eq!(index_to_handle(1, chars, 3), "aab");
    assert_eq!(index_to_handle(36, chars, 3), "aba");
    assert_eq!(index_to_handle(46_655, chars, 3), "999");
    assert_eq!(index_to_handle(35, chars, 4), "aaa9");
}

#[test]
fn enumeration_of_letters_is_sorted() {
    let out = generate_all(Charset::Letters, Length::Three, usize::MAX);
    assert_eq!(out.len(), 17_576);
    assert!(out.windows(2).all(|w| w[0] < w[1]));
}

#[test]
fn enumeration_of_alnum_ranks_digits_after_letters() {
    let out = generate_all(Charset::Alnum, Length::Three, 40);
    assert_eq!(out[25], "aaz");
    assert_eq!(out[26], "aa0");
    assert_eq!(out[35], "aa9");
    assert_eq!(out[36], "aba");
}

#[test]
fn count_caps_the_enumeration() {
    let whole = generate(&config(Length::Three, Charset::Letters, GenMode::All, None, None));
    let some = generate(&config(Length::Three, Charset::Letters, GenMode::All, Some(100), None));
    assert_eq!(some, whole[..100].to_vec());
    let none = generate(&config(Length::Three, Charset::Letters, GenMode::All, Some(0), None));
    assert!(none.is_empty());
}

#[test]
fn random_defaults_to_a_thousand() {
    let out = generate(&config(Length::Four, Charset::Letters, GenMode::Random, None, None));
    assert_eq!(out.len(), 1000);
    let set: HashSet<&String> = out.iter().collect();
    assert_eq!(set.len(), 1000);
    let none = generate(&config(Length::Four, Charset::Letters, GenMode::Random, Some(0), Some(3)));
    assert!(none.is_empty());
}

#[test]
fn small_samples_keep_new_draws_in_order() {
    for seed in 0..20u64 {
        let mut rng = StdRng::seed_from_u64(seed);
        let mut seen: HashSet<usize> = HashSet::new();
        let mut expected: Vec<String> = Vec::new();
        while expected.len() < 300 {
            let idx = rng.gen_range(0..17_576usize);
            if seen.insert(idx) {
                expected.push(index_to_handle(idx, Charset::Letters.chars(), 3));
            }
        }
        assert_eq!(generate_random(Charset::Letters, Length::Three, 300, Some(seed)), expected);
    }
}

#[test]
fn large_samples_come_from_a_shuffle() {
    let size = 17_576usize;
    for target in [8_788usize, 12_000, 17_576] {
        let mut rng = StdRng::seed_from_u64(99);
        let mut pool: Vec<usize> = (0..size).collect();
        let mut expected: Vec<String> = Vec::new();
        for i in 0..target {
            let j = rng.gen_range(i..size);
            pool.swap(i, j);
            expected.push(index_to_handle(pool[i], Charset::Letters.chars(), 3));
        }
        expected.shuffle(&mut rng);
        assert_eq!(
            generate_random(Charset::Letters, Length::Three, target, Some(99)),
            expected
        );
    }
}

#[test]
fn different_seeds_give_different_samples() {
    let a = generate_random(Charset::Letters, Length::Four, 50, Some(1));
    let b = generate_random(Charset::Letters, Length::Four, 50, Some(2));
    assert_ne!(a, b);
}

#[test]
fn sample_accepts_each_position_once() {
    let mut sample = Sample::new();
    assert!(sample.offer(3));
    assert!(sample.offer(0));
    assert!(!sample.offer(3));
    assert_eq!(sample.len(), 2);
    assert_eq!(sample.positions(), &vec![3, 0]);
    assert_eq!(sample.least_unused(10), 1);
    assert!(sample.offer(1));
    assert_eq!(sample.least_unused(10), 2);
}

#[test]
fn small_samples_favor_no_handle() {
    let mut first_letters = [0usize; 26];
    for seed in 0..5_200u64 {
        let out = generate_random(Charset::Letters, Length::Three, 2, Some(seed));
        for handle in out {
            first_letters[(handle.as_bytes()[0] - b'a') as usize] += 1;
        }
    }
    assert!(first_letters.iter().all(|n| (300..=500).contains(n)), "{first_letters:?}");
}

#[test]
fn large_samples_favor_no_place() {
    let mut first_letters = [0usize; 26];
    for seed in 0..260u64 {
        let out = generate_random(Charset::Letters, Length::Three, 9_000, Some(seed));
        for handle in &out[..20] {
            first_letters[(handle.as_bytes()[0] - b'a') as usize] += 1;
        }
    }
    assert!(first_letters.iter().all(|n| (130..=280).contains(n)), "{first_letters:?}");
}
