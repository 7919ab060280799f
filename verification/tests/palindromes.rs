use prime_palindromes::digits::{digits_to_number, u64_to_digits};
use prime_palindromes::expand::find_prime_palindrome;
use prime_palindromes::primes::{is_prime_trial, prime_check};
use prime_palindromes::scanner::Scanner;

/// Packs a digit stream (length a multiple of 19) into the 8-byte
/// little-endian groups of the wire format.
fn encode_digits(digits: &[u64]) -> Vec<u8> {
    assert!(digits.len() % 19 == 0);
    let mut out = Vec::new();
    for group in digits.chunks(19) {
        let mut value: u64 = 0;
        for &d in group {
            value = value * 10 + d;
        }
        out.extend_from_slice(&value.to_le_bytes());
    }
    out
}

/// A 37-digit candidate slice: a filler cycle that never repeats a digit
/// at even distance, with the given digits spliced in at indices 16..21.
fn candidate_slice(core: [u64; 5]) -> Vec<u64> {
    let cycle = [0u64, 1, 2, 4, 5, 6, 7, 9];
    let mut slice: Vec<u64> = (0..37).map(|i| cycle[i % 8]).collect();
    slice[16..21].copy_from_slice(&core);
    slice
}

#[test]
fn test_digits_to_number() {
    let digits = [1, 3, 5, 6, 2];
    let number = digits_to_number(&digits, 4);
    assert_eq!(number, 1356u128);
}

#[test]
fn test_prime_check() {
    let digits = [7u64, 3, 3, 1, 5, 3, 0, 5, 5, 8, 3, 2, 1, 2, 3, 8, 5, 5, 0, 3, 5, 1, 3, 3, 7];
    let number = digits_to_number(&digits, digits.len());
    let is_prime = prime_check(number);
    assert_eq!(is_prime, true);
}

#[test]
fn oracle_agrees_with_trial_division() {
    for n in 0u64..500 {
        assert_eq!(prime_check(n as u128), is_prime_trial(n), "disagreement at {n}");
    }
}

#[test]
fn oracle_on_adversarial_values() {
    assert!(!prime_check(0));
    assert!(!prime_check(1));
    assert!(prime_check(2));
    assert!(!prime_check(9));
    // a Mersenne prime of 39 digits
    assert!(prime_check(170141183460469231731687303715884105727u128));
    // a 37-digit multiple of 5
    assert!(!prime_check(1000000000000000000000000000000000005u128));
}

#[test]
fn trial_division_small_values() {
    assert!(!is_prime_trial(0));
    assert!(!is_prime_trial(1));
    assert!(is_prime_trial(2));
    assert!(is_prime_trial(3));
    assert!(!is_prime_trial(4));
    assert!(is_prime_trial(383));
    assert!(!is_prime_trial(3830));
    assert!(is_prime_trial(13831));
    assert!(is_prime_trial(93739));
}

#[test]
fn decode_one_group() {
    let raw = 1234567890123456789u64.to_le_bytes();
    let mut window: Vec<u64> = Vec::new();
    u64_to_digits(&raw, &mut window);
    assert_eq!(window, vec![1, 2, 3, 4, 5, 6, 7, 8, 9, 0, 1, 2, 3, 4, 5, 6, 7, 8, 9]);
}

#[test]
fn decode_carries_previous_tail() {
    let mut window: Vec<u64> = (0..40).map(|i| (i % 10) as u64).collect();
    let old_tail: Vec<u64> = window[40 - 36..].to_vec();
    let raw = 42u64.to_le_bytes();
    u64_to_digits(&raw, &mut window);
    assert_eq!(window.len(), 36 + 19);
    assert_eq!(&window[..36], &old_tail[..]);
    assert_eq!(&window[36..], &[0, 0, 0, 0, 0, 0, 0, 0, 0, 0, 0, 0, 0, 0, 0, 0, 0, 4, 2]);
}

#[test]
fn expander_keeps_minimal_width_when_widening_is_composite() {
    // digits 0,3,8,3,0 around the center: 3830 is composite, 383 is prime
    let slice = candidate_slice([0, 3, 8, 3, 0]);
    let found = find_prime_palindrome(&slice, 3, 1000).expect("383 must be reported");
    assert_eq!(found.number, 383);
    assert_eq!(found.n_digits, 3);
    assert_eq!(found.position, 1000 + 17);
}

#[test]
fn expander_widens_to_wider_prime() {
    // digits 1,3,8,3,1 around the center: 13831 is prime and wider than 383
    let slice = candidate_slice([1, 3, 8, 3, 1]);
    let found = find_prime_palindrome(&slice, 3, 1000).expect("13831 must be reported");
    assert_eq!(found.number, 13831);
    assert_eq!(found.n_digits, 5);
    assert_eq!(found.position, 1000 + 16);
}

#[test]
fn expander_reports_nothing_without_a_prime() {
    // 0,9,0 is symmetric but 90 is composite, and so is every widening
    let cycle = [0u64, 1, 2, 4, 5, 6, 7, 9];
    let mut slice: Vec<u64> = (0..37).map(|i| cycle[i % 8]).collect();
    slice[17..20].copy_from_slice(&[0, 9, 0]);
    assert!(find_prime_palindrome(&slice, 3, 1000).is_none());
}

#[test]
fn scanner_finds_prime_palindrome_in_zero_stream() {
    let mut digits = vec![0u64; 114];
    digits[29..32].copy_from_slice(&[3, 8, 3]);
    let raw = encode_digits(&digits);
    let mut scanner = Scanner::new(1, 3);
    let found = scanner.feed_block(&raw);
    assert_eq!(found.len(), 1);
    assert_eq!(found[0].number, 383);
    assert_eq!(found[0].n_digits, 3);
    assert_eq!(found[0].position, 30);
    assert_eq!(scanner.min_width(), 5);
}

#[test]
fn floor_rises_and_skips_narrower_palindromes() {
    let mut digits = vec![0u64; 114];
    digits[29..32].copy_from_slice(&[3, 8, 3]);
    // 727 is prime, but after the first find only widths of 5 and up count
    digits[49..52].copy_from_slice(&[7, 2, 7]);
    digits[70..75].copy_from_slice(&[9, 3, 7, 3, 9]);
    let raw = encode_digits(&digits);
    let mut scanner = Scanner::new(1, 3);
    let found = scanner.feed_block(&raw);
    assert_eq!(found.len(), 2);
    assert_eq!(found[0].number, 383);
    assert_eq!(found[0].n_digits, 3);
    assert_eq!(found[0].position, 30);
    assert_eq!(found[1].number, 93739);
    assert_eq!(found[1].n_digits, 5);
    assert_eq!(found[1].position, 71);
    assert_eq!(scanner.min_width(), 7);
}

#[test]
fn detection_is_identical_at_every_offset_from_a_block_boundary() {
    // two blocks of 57 digits each; the palindrome is placed at every
    // center around the boundary, including straddling it exactly
    for p in 40..75usize {
        let mut digits = vec![0u64; 114];
        digits[p - 1..p + 2].copy_from_slice(&[3, 8, 3]);
        let raw = encode_digits(&digits);

        let mut split_scanner = Scanner::new(1, 3);
        let mut split_found = split_scanner.feed_block(&raw[..24]);
        split_found.extend(split_scanner.feed_block(&raw[24..]));

        let mut whole_scanner = Scanner::new(1, 3);
        let whole_found = whole_scanner.feed_block(&raw);

        assert_eq!(split_found.len(), 1, "offset {p}");
        assert_eq!(split_found[0].number, 383, "offset {p}");
        assert_eq!(split_found[0].n_digits, 3, "offset {p}");
        assert_eq!(split_found[0].position, p as u64, "offset {p}");
        assert_eq!(whole_found.len(), 1, "offset {p}");
        assert_eq!(whole_found[0].position, split_found[0].position, "offset {p}");
        assert_eq!(split_scanner.min_width(), whole_scanner.min_width(), "offset {p}");
    }
}

#[test]
fn positions_follow_the_scanner_start() {
    let mut digits = vec![0u64; 114];
    digits[59..62].copy_from_slice(&[3, 8, 3]);
    let raw = encode_digits(&digits);
    let base = 368 * 100_000_000_000u64 + 1;
    let mut scanner = Scanner::new(base, 3);
    let found = scanner.feed_block(&raw);
    assert_eq!(found.len(), 1);
    assert_eq!(found[0].position, base + 59);
}

#[test]
fn empty_block_reports_nothing() {
    let mut scanner = Scanner::new(1, 3);
    let found = scanner.feed_block(&[]);
    assert!(found.is_empty());
    assert_eq!(scanner.min_width(), 3);
}

#[test]
fn floor_can_start_at_the_width_ceiling() {
    // with the floor at 37 a 3-digit palindrome is never tested
    let mut digits = vec![0u64; 114];
    digits[59..62].copy_from_slice(&[3, 8, 3]);
    let raw = encode_digits(&digits);
    let mut scanner = Scanner::new(1, 37);
    let found = scanner.feed_block(&raw);
    assert!(found.is_empty());
    assert_eq!(scanner.min_width(), 37);
}

#[test]
fn results_survive_a_carried_floor_across_files() {
    // the floor found in one file's stream is handed to the next file
    let mut first = vec![0u64; 57];
    first[29..32].copy_from_slice(&[3, 8, 3]);
    let mut scanner = Scanner::new(1, 3);
    let found = scanner.feed_block(&encode_digits(&first));
    assert_eq!(found.len(), 1);
    let carried = scanner.min_width();
    assert_eq!(carried, 5);

    let mut second = vec![0u64; 57];
    second[29..32].copy_from_slice(&[7, 2, 7]);
    let mut next_scanner = Scanner::new(100_000_000_001, carried);
    let found2 = next_scanner.feed_block(&encode_digits(&second));
    assert!(found2.is_empty());
}
