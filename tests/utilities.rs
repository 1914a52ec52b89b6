use wasm_utils::numeric::{factorial, fibonacci, generate_primes, is_prime};
use wasm_utils::text::{
    analyze_string, greet, hash_string, unicode_char_count, utf8_byte_count, StringAnalysis,
};
use wasm_utils::workload::{
    compute_workload, fill_pattern, memory_workload, paired_sum,
};

fn trial_division(n: u64) -> bool {
    n >= 2 && (2..n).all(|d| n % d != 0)
}

#[test]
fn greet_embeds_name() {
    assert_eq!(greet("Ada"), "Hello, Ada! Greetings from Rust and WebAssembly \u{1F980}");
}

#[test]
fn greet_empty_name() {
    assert_eq!(greet(""), "Hello, ! Greetings from Rust and WebAssembly \u{1F980}");
}

#[test]
fn fibonacci_first_values() {
    assert_eq!(fibonacci(0), 0);
    assert_eq!(fibonacci(1), 1);
    assert_eq!(fibonacci(2), 1);
    assert_eq!(fibonacci(10), 55);
}

#[test]
fn fibonacci_recurrence_on_small_values() {
    for n in 2..60u32 {
        assert_eq!(fibonacci(n), fibonacci(n - 1) + fibonacci(n - 2));
    }
}

#[test]
fn fibonacci_largest_exact_and_wrapped() {
    assert_eq!(fibonacci(93), 12200160415121876738);
    assert_eq!(fibonacci(94), 1293530146158671551);
    assert_eq!(fibonacci(94), fibonacci(93).wrapping_add(fibonacci(92)));
}

#[test]
fn is_prime_named_values() {
    assert!(!is_prime(49));
    assert!(!is_prime(50));
    assert!(is_prime(47));
    assert!(is_prime(2));
    assert!(!is_prime(1));
    assert!(!is_prime(0));
}

#[test]
fn is_prime_agrees_with_trial_division() {
    for n in 0..=10_000u64 {
        assert_eq!(is_prime(n), trial_division(n), "n = {}", n);
    }
}

#[test]
fn is_prime_near_squares() {
    assert!(!is_prime(121));
    assert!(!is_prime(169));
    assert!(!is_prime(10_403));
    assert!(is_prime(10_007));
    assert!(!is_prime(4_294_967_297));
    assert!(is_prime(4_294_967_311));
    assert!(!is_prime(u64::MAX));
}

#[test]
fn generate_primes_up_to_thirty() {
    assert_eq!(generate_primes(30), vec![2, 3, 5, 7, 11, 13, 17, 19, 23, 29]);
}

#[test]
fn generate_primes_small_limits() {
    assert_eq!(generate_primes(1), Vec::<u64>::new());
    assert_eq!(generate_primes(0), Vec::<u64>::new());
    assert_eq!(generate_primes(2), vec![2]);
    assert_eq!(generate_primes(29), vec![2, 3, 5, 7, 11, 13, 17, 19, 23, 29]);
}

#[test]
fn factorial_values() {
    assert_eq!(factorial(0), 1);
    assert_eq!(factorial(1), 1);
    assert_eq!(factorial(5), 120);
    assert_eq!(factorial(20), 2432902008176640000);
}

#[test]
fn factorial_wraps() {
    assert_eq!(factorial(21), 14197454024290336768);
    assert_eq!(factorial(21), factorial(20).wrapping_mul(21));
    assert_eq!(factorial(25), 7034535277573963776);
    assert_eq!(factorial(66), 0);
}

#[test]
fn hash_string_values() {
    assert_eq!(hash_string(""), 5381);
    assert_eq!(hash_string("a"), 177670);
    assert_eq!(hash_string("hello"), 210714636441);
    assert_eq!(hash_string("hello"), hash_string("hello"));
}

#[test]
fn hash_string_reads_bytes_not_codepoints() {
    assert_eq!(hash_string("\u{e9}"), 5866513);
    assert_ne!(hash_string("\u{e9}"), 5381 * 33 + 0xe9);
    assert_eq!(hash_string("h\u{e9}llo"), 6953696671296);
}

#[test]
fn byte_and_char_counts_differ() {
    assert_eq!(utf8_byte_count("h\u{e9}llo"), 6);
    assert_eq!(unicode_char_count("h\u{e9}llo"), 5);
    assert_ne!(utf8_byte_count("h\u{e9}llo"), unicode_char_count("h\u{e9}llo"));
    assert_eq!(utf8_byte_count("\u{1F980}"), 4);
    assert_eq!(unicode_char_count("\u{1F980}"), 1);
    assert_eq!(utf8_byte_count(""), 0);
    assert_eq!(unicode_char_count(""), 0);
}

fn counts(a: &StringAnalysis) -> (usize, usize, usize, usize) {
    (a.byte_count, a.char_count, a.word_count, a.line_count)
}

#[test]
fn analyze_empty_string() {
    assert_eq!(counts(&analyze_string("")), (0, 0, 0, 1));
}

#[test]
fn analyze_two_lines() {
    assert_eq!(counts(&analyze_string("hello world\nfoo")), (15, 15, 3, 2));
}

#[test]
fn analyze_line_endings() {
    assert_eq!(counts(&analyze_string("a\n")), (2, 2, 1, 1));
    assert_eq!(counts(&analyze_string("a\r\nb\r\n")), (6, 6, 2, 2));
    assert_eq!(counts(&analyze_string("\n\n")), (2, 2, 0, 2));
    assert_eq!(counts(&analyze_string("a\rb")), (3, 3, 2, 1));
}

#[test]
fn analyze_whitespace_runs() {
    assert_eq!(counts(&analyze_string("  many   spaces\there ")), (21, 21, 3, 1));
    assert_eq!(counts(&analyze_string("   ")), (3, 3, 0, 1));
    assert_eq!(counts(&analyze_string("x\u{3000}y\u{a0}z")), (8, 5, 3, 1));
    assert_eq!(counts(&analyze_string("h\u{e9}llo w\u{f6}rld")), (13, 11, 2, 1));
}

#[test]
fn string_analysis_new_is_empty_text() {
    assert_eq!(counts(&StringAnalysis::new()), counts(&analyze_string("")));
}

#[test]
fn compute_workload_values() {
    assert_eq!(compute_workload(0), 0);
    assert_eq!(compute_workload(1), 140624);
    assert_eq!(compute_workload(5), 1151920);
    assert_eq!(compute_workload(10_000), 5004576578);
}

#[test]
fn memory_workload_values() {
    assert_eq!(memory_workload(0), 0);
    assert_eq!(memory_workload(1), 13);
    assert_eq!(memory_workload(3), 133);
    assert_eq!(memory_workload(10_000), 1699920004);
}

#[test]
fn fill_pattern_and_paired_sum() {
    assert_eq!(fill_pattern(4), vec![13, 30, 47, 64]);
    assert_eq!(paired_sum(&[13, 30, 47, 64]), 13 + 30 + 13 + 47 + 30 + 64 + 47);
    assert_eq!(paired_sum(&[]), 0);
    assert_eq!(paired_sum(&[i32::MIN, i32::MIN]), 3 * (i32::MIN as i64));
}
