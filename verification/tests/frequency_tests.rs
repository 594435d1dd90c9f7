use character_frequency::character_frequencies;
use character_frequency::character_frequencies_range;
use character_frequency::character_frequencies_w_case;
use character_frequency::character_frequencies_with_n_threads;
use character_frequency::character_frequencies_with_n_threads_w_case;
use character_frequency::sequential_character_frequencies;
use character_frequency::sequential_character_frequencies_w_case;
use character_frequency::CaseSense;
use character_frequency::FrequencyMap;

// Convenience for the expected side of a comparison: given "a4 b3 c2",
// builds the mapping {a: 4, b: 3, c: 2}.
fn expected_freq(s: &str) -> FrequencyMap {
    let mut m = FrequencyMap::new();
    for chunk in s.split(' ') {
        let mut it = chunk.chars();
        let c = it.next().unwrap();
        let n: usize = it.as_str().parse().unwrap();
        m.add_count(c, n);
    }
    m
}

#[test]
fn test_character_frequencies_range_full() {
    let result =
        character_frequencies_range("aaaabbbccd|@", 0, 11, CaseSense::InsensitiveASCIIOnly)
            .unwrap();
    assert_eq!(result, expected_freq("a4 b3 c2 d1 |1 @1"));
}

#[test]
fn test_character_frequencies_range_consecutive_left() {
    let result =
        character_frequencies_range("aaaa", 0, 2, CaseSense::InsensitiveASCIIOnly).unwrap();
    assert_eq!(result, expected_freq("a3"));
}

#[test]
fn test_character_frequencies_range_consecutive_right() {
    let result =
        character_frequencies_range("aaaa", 1, 3, CaseSense::InsensitiveASCIIOnly).unwrap();
    assert_eq!(result, expected_freq("a3"));
}

#[test]
fn test_character_frequencies_range_consecutive_center() {
    let result =
        character_frequencies_range("aaaa", 1, 2, CaseSense::InsensitiveASCIIOnly).unwrap();
    assert_eq!(result, expected_freq("a2"));
    let result =
        character_frequencies_range("baab", 1, 2, CaseSense::InsensitiveASCIIOnly).unwrap();
    assert_eq!(result, expected_freq("a2"));
    let result =
        character_frequencies_range("bacb", 1, 2, CaseSense::InsensitiveASCIIOnly).unwrap();
    assert_eq!(result, expected_freq("a1 c1"));
    let result =
        character_frequencies_range("dcab", 1, 2, CaseSense::InsensitiveASCIIOnly).unwrap();
    assert_eq!(result, expected_freq("a1 c1"));
}

#[test]
fn test_character_frequencies_range_consecutive_whole() {
    let result =
        character_frequencies_range("aaaa", 0, 3, CaseSense::InsensitiveASCIIOnly).unwrap();
    assert_eq!(result, expected_freq("a4"));
}

#[test]
fn test_character_frequencies_range_only_one_left() {
    let result =
        character_frequencies_range("aaa", 0, 0, CaseSense::InsensitiveASCIIOnly).unwrap();
    assert_eq!(result, expected_freq("a1"));
}

#[test]
fn test_character_frequencies_range_only_one_right() {
    let result =
        character_frequencies_range("aaa", 2, 2, CaseSense::InsensitiveASCIIOnly).unwrap();
    assert_eq!(result, expected_freq("a1"));
}

#[test]
fn test_character_frequencies_range_only_one_center() {
    let result =
        character_frequencies_range("aaa", 1, 1, CaseSense::InsensitiveASCIIOnly).unwrap();
    assert_eq!(result, expected_freq("a1"));
}

#[test]
fn test_sequential_character_frequencies() {
    let result = character_frequencies("aaaabbbccd|@");
    assert_eq!(result, expected_freq("a4 b3 c2 d1 |1 @1"));
}

#[test]
fn test_parallel_character_frequencies_more_threads_than_characters() {
    let result = character_frequencies_with_n_threads("aaaabbbccd|@", 13);
    assert_eq!(result, expected_freq("a4 b3 c2 d1 |1 @1"));
}

#[test]
fn test_parallel_character_frequencies_less_threads_than_characters() {
    let result = character_frequencies_with_n_threads("aaaabbbccd|@", 5);
    assert_eq!(result, expected_freq("a4 b3 c2 d1 |1 @1"));
}

#[test]
fn test_parallel_character_frequencies_single_thread() {
    let result = character_frequencies_with_n_threads("aaaabbbccd|@", 1);
    assert_eq!(result, expected_freq("a4 b3 c2 d1 |1 @1"));
}

#[test]
fn test_parallel_character_frequencies_prime_threads() {
    let result = character_frequencies_with_n_threads("aaaabbbccd|@", 7);
    assert_eq!(result, expected_freq("a4 b3 c2 d1 |1 @1"));
}

#[test]
fn test_parallel_character_frequencies_n_threads() {
    let result = character_frequencies("aaaabbbccd|@");
    assert_eq!(result, expected_freq("a4 b3 c2 d1 |1 @1"));
}

#[test]
fn test_character_frequencies_range_full_w_case() {
    let result =
        character_frequencies_range("AaaaBbBCCd|@", 0, 11, CaseSense::Sensitive).unwrap();
    assert_eq!(result, expected_freq("a3 b1 C2 d1 |1 @1 A1 B2"));
}

#[test]
fn test_character_frequencies_range_consecutive_left_w_case() {
    let result = character_frequencies_range("aaaA", 0, 2, CaseSense::Sensitive).unwrap();
    assert_eq!(result, expected_freq("a3"));
    let result = character_frequencies_range("Aaaa", 0, 2, CaseSense::Sensitive).unwrap();
    assert_eq!(result, expected_freq("a2 A1"));
    let result = character_frequencies_range("AaAa", 0, 2, CaseSense::Sensitive).unwrap();
    assert_eq!(result, expected_freq("a1 A2"));
}

#[test]
fn test_character_frequencies_range_consecutive_right_w_case() {
    let result = character_frequencies_range("Aaaa", 1, 3, CaseSense::Sensitive).unwrap();
    assert_eq!(result, expected_freq("a3"));
    let result = character_frequencies_range("AaAa", 1, 3, CaseSense::Sensitive).unwrap();
    assert_eq!(result, expected_freq("a2 A1"));
    let result = character_frequencies_range("AaaA", 1, 3, CaseSense::Sensitive).unwrap();
    assert_eq!(result, expected_freq("a2 A1"));
}

#[test]
fn test_character_frequencies_range_consecutive_center_w_case() {
    let result = character_frequencies_range("aaaa", 1, 2, CaseSense::Sensitive).unwrap();
    assert_eq!(result, expected_freq("a2"));
    let result = character_frequencies_range("baAb", 1, 2, CaseSense::Sensitive).unwrap();
    assert_eq!(result, expected_freq("a1 A1"));
    let result = character_frequencies_range("bAcb", 1, 2, CaseSense::Sensitive).unwrap();
    assert_eq!(result, expected_freq("A1 c1"));
    let result = character_frequencies_range("dcab", 1, 2, CaseSense::Sensitive).unwrap();
    assert_eq!(result, expected_freq("a1 c1"));
}

#[test]
fn test_character_frequencies_range_consecutive_whole_w_case() {
    let result = character_frequencies_range("aaaa", 0, 3, CaseSense::Sensitive).unwrap();
    assert_eq!(result, expected_freq("a4"));
    let result = character_frequencies_range("aAaa", 0, 3, CaseSense::Sensitive).unwrap();
    assert_eq!(result, expected_freq("A1 a3"));
}

#[test]
fn test_character_frequencies_range_only_one_left_w_case() {
    let result = character_frequencies_range("aaa", 0, 0, CaseSense::Sensitive).unwrap();
    assert_eq!(result, expected_freq("a1"));
    let result = character_frequencies_range("AaA", 0, 0, CaseSense::Sensitive).unwrap();
    assert_eq!(result, expected_freq("A1"));
}

#[test]
fn test_character_frequencies_range_only_one_right_w_case() {
    let result = character_frequencies_range("aaa", 2, 2, CaseSense::Sensitive).unwrap();
    assert_eq!(result, expected_freq("a1"));
    let result = character_frequencies_range("BaA", 2, 2, CaseSense::Sensitive).unwrap();
    assert_eq!(result, expected_freq("A1"));
}

#[test]
fn test_character_frequencies_range_only_one_center_w_case() {
    let result = character_frequencies_range("aaa", 1, 1, CaseSense::Sensitive).unwrap();
    assert_eq!(result, expected_freq("a1"));
    let result = character_frequencies_range("aAa", 1, 1, CaseSense::Sensitive).unwrap();
    assert_eq!(result, expected_freq("A1"));
}

#[test]
fn test_sequential_character_frequencies_w_case() {
    let result = character_frequencies_w_case("AaabbbccdEEE|@", CaseSense::Sensitive).unwrap();
    assert_eq!(result, expected_freq("A1 a2 b3 c2 d1 |1 @1 E3"));
}

#[test]
fn test_parallel_character_frequencies_more_threads_than_characters_w_case() {
    let result =
        character_frequencies_with_n_threads_w_case("AabbbccdE|@", 13, CaseSense::Sensitive)
            .unwrap();
    assert_eq!(result, expected_freq("A1 a1 b3 c2 d1 |1 @1 E1"));
}

#[test]
fn test_parallel_character_frequencies_less_threads_than_characters_w_case() {
    let result =
        character_frequencies_with_n_threads_w_case("AaaabbbccdEEE|@", 5, CaseSense::Sensitive)
            .unwrap();
    assert_eq!(result, expected_freq("A1 a3 b3 c2 d1 |1 @1 E3"));
}

#[test]
fn test_parallel_character_frequencies_single_thread_w_case() {
    let result =
        character_frequencies_with_n_threads_w_case("aaaAbbBccd|@", 1, CaseSense::Sensitive)
            .unwrap();
    assert_eq!(result, expected_freq("a3 b2 B1 A1 c2 d1 |1 @1"));
}

#[test]
fn test_parallel_character_frequencies_prime_threads_w_case() {
    let result =
        character_frequencies_with_n_threads_w_case("AaaBbbCcd|@", 7, CaseSense::Sensitive)
            .unwrap();
    assert_eq!(result, expected_freq("a2 A1 B1 b2 c1 C1 d1 |1 @1"));
}

#[test]
fn test_parallel_character_frequencies_n_threads_w_case() {
    let result = character_frequencies_w_case("AaaBbbCcd|@", CaseSense::Sensitive).unwrap();
    assert_eq!(result, expected_freq("a2 A1 B1 b2 c1 C1 d1 |1 @1"));
}

#[test]
fn test_unicode_case_sensitive() {
    let greek_upper = "\u{1f48}\u{394}\u{3a5}\u{3a3}\u{3a3}\u{395}\u{38e}\u{3a3}";
    let greek_lower = "\u{1f40}\u{3b4}\u{3c5}\u{3c3}\u{3c3}\u{3b5}\u{3cd}\u{3c2}";
    let greek_mix =
        "\u{1f40}\u{3b4}\u{3c5}\u{3c3}\u{3c3}\u{3b5}\u{3cd}\u{3c2}\u{1f48}\u{394}\u{3a5}\u{3a3}\u{3a3}\u{395}\u{38e}\u{3a3}";
    let resultu = character_frequencies_w_case(greek_upper, CaseSense::Sensitive).unwrap();
    let resultl = character_frequencies_w_case(greek_lower, CaseSense::Sensitive).unwrap();
    let resultm = character_frequencies_w_case(greek_mix, CaseSense::Sensitive).unwrap();
    assert_eq!(
        resultu,
        expected_freq("\u{1f48}1 \u{394}1 \u{3a5}1 \u{3a3}3 \u{395}1 \u{38e}1")
    );
    assert_eq!(
        resultl,
        expected_freq("\u{1f40}1 \u{3b4}1 \u{3c5}1 \u{3c3}2 \u{3b5}1 \u{3c2}1 \u{3cd}1")
    );
    assert_eq!(
        resultm,
        expected_freq(
            "\u{1f48}1 \u{394}1 \u{3a5}1 \u{3a3}3 \u{395}1 \u{38e}1 \u{1f40}1 \u{3b4}1 \u{3c5}1 \u{3c3}2 \u{3b5}1 \u{3c2}1 \u{3cd}1"
        )
    );
}

#[test]
fn test_unicode_case_insensitiveasciionly() {
    let greek_upper = "\u{1f48}\u{394}\u{3a5}\u{3a3}\u{3a3}\u{395}\u{38e}\u{3a3}";
    let greek_lower = "\u{1f40}\u{3b4}\u{3c5}\u{3c3}\u{3c3}\u{3b5}\u{3cd}\u{3c2}";
    let greek_mix =
        "\u{1f40}\u{3b4}\u{3c5}\u{3c3}\u{3c3}\u{3b5}\u{3cd}\u{3c2}\u{1f48}\u{394}\u{3a5}\u{3a3}\u{3a3}\u{395}\u{38e}\u{3a3}";
    let resultu =
        character_frequencies_w_case(greek_upper, CaseSense::InsensitiveASCIIOnly).unwrap();
    let resultl =
        character_frequencies_w_case(greek_lower, CaseSense::InsensitiveASCIIOnly).unwrap();
    let resultm =
        character_frequencies_w_case(greek_mix, CaseSense::InsensitiveASCIIOnly).unwrap();
    assert_eq!(
        resultu,
        expected_freq("\u{1f48}1 \u{394}1 \u{3a5}1 \u{3a3}3 \u{395}1 \u{38e}1")
    );
    assert_eq!(
        resultl,
        expected_freq("\u{1f40}1 \u{3b4}1 \u{3c5}1 \u{3c3}2 \u{3b5}1 \u{3c2}1 \u{3cd}1")
    );
    assert_eq!(
        resultm,
        expected_freq(
            "\u{1f48}1 \u{394}1 \u{3a5}1 \u{3a3}3 \u{395}1 \u{38e}1 \u{1f40}1 \u{3b4}1 \u{3c5}1 \u{3c3}2 \u{3b5}1 \u{3c2}1 \u{3cd}1"
        )
    );
}

#[test]
fn test_unicode_case_insensitive() {
    let greek_upper = "\u{1f48}\u{394}\u{3a5}\u{3a3}\u{3a3}\u{395}\u{38e}\u{3a3}";
    let greek_lower = "\u{1f40}\u{3b4}\u{3c5}\u{3c3}\u{3c3}\u{3b5}\u{3cd}\u{3c2}";
    let greek_mix =
        "\u{1f40}\u{3b4}\u{3c5}\u{3c3}\u{3c3}\u{3b5}\u{3cd}\u{3c2}\u{1f48}\u{394}\u{3a5}\u{3a3}\u{3a3}\u{395}\u{38e}\u{3a3}";
    let resultu = character_frequencies_w_case(greek_upper, CaseSense::Insensitive).unwrap();
    let resultl = character_frequencies_w_case(greek_lower, CaseSense::Insensitive).unwrap();
    let resultm = character_frequencies_w_case(greek_mix, CaseSense::Insensitive).unwrap();
    assert_eq!(
        resultu,
        expected_freq("\u{1f40}1 \u{3b4}1 \u{3c5}1 \u{3c3}3 \u{3b5}1 \u{3cd}1")
    );
    assert_eq!(
        resultl,
        expected_freq("\u{1f40}1 \u{3b4}1 \u{3c5}1 \u{3c3}2 \u{3b5}1 \u{3c2}1 \u{3cd}1")
    );
    assert_eq!(
        resultm,
        expected_freq("\u{1f40}2 \u{3b4}2 \u{3c5}2 \u{3c3}5 \u{3b5}2 \u{3c2}1 \u{3cd}2")
    );
}

#[test]
fn test_unicode_case_irrelevant() {
    let chinese =
        "\u{592b}\u{7269}\u{82b8}\u{82b8}\u{ff0c}\u{5404}\u{5fa9}\u{6b78}\u{5176}\u{6839}\u{ff0c}\u{6b78}\u{6839}\u{66f0}\u{975c}";
    let expect = expected_freq(
        "\u{592b}1 \u{7269}1 \u{82b8}2 \u{ff0c}2 \u{5404}1 \u{5fa9}1 \u{5176}1 \u{6b78}2 \u{6839}2 \u{66f0}1 \u{975c}1",
    );
    let resultc_s = character_frequencies_w_case(chinese, CaseSense::Sensitive).unwrap();
    let resultc_ia = character_frequencies_w_case(chinese, CaseSense::Insensitive).unwrap();
    let resultc_i = character_frequencies_w_case(chinese, CaseSense::InsensitiveASCIIOnly).unwrap();
    assert_eq!(resultc_s, expect);
    assert_eq!(resultc_ia, expect);
    assert_eq!(resultc_i, expect);
}
