use fastzy::distance::{
    edit_scripts, fast_mbleven, mbleven, same_chars, script_within, wagner_fischer,
    within_distance,
};

fn chars(s: &str) -> Vec<char> {
    s.chars().collect()
}

fn dp(a: &str, b: &str, d: usize) -> bool {
    wagner_fischer(&chars(a), &chars(b), d)
}

fn bounded(a: &str, b: &str, d: usize) -> bool {
    mbleven(&chars(a), &chars(b), d)
}

const WORDS: [&str; 16] = [
    "", "a", "b", "ab", "ba", "abc", "acb", "kitten", "sitting", "mitten", "bitten", "kitchen",
    "café", "cafe", "caffè", "naïve",
];

#[test]
fn bounded_and_dynamic_programming_agree() {
    for a in WORDS.iter() {
        for b in WORDS.iter() {
            for d in 0..=3 {
                assert_eq!(bounded(a, b, d), dp(a, b, d), "{:?} {:?} {}", a, b, d);
            }
        }
    }
}

#[test]
fn zero_distance_is_equality() {
    for a in WORDS.iter() {
        for b in WORDS.iter() {
            assert_eq!(within_distance(&chars(a), &chars(b), 0), a == b);
            assert_eq!(dp(a, b, 0), a == b);
            assert_eq!(bounded(a, b, 0), a == b);
        }
    }
}

#[test]
fn length_gap_beyond_budget_never_matches() {
    assert!(!bounded("abcdef", "ab", 3));
    assert!(!dp("abcdef", "ab", 3));
    assert!(!within_distance(&chars("ab"), &chars("abcdefgh"), 5));
    assert!(within_distance(&chars("ab"), &chars("abcdefg"), 5));
}

#[test]
fn distance_is_symmetric() {
    for a in WORDS.iter() {
        for b in WORDS.iter() {
            for d in 0..=5 {
                assert_eq!(
                    within_distance(&chars(a), &chars(b), d),
                    within_distance(&chars(b), &chars(a), d)
                );
            }
        }
    }
}

#[test]
fn kitten_sitting_is_three_edits() {
    assert!(dp("kitten", "sitting", 3));
    assert!(!dp("kitten", "sitting", 2));
    assert!(bounded("kitten", "sitting", 3));
    assert!(!bounded("kitten", "sitting", 2));
    assert!(within_distance(&chars("kitten"), &chars("sitting"), 4));
}

#[test]
fn dynamic_programming_on_long_inputs() {
    let a = "a".repeat(150);
    let b = format!("{}{}", "a".repeat(140), "b".repeat(12));
    assert!(dp(&a, &b, 12));
    assert!(!dp(&a, &b, 11));
    assert!(within_distance(&chars(&a), &chars(&b), 12));
    assert!(!within_distance(&chars(&a), &chars(&b), 11));
}

#[test]
fn multibyte_characters_count_once() {
    assert!(bounded("café", "cafe", 1));
    assert!(dp("café", "cafe", 1));
    assert!(!bounded("café", "cafe", 0));
    assert!(dp("naïve", "naive", 1));
}

#[test]
fn script_table_entries() {
    assert_eq!(edit_scripts(0, 0), vec![0]);
    assert_eq!(edit_scripts(1, 0), vec![3]);
    assert_eq!(edit_scripts(1, 1), vec![1]);
    assert_eq!(edit_scripts(2, 0), vec![15, 9, 6]);
    assert_eq!(edit_scripts(2, 1), vec![13, 7]);
    assert_eq!(edit_scripts(2, 2), vec![5]);
    assert_eq!(edit_scripts(3, 0), vec![63, 39, 45, 57, 54, 30, 27]);
    assert_eq!(edit_scripts(3, 1), vec![61, 55, 31, 37, 25, 22]);
    assert_eq!(edit_scripts(3, 2), vec![53, 29, 23]);
    assert_eq!(edit_scripts(3, 3), vec![21]);
}

#[test]
fn single_script_walks() {
    // one substitution
    assert!(script_within(&chars("abc"), &chars("axc"), 3, 1));
    // a deletion from the first sequence does not fit "abc" against "axc"
    assert!(!script_within(&chars("abc"), &chars("axc"), 1, 1));
    // a mismatch after the script runs out costs two
    assert!(!script_within(&chars("ab"), &chars("xy"), 3, 2));
    assert!(script_within(&chars("ab"), &chars("xy"), 15, 2));
    // leftover characters count one each
    assert!(script_within(&chars("abcd"), &chars("ab"), 0, 2));
    assert!(!script_within(&chars("abcd"), &chars("ab"), 0, 1));
}

#[test]
fn script_search_over_a_table_row() {
    let longer = chars("kitten");
    let shorter = chars("kiten");
    assert!(fast_mbleven(&longer, &shorter, &edit_scripts(1, 1), 1));
    assert!(!fast_mbleven(&longer, &chars("kiteX"), &edit_scripts(1, 1), 1));
    assert!(fast_mbleven(&longer, &chars("kiteX"), &edit_scripts(2, 1), 2));
}

#[test]
fn equal_character_sequences() {
    assert!(same_chars(&chars("abc"), &chars("abc")));
    assert!(!same_chars(&chars("abc"), &chars("abd")));
    assert!(!same_chars(&chars("abc"), &chars("ab")));
    assert!(same_chars(&chars(""), &chars("")));
}
