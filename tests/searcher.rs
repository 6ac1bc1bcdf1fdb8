use fastzy::distance::wagner_fischer;
use fastzy::searcher::{length_range, Searcher};
use fastzy::text::{chars_of, code_point_count, comparison_key, decode_line};

fn build(lines: &[&str], separator: &str) -> Searcher {
    let raw: Vec<Vec<u8>> = lines.iter().map(|l| l.as_bytes().to_vec()).collect();
    Searcher::from_lines(&raw, separator)
}

fn sorted(mut v: Vec<String>) -> Vec<String> {
    v.sort();
    v
}

#[test]
fn kitten_within_one_edit() {
    let s = build(&["kitten", "sitting", "mitten", "bitten"], "");
    assert_eq!(
        sorted(s.search("kitten", 1)),
        vec!["bitten".to_string(), "kitten".to_string(), "mitten".to_string()]
    );
}

#[test]
fn separator_keeps_whole_line_as_payload() {
    let s = build(&["cat\tfeline", "bat\tmammal"], "\t");
    assert_eq!(s.search("car", 1), vec!["cat\tfeline".to_string()]);
}

#[test]
fn no_exact_match_gives_nothing() {
    let s = build(&["kitten", "sitting", "mitten", "bitten"], "");
    assert!(s.search("anything", 0).is_empty());
}

#[test]
fn pattern_longer_than_every_key_gives_nothing() {
    let s = build(&["kitten", "sitting", "mitten", "bitten"], "");
    assert_eq!(s.max_length(), 7);
    assert!(s.search("kittenkitten", 2).is_empty());
    let (from, to) = length_range(12, 2, s.max_length());
    assert_eq!((from, to), (10, 7));
    assert!(from > to);
}

#[test]
fn single_empty_line() {
    let s = build(&[""], "");
    assert_eq!(s.max_length(), 0);
    assert_eq!(s.search("", 0), vec!["".to_string()]);
    assert_eq!(s.search("a", 1), vec!["".to_string()]);
    assert!(s.search("a", 0).is_empty());
}

#[test]
fn empty_input_gives_empty_index() {
    let s = Searcher::from_lines(&Vec::new(), "");
    assert_eq!(s.max_length(), 0);
    assert!(s.search("", 5).is_empty());
}

#[test]
fn every_line_is_indexed_once() {
    let lines = ["a", "bb", "bb", "ccc", "", "dddd\tx", "éé"];
    let s = build(&lines, "\t");
    assert_eq!(s.max_length(), 4);
    let mut expected: Vec<String> = lines.iter().map(|l| l.to_string()).collect();
    expected.sort();
    assert_eq!(sorted(s.search("", 10)), expected);
}

#[test]
fn invalid_lines_are_skipped() {
    let raw = vec![b"abc".to_vec(), vec![0xff, 0xfe], b"abd".to_vec()];
    let s = Searcher::from_lines(&raw, "");
    assert_eq!(sorted(s.search("abc", 1)), vec!["abc".to_string(), "abd".to_string()]);
    assert_eq!(s.search("", 100).len(), 2);
}

#[test]
fn search_agrees_with_brute_force() {
    let lines = [
        "kitten", "sitting", "mitten", "bitten", "kitchen", "", "k", "kit", "kitty", "smitten",
        "café", "written", "bitten\textra", "a\tb",
    ];
    for sep in ["", "\t"] {
        let s = build(&lines, sep);
        for pattern in ["kitten", "", "kit", "cafe", "smitten", "bitten", "a"] {
            for d in 0..7 {
                let mut expected: Vec<String> = lines
                    .iter()
                    .filter(|l| {
                        let key = if sep.is_empty() {
                            l.to_string()
                        } else {
                            l.split(sep).next().unwrap().to_string()
                        };
                        let k: Vec<char> = key.chars().collect();
                        let p: Vec<char> = pattern.chars().collect();
                        wagner_fischer(&k, &p, d)
                    })
                    .map(|l| l.to_string())
                    .collect();
                expected.sort();
                assert_eq!(sorted(s.search(pattern, d)), expected, "{:?} {}", pattern, d);
            }
        }
    }
}

#[test]
fn duplicates_are_kept() {
    let s = build(&["same", "same", "sane"], "");
    assert_eq!(
        sorted(s.search("same", 1)),
        vec!["same".to_string(), "same".to_string(), "sane".to_string()]
    );
}

#[test]
fn separator_at_start_gives_empty_key() {
    let s = build(&["\tpayload", "x\ty"], "\t");
    assert_eq!(s.search("", 0), vec!["\tpayload".to_string()]);
    assert_eq!(s.max_length(), 1);
}

#[test]
fn length_range_bounds() {
    assert_eq!(length_range(5, 2, 10), (3, 7));
    assert_eq!(length_range(1, 3, 10), (0, 4));
    assert_eq!(length_range(9, 3, 10), (6, 10));
    assert_eq!(length_range(3, usize::MAX, 10), (0, 10));
}

#[test]
fn comparison_keys() {
    assert_eq!(comparison_key("cat\tfeline", "\t"), "cat");
    assert_eq!(comparison_key("cat\tfe\tline", "\t"), "cat");
    assert_eq!(comparison_key("cat", "\t"), "cat");
    assert_eq!(comparison_key("cat\tfeline", ""), "cat\tfeline");
    assert_eq!(comparison_key("ab::cd::ef", "::"), "ab");
    assert_eq!(comparison_key("héllo→wörld", "→"), "héllo");
}

#[test]
fn code_points_are_counted() {
    assert_eq!(code_point_count("メカジキ"), 4);
    assert_eq!(code_point_count(""), 0);
    assert_eq!(code_point_count("abc"), 3);
}

#[test]
fn decoding_lines() {
    assert_eq!(decode_line(b"caf\xc3\xa9"), Some("café"));
    assert_eq!(decode_line(&[0xff]), None);
    assert_eq!(decode_line(b""), Some(""));
}

#[test]
fn characters_of_text() {
    assert_eq!(chars_of("héllo"), vec!['h', 'é', 'l', 'l', 'o']);
    assert!(chars_of("").is_empty());
}
