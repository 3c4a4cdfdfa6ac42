use rag_search::order;
use rag_search::order::{Reversed, SortKey, Then};
use rag_search::score::Score;
use rag_search::select;
use rag_search::text::bytes;
use rag_search::text::chars;
use rag_search::text::chars::CharClass;
use rag_search::text::edit;
use rag_search::text::find;
use rag_search::text::number;
use rag_search::text::split;

fn strings(v: &[&str]) -> Vec<String> {
    v.iter().map(|s| s.to_string()).collect()
}

fn all_chars() -> impl Iterator<Item = char> {
    (0u32..=0x10ffff).filter_map(char::from_u32)
}

#[test]
fn white_space_is_that_of_the_standard_library() {
    for c in all_chars() {
        assert_eq!(chars::white(c), c.is_whitespace(), "{:?}", c);
    }
}

#[test]
fn digits_are_those_of_the_standard_library() {
    for c in all_chars() {
        assert_eq!(chars::digit(c), c.is_ascii_digit());
        assert_eq!(chars::char_width(c), c.len_utf8());
        assert_eq!(chars::to_ascii_small(c), c.to_ascii_lowercase());
    }
}

#[test]
fn letters_and_digits_are_those_of_the_standard_library() {
    for c in all_chars() {
        assert_eq!(chars::alnum(c), c.is_alphanumeric(), "{:?}", c);
    }
}

#[test]
fn character_classes_test_what_they_name() {
    assert!(CharClass::White.test(' '));
    assert!(CharClass::Digit.test('7'));
    assert!(!CharClass::Digit.test('x'));
    assert!(CharClass::Cjk.test('支'));
    assert!(CharClass::NotCjk.test('x'));
    assert!(CharClass::Is('x').test('x'));
    assert!(!CharClass::Is('x').test('y'));
    assert!(CharClass::AnyOf("abc").test('b'));
    assert!(!CharClass::AnyOf("abc").test('d'));
}

#[test]
fn searching_agrees_with_the_standard_library() {
    let texts = ["", "a", "aa", "aaa", "abcabc", "xin chào bạn", "支払合計額", "\n\n a \n\n"];
    let pats = ["a", "aa", "bc", "chào", "合計", "\n\n", "zz"];
    for s in texts {
        for p in pats {
            assert_eq!(find::contains(s, p), s.contains(p));
            assert_eq!(find::starts_with(s, p), s.starts_with(p));
            assert_eq!(find::ends_with(s, p), s.ends_with(p));
            assert_eq!(edit::replace(s, p, "-"), s.replace(p, "-"));
            let parts: Vec<String> = s.split(p).map(|x| x.to_string()).collect();
            assert_eq!(split::split_at(s, p), parts);
            let sv: Vec<char> = s.chars().collect();
            let pv: Vec<char> = p.chars().collect();
            assert_eq!(find::count_matches(&sv, &pv), s.matches(p).count());
        }
        let words: Vec<String> = s.split_whitespace().map(|x| x.to_string()).collect();
        assert_eq!(split::split_words(s), words);
        let lines: Vec<String> = s.lines().map(|x| x.to_string()).collect();
        assert_eq!(split::split_lines(s), lines);
        assert_eq!(split::strip(s), s.trim());
        assert_eq!(chars::byte_len(s), s.len());
        assert_eq!(edit::char_count(s), s.chars().count());
    }
}

#[test]
fn lines_lose_their_carriage_return() {
    assert_eq!(split::split_lines("a\r\nb\r"), strings(&["a", "b\r"]));
    assert_eq!(split::split_lines("a\n\nb\n"), strings(&["a", "", "b"]));
}

#[test]
fn cutting_and_joining() {
    assert_eq!(edit::take_chars("chào bạn", 4), "chào");
    assert_eq!(edit::take_chars("chào", 9), "chào");
    assert_eq!(edit::slice("chào bạn", 5, 8), "bạn");
    assert_eq!(edit::join(&strings(&["a", "b", "c"]), ", "), "a, b, c");
    assert_eq!(edit::join(&strings(&[]), ", "), "");
    assert_eq!(split::split("a,,b", CharClass::Is(',')), strings(&["a", "", "b"]));
    assert_eq!(split::split_runs("a,,b", CharClass::Is(',')), strings(&["a", "b"]));
    assert_eq!(split::trimmed("..a.b..", CharClass::Is('.')), "a.b");
    assert_eq!(split::trimmed_end("a..", CharClass::Is('.')), "a");
    assert_eq!(split::keep_nonempty(strings(&["a", "", "b"])), strings(&["a", "b"]));
}

#[test]
fn positions_in_bytes() {
    assert_eq!(bytes::count_chars_before("chào", 3), None);
    assert_eq!(bytes::count_chars_before("chào", 4), Some(3));
    assert_eq!(bytes::byte_prefix("chào", 3), None);
    assert_eq!(bytes::byte_prefix("chào", 4), Some("chà".to_string()));
    assert_eq!(bytes::byte_prefix("chào", 99), Some("chào".to_string()));
}

#[test]
fn numbers_are_written_and_read() {
    for n in [0u128, 7, 10, 255, 4096, u64::MAX as u128, u128::MAX] {
        assert_eq!(number::to_decimal(n), n.to_string());
        assert_eq!(number::to_hex(n), format!("{:x}", n));
    }
    assert_eq!(number::parse_upto("+12", 100), Some(12));
    assert_eq!(number::parse_upto("101", 100), None);
    assert_eq!(number::parse_upto("", 100), None);
    assert_eq!(number::parse_upto("+", 100), None);
    assert_eq!(number::parse_upto("1x", 100), None);
    assert_eq!(number::parse_upto("99999999999999999999", u64::MAX), None);
}

#[test]
fn sorting_is_stable() {
    let keys: Vec<i128> = vec![3, 1, 2, 1, 3];
    assert_eq!(order::sorted_positions(&keys), vec![1, 3, 2, 0, 4]);
    let down: Vec<Reversed<i128>> = keys.iter().map(|k| Reversed { key: *k }).collect();
    assert_eq!(order::sorted_positions(&down), vec![0, 4, 2, 1, 3]);
    assert_eq!(order::arrange(vec!['a', 'b', 'c'], &vec![2, 0, 1]), vec!['c', 'a', 'b']);
    let both: Vec<Then<i128, String>> = vec![
        Then { major: 1, minor: "b".to_string() },
        Then { major: 0, minor: "z".to_string() },
        Then { major: 1, minor: "a".to_string() },
    ];
    assert_eq!(order::sorted_positions(&both), vec![1, 2, 0]);
}

#[test]
fn text_is_ordered_as_in_the_standard_library() {
    let texts = ["", "a", "ab", "b", "Z", "é", "支", "\u{10000}", "\u{ffff}"];
    for a in texts {
        for b in texts {
            assert_eq!(order::text_not_after(a, b), a <= b);
            assert_eq!(a.to_string().not_after(&b.to_string()), a <= b);
        }
    }
}

#[test]
fn scores_are_compared_as_numbers() {
    let numbers = [0.0f32, -0.0, 1.0, -1.0, 0.25, 1e-40, f32::INFINITY, f32::NEG_INFINITY, f32::NAN];
    for a in numbers {
        for b in numbers {
            let x = Score { bits: a.to_bits() };
            let y = Score { bits: b.to_bits() };
            assert_eq!(x.at_least(&y), a >= b);
            assert_eq!(x.below(&y), a < b);
            assert_eq!(x.equals(&y), a == b);
        }
    }
}

#[test]
fn the_first_of_several_is_kept() {
    let items = strings(&["A", "b", "a", "B", "c"]);
    let keys = strings(&["a", "b", "a", "b", "c"]);
    assert_eq!(select::keep_firsts(&items, &keys), strings(&["A", "b", "c"]));
    assert_eq!(select::keep_first_items(vec![1, 2, 3, 4, 5], &keys), vec![1, 2, 5]);
    assert_eq!(select::keep_flagged(vec![1, 2, 3], &vec![true, false, true]), vec![1, 3]);
    assert_eq!(select::turned(vec![1, 2, 3]), vec![3, 2, 1]);
}
