use zones::order::{bytes_precede, SortKey};
use zones::sorted::{contains_sorted, insert_sorted, is_strictly_sorted, lower_bound};
use zones::text::{chars_of, eq_ignoring_case, fold_char};

#[test]
fn bytes_are_compared_lexicographically() {
    assert!(bytes_precede(b"a", b"b"));
    assert!(bytes_precede(b"", b"a"));
    assert!(bytes_precede(b"ab", b"abc"));
    assert!(bytes_precede(b"Z", b"a"));
    assert!(!bytes_precede(b"abc", b"ab"));
    assert!(!bytes_precede(b"abc", b"abc"));
    assert!(!bytes_precede(b"", b""));
    assert!(bytes_precede(b"a\x7f", b"a\x80"));
}

#[test]
fn keys_precede_as_their_types_order() {
    assert!(3i32.precedes(&4));
    assert!(!4i32.precedes(&4));
    assert!((-1i64).precedes(&0));
    assert!(!u8::MAX.precedes(&0));
    assert!("abc.ru".to_string().precedes(&"abd.ru".to_string()));
    assert!(!"abd.ru".to_string().precedes(&"abc.ru".to_string()));
    assert_eq!("z".to_string() < "\u{430}".to_string(), "z".to_string().precedes(&"\u{430}".to_string()));
}

#[test]
fn sortedness_is_strict() {
    assert!(is_strictly_sorted(&Vec::<u32>::new()));
    assert!(is_strictly_sorted(&vec![7u32]));
    assert!(is_strictly_sorted(&vec![1u32, 2, 9]));
    assert!(!is_strictly_sorted(&vec![1u32, 2, 2]));
    assert!(!is_strictly_sorted(&vec![1u32, 3, 2]));
}

#[test]
fn lower_bound_finds_the_place() {
    let v = vec![10u64, 20, 30];
    assert_eq!(0, lower_bound(&v, &5));
    assert_eq!(0, lower_bound(&v, &10));
    assert_eq!(1, lower_bound(&v, &11));
    assert_eq!(2, lower_bound(&v, &30));
    assert_eq!(3, lower_bound(&v, &31));
    assert_eq!(0, lower_bound(&Vec::<u64>::new(), &1));
    assert!(contains_sorted(&v, &20));
    assert!(!contains_sorted(&v, &25));
    assert!(!contains_sorted(&Vec::<u64>::new(), &25));
}

#[test]
fn insert_keeps_order_and_refuses_a_second_copy() {
    let mut v: Vec<i32> = Vec::new();
    assert!(insert_sorted(&mut v, 5));
    assert!(insert_sorted(&mut v, 1));
    assert!(insert_sorted(&mut v, 9));
    assert!(!insert_sorted(&mut v, 5));
    assert!(insert_sorted(&mut v, 6));
    assert_eq!(vec![1, 5, 6, 9], v);
}

#[test]
fn case_of_ascii_letters_is_ignored() {
    assert!(eq_ignoring_case("description", "DeScRiPtIoN"));
    assert!(eq_ignoring_case("", ""));
    assert!(!eq_ignoring_case("description", "descriptions"));
    assert!(!eq_ignoring_case("keywords", "keyword5"));
    assert!(eq_ignoring_case("\u{444}A", "\u{444}a"));
    assert!(!eq_ignoring_case("\u{444}", "\u{424}"));
    assert!(!eq_ignoring_case("@", "`"));
    assert!(!eq_ignoring_case("[", "{"));
    assert_eq!('a' as u32, fold_char('A'));
    assert_eq!('z' as u32, fold_char('Z'));
    assert_eq!('@' as u32, fold_char('@'));
    assert_eq!(vec!['a', '\u{444}', '.'], chars_of("a\u{444}."));
}
