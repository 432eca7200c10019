use zones::symmetric_diff;

#[test]
fn with_two_empty_arrays() {
    let a = vec![0; 0];
    let b = vec![0; 0];

    let (first, second) = symmetric_diff(a, b);
    assert!(first.is_empty());
    assert!(second.is_empty());
}

#[test]
fn with_two_equal_arrays() {
    let a = vec![0, 1, 2];
    let b = vec![0, 1, 2];

    let (first, second) = symmetric_diff(a, b);
    assert!(first.is_empty());
    assert!(second.is_empty());
}

#[test]
fn with_first_empty_array() {
    let a = vec![0; 0];
    let b = vec![0, 1];

    let (first, second) = symmetric_diff(a, b);
    assert!(first.is_empty());
    assert_eq!(vec![0, 1], second);
}

#[test]
fn with_second_empty_array() {
    let a = vec![0, 1];
    let b = vec![0; 0];

    let (first, second) = symmetric_diff(a, b);
    assert_eq!(vec![0, 1], first);
    assert!(second.is_empty());
}

#[test]
fn with_two_intersecting_arrays() {
    let a = vec![0, 1, 2];
    let b = vec![2, 3, 4];

    let (first, second) = symmetric_diff(a, b);
    assert_eq!(vec![0, 1], first);
    assert_eq!(vec![3, 4], second);
}

#[test]
fn with_two_non_intersecting_arrays() {
    let a = vec![0, 1, 2];
    let b = vec![3, 4, 5];

    let (first, second) = symmetric_diff(a, b);
    assert_eq!(vec![0, 1, 2], first);
    assert_eq!(vec![3, 4, 5], second);
}

#[test]
fn with_two_arrays_with_domains() {
    let a = vec!["example.org".to_string(), "yandex.ru".to_string()];
    let b = vec!["google.com".to_string(), "yandex.ru".to_string()];

    let (first, second) = symmetric_diff(a, b);
    assert_eq!(1, first.len());
    assert_eq!("example.org", first[0]);
    assert_eq!(1, second.len());
    assert_eq!("google.com", second[0]);
}

#[test]
fn difference_swaps_with_its_arguments() {
    let (first, second) = symmetric_diff(vec![1u64, 3, 5, 7], vec![2u64, 3, 4, 7, 9]);
    let (third, fourth) = symmetric_diff(vec![2u64, 3, 4, 7, 9], vec![1u64, 3, 5, 7]);
    assert_eq!(vec![1, 5], first);
    assert_eq!(vec![2, 4, 9], second);
    assert_eq!(first, fourth);
    assert_eq!(second, third);
}

#[test]
fn difference_parts_cover_both_inputs_once() {
    let a = vec![-4i64, -1, 0, 8, 20];
    let b = vec![-5i64, -1, 8, 9];
    let (first, second) = symmetric_diff(a.clone(), b.clone());
    assert_eq!(vec![-4, 0, 20], first);
    assert_eq!(vec![-5, 9], second);
    for x in a.iter().chain(b.iter()) {
        let places = [first.contains(x), second.contains(x), a.contains(x) && b.contains(x)];
        assert_eq!(1, places.iter().filter(|p| **p).count());
    }
}

#[test]
fn strings_go_by_their_bytes() {
    let a = vec!["Zebra.ru".to_string(), "abc.ru".to_string(), "abc.ru.x".to_string()];
    let b = vec!["abc.ru".to_string(), "\u{444}.ru".to_string()];
    let (first, second) = symmetric_diff(a, b);
    assert_eq!(vec!["Zebra.ru".to_string(), "abc.ru.x".to_string()], first);
    assert_eq!(vec!["\u{444}.ru".to_string()], second);
}
