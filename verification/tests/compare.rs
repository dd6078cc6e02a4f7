use just_enough_vcs::compare::{compare_string, compare_vec_string};
use std::cmp::Ordering;

#[test]
pub fn test_compare_char_groups() {
    assert!(compare_string("!", "A") == Ordering::Less);
    assert!(compare_string("A", "a") == Ordering::Less);
    assert!(compare_string("a", "0") == Ordering::Less);
    assert!(compare_string("9", "你") == Ordering::Less);
}

#[test]
pub fn test_numeric_ordering() {
    assert!(compare_string("0", "1") == Ordering::Less);
    assert!(compare_string("1", "0") == Ordering::Greater);
    assert!(compare_string("9", "10") == Ordering::Less);
    assert!(compare_string("10", "9") == Ordering::Greater);
    assert!(compare_string("99", "100") == Ordering::Less);
    assert!(compare_string("100", "99") == Ordering::Greater);
    assert!(compare_string("001", "1") == Ordering::Equal);
    assert!(compare_string("01", "1") == Ordering::Equal);

    assert!(compare_string("Frame-9", "Frame-10") == Ordering::Less);
    assert!(compare_string("Frame-10", "Frame-9") == Ordering::Greater);
    assert!(compare_string("Frame-99", "Frame-100") == Ordering::Less);
    assert!(compare_string("Frame-100", "Frame-99") == Ordering::Greater);

    assert!(compare_string("123", "23") == Ordering::Greater);
    assert!(compare_string("23", "123") == Ordering::Less);
}

#[test]
fn compare_string_sorts_consistently() {
    // A sort by the ordering gives the same result for any starting order,
    // as a transitive and antisymmetric ordering must.
    let names = ["item10", "Item2", "item2", "_x", "item01b", "9", "item1a", "你"];
    let mut forward: Vec<&str> = names.to_vec();
    let mut backward: Vec<&str> = names.iter().rev().cloned().collect();
    forward.sort_by(|a, b| compare_string(a, b));
    backward.sort_by(|a, b| compare_string(a, b));
    assert_eq!(forward, backward);
    assert_eq!(forward, vec!["_x", "Item2", "item1a", "item01b", "item2", "item10", "9", "你"]);
    for a in names {
        assert_eq!(compare_string(a, a), Ordering::Equal);
        for b in names {
            assert_eq!(compare_string(a, b), compare_string(b, a).reverse());
            for c in names {
                if compare_string(a, b) != Ordering::Greater && compare_string(b, c) != Ordering::Greater {
                    assert_ne!(compare_string(a, c), Ordering::Greater);
                }
            }
        }
    }
}

#[test]
fn compare_vec_string_orders_paths() {
    let p = |v: &[&str]| v.iter().map(|s| s.to_string()).collect::<Vec<String>>();
    let paths = [p(&["a", "b"]), p(&["a"]), p(&["a", "b10"]), p(&["a", "b9"]), p(&["B"]), p(&[])];
    let mut sorted = paths.to_vec();
    sorted.sort_by(|x, y| compare_vec_string(x, y));
    assert_eq!(sorted, vec![p(&[]), p(&["B"]), p(&["a"]), p(&["a", "b"]), p(&["a", "b9"]), p(&["a", "b10"])]);
    for x in &paths {
        for y in &paths {
            assert_eq!(compare_vec_string(x, y), compare_vec_string(y, x).reverse());
            for z in &paths {
                if compare_vec_string(x, y) != std::cmp::Ordering::Greater
                    && compare_vec_string(y, z) != std::cmp::Ordering::Greater
                {
                    assert_ne!(compare_vec_string(x, z), std::cmp::Ordering::Greater);
                }
            }
        }
    }
}
