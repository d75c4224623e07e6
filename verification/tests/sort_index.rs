use code_map::index::PathIndex;
use code_map::sort::{chars_less, name_order, rank_in, sort_values};

#[test]
fn sorts_values() {
    assert_eq!(sort_values(&[3, -1, 2, 2]), vec![-1, 2, 2, 3]);
    assert_eq!(sort_values(&[]), Vec::<i64>::new());
    assert_eq!(sort_values(&[i64::MAX, i64::MIN, 0]), vec![i64::MIN, 0, i64::MAX]);
    let mut many: Vec<i64> = (0..200).map(|i| (i * 7919) % 101 - 50).collect();
    let sorted = sort_values(&many);
    many.sort();
    assert_eq!(sorted, many);
}

#[test]
fn ranks_count_smaller_values() {
    let s = sort_values(&[3, -1, 2, 2]);
    assert_eq!(rank_in(&s, -5), 0);
    assert_eq!(rank_in(&s, -1), 0);
    assert_eq!(rank_in(&s, 2), 1);
    assert_eq!(rank_in(&s, 3), 3);
    assert_eq!(rank_in(&s, 5), 4);
}

#[test]
fn path_index_finds_what_was_put_in() {
    let mut ix = PathIndex::new();
    assert_eq!(ix.get(""), None);
    ix.insert("src/main.rs".to_string(), 3);
    ix.insert("".to_string(), 0);
    ix.insert("地图".to_string(), 9);
    assert_eq!(ix.get("src/main.rs"), Some(3));
    assert_eq!(ix.get(""), Some(0));
    assert_eq!(ix.get("地图"), Some(9));
    assert_eq!(ix.get("src/main"), None);
    for i in 0..2000usize {
        ix.insert(format!("f{i}"), i + 10);
    }
    assert_eq!(ix.get("f1999"), Some(2009));
    assert_eq!(ix.get("f0"), Some(10));
}

#[test]
fn names_are_taken_in_str_order() {
    let names: Vec<String> = ["src", "README.md", "b", ".gitignore", "a", "b", "ab", "éclair", "Z"]
        .iter()
        .map(|s| s.to_string())
        .collect();
    let order = name_order(&names);
    let taken: Vec<&str> = order.iter().map(|&i| names[i].as_str()).collect();
    let mut expected: Vec<&str> = names.iter().map(|s| s.as_str()).collect();
    expected.sort();
    assert_eq!(taken, expected);
    // equal names keep their places
    assert_eq!(order.iter().filter(|&&i| names[i] == "b").copied().collect::<Vec<_>>(), vec![2, 5]);
    assert!(name_order(&Vec::new()).is_empty());
}

#[test]
fn character_order_is_that_of_str() {
    let cs = |s: &str| s.chars().collect::<Vec<char>>();
    assert!(chars_less(&cs("a"), &cs("ab")));
    assert!(!chars_less(&cs("ab"), &cs("a")));
    assert!(chars_less(&cs("Z"), &cs("a")));
    assert!(chars_less(&cs("z"), &cs("é")));
    assert!(!chars_less(&cs("same"), &cs("same")));
    assert!(chars_less(&cs(""), &cs("x")));
}
