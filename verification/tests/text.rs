//! Text and names.
use pyrisk::names::{NameMap, NameSet};
use pyrisk::order::{ascending, rank};
use pyrisk::text::{
    contains, dots_for_separators, ends_with, has_char, join, join_dotted, same, split_last_dot,
    starts_with, strip_start, strip_suffix,
};

#[test]
fn texts_are_split_and_joined() {
    assert_eq!(join_dotted("a.b", "c"), "a.b.c");
    assert_eq!(split_last_dot("a.b.c"), (Some("a.b".to_string()), "c".to_string()));
    assert_eq!(split_last_dot("abc"), (None, "abc".to_string()));
    assert_eq!(split_last_dot(".x"), (Some(String::new()), "x".to_string()));
    assert_eq!(split_last_dot("x."), (Some("x".to_string()), String::new()));
    assert_eq!(strip_suffix("a.py", ".py"), "a");
    assert_eq!(strip_suffix("a.pyc", ".py"), "a.pyc");
    assert_eq!(strip_start("test_a", "test_"), "a");
    assert_eq!(strip_start("a_test", "test_"), "a_test");
    assert_eq!(dots_for_separators("a/b\\c.d"), "a.b.c.d");
    let parts = vec!["x".to_string(), "y".to_string(), "z".to_string()];
    assert_eq!(join(&parts, " calls "), "x calls y calls z");
    assert_eq!(join(&vec![], ", "), "");
}

#[test]
fn texts_are_searched() {
    assert!(same("été", "été"));
    assert!(!same("a", "b"));
    assert!(has_char("a.b", '.'));
    assert!(!has_char("ab", '.'));
    for s in ["", "a", "ab", "abc", "aab", "éa", "aé"] {
        for t in ["", "a", "b", "ab", "aab", "é", "abcd"] {
            assert_eq!(contains(s, t), s.contains(t));
            assert_eq!(starts_with(s, t), s.starts_with(t));
            assert_eq!(ends_with(s, t), s.ends_with(t));
        }
    }
}

#[test]
fn sets_and_maps_keep_their_order() {
    let mut set = NameSet::new();
    assert!(set.insert("b"));
    assert!(set.insert("a"));
    assert!(!set.insert("b"));
    assert_eq!(set.len(), 2);
    assert_eq!((set.get(0), set.get(1)), ("b", "a"));
    assert!(set.contains("a") && !set.contains("c"));

    let mut map: NameMap<u32> = NameMap::new();
    map.insert("x", 1);
    map.insert("y", 2);
    map.insert("x", 3);
    assert_eq!(map.len(), 2);
    assert_eq!((map.key(0), map.key(1)), ("x", "y"));
    assert_eq!(map.get("x"), Some(&3));
    assert_eq!(map.get("z"), None);
    assert!(map.contains_key("y"));

    let mut lists: NameMap<Vec<u32>> = NameMap::new();
    lists.append_item("x", 1);
    lists.append_item("y", 2);
    lists.append_item("x", 3);
    assert_eq!(lists.get("x"), Some(&vec![1, 3]));

    let mut sets: NameMap<NameSet> = NameMap::new();
    sets.add_member("x", "p");
    sets.add_member("x", "q");
    sets.add_member("x", "p");
    assert_eq!(sets.get("x").unwrap().len(), 2);
}

#[test]
fn counts_are_sorted_and_ranked() {
    let mut x: usize = 12345;
    let mut v: Vec<usize> = vec![];
    for _ in 0..500 {
        x = x.wrapping_mul(1103515245).wrapping_add(12345) % 100003;
        v.push(x % 97);
    }
    let sorted = ascending(&v);
    let mut expected = v.clone();
    expected.sort();
    assert_eq!(sorted, expected);
    for limit in 0..100 {
        assert_eq!(rank(&sorted, limit), v.iter().filter(|&&c| c <= limit).count());
    }
    assert_eq!(rank(&vec![], 5), 0);
    assert!(ascending(&vec![]).is_empty());
}
