use mrbig::lexical::{rank_bytes, rank_str, Rank};
use mrbig::str_map::{sort_names, StrMap, StrSet};

#[test]
fn rank_follows_bytes() {
    assert_eq!(rank_str("a", "b"), Rank::Before);
    assert_eq!(rank_str("b", "a"), Rank::After);
    assert_eq!(rank_str("abc", "abc"), Rank::Same);
    assert_eq!(rank_str("ab", "abc"), Rank::Before);
    assert_eq!(rank_str("abc", "ab"), Rank::After);
    assert_eq!(rank_str("", ""), Rank::Same);
    assert_eq!(rank_str("", "a"), Rank::Before);
    assert_eq!(rank_str("Z", "a"), Rank::Before);
    assert_eq!(rank_str("z", "\u{e9}"), Rank::Before);
    assert_eq!(rank_bytes(&[1, 2, 3], &[1, 3]), Rank::Before);
    assert_eq!(rank_bytes(&[200], &[100, 1]), Rank::After);
}

#[test]
fn rank_agrees_with_str_order() {
    let words = ["", "a", "ab", "abc", "b", "B", "helloworld.proto", "void.proto", "\u{e9}", "z"];
    for a in words {
        for b in words {
            let expected = match a.cmp(b) {
                std::cmp::Ordering::Less => Rank::Before,
                std::cmp::Ordering::Equal => Rank::Same,
                std::cmp::Ordering::Greater => Rank::After,
            };
            assert_eq!(rank_str(a, b), expected);
        }
    }
}

#[test]
fn map_keeps_last_value_and_key_order() {
    let mut map: StrMap<u32> = StrMap::new();
    assert_eq!(map.len(), 0);
    assert!(map.get("a").is_none());
    map.insert("m".to_string(), 1);
    map.insert("a".to_string(), 2);
    map.insert("z".to_string(), 3);
    map.insert("m".to_string(), 4);
    assert_eq!(map.len(), 3);
    assert_eq!(map.get("m"), Some(&4));
    assert_eq!(map.get("a"), Some(&2));
    assert_eq!(map.get("z"), Some(&3));
    assert!(map.get("b").is_none());
    assert!(map.contains_key("a"));
    assert!(!map.contains_key(""));
    assert_eq!(map.names(), vec!["a".to_string(), "m".to_string(), "z".to_string()]);
    assert_eq!(map.key_at(1), "m");
    assert_eq!(*map.value_at(1), 4);
}

#[test]
fn set_holds_each_member_once() {
    let mut set = StrSet::new();
    assert_eq!(set.len(), 0);
    set.insert("b".to_string());
    set.insert("a".to_string());
    set.insert("b".to_string());
    assert_eq!(set.len(), 2);
    assert!(set.contains("a"));
    assert!(set.contains("b"));
    assert!(!set.contains("c"));
    assert_eq!(set.member_at(0), "a");
    assert_eq!(set.names(), vec!["a".to_string(), "b".to_string()]);
}

#[test]
fn names_are_sorted_and_kept() {
    let given: Vec<String> = ["b", "a", "", "b", "ab", "B"].iter().map(|n| n.to_string()).collect();
    assert_eq!(sort_names(&given), vec!["", "B", "a", "ab", "b", "b"]);
    assert!(sort_names(&vec![]).is_empty());
}
