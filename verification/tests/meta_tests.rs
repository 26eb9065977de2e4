use icbm::meta::{compare_keys, Metadata};
use icbm::models::Task;

#[test]
fn keys_come_out_in_string_order() {
    let mut m = Metadata::new();
    for (k, v) in [("team", "infra"), ("owner", "alice"), ("a", "1"), ("ab", "2"), ("Z", "3"), ("é", "4"), ("owner", "bob")] {
        m.insert(k, v);
    }
    let keys: Vec<String> = m.keys().into_iter().cloned().collect();
    let mut expected: Vec<String> = vec!["team", "owner", "a", "ab", "Z", "é"].into_iter().map(String::from).collect();
    expected.sort();
    assert_eq!(keys, expected);
    assert_eq!(m.len(), 6);
    assert_eq!(m.get("owner"), Some(&"bob".to_string()));
    assert_eq!(m.get("missing"), None);
    let copy = m.clone();
    assert_eq!(copy.keys(), m.keys());
    assert_eq!(copy.get("é"), Some(&"4".to_string()));
}

#[test]
fn key_comparison_matches_string_order() {
    let words = ["", "a", "ab", "abc", "b", "B", "é", "e", "z", "zz", "日本"];
    for x in words {
        for y in words {
            let expected = match x.cmp(y) {
                std::cmp::Ordering::Less => -1,
                std::cmp::Ordering::Equal => 0,
                std::cmp::Ordering::Greater => 1,
            };
            assert_eq!(compare_keys(x, y).signum(), expected, "{x:?} vs {y:?}");
        }
    }
}

#[test]
fn task_metadata_is_ordered_by_key() {
    let task = Task::new("t", 0u8).with_meta("zeta", "1").with_meta("alpha", "2").with_meta("mid", "3");
    let keys: Vec<String> = task.metadata.keys().into_iter().cloned().collect();
    assert_eq!(keys, vec!["alpha".to_string(), "mid".to_string(), "zeta".to_string()]);
}
