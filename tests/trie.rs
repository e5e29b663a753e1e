use zilin::text::chars_of;
use zilin::CharTrie;

#[test]
fn trie_push_get_take() {
    let mut t: CharTrie<u32> = CharTrie::new();
    t.push("中国", 1);
    t.push("中国人", 2);
    t.push("中", 3);
    t.push("", 9);

    assert_eq!(t.get("中国"), Some(&1));
    assert_eq!(t.get("中国人"), Some(&2));
    assert_eq!(t.get("中"), Some(&3));
    assert_eq!(t.get(""), None);
    assert_eq!(t.get("国"), None);
    t.push("中国", 4);
    assert_eq!(t.get("中国"), Some(&4));
    assert_eq!(t.take("中国"), Some(4));
    assert_eq!(t.get("中国"), None);
    assert_eq!(t.get("中国人"), Some(&2));
    assert_eq!(t.take("中国"), None);
}

#[test]
fn trie_prefix_enumeration() {
    let mut t: CharTrie<u32> = CharTrie::with_capacity(4);
    t.push("中国", 1);
    t.push("中国人", 2);
    t.push("中文", 3);
    t.push("人", 4);

    let mut under: Vec<u32> = t.get_prefix("中国").into_iter().copied().collect();
    under.sort();
    assert_eq!(under, vec![1, 2]);
    let mut all: Vec<u32> = t.get_prefix("").into_iter().copied().collect();
    all.sort();
    assert_eq!(all, vec![1, 2, 3, 4]);
    assert!(t.get_prefix("英").is_empty());
    assert_eq!(t.get_prefix("中国人"), vec![&2]);
}

#[test]
fn chars_round_trip() {
    assert_eq!(chars_of("a中b"), vec!['a', '中', 'b']);
}
