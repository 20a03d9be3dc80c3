use lfu::{FrequencyNode, Item, LfuError, LFU};

fn s(x: &str) -> String {
    x.to_string()
}

fn keys(v: &[&str]) -> Vec<String> {
    v.iter().map(|k| k.to_string()).collect()
}

#[test]
fn basic() {
    let mut lfu = LFU::new(2).unwrap();
    lfu.set("a".to_string(), "b".to_string());
    lfu.set("c".to_string(), "b".to_string());
    assert_eq!(lfu.get("a".to_string()), Some("b".to_string()));
    assert_eq!(lfu.get("a".to_string()), Some("b".to_string()));
    assert_eq!(lfu.get("a".to_string()), Some("b".to_string()));
    assert_eq!(lfu.get("a".to_string()), Some("b".to_string()));
    assert_eq!(lfu.get("c".to_string()), Some("b".to_string()));
}

#[test]
fn evicts_least_frequent() {
    let mut c = LFU::new(2).unwrap();
    c.set(s("a"), s("1"));
    c.set(s("b"), s("2"));
    for _ in 0..3 {
        assert_eq!(c.get(s("a")), Some(s("1")));
    }
    c.set(s("c"), s("3"));
    assert_eq!(c.len(), 2);
    assert_eq!(c.get(s("b")), None);
    assert_eq!(c.get(s("a")), Some(s("1")));
    assert_eq!(c.get(s("c")), Some(s("3")));
}

#[test]
fn zero_capacity_rejected() {
    assert_eq!(LFU::new(0).err(), Some(LfuError::ZeroCapacity));
    assert!(LFU::new(1).is_ok());
}

#[test]
fn set_then_get_round_trip() {
    let mut c = LFU::new(3).unwrap();
    for (k, v) in [("x", "1"), ("y", "2"), ("x", "3"), ("z", "4")] {
        c.set(s(k), s(v));
        assert_eq!(c.get(s(k)), Some(s(v)));
    }
}

#[test]
fn never_exceeds_capacity() {
    let mut c = LFU::new(3).unwrap();
    for i in 0..20 {
        c.set(format!("k{}", i % 7), format!("v{}", i));
        assert!(c.len() <= c.capacity());
    }
    assert_eq!(c.len(), 3);
    assert_eq!(c.capacity(), 3);
}

#[test]
fn access_raises_frequency_by_one() {
    let mut c = LFU::new(4).unwrap();
    c.set(s("a"), s("1"));
    assert_eq!(c.buckets(), vec![(1, keys(&["a"]))]);
    c.get(s("a"));
    assert_eq!(c.buckets(), vec![(2, keys(&["a"]))]);
    c.set(s("a"), s("2"));
    assert_eq!(c.buckets(), vec![(3, keys(&["a"]))]);
    assert_eq!(c.get(s("a")), Some(s("2")));
    assert_eq!(c.buckets(), vec![(4, keys(&["a"]))]);
}

#[test]
fn miss_changes_nothing() {
    let mut c = LFU::new(2).unwrap();
    c.set(s("a"), s("1"));
    assert_eq!(c.get(s("q")), None);
    assert_eq!(c.buckets(), vec![(1, keys(&["a"]))]);
    assert_eq!(c.len(), 1);
}

#[test]
fn buckets_ascend_and_are_nonempty() {
    let mut c = LFU::new(5).unwrap();
    for k in ["a", "b", "c", "d"] {
        c.set(s(k), s("v"));
    }
    c.get(s("b"));
    c.get(s("b"));
    c.get(s("c"));
    c.get(s("a"));
    c.get(s("a"));
    c.get(s("a"));
    assert_eq!(
        c.buckets(),
        vec![
            (1, keys(&["d"])),
            (2, keys(&["c"])),
            (3, keys(&["b"])),
            (4, keys(&["a"])),
        ]
    );
    let b = c.buckets();
    for w in b.windows(2) {
        assert!(w[0].0 < w[1].0);
    }
    for (_, ks) in &b {
        assert!(!ks.is_empty());
    }
}

#[test]
fn eviction_takes_minimum_frequency() {
    let mut c = LFU::new(3).unwrap();
    c.set(s("a"), s("1"));
    c.set(s("b"), s("2"));
    c.set(s("c"), s("3"));
    c.get(s("a"));
    c.get(s("c"));
    c.set(s("d"), s("4"));
    assert_eq!(c.get(s("b")), None);
    assert_eq!(c.len(), 3);
    assert_eq!(
        c.buckets(),
        vec![(1, keys(&["d"])), (2, keys(&["a", "c"]))]
    );
}

#[test]
fn tie_break_evicts_oldest_insert() {
    let mut c = LFU::new(2).unwrap();
    c.set(s("a"), s("1"));
    c.set(s("b"), s("2"));
    c.set(s("c"), s("3"));
    assert_eq!(c.get(s("a")), None);
    assert_eq!(c.get(s("b")), Some(s("2")));
}

#[test]
fn tie_break_follows_touch_order() {
    let mut c = LFU::new(2).unwrap();
    c.set(s("a"), s("1"));
    c.set(s("b"), s("2"));
    c.get(s("b"));
    c.get(s("a"));
    assert_eq!(c.buckets(), vec![(2, keys(&["b", "a"]))]);
    c.set(s("c"), s("3"));
    assert_eq!(c.get(s("b")), None);
    assert_eq!(c.get(s("a")), Some(s("1")));
}

#[test]
fn remove_reports_presence() {
    let mut c = LFU::new(2).unwrap();
    c.set(s("a"), s("1"));
    c.set(s("b"), s("2"));
    c.get(s("a"));
    assert!(c.remove(s("a")));
    assert!(!c.remove(s("a")));
    assert_eq!(c.len(), 1);
    assert_eq!(c.get(s("a")), None);
    assert_eq!(c.buckets(), vec![(1, keys(&["b"]))]);
}

#[test]
fn overwrite_keeps_single_entry() {
    let mut c = LFU::new(1).unwrap();
    c.set(s("a"), s("1"));
    c.set(s("a"), s("2"));
    assert_eq!(c.len(), 1);
    assert_eq!(c.get(s("a")), Some(s("2")));
    c.set(s("b"), s("3"));
    assert_eq!(c.get(s("a")), None);
    assert_eq!(c.get(s("b")), Some(s("3")));
}

#[test]
fn item_and_node_constructors() {
    let it = Item::new(s("v"), s("k"), 3);
    assert_eq!(it.key(), "k");
    assert_eq!(it.data(), "v");
    assert_eq!(it.frequency(), 3);
    let n = FrequencyNode::new(3, vec![it, Item::new(s("w"), s("j"), 3)]);
    assert_eq!(n.frequency(), 3);
    assert_eq!(n.len(), 2);
}
