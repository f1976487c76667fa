use kip_db::command::CommandData;
use kip_db::error::KvsError;
use kip_db::score::Score;

fn score(a: &str, b: &str) -> Score {
    Score { start: a.as_bytes().to_vec(), end: b.as_bytes().to_vec() }
}

fn put(k: &str, v: &str) -> CommandData {
    CommandData::Put { key: k.as_bytes().to_vec(), value: v.as_bytes().to_vec() }
}

#[test]
fn meet_follows_the_compaction_predicate() {
    let a = score("a", "m");
    let b = score("m", "z");
    let c = score("n", "z");
    // "m" is not strictly after "m", and "m" < "z": neither disjunct holds.
    assert!(!a.meet(&b));
    assert!(!a.meet(&c));
    assert!(score("a", "n").meet(&b));
    assert!(b.meet(&score("a", "z")));
}

#[test]
fn meet_nested_ranges_are_asymmetric() {
    let outer = score("a", "z");
    let inner = score("c", "d");
    assert!(outer.meet(&inner));
    assert!(!inner.meet(&outer));
}

#[test]
fn meet_symmetric_on_crossing_ranges() {
    let a = score("a", "f");
    let b = score("c", "k");
    assert_eq!(a.meet(&b), b.meet(&a));
    assert!(a.meet(&b));
}

#[test]
fn fusion_takes_min_start_and_max_end() {
    let a = score("c", "f");
    let b = score("a", "d");
    let c = score("b", "zz");
    let f = Score::fusion(vec![&a, &b, &c]).unwrap();
    assert_eq!(f.start, b"a".to_vec());
    assert_eq!(f.end, b"zz".to_vec());
    let g = Score::fusion(vec![&c, &a, &b]).unwrap();
    assert_eq!(f.start, g.start);
    assert_eq!(f.end, g.end);
}

#[test]
fn fusion_single_and_empty() {
    let a = score("k", "q");
    let f = Score::fusion(vec![&a]).unwrap();
    assert_eq!(f.start, a.start);
    assert_eq!(f.end, a.end);
    assert!(matches!(Score::fusion(vec![]), Err(KvsError::DataEmpty)));
}

#[test]
fn fusion_associative_example() {
    let a = score("d", "e");
    let b = score("b", "c");
    let c = score("x", "y");
    let ab = Score::fusion(vec![&a, &b]).unwrap();
    let left = Score::fusion(vec![&ab, &c]).unwrap();
    let all = Score::fusion(vec![&a, &b, &c]).unwrap();
    assert_eq!(left.start, all.start);
    assert_eq!(left.end, all.end);
    assert_eq!(all.start, b"b".to_vec());
    assert_eq!(all.end, b"y".to_vec());
}

#[test]
fn fusion_orders_by_bytes_not_length() {
    let a = score("ab", "b");
    let b = score("b", "abc");
    let f = Score::fusion(vec![&a, &b]).unwrap();
    assert_eq!(f.start, b"ab".to_vec());
    assert_eq!(f.end, b"b".to_vec());
}

#[test]
fn score_from_batch() {
    let cmds = vec![put("a", "1"), put("b", "2"), put("c", "3")];
    let s = Score::from_vec_cmd_data(&cmds).unwrap();
    assert_eq!(s.start, b"a".to_vec());
    assert_eq!(s.end, b"c".to_vec());
    let one = Score::from_vec_cmd_data(&vec![put("q", "1")]).unwrap();
    assert_eq!(one.start, one.end);
    assert!(matches!(Score::from_vec_cmd_data(&vec![]), Err(KvsError::DataEmpty)));
}
