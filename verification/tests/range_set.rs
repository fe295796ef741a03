use stream_buffer::range_set::RangeSet;
use stream_buffer::seq32::Seq32;

#[test]
fn range_set_basic_test() {
    let mut range_set = RangeSet::new();
    assert_eq!(range_set.insert(Seq32::from(100), Seq32::from(101)), true);
    assert_eq!(range_set.insert(Seq32::from(103), Seq32::from(200)), true);
    assert_eq!(range_set.insert(Seq32::from(100), Seq32::from(101)), false);
    assert_eq!(range_set.insert(Seq32::from(110), Seq32::from(111)), false);
    assert_eq!(range_set.len(), 2);

    assert_eq!(range_set.insert(Seq32::from(4294967290), Seq32::from(4294967293)), true);
    assert_eq!(range_set.iter().next(), Some((&Seq32::from(4294967290), &Seq32::from(4294967293))));
    assert_eq!(range_set.insert(Seq32::from(4294967280), Seq32::from(0)), true);
    assert_eq!(range_set.len(), 3);
    assert_eq!(range_set.insert(Seq32::from(4294967280), Seq32::from(200)), true);
    assert_eq!(range_set.len(), 1);
    assert_eq!(range_set.insert(Seq32::from(0), Seq32::from(4294967280)), false);
}

fn ranges_of(set: &RangeSet) -> Vec<(u32, u32)> {
    let mut out = Vec::new();
    let mut it = set.iter();
    while let Some((start, end)) = it.next() {
        out.push((**start, **end));
    }
    out
}

#[test]
fn range_set_merges_across_the_wrap() {
    let mut set = RangeSet::new();
    assert!(set.insert(Seq32::from(100), Seq32::from(101)));
    assert!(set.insert(Seq32::from(103), Seq32::from(200)));
    assert_eq!(set.len(), 2);
    assert!(!set.insert(Seq32::from(100), Seq32::from(101)));
    assert_eq!(set.len(), 2);
    assert!(set.insert(Seq32::from(4294967290), Seq32::from(4294967293)));
    assert!(set.insert(Seq32::from(4294967280), Seq32::from(0)));
    assert_eq!(set.len(), 3);
    assert_eq!(ranges_of(&set), vec![(4294967280, 0), (100, 101), (103, 200)]);
    assert!(set.insert(Seq32::from(4294967280), Seq32::from(200)));
    assert_eq!(set.len(), 1);
    assert_eq!(ranges_of(&set), vec![(4294967280, 200)]);
}

#[test]
fn range_set_new_is_empty() {
    let set = RangeSet::new();
    assert_eq!(set.len(), 0);
    assert_eq!(set.iter().next(), None);
    let other = RangeSet::default();
    assert_eq!(other.len(), 0);
}

#[test]
fn range_set_rejects_empty_and_reversed() {
    let mut set = RangeSet::new();
    assert!(!set.insert(Seq32::from(5), Seq32::from(5)));
    assert!(!set.insert(Seq32::from(6), Seq32::from(5)));
    assert_eq!(set.len(), 0);
}

#[test]
fn range_set_touching_ranges_merge() {
    let mut set = RangeSet::new();
    assert!(set.insert(Seq32::from(10), Seq32::from(20)));
    // touches at the end
    assert!(set.insert(Seq32::from(20), Seq32::from(30)));
    assert_eq!(ranges_of(&set), vec![(10, 30)]);
    // touches at the start
    assert!(set.insert(Seq32::from(5), Seq32::from(10)));
    assert_eq!(ranges_of(&set), vec![(5, 30)]);
    // one apart stays apart
    assert!(set.insert(Seq32::from(31), Seq32::from(40)));
    assert_eq!(ranges_of(&set), vec![(5, 30), (31, 40)]);
    // the gap closes
    assert!(set.insert(Seq32::from(30), Seq32::from(31)));
    assert_eq!(ranges_of(&set), vec![(5, 40)]);
}

#[test]
fn range_set_overlap_extends() {
    let mut set = RangeSet::new();
    assert!(set.insert(Seq32::from(10), Seq32::from(20)));
    assert!(set.insert(Seq32::from(30), Seq32::from(40)));
    assert!(set.insert(Seq32::from(50), Seq32::from(60)));
    assert!(set.insert(Seq32::from(15), Seq32::from(55)));
    assert_eq!(ranges_of(&set), vec![(10, 60)]);
    assert!(set.insert(Seq32::from(0), Seq32::from(70)));
    assert_eq!(ranges_of(&set), vec![(0, 70)]);
    assert!(!set.insert(Seq32::from(0), Seq32::from(70)));
    assert!(!set.insert(Seq32::from(69), Seq32::from(70)));
    assert!(set.insert(Seq32::from(69), Seq32::from(71)));
    assert_eq!(ranges_of(&set), vec![(0, 71)]);
}

#[test]
fn range_set_order_of_inserts_is_irrelevant() {
    let pairs = [(10u32, 20u32), (15, 30), (40, 50), (30, 35), (4294967290, 5), (50, 51)];
    let mut forward = RangeSet::new();
    for (s, e) in pairs.iter() {
        forward.insert(Seq32::from(*s), Seq32::from(*e));
    }
    let mut backward = RangeSet::new();
    for (s, e) in pairs.iter().rev() {
        backward.insert(Seq32::from(*s), Seq32::from(*e));
    }
    assert_eq!(ranges_of(&forward), ranges_of(&backward));
    assert_eq!(ranges_of(&forward), vec![(4294967290, 5), (10, 35), (40, 51)]);
}

#[test]
fn range_set_insert_twice_changes_nothing() {
    let mut set = RangeSet::new();
    assert!(set.insert(Seq32::from(1), Seq32::from(9)));
    assert!(set.insert(Seq32::from(20), Seq32::from(29)));
    let before = ranges_of(&set);
    assert!(!set.insert(Seq32::from(20), Seq32::from(29)));
    assert!(!set.insert(Seq32::from(1), Seq32::from(9)));
    assert_eq!(set.len(), 2);
    assert_eq!(ranges_of(&set), before);
}

#[test]
fn range_set_remove_by_start() {
    let mut set = RangeSet::new();
    assert!(set.insert(Seq32::from(10), Seq32::from(20)));
    assert!(set.insert(Seq32::from(30), Seq32::from(40)));
    assert!(set.insert(Seq32::from(50), Seq32::from(60)));
    assert_eq!(set.remove(&Seq32::from(31)), None);
    assert_eq!(set.remove(&Seq32::from(20)), None);
    assert_eq!(set.len(), 3);
    assert_eq!(set.remove(&Seq32::from(30)), Some(Seq32::from(40)));
    assert_eq!(ranges_of(&set), vec![(10, 20), (50, 60)]);
    assert_eq!(set.remove(&Seq32::from(10)), Some(Seq32::from(20)));
    assert_eq!(set.remove(&Seq32::from(50)), Some(Seq32::from(60)));
    assert_eq!(set.len(), 0);
    assert_eq!(set.remove(&Seq32::from(50)), None);
}

#[test]
fn range_set_iter_is_ascending_and_restartable() {
    let mut set = RangeSet::new();
    assert!(set.insert(Seq32::from(30), Seq32::from(40)));
    assert!(set.insert(Seq32::from(10), Seq32::from(20)));
    assert!(set.insert(Seq32::from(4294967000), Seq32::from(4294967100)));
    let mut it = set.iter();
    assert_eq!(it.next(), Some((&Seq32::from(4294967000), &Seq32::from(4294967100))));
    assert_eq!(it.next(), Some((&Seq32::from(10), &Seq32::from(20))));
    assert_eq!(it.next(), Some((&Seq32::from(30), &Seq32::from(40))));
    assert_eq!(it.next(), None);
    assert_eq!(it.next(), None);
    assert_eq!(set.iter().next(), Some((&Seq32::from(4294967000), &Seq32::from(4294967100))));
}

#[test]
fn range_set_many_ranges() {
    let mut set = RangeSet::new();
    for i in 0..100u32 {
        let at = (i * 37) % 100;
        assert!(set.insert(Seq32::from(at * 10), Seq32::from(at * 10 + 5)));
    }
    assert_eq!(set.len(), 100);
    let all = ranges_of(&set);
    for i in 0..100u32 {
        assert_eq!(all[i as usize], (i * 10, i * 10 + 5));
    }
    assert!(set.insert(Seq32::from(2), Seq32::from(993)));
    assert_eq!(ranges_of(&set), vec![(0, 995)]);
}
