use many2many::Many2Many;

#[test]
fn bidirectional_consistency() {
    let mut map = Many2Many::new();
    assert!(map.insert(1, "a"));
    assert!(map.insert(1, "b"));
    assert!(map.insert(2, "a"));
    assert!(map.insert(7, "z"));

    // r is associated to l exactly when l is associated to r
    for l in [1, 2, 7, 9] {
        for r in ["a", "b", "z", "q"] {
            let forward = map
                .get_by_left(&l)
                .map(|v| v.iter().any(|x| **x == r))
                .unwrap_or(false);
            let backward = map
                .get_by_right(&r)
                .map(|v| v.iter().any(|x| **x == l))
                .unwrap_or(false);
            assert_eq!(forward, backward);
        }
    }
}

#[test]
fn idempotence() {
    let mut map = Many2Many::new();
    assert!(map.insert(1, "a"));

    let mut before_left: Vec<&&str> = map.get_by_left(&1).unwrap();
    before_left.sort();
    let before_left: Vec<&str> = before_left.into_iter().copied().collect();
    let mut before_right: Vec<i32> = map
        .get_by_right(&"a")
        .unwrap()
        .into_iter()
        .copied()
        .collect();
    before_right.sort();

    assert!(!map.insert(1, "a"));

    let mut after_left: Vec<&&str> = map.get_by_left(&1).unwrap();
    after_left.sort();
    let after_left: Vec<&str> = after_left.into_iter().copied().collect();
    let mut after_right: Vec<i32> = map
        .get_by_right(&"a")
        .unwrap()
        .into_iter()
        .copied()
        .collect();
    after_right.sort();

    assert_eq!(before_left, after_left);
    assert_eq!(before_right, after_right);
}

#[test]
fn cardinality() {
    let mut map = Many2Many::new();
    assert!(map.insert(10, "x"));
    assert!(map.insert(10, "y"));
    assert!(map.insert(20, "x"));
    assert!(!map.insert(10, "x"));
    assert!(!map.insert(20, "x"));

    // 2 distinct left keys, 2 distinct right keys, 3 distinct pairings,
    // however many insert calls were made
    assert_eq!(map.lefts().len(), 2);
    assert_eq!(map.rights().len(), 2);
    assert_eq!(map.iter().len(), 3);
}

#[test]
fn key_sharing() {
    let mut map = Many2Many::new();
    assert!(map.insert(1, "a"));
    assert!(map.insert(1, "b"));
    assert!(map.insert(2, "a"));
    assert!(map.insert(2, "b"));

    assert_eq!(map.lefts().len(), 2);
    assert_eq!(map.rights().len(), 2);
    assert_eq!(map.iter().len(), 4);
}

#[test]
fn clear_resets_fully() {
    let mut map = Many2Many::new();
    assert!(map.insert(1, "a"));
    assert!(map.insert(2, "b"));

    map.clear();

    assert_eq!(map.lefts().len(), 0);
    assert_eq!(map.rights().len(), 0);
    assert_eq!(map.iter().len(), 0);
    assert!(map.get_by_left(&1).is_none());
    assert!(map.get_by_left(&2).is_none());
    assert!(map.get_by_right(&"a").is_none());
    assert!(map.get_by_right(&"b").is_none());

    // a cleared container accepts fresh pairings again
    assert!(map.insert(1, "a"));
    assert_eq!(map.iter().len(), 1);
}

#[test]
fn consuming_totality() {
    let mut map = Many2Many::new();
    assert!(map.insert(3, "c"));
    assert!(map.insert(1, "a"));
    assert!(map.insert(2, "b"));
    assert!(map.insert(1, "b"));

    let mut borrowed: Vec<i32> = Vec::new();
    let mut lefts = map.lefts();
    while let Some(x) = lefts.next() {
        borrowed.push(*x);
    }
    borrowed.sort();

    let mut owned: Vec<i32> = Vec::new();
    let mut into_lefts = map.duplicate().into_lefts();
    while let Some(x) = into_lefts.next() {
        owned.push(x);
    }
    owned.sort();

    assert_eq!(borrowed, owned);

    let mut borrowed: Vec<&str> = Vec::new();
    let mut rights = map.rights();
    while let Some(x) = rights.next() {
        borrowed.push(*x);
    }
    borrowed.sort();

    let mut owned: Vec<&str> = Vec::new();
    let mut into_rights = map.into_rights();
    while let Some(x) = into_rights.next() {
        owned.push(x);
    }
    owned.sort();

    assert_eq!(borrowed, owned);
}

#[test]
fn full_scenario() {
    let mut map = Many2Many::new();
    assert!(map.insert(1, "a"));
    assert!(map.insert(1, "b"));
    assert!(map.insert(2, "a"));
    assert!(map.insert(2, "b"));

    assert!(!map.insert(1, "a"));

    let mut by_left: Vec<&str> = map
        .get_by_left(&1)
        .unwrap()
        .into_iter()
        .copied()
        .collect();
    by_left.sort();
    assert_eq!(by_left, vec!["a", "b"]);

    let mut by_right: Vec<i32> = map
        .get_by_right(&"a")
        .unwrap()
        .into_iter()
        .copied()
        .collect();
    by_right.sort();
    assert_eq!(by_right, vec![1, 2]);

    assert_eq!(map.lefts().len(), 2);
    assert_eq!(map.rights().len(), 2);
    assert_eq!(map.iter().len(), 4);
}

#[test]
fn empty_container() {
    let mut map: Many2Many<i32, &str> = Many2Many::new();
    assert_eq!(map.lefts().len(), 0);
    assert_eq!(map.rights().len(), 0);
    assert_eq!(map.iter().len(), 0);
    assert!(map.iter().next().is_none());
    assert!(map.lefts().next().is_none());
    assert!(map.rights().next().is_none());
    assert!(map.get_by_left(&1).is_none());
    assert!(map.get_by_right(&"a").is_none());
    assert_eq!(map.into_lefts().len(), 0);
}

#[test]
fn structural_equality() {
    let a = Many2Many::from_pairs(vec![(1, "a"), (1, "b"), (2, "a")]);
    // same pairings, different insertion order, with a duplicate
    let b = Many2Many::from_pairs(vec![(2, "a"), (1, "b"), (1, "a"), (1, "b")]);
    assert!(a == b);
    assert!(b == a);

    let c = Many2Many::from_pairs(vec![(1, "a"), (1, "b")]);
    assert!(a != c);
    assert!(c != a);

    let d: Many2Many<i32, &str> = Many2Many::new();
    let e: Many2Many<i32, &str> = Many2Many::default();
    assert!(d == e);
    assert!(a != d);
}

#[test]
fn extend_and_duplicate() {
    let mut map = Many2Many::from_pairs(vec![(1, "a")]);
    map.extend_pairs(vec![(1, "b"), (2, "a"), (1, "a")]);
    assert_eq!(map.iter().len(), 3);

    let copy = map.duplicate();
    assert!(copy == map);
    assert_eq!(copy.lefts().len(), 2);
    assert_eq!(copy.rights().len(), 2);

    // the copy is independent of the source map
    let mut copy = copy;
    copy.clear();
    assert_eq!(copy.iter().len(), 0);
    assert_eq!(map.iter().len(), 3);
}

#[test]
fn pairs_view_walks_buckets() {
    let map = Many2Many::from_pairs(vec![(1, "a"), (1, "b"), (2, "c")]);
    let mut pairs: Vec<(i32, &str)> = Vec::new();
    let mut iter = map.iter();
    while let Some((l, r)) = iter.next() {
        pairs.push((*l, *r));
    }
    pairs.sort();
    assert_eq!(pairs, vec![(1, "a"), (1, "b"), (2, "c")]);

    // exhausting the view is permanent
    let mut iter = map.iter();
    let mut steps = 0;
    while iter.next().is_some() {
        steps += 1;
    }
    assert_eq!(steps, 3);
    assert!(iter.next().is_none());
    assert!(iter.next().is_none());
    assert_eq!(iter.len(), 0);
}

#[test]
fn string_keys() {
    let mut map: Many2Many<String, u64> = Many2Many::new();
    assert!(map.insert(String::from("left"), 1));
    assert!(map.insert(String::from("left"), 2));
    assert!(!map.insert(String::from("left"), 1));
    assert_eq!(map.lefts().len(), 1);
    let mut rights: Vec<u64> = map
        .get_by_left(&String::from("left"))
        .unwrap()
        .into_iter()
        .copied()
        .collect();
    rights.sort();
    assert_eq!(rights, vec![1, 2]);
}
