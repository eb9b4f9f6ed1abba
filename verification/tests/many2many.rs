use many2many::Many2Many;

#[test]
fn test_insert() {
    let mut map = Many2Many::new();
    assert!(map.insert(1, "a"));
    assert!(map.insert(1, "b"));
    assert!(map.insert(2, "a"));
    assert!(map.insert(2, "b"));

    assert!(!map.insert(1, "a"));
}

#[test]
fn test_lefts() {
    let mut map = Many2Many::new();
    assert!(map.insert(1, "a"));
    assert!(map.insert(1, "b"));
    assert!(map.insert(2, "a"));
    assert!(map.insert(2, "b"));

    let lefts = map.lefts();
    assert_eq!(lefts.len(), 2);

    let mut collected: Vec<&i32> = Vec::new();
    let mut lefts = lefts;
    while let Some(x) = lefts.next() {
        collected.push(x);
    }
    let mut lefts = collected;
    lefts.sort();
    assert_eq!(lefts[0], &1);
    assert_eq!(lefts[1], &2);
}

#[test]
fn test_rights() {
    let mut map = Many2Many::new();
    assert!(map.insert(1, "a"));
    assert!(map.insert(1, "b"));
    assert!(map.insert(2, "a"));
    assert!(map.insert(2, "b"));

    let rights = map.rights();
    assert_eq!(rights.len(), 2);

    let mut collected: Vec<&&str> = Vec::new();
    let mut rights = rights;
    while let Some(x) = rights.next() {
        collected.push(x);
    }
    let mut rights = collected;
    rights.sort();
    assert_eq!(rights[0], &"a");
    assert_eq!(rights[1], &"b");
}

#[test]
fn test_into_lefts() {
    let mut map = Many2Many::new();
    assert!(map.insert(1, "a"));
    assert!(map.insert(1, "b"));
    assert!(map.insert(2, "a"));
    assert!(map.insert(2, "b"));

    let lefts = map.into_lefts();
    assert_eq!(lefts.len(), 2);

    let mut collected: Vec<i32> = Vec::new();
    let mut lefts = lefts;
    while let Some(x) = lefts.next() {
        collected.push(x);
    }
    let mut lefts = collected;
    lefts.sort();
    assert_eq!(lefts[0], 1);
    assert_eq!(lefts[1], 2);
}

#[test]
fn test_into_rights() {
    let mut map = Many2Many::new();
    assert!(map.insert(1, "a"));
    assert!(map.insert(1, "b"));
    assert!(map.insert(2, "a"));
    assert!(map.insert(2, "b"));

    let rights = map.into_rights();
    assert_eq!(rights.len(), 2);

    let mut collected: Vec<&str> = Vec::new();
    let mut rights = rights;
    while let Some(x) = rights.next() {
        collected.push(x);
    }
    let mut rights = collected;
    rights.sort();
    assert_eq!(rights[0], "a");
    assert_eq!(rights[1], "b");
}

#[test]
fn test_iter() {
    let mut map = Many2Many::from_pairs(vec![(1, "a"), (1, "b")]);
    let mut iter = map.iter();
    let cloned = iter.clone();

    assert!(iter.next().is_some());
    assert!(iter.next().is_some());

    assert!(iter.next().is_none());
    assert_eq!(iter.len(), 0);

    assert_eq!(cloned.len(), 2);

    map.insert(1, "c");
}
