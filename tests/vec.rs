use lookupvec::Lookup;
use lookupvec::LookupVec;

#[derive(Clone, Debug, PartialEq)]
struct TestItem {
    id: String,
}

impl Lookup for TestItem {
    type Key = String;
    fn spec_key(&self) -> String {
        self.id.clone()
    }
    fn key(&self) -> String {
        self.id.clone()
    }
}

#[derive(Debug, PartialEq)]
struct TestItemIntKey {
    id: u64,
}

impl Lookup for TestItemIntKey {
    type Key = u64;
    fn spec_key(&self) -> u64 {
        self.id
    }
    fn key(&self) -> u64 {
        self.id
    }
}

fn item1() -> TestItem {
    TestItem { id: "item1".to_owned() }
}
fn item2() -> TestItem {
    TestItem { id: "item2".to_owned() }
}
fn item3() -> TestItem {
    TestItem { id: "item3".to_owned() }
}

fn key(s: &str) -> String {
    s.to_owned()
}

fn lookupvec_of(items: Vec<TestItem>) -> LookupVec<TestItem> {
    let mut vec = LookupVec::with_capacity(items.len());
    for item in items {
        vec.push(item);
    }
    vec
}

fn keys(vec: &LookupVec<TestItem>) -> Vec<String> {
    let mut out = Vec::new();
    let mut it = vec.keys();
    while let Some(k) = it.next() {
        out.push(k.clone());
    }
    out
}

#[test]
fn test_new_and_capacity() {
    let vec = LookupVec::<TestItem>::new();
    assert!(vec.is_empty());
    assert_eq!(vec.len(), 0);

    let vec = LookupVec::<TestItem>::with_capacity(5);
    assert!(vec.is_empty());
}

#[test]
fn test_push_and_get() {
    let mut vec = LookupVec::new();
    vec.push(item1());
    vec.push(item2());

    assert_eq!(vec.len(), 2);
    assert_eq!(vec.get(&key("item1")).unwrap().id, "item1");
    assert_eq!(vec.get_index(1).unwrap().id, "item2");
}

#[test]
fn test_int_key() {
    let mut vec = LookupVec::with_capacity(2);
    vec.push(TestItemIntKey { id: 10 });
    vec.push(TestItemIntKey { id: 20 });

    assert_eq!(vec.len(), 2);
    assert_eq!(vec.get(&10).unwrap().id, 10);
    assert_eq!(vec.get_index(1).unwrap().id, 20);
}

#[test]
fn test_insert_and_remove() {
    let mut vec = lookupvec_of(vec![item1(), item2()]);

    vec.insert(1, item3());
    assert_eq!(keys(&vec), vec!["item1", "item3", "item2"]);

    let removed = vec.shift_remove(&key("item2")).unwrap();
    assert_eq!(removed.id, "item2");
    assert_eq!(vec.len(), 2);

    vec.shift_insert(1, item3());
    assert_eq!(keys(&vec), vec!["item1", "item3"]);
}

#[test]
fn test_iteration() {
    let vec = lookupvec_of(vec![item1(), item2()]);

    assert_eq!(keys(&vec), vec!["item1", "item2"]);

    let mut iter = vec.iter();
    assert_eq!(iter.next().unwrap().id, "item1");
    assert_eq!(iter.next().unwrap().id, "item2");
    assert!(iter.next().is_none());
}

#[test]
fn test_split_and_append() {
    let mut vec1 = lookupvec_of(vec![item1(), item2(), item3()]);

    let mut vec2 = vec1.split_off(1);
    assert_eq!(keys(&vec1), vec!["item1"]);
    assert_eq!(keys(&vec2), vec!["item2", "item3"]);

    vec1.append(&mut vec2);
    assert_eq!(keys(&vec1), vec!["item1", "item2", "item3"]);
    assert_eq!(vec2.len(), 0);
}

#[test]
fn test_drain() {
    let mut vec = lookupvec_of(vec![item1(), item2(), item3()]);

    let mut drain = vec.drain(1..3);
    let mut drained = LookupVec::new();
    while let Some(item) = drain.next() {
        drained.push(item);
    }
    assert_eq!(keys(&vec), vec!["item1"]);
    assert_eq!(keys(&drained), vec!["item2", "item3"]);
}

#[test]
fn test_first_last() {
    let mut vec = LookupVec::new();
    assert!(vec.first().is_none());
    assert!(vec.last().is_none());

    vec.push(item1());
    vec.push(item2());

    assert_eq!(vec.first().unwrap().id, "item1");
    assert_eq!(vec.last().unwrap().id, "item2");
}

#[test]
fn test_index_operations() {
    let mut vec = lookupvec_of(vec![item1(), item2(), item3()]);

    vec.move_index(0, 2);
    assert_eq!(keys(&vec), vec!["item2", "item3", "item1"]);

    vec.swap_indices(0, 1);
    assert_eq!(keys(&vec), vec!["item3", "item2", "item1"]);
}

#[test]
fn test_extend() {
    let mut vec = lookupvec_of(vec![item1()]);

    let items = vec![item2(), item3()];
    vec.extend(items);

    assert_eq!(keys(&vec), vec!["item1", "item2", "item3"]);
}

#[test]
fn test_index() {
    let mut vec = lookupvec_of(vec![item1(), item2()]);

    // Test immutable indexing
    let item = &vec[1];
    assert_eq!(item.id, "item2");

    // Test mutable indexing
    let item_mut = &mut vec[0];
    assert_eq!(item_mut.id, "item1");

    item_mut.id = "foo".to_owned();
    assert_eq!(vec[0].id, "foo");
}

#[test]
fn test_from_array() {
    let arr = [item1(), item2(), item3()];
    let vec = LookupVec::from_iter(Vec::from(arr));
    assert_eq!(keys(&vec), vec!["item1", "item2", "item3"]);
}

#[test]
fn test_sort() {
    let mut vec = lookupvec_of(vec![item3(), item1(), item2()]);

    vec.sort();
    assert_eq!(keys(&vec), vec!["item1", "item2", "item3"]);

    vec.sort_by(|a, b| b.id.cmp(&a.id));
    assert_eq!(keys(&vec), vec!["item3", "item2", "item1"]);

    vec.sort_unstable_by(|a, b| a.id.cmp(&b.id));
    assert_eq!(keys(&vec), vec!["item1", "item2", "item3"]);
}

fn collect_ids(mut it: lookupvec::iter::IntoIter<TestItem>) -> Vec<String> {
    let mut out = Vec::new();
    while let Some(item) = it.next() {
        out.push(item.id);
    }
    out
}

#[test]
fn test_sorted() {
    let vec = lookupvec_of(vec![item3(), item1(), item2()]);

    let sorted = collect_ids(vec.clone().sorted());
    assert_eq!(sorted, vec!["item1", "item2", "item3"]);

    let sorted_by = collect_ids(vec.clone().sorted_by(|a, b| b.id.cmp(&a.id)));
    assert_eq!(sorted_by, vec!["item3", "item2", "item1"]);

    let sorted_unstable_by = collect_ids(vec.sorted_unstable_by(|a, b| b.id.cmp(&a.id)));
    assert_eq!(sorted_unstable_by, vec!["item3", "item2", "item1"]);
}

fn lettered(names: &[&str]) -> LookupVec<TestItem> {
    let mut vec = LookupVec::new();
    for name in names {
        vec.push(TestItem { id: name.to_string() });
    }
    vec
}

#[test]
fn push_abc_then_swap_or_shift_remove() {
    let vec = lettered(&["a", "b", "c"]);
    assert_eq!(keys(&vec), vec!["a", "b", "c"]);

    let mut swapped = lettered(&["a", "b", "c"]);
    assert_eq!(swapped.swap_remove(&key("b")).unwrap().id, "b");
    assert_eq!(keys(&swapped), vec!["a", "c"]);

    let mut shifted = lettered(&["a", "b", "c"]);
    assert_eq!(shifted.shift_remove(&key("a")).unwrap().id, "a");
    assert_eq!(keys(&shifted), vec!["b", "c"]);
}

#[test]
fn swap_remove_moves_last_into_gap() {
    let mut vec = lettered(&["a", "b", "c", "d"]);
    assert_eq!(vec.swap_remove(&key("a")).unwrap().id, "a");
    assert_eq!(keys(&vec), vec!["d", "b", "c"]);
    assert_eq!(vec.swap_remove_index(0).unwrap().id, "d");
    assert_eq!(keys(&vec), vec!["c", "b"]);
}

#[test]
fn shift_remove_keeps_order_of_the_rest() {
    let mut vec = lettered(&["a", "b", "c", "d"]);
    assert_eq!(vec.shift_remove_index(1).unwrap().id, "b");
    assert_eq!(keys(&vec), vec!["a", "c", "d"]);
    assert!(vec.shift_remove_index(3).is_none());
    assert!(vec.shift_remove(&key("zz")).is_none());
    assert!(vec.swap_remove(&key("zz")).is_none());
    assert_eq!(keys(&vec), vec!["a", "c", "d"]);
}

#[test]
fn sort_c_a_b() {
    let mut vec = lettered(&["c", "a", "b"]);
    vec.sort();
    assert_eq!(keys(&vec), vec!["a", "b", "c"]);
    for name in ["a", "b", "c"] {
        assert_eq!(vec.get(&key(name)).unwrap().id, name);
    }
}

#[derive(Debug, PartialEq)]
struct Pair {
    id: String,
    value: i32,
}

impl Lookup for Pair {
    type Key = String;
    fn spec_key(&self) -> String {
        self.id.clone()
    }
    fn key(&self) -> String {
        self.id.clone()
    }
}

fn pair(id: &str, value: i32) -> Pair {
    Pair { id: id.to_owned(), value }
}

#[test]
fn push_existing_key_replaces_in_place() {
    let mut vec = LookupVec::new();
    assert!(vec.push(pair("a", 1)).is_none());
    assert!(vec.push(pair("b", 2)).is_none());
    let old = vec.push(pair("a", 10)).unwrap();
    assert_eq!(old, pair("a", 1));
    assert_eq!(vec.len(), 2);
    assert_eq!(vec.get_index(0).unwrap().value, 10);
    assert_eq!(vec.push_full(pair("b", 20)), (1, Some(pair("b", 2))));
    assert_eq!(vec.push_full(pair("c", 3)), (2, None));
    assert_eq!(vec.len(), 3);
}

#[test]
fn insert_places_before_index_and_clamps() {
    let mut vec = LookupVec::new();
    vec.push(pair("a", 1));
    vec.push(pair("b", 2));
    vec.push(pair("c", 3));
    assert_eq!(vec.insert(1, pair("x", 0)), (1, None));
    assert_eq!(keys_of_pairs(&vec), vec!["a", "x", "b", "c"]);
    assert_eq!(vec.insert(99, pair("y", 0)), (4, None));
    assert_eq!(keys_of_pairs(&vec), vec!["a", "x", "b", "c", "y"]);
    // "a" moves to just before the entry that was at 3 ("c").
    assert_eq!(vec.insert(3, pair("a", 7)), (2, Some(pair("a", 1))));
    assert_eq!(keys_of_pairs(&vec), vec!["x", "b", "a", "c", "y"]);
    // "y" moves back to position 0.
    assert_eq!(vec.insert(0, pair("y", 8)), (0, Some(pair("y", 0))));
    assert_eq!(keys_of_pairs(&vec), vec!["y", "x", "b", "a", "c"]);
}

#[test]
fn shift_insert_moves_existing_key() {
    let mut vec = LookupVec::new();
    vec.push(pair("a", 1));
    vec.push(pair("b", 2));
    vec.push(pair("c", 3));
    assert_eq!(vec.shift_insert(2, pair("a", 9)), Some(pair("a", 1)));
    assert_eq!(keys_of_pairs(&vec), vec!["b", "c", "a"]);
    assert_eq!(vec.shift_insert(3, pair("d", 4)), None);
    assert_eq!(keys_of_pairs(&vec), vec!["b", "c", "a", "d"]);
    assert_eq!(vec.get(&key("a")).unwrap().value, 9);
}

fn keys_of_pairs(vec: &LookupVec<Pair>) -> Vec<String> {
    let mut out = Vec::new();
    let mut it = vec.keys();
    while let Some(k) = it.next() {
        out.push(k.clone());
    }
    out
}

#[test]
fn split_off_then_append_restores() {
    for at in 0..=4 {
        let mut vec = lettered(&["a", "b", "c", "d"]);
        let mut rest = vec.split_off(at);
        assert_eq!(vec.len(), at);
        assert_eq!(rest.len(), 4 - at);
        vec.append(&mut rest);
        assert_eq!(keys(&vec), vec!["a", "b", "c", "d"]);
        assert!(rest.is_empty());
    }
}

#[test]
fn append_overwrites_like_push() {
    let mut left = LookupVec::new();
    left.push(pair("a", 1));
    left.push(pair("b", 2));
    let mut right = LookupVec::new();
    right.push(pair("c", 3));
    right.push(pair("a", 10));
    left.append(&mut right);
    assert_eq!(keys_of_pairs(&left), vec!["a", "b", "c"]);
    assert_eq!(left.get(&key("a")).unwrap().value, 10);
    assert_eq!(right.len(), 0);
}

#[test]
fn from_iter_later_duplicate_overwrites() {
    let vec = LookupVec::from_iter(vec![pair("a", 1), pair("b", 2), pair("a", 3)]);
    assert_eq!(keys_of_pairs(&vec), vec!["a", "b"]);
    assert_eq!(vec.get(&key("a")).unwrap().value, 3);
}

#[test]
fn decode_rejects_duplicate_key() {
    let items = vec![pair("a", 1), pair("b", 2), pair("b", 2)];
    match LookupVec::decode(items) {
        Ok(_) => panic!("a repeated key must be rejected"),
        Err(e) => assert_eq!(e.key, "b"),
    }
}

#[test]
fn decode_keeps_order() {
    let items = vec![pair("c", 3), pair("a", 1), pair("b", 2)];
    let vec = match LookupVec::decode(items) {
        Ok(v) => v,
        Err(_) => panic!("no key repeats"),
    };
    assert_eq!(keys_of_pairs(&vec), vec!["c", "a", "b"]);
    assert_eq!(vec.get(&key("a")).unwrap().value, 1);
}

#[test]
fn decode_empty() {
    match LookupVec::<Pair>::decode(Vec::new()) {
        Ok(v) => assert!(v.is_empty()),
        Err(_) => panic!("nothing to repeat"),
    }
}

#[test]
fn into_vec_then_decode_round_trips() {
    let mut vec = LookupVec::new();
    vec.push(pair("a", 1));
    vec.push(pair("b", 2));
    vec.push(pair("c", 3));
    let items = vec.into_vec();
    assert_eq!(items, vec![pair("a", 1), pair("b", 2), pair("c", 3)]);
    let back = match LookupVec::decode(items) {
        Ok(v) => v,
        Err(_) => panic!("no key repeats"),
    };
    assert_eq!(keys_of_pairs(&back), vec!["a", "b", "c"]);
    assert_eq!(back.get(&key("b")).unwrap().value, 2);
}

#[test]
fn positional_lookups_and_edges() {
    let mut vec = lettered(&["a", "b", "c"]);
    assert_eq!(vec.get_index_of(&key("c")), Some(2));
    assert_eq!(vec.get_index_of(&key("z")), None);
    assert!(vec.contains_key(&key("b")));
    assert!(vec.contains(&TestItem { id: "a".to_owned() }));
    assert!(!vec.contains(&TestItem { id: "q".to_owned() }));
    assert!(vec.get_index(3).is_none());
    assert!(vec.get(&key("z")).is_none());
    assert_eq!(vec.pop().unwrap().id, "c");
    vec.truncate(5);
    assert_eq!(keys(&vec), vec!["a", "b"]);
    vec.truncate(1);
    assert_eq!(keys(&vec), vec!["a"]);
    vec.clear();
    assert!(vec.is_empty());
    assert!(vec.pop().is_none());
}

#[test]
fn mutable_access_keeps_stored_keys() {
    let mut vec = LookupVec::new();
    vec.push(pair("a", 1));
    vec.push(pair("b", 2));
    vec.get_mut(&key("b")).unwrap().value = 20;
    vec.get_index_mut(0).unwrap().value = 10;
    vec.first_mut().unwrap().value += 1;
    vec.last_mut().unwrap().value += 1;
    assert_eq!(vec.get(&key("a")).unwrap().value, 11);
    assert_eq!(vec.get(&key("b")).unwrap().value, 21);
    assert!(vec.get_index_mut(2).is_none());
    assert!(vec.get_mut(&key("z")).is_none());
}

#[test]
fn reverse_and_iterate_from_both_ends() {
    let mut vec = lettered(&["a", "b", "c"]);
    vec.reverse();
    assert_eq!(keys(&vec), vec!["c", "b", "a"]);
    let mut it = vec.iter();
    assert_eq!(it.len(), 3);
    assert_eq!(it.next_back().unwrap().id, "a");
    assert_eq!(it.next().unwrap().id, "c");
    assert_eq!(it.len(), 1);
    let mut ks = vec.keys();
    assert_eq!(ks.next_back().unwrap(), "a");
    let mut owned = vec.into_keys();
    assert_eq!(owned.len(), 3);
    assert_eq!(owned.next_back().unwrap(), "a");
    assert_eq!(owned.next().unwrap(), "c");
    assert_eq!(owned.next().unwrap(), "b");
    assert!(owned.next().is_none());
}

#[test]
fn drain_dropped_early_still_removes_range() {
    let mut vec = lettered(&["a", "b", "c", "d"]);
    {
        let mut d = vec.drain(1..3);
        assert_eq!(d.len(), 2);
        assert_eq!(d.next_back().unwrap().id, "c");
    }
    assert_eq!(keys(&vec), vec!["a", "d"]);
    let mut none = vec.drain(1..1);
    assert!(none.next().is_none());
}

#[test]
fn default_is_empty() {
    let vec: LookupVec<TestItem> = LookupVec::default();
    assert!(vec.is_empty());
}

#[test]
fn every_key_stands_at_one_position_after_mutations() {
    let mut vec = lettered(&["a", "b", "c", "d", "e"]);
    vec.swap_remove(&key("b"));
    vec.shift_remove_index(0);
    vec.insert(1, TestItem { id: "f".to_owned() });
    vec.push(TestItem { id: "c".to_owned() });
    vec.move_index(0, 3);
    vec.reverse();
    vec.sort();
    let ks = keys(&vec);
    assert_eq!(ks, vec!["c", "d", "e", "f"]);
    for (i, k) in ks.iter().enumerate() {
        assert_eq!(vec.get_index_of(k), Some(i));
        assert_eq!(&vec[i].id, k);
    }
}
