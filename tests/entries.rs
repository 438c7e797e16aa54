use lru_cache::entries::EntryList;

fn keys(list: &mut EntryList<u32, u32>) -> Vec<u32> {
    let mut out = Vec::new();
    while let Some((_, node)) = list.pop_front() {
        out.push(node.key);
    }
    out
}

#[test]
fn entry_list_push_and_pop_front() {
    let mut list: EntryList<u32, u32> = EntryList::new();
    assert_eq!(list.front(), None);
    let a = list.push_back(1, 11, 100);
    let b = list.push_back(2, 22, 200);
    assert_eq!(list.len(), 2);
    assert_eq!(list.front(), Some(a));
    let n = list.get(b);
    assert_eq!((n.key, n.key_hash, n.value), (2, 22, 200));
    assert_eq!(n.prev, Some(a));
    assert_eq!(n.next, None);
    assert!(list.check_links());
    let (h, node) = list.pop_front().unwrap();
    assert_eq!(h, a);
    assert_eq!(node.value, 100);
    assert_eq!(list.front(), Some(b));
    assert_eq!(list.get(b).prev, None);
}

#[test]
fn entry_list_touch_each_position() {
    let mut list: EntryList<u32, u32> = EntryList::new();
    let a = list.push_back(1, 0, 0);
    let b = list.push_back(2, 0, 0);
    let c = list.push_back(3, 0, 0);
    list.touch(c);
    assert!(list.check_links());
    list.touch(a);
    assert!(list.check_links());
    list.touch(b);
    assert!(list.check_links());
    assert_eq!(keys(&mut list), vec![3, 1, 2]);
}

#[test]
fn entry_list_remove_middle_and_reuse_slot() {
    let mut list: EntryList<u32, u32> = EntryList::new();
    list.push_back(1, 0, 0);
    let b = list.push_back(2, 0, 0);
    list.push_back(3, 0, 0);
    let removed = list.remove(b);
    assert_eq!(removed.key, 2);
    assert!(list.check_links());
    let d = list.push_back(4, 0, 0);
    assert_eq!(d, b);
    assert!(list.check_links());
    assert_eq!(keys(&mut list), vec![1, 3, 4]);
    assert_eq!(list.len(), 0);
}
