use chained_hashmap::MyHashmap;

#[test]
fn test_hashmap_new() {
    let _hm = MyHashmap::<String, i32>::new();
}

#[test]
fn test_hashmap_insert() {
    let mut hm = MyHashmap::<String, i32>::with_capacity(10);
    hm.insert("hello".to_string(), 23);
    let result = hm.get("hello".to_string());
    assert!(result.is_some());
    assert_eq!(*result.unwrap(), 23);
}
#[test]
fn test_hashmap_insert_duplicate_key() {
    let mut hm = MyHashmap::<String, i32>::with_capacity(10);
    hm.insert("hello".to_string(), 23);
    hm.insert("hello".to_string(), 24);
    let result = hm.get("hello".to_string());
    assert!(result.is_some());
    assert_eq!(*result.unwrap(), 24);
}
#[test]
fn test_hashmap_collisions() {
    let mut hm = MyHashmap::<String, i32>::with_capacity(10);
    hm.insert("hello1".to_string(), 1);
    hm.insert("hello2".to_string(), 2);
    hm.insert("hello3".to_string(), 3);
    hm.insert("hello4".to_string(), 4);
    hm.insert("hello5".to_string(), 5);
    hm.insert("hello6".to_string(), 6);
    hm.insert("hello7".to_string(), 7);
    hm.insert("hello8".to_string(), 8);
    hm.insert("hello9".to_string(), 9);
    hm.insert("hello10".to_string(), 10);
    hm.insert("hello11".to_string(), 11);
    hm.insert("hello12".to_string(), 12);
    assert_eq!(*hm.get("hello1".to_string()).unwrap(), 1);
    assert_eq!(*hm.get("hello2".to_string()).unwrap(), 2);
    assert_eq!(*hm.get("hello3".to_string()).unwrap(), 3);
    assert_eq!(*hm.get("hello4".to_string()).unwrap(), 4);
    assert_eq!(*hm.get("hello5".to_string()).unwrap(), 5);
    assert_eq!(*hm.get("hello6".to_string()).unwrap(), 6);
    assert_eq!(*hm.get("hello7".to_string()).unwrap(), 7);
    assert_eq!(*hm.get("hello8".to_string()).unwrap(), 8);
    assert_eq!(*hm.get("hello9".to_string()).unwrap(), 9);
    assert_eq!(*hm.get("hello10".to_string()).unwrap(), 10);
    assert_eq!(*hm.get("hello11".to_string()).unwrap(), 11);
    assert_eq!(*hm.get("hello12".to_string()).unwrap(), 12);
}

#[test]
fn test_hashmap_clear() {
    let mut hm = MyHashmap::new();
    hm.insert("test".to_string(), 1);
    hm.insert("test1".to_string(), 1);
    hm.insert("test2".to_string(), 1);
    hm.insert("test3".to_string(), 1);
    hm.clear();
    assert!(hm.get("test".to_string()).is_none());
    assert!(hm.get("test1".to_string()).is_none());
    assert!(hm.get("test2".to_string()).is_none());
    assert!(hm.get("test3".to_string()).is_none());
}

#[test]
fn hashmap_remove() {
    let mut hm = MyHashmap::new();
    hm.insert("test".to_string(), 1);
    assert!(hm.get("test".to_string()).is_some());
    hm.remove("test".to_string());
    assert!(hm.get("test".to_string()).is_none());
}
#[test]
fn test_hashmap_remove_many() {
    let mut hm = MyHashmap::with_capacity(10);
    hm.insert("test".to_string(), 1);
    hm.insert("test1".to_string(), 1);
    hm.insert("test2".to_string(), 1);
    hm.insert("test3".to_string(), 1);
    hm.insert("test4".to_string(), 1);
    hm.insert("test5".to_string(), 1);
    hm.insert("test6".to_string(), 1);
    hm.insert("test7".to_string(), 1);
    hm.insert("test8".to_string(), 1);
    hm.insert("test9".to_string(), 1);
    hm.insert("test10".to_string(), 1);
    hm.insert("test11".to_string(), 1);
    assert!(hm.get("test".to_string()).is_some());
    assert!(hm.get("test1".to_string()).is_some());
    assert!(hm.get("test2".to_string()).is_some());
    assert!(hm.get("test3".to_string()).is_some());
    assert!(hm.get("test4".to_string()).is_some());
    assert!(hm.get("test5".to_string()).is_some());
    assert!(hm.get("test6".to_string()).is_some());
    assert!(hm.get("test7".to_string()).is_some());
    assert!(hm.get("test8".to_string()).is_some());
    assert!(hm.get("test9".to_string()).is_some());
    assert!(hm.get("test10".to_string()).is_some());
    assert!(hm.get("test11".to_string()).is_some());

    hm.remove("test".to_string());
    assert!(hm.get("test".to_string()).is_none());
    assert!(hm.get("test1".to_string()).is_some());
    assert!(hm.get("test2".to_string()).is_some());
    assert!(hm.get("test3".to_string()).is_some());
    assert!(hm.get("test4".to_string()).is_some());
    assert!(hm.get("test5".to_string()).is_some());
    assert!(hm.get("test6".to_string()).is_some());
    assert!(hm.get("test7".to_string()).is_some());
    assert!(hm.get("test8".to_string()).is_some());
    assert!(hm.get("test9".to_string()).is_some());
    assert!(hm.get("test10".to_string()).is_some());
    assert!(hm.get("test11".to_string()).is_some());

    hm.remove("test1".to_string());
    assert!(hm.get("test1".to_string()).is_none());
    assert!(hm.get("test2".to_string()).is_some());
    assert!(hm.get("test3".to_string()).is_some());
    assert!(hm.get("test4".to_string()).is_some());
    assert!(hm.get("test5".to_string()).is_some());
    assert!(hm.get("test6".to_string()).is_some());
    assert!(hm.get("test7".to_string()).is_some());
    assert!(hm.get("test8".to_string()).is_some());
    assert!(hm.get("test9".to_string()).is_some());
    assert!(hm.get("test10".to_string()).is_some());
    assert!(hm.get("test11".to_string()).is_some());

    hm.remove("test2".to_string());
    assert!(hm.get("test2".to_string()).is_none());
    assert!(hm.get("test3".to_string()).is_some());
    assert!(hm.get("test4".to_string()).is_some());
    assert!(hm.get("test5".to_string()).is_some());
    assert!(hm.get("test6".to_string()).is_some());
    assert!(hm.get("test7".to_string()).is_some());
    assert!(hm.get("test8".to_string()).is_some());
    assert!(hm.get("test9".to_string()).is_some());
    assert!(hm.get("test10".to_string()).is_some());
    assert!(hm.get("test11".to_string()).is_some());

    hm.remove("test3".to_string());
    assert!(hm.get("test3".to_string()).is_none());
    assert!(hm.get("test4".to_string()).is_some());
    assert!(hm.get("test5".to_string()).is_some());
    assert!(hm.get("test6".to_string()).is_some());
    assert!(hm.get("test7".to_string()).is_some());
    assert!(hm.get("test8".to_string()).is_some());
    assert!(hm.get("test9".to_string()).is_some());
    assert!(hm.get("test10".to_string()).is_some());
    assert!(hm.get("test11".to_string()).is_some());

    hm.remove("test4".to_string());
    assert!(hm.get("test4".to_string()).is_none());
    assert!(hm.get("test5".to_string()).is_some());
    assert!(hm.get("test6".to_string()).is_some());
    assert!(hm.get("test7".to_string()).is_some());
    assert!(hm.get("test8".to_string()).is_some());
    assert!(hm.get("test9".to_string()).is_some());
    assert!(hm.get("test10".to_string()).is_some());
    assert!(hm.get("test11".to_string()).is_some());

    hm.remove("test5".to_string());
    assert!(hm.get("test5".to_string()).is_none());
    assert!(hm.get("test6".to_string()).is_some());
    assert!(hm.get("test7".to_string()).is_some());
    assert!(hm.get("test8".to_string()).is_some());
    assert!(hm.get("test9".to_string()).is_some());
    assert!(hm.get("test10".to_string()).is_some());
    assert!(hm.get("test11".to_string()).is_some());

    hm.remove("test6".to_string());
    assert!(hm.get("test6".to_string()).is_none());
    assert!(hm.get("test7".to_string()).is_some());
    assert!(hm.get("test8".to_string()).is_some());
    assert!(hm.get("test9".to_string()).is_some());
    assert!(hm.get("test10".to_string()).is_some());
    assert!(hm.get("test11".to_string()).is_some());

    hm.remove("test7".to_string());
    assert!(hm.get("test7".to_string()).is_none());
    assert!(hm.get("test8".to_string()).is_some());
    assert!(hm.get("test9".to_string()).is_some());
    assert!(hm.get("test10".to_string()).is_some());
    assert!(hm.get("test11".to_string()).is_some());

    hm.remove("test8".to_string());
    assert!(hm.get("test8".to_string()).is_none());
    assert!(hm.get("test9".to_string()).is_some());
    assert!(hm.get("test10".to_string()).is_some());
    assert!(hm.get("test11".to_string()).is_some());

    hm.remove("test9".to_string());
    assert!(hm.get("test9".to_string()).is_none());
    assert!(hm.get("test10".to_string()).is_some());
    assert!(hm.get("test11".to_string()).is_some());

    hm.remove("test10".to_string());
    assert!(hm.get("test10".to_string()).is_none());
    assert!(hm.get("test11".to_string()).is_some());

    hm.remove("test11".to_string());
    assert!(hm.get("test11".to_string()).is_none());
}
