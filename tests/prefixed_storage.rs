use namespaced_storage::{
    get_with_prefix, namespace_upper_bound, prefixed, prefixed_read, range_with_prefix,
    remove_with_prefix, set_with_prefix, to_length_prefixed, to_length_prefixed_nested,
    MemoryStorage, MockStorage, Order, PrefixedStorage, ReadonlyPrefixedStorage, ReadonlyStorage,
    Storage, KV,
};

fn kv(k: &[u8], v: &[u8]) -> KV {
    (k.to_vec(), v.to_vec())
}

#[test]
fn multi_level() {
    let mut storage = MockStorage::new();

    // set with nested
    let mut foo = PrefixedStorage::new(&mut storage, b"foo");
    let mut bar = PrefixedStorage::new(&mut foo, b"bar");
    bar.set(b"baz", b"winner");

    // we can nest them the same encoding with one operation
    let loader = PrefixedStorage::multilevel(&mut storage, &[b"foo", b"bar"]);
    assert_eq!(loader.get(b"baz"), Some(b"winner".to_vec()));

    // set with multilevel
    let mut foobar = PrefixedStorage::multilevel(&mut storage, &[b"foo", b"bar"]);
    foobar.set(b"second", b"time");

    let mut a = PrefixedStorage::new(&mut storage, b"foo");
    let b = PrefixedStorage::new(&mut a, b"bar");
    assert_eq!(b.get(b"second"), Some(b"time".to_vec()));
}

#[test]
fn nested_write_is_read_by_multilevel() {
    let mut storage = MemoryStorage::new();
    {
        let mut foo = prefixed(&mut storage, b"foo");
        let mut bar = prefixed(&mut foo, b"bar");
        bar.set(b"baz", b"winner");
    }
    let loader = PrefixedStorage::multilevel(&mut storage, &[b"foo", b"bar"]);
    assert_eq!(loader.get(b"baz"), Some(b"winner".to_vec()));
    assert_eq!(loader.get(b"other"), None);
}

#[test]
fn multilevel_write_is_read_by_nested() {
    let mut storage = MemoryStorage::new();
    {
        let mut foobar = PrefixedStorage::multilevel(&mut storage, &[b"foo", b"bar"]);
        foobar.set(b"second", b"time");
    }
    let mut a = PrefixedStorage::new(&mut storage, b"foo");
    let b = PrefixedStorage::new(&mut a, b"bar");
    assert_eq!(b.get(b"second"), Some(b"time".to_vec()));
}

#[test]
fn nested_and_multilevel_write_the_same_physical_key() {
    let mut storage = MemoryStorage::new();
    {
        let mut foobar = PrefixedStorage::multilevel(&mut storage, &[b"foo", b"bar"]);
        foobar.set(b"k", b"v");
    }
    let all = storage.range(None, None, Order::Ascending);
    assert_eq!(all, vec![kv(b"\x00\x03foo\x00\x03bark", b"v")]);
    let mut other = MemoryStorage::new();
    {
        let mut foo = prefixed(&mut other, b"foo");
        let mut bar = prefixed(&mut foo, b"bar");
        bar.set(b"k", b"v");
    }
    assert_eq!(other.range(None, None, Order::Ascending), all);
}

#[test]
fn length_prefix_of_one_namespace() {
    assert_eq!(to_length_prefixed(b"foo"), b"\x00\x03foo".to_vec());
    assert_eq!(to_length_prefixed(b""), vec![0u8, 0]);
    let long = vec![7u8; 256];
    let encoded = to_length_prefixed(&long);
    assert_eq!(encoded.len(), 258);
    assert_eq!(&encoded[..2], &[1u8, 0]);
    let longest = vec![1u8; 0xFFFF];
    assert_eq!(&to_length_prefixed(&longest)[..2], &[0xFFu8, 0xFF]);
}

#[test]
fn length_prefix_of_nested_namespaces() {
    assert_eq!(
        to_length_prefixed_nested(&[b"foo", b"bar"]),
        b"\x00\x03foo\x00\x03bar".to_vec()
    );
    assert_eq!(to_length_prefixed_nested(&[b"foo"]), to_length_prefixed(b"foo"));
    let mut nested = to_length_prefixed(b"a");
    nested.extend(to_length_prefixed(b"bc"));
    assert_eq!(to_length_prefixed_nested(&[b"a", b"bc"]), nested);
}

#[test]
fn distinct_namespaces_do_not_collide() {
    let a = to_length_prefixed_nested(&[b"ab", b"c"]);
    let b = to_length_prefixed_nested(&[b"a", b"bc"]);
    assert_ne!(a, b);
    assert!(!a.starts_with(&b) && !b.starts_with(&a));
    let x = to_length_prefixed(b"ba");
    let y = to_length_prefixed(b"balance");
    assert!(!y.starts_with(&x) && !x.starts_with(&y));
}

#[test]
fn prefixed_views_are_isolated() {
    let mut storage = MemoryStorage::new();
    {
        let mut balance = prefixed(&mut storage, b"balance");
        balance.set(b"alice", b"1");
    }
    {
        let mut claim = prefixed(&mut storage, b"claim");
        claim.set(b"alice", b"2");
        assert_eq!(claim.get(b"alice"), Some(b"2".to_vec()));
    }
    let balance = prefixed_read(&storage, b"balance");
    assert_eq!(balance.get(b"alice"), Some(b"1".to_vec()));
    assert_eq!(
        balance.range(None, None, Order::Ascending),
        vec![kv(b"alice", b"1")]
    );
}

#[test]
fn set_then_get_round_trips() {
    let mut storage = MemoryStorage::new();
    let mut view = prefixed(&mut storage, b"ns");
    assert_eq!(view.get(b"key"), None);
    view.set(b"key", b"value");
    assert_eq!(view.get(b"key"), Some(b"value".to_vec()));
    view.set(b"key", b"other");
    assert_eq!(view.get(b"key"), Some(b"other".to_vec()));
    view.set(b"", b"empty key");
    assert_eq!(view.get(b""), Some(b"empty key".to_vec()));
}

#[test]
fn remove_twice_is_remove_once() {
    let mut storage = MemoryStorage::new();
    {
        let mut view = prefixed(&mut storage, b"ns");
        view.set(b"a", b"1");
        view.set(b"b", b"2");
        view.remove(b"a");
        assert_eq!(view.get(b"a"), None);
    }
    let once = storage.range(None, None, Order::Ascending);
    {
        let mut view = prefixed(&mut storage, b"ns");
        view.remove(b"a");
        view.remove(b"missing");
    }
    assert_eq!(storage.range(None, None, Order::Ascending), once);
    assert_eq!(once.len(), 1);
}

#[test]
fn range_on_empty_store_is_empty() {
    let mut storage = MemoryStorage::new();
    let view = prefixed(&mut storage, b"foo");
    assert_eq!(view.range(None, None, Order::Ascending), Vec::<KV>::new());
    assert_eq!(view.range(None, None, Order::Descending), Vec::<KV>::new());
}

#[test]
fn range_strips_prefix_and_respects_bounds() {
    let mut storage = MemoryStorage::new();
    storage.set(b"unrelated", b"x");
    {
        let mut view = prefixed(&mut storage, b"foo");
        view.set(b"a", b"1");
        view.set(b"b", b"2");
        view.set(b"c", b"3");
        view.set(b"ca", b"4");
    }
    {
        let mut longer = prefixed(&mut storage, b"fooo");
        longer.set(b"a", b"other");
    }
    let view = prefixed_read(&storage, b"foo");
    assert_eq!(
        view.range(None, None, Order::Ascending),
        vec![kv(b"a", b"1"), kv(b"b", b"2"), kv(b"c", b"3"), kv(b"ca", b"4")]
    );
    assert_eq!(
        view.range(Some(b"b"), Some(b"ca"), Order::Ascending),
        vec![kv(b"b", b"2"), kv(b"c", b"3")]
    );
    assert_eq!(
        view.range(Some(b"b"), None, Order::Descending),
        vec![kv(b"ca", b"4"), kv(b"c", b"3"), kv(b"b", b"2")]
    );
    assert_eq!(
        view.range(None, Some(b"b"), Order::Descending),
        vec![kv(b"a", b"1")]
    );
}

#[test]
fn descending_is_reverse_of_ascending() {
    let mut storage = MemoryStorage::new();
    let mut view = prefixed(&mut storage, b"ns");
    for k in [b"d", b"a", b"c", b"b", b"e"] {
        view.set(k, k);
    }
    for (start, end) in [
        (None, None),
        (Some(&b"b"[..]), None),
        (None, Some(&b"d"[..])),
        (Some(&b"b"[..]), Some(&b"d"[..])),
        (Some(&b"d"[..]), Some(&b"b"[..])),
    ] {
        let mut asc = view.range(start, end, Order::Ascending);
        asc.reverse();
        assert_eq!(view.range(start, end, Order::Descending), asc);
    }
}

#[test]
fn upper_bound_of_prefix() {
    assert_eq!(namespace_upper_bound(b"\x00\x03foo"), Some(b"\x00\x03fop".to_vec()));
    assert_eq!(namespace_upper_bound(&[1u8, 0xFF]), Some(vec![2u8]));
    assert_eq!(namespace_upper_bound(&[0xFFu8, 0xFF]), None);
    assert_eq!(namespace_upper_bound(&[]), None);
}

#[test]
fn scan_under_prefix_ending_in_ff() {
    let mut storage = MemoryStorage::new();
    storage.set(&[1u8, 0xFF, 5], b"in");
    storage.set(&[2u8], b"above");
    storage.set(&[1u8, 0xFE], b"below");
    storage.set(&[0xFFu8, 0xFF, 9], b"top");
    let found = range_with_prefix(&storage, &[1u8, 0xFF], None, None, Order::Ascending);
    assert_eq!(found, vec![kv(&[5], b"in")]);
    let top = range_with_prefix(&storage, &[0xFFu8, 0xFF], None, None, Order::Ascending);
    assert_eq!(top, vec![kv(&[9], b"top")]);
}

#[test]
fn helpers_rewrite_keys() {
    let mut storage = MemoryStorage::new();
    set_with_prefix(&mut storage, b"pre", b"key", b"v");
    assert_eq!(storage.get(b"prekey"), Some(b"v".to_vec()));
    assert_eq!(get_with_prefix(&storage, b"pre", b"key"), Some(b"v".to_vec()));
    remove_with_prefix(&mut storage, b"pre", b"key");
    assert_eq!(storage.get(b"prekey"), None);
}

#[test]
fn readonly_multilevel_sees_nested_writes() {
    let mut storage = MemoryStorage::new();
    {
        let mut foo = prefixed(&mut storage, b"foo");
        let mut bar = prefixed(&mut foo, b"bar");
        bar.set(b"x", b"1");
    }
    let view = ReadonlyPrefixedStorage::multilevel(&storage, &[b"foo", b"bar"]);
    assert_eq!(view.get(b"x"), Some(b"1".to_vec()));
    let outer = ReadonlyPrefixedStorage::new(&storage, b"foo");
    let inner = ReadonlyPrefixedStorage::new(&outer, b"bar");
    assert_eq!(inner.range(None, None, Order::Ascending), vec![kv(b"x", b"1")]);
}

#[test]
fn single_level_write_uses_length_prefixed_key() {
    let mut storage = MockStorage::new();
    PrefixedStorage::new(&mut storage, b"foo").set(b"baz", b"x");
    assert_eq!(
        storage.get(&[0x00, 0x03, b'f', b'o', b'o', b'b', b'a', b'z']),
        Some(b"x".to_vec())
    );
    assert_eq!(storage.range(None, None, Order::Ascending).len(), 1);
}

#[test]
fn multilevel_write_uses_nested_length_prefixed_key() {
    let mut storage = MockStorage::new();
    PrefixedStorage::multilevel(&mut storage, &[b"foo", b"bar"]).set(b"baz", b"winner");
    assert_eq!(
        storage.range(None, None, Order::Ascending),
        vec![kv(
            &[0x00, 0x03, b'f', b'o', b'o', 0x00, 0x03, b'b', b'a', b'r', b'b', b'a', b'z'],
            b"winner"
        )]
    );
}

#[test]
fn set_then_remove_restores_store() {
    let mut storage = MemoryStorage::new();
    storage.set(b"outside", b"1");
    let before = storage.range(None, None, Order::Ascending);
    {
        let mut view = prefixed(&mut storage, b"ns");
        view.set(b"k", b"v");
        view.remove(b"k");
        assert_eq!(view.get(b"k"), None);
    }
    assert_eq!(storage.range(None, None, Order::Ascending), before);
}

#[test]
fn write_in_one_namespace_is_invisible_in_another() {
    let mut storage = MemoryStorage::new();
    PrefixedStorage::multilevel(&mut storage, &[b"a"]).set(b"k", b"1");
    PrefixedStorage::multilevel(&mut storage, &[b"b"]).set(b"k", b"2");
    PrefixedStorage::multilevel(&mut storage, &[b"a"]).remove(b"k");
    let other = PrefixedStorage::multilevel(&mut storage, &[b"b"]);
    assert_eq!(other.get(b"k"), Some(b"2".to_vec()));
}

#[test]
fn into_inner_hands_back_the_store() {
    let mut storage = MemoryStorage::new();
    let mut view = prefixed(&mut storage, b"foo");
    view.set(b"baz", b"x");
    let inner = view.into_inner();
    assert_eq!(inner.get(b"\x00\x03foobaz"), Some(b"x".to_vec()));
}
