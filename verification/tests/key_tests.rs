use tex_rsm_parser::key::{Key, KeyCounter};

#[allow(non_snake_case)]
#[test]
fn KeyCounter() {
    let mut kc = KeyCounter::new();
    assert_eq!(kc.count(), Key { value: 0 });
    assert_eq!(kc.count(), Key { value: 1 });
    assert_eq!(kc.count(), Key { value: 2 });
}

#[test]
fn zero_key_is_first() {
    let mut kc = KeyCounter::new();
    assert_eq!(kc.count(), Key::new());
}

#[test]
fn draws_are_strictly_increasing() {
    let mut kc = KeyCounter::new();
    let mut last = kc.count();
    assert_eq!(last.value, 0);
    for n in 1..1000u32 {
        let next = kc.count();
        assert!(last < next);
        assert_ne!(last, next);
        assert_eq!(next.value, n);
        last = next;
    }
}

#[test]
fn increment_steps_by_one() {
    let mut key = Key::new();
    key.increment();
    key.increment();
    assert_eq!(key, Key { value: 2 });
}

#[test]
fn counters_are_independent() {
    let mut a = KeyCounter::new();
    let mut b = KeyCounter::new();
    a.count();
    a.count();
    assert_eq!(b.count(), Key { value: 0 });
    assert_eq!(a.count(), Key { value: 2 });
}
