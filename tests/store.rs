use minikv::store::Store;

#[test]
fn unset_key_reads_none() {
    let mut st = Store::new();
    assert_eq!(st.get("k", 0), None);
    st.set("other".to_string(), "v".to_string(), None, 0);
    assert_eq!(st.get("k", 10), None);
}

#[test]
fn set_then_get() {
    let mut st = Store::new();
    st.set("k".to_string(), "v".to_string(), None, 5);
    assert_eq!(st.get("k", 5), Some("v".to_string()));
    assert_eq!(st.get("k", u64::MAX), Some("v".to_string()));
}

#[test]
fn ttl_boundary() {
    let mut st = Store::new();
    st.set("k".to_string(), "v".to_string(), Some(100), 1000);
    assert_eq!(st.get("k", 1000), Some("v".to_string()));
    assert_eq!(st.get("k", 1100), Some("v".to_string()));
    assert_eq!(st.get("k", 1101), None);
}

#[test]
fn ttl_near_the_end_of_time() {
    let mut st = Store::new();
    st.set("k".to_string(), "v".to_string(), Some(u64::MAX), 10);
    assert_eq!(st.get("k", u64::MAX), Some("v".to_string()));
}

#[test]
fn overwrite_replaces_value_and_expiry() {
    let mut st = Store::new();
    st.set("k".to_string(), "v1".to_string(), Some(1), 0);
    st.set("k".to_string(), "v2".to_string(), None, 0);
    assert_eq!(st.get("k", 1_000_000), Some("v2".to_string()));
}

#[test]
fn expired_entry_can_be_set_again() {
    let mut st = Store::new();
    st.set("k".to_string(), "old".to_string(), Some(1), 0);
    assert_eq!(st.get("k", 2), None);
    st.set("k".to_string(), "new".to_string(), Some(1), 2);
    assert_eq!(st.get("k", 3), Some("new".to_string()));
}

#[test]
fn many_keys_are_independent() {
    let mut st = Store::new();
    for i in 0..50u64 {
        st.set(format!("k{}", i), format!("v{}", i), None, 0);
    }
    for i in 0..50u64 {
        assert_eq!(st.get(&format!("k{}", i), 0), Some(format!("v{}", i)));
    }
}
