use minikv::store::Store;

#[test]
fn interleaved_reads_see_whole_writes() {
    let mut st = Store::new();
    for i in 0..100u64 {
        for w in 0..4u64 {
            st.set(format!("key{}", w), format!("{}-{}", w, i).repeat(8), None, i);
            for r in 0..4u64 {
                if let Some(v) = st.get(&format!("key{}", r), i) {
                    let unit = &v[..v.len() / 8];
                    assert_eq!(v, unit.repeat(8));
                    assert!(unit.starts_with(&format!("{}-", r)));
                } else {
                    assert!(r > w && i == 0);
                }
            }
        }
    }
}
