use gossip_broadcast::store::LogStore;

fn s(x: &str) -> String {
    x.to_string()
}

#[test]
fn overlapping_merges_do_not_duplicate() {
    let mut st = LogStore::new();
    st.register(s("n1"));
    st.merge(&s("n1"), 0, &vec![1, 2, 3]);
    st.merge(&s("n1"), 1, &vec![2, 3, 4]);
    assert_eq!(st.slice(&s("n1"), 0), vec![1, 2, 3, 4]);
}

#[test]
fn merging_twice_equals_merging_once() {
    let mut once = LogStore::new();
    once.register(s("n1"));
    once.append(s("n1"), 10);
    let mut twice = LogStore::new();
    twice.register(s("n1"));
    twice.append(s("n1"), 10);
    once.merge(&s("n1"), 0, &vec![10, 11, 12]);
    twice.merge(&s("n1"), 0, &vec![10, 11, 12]);
    twice.merge(&s("n1"), 0, &vec![10, 11, 12]);
    assert_eq!(once.slice(&s("n1"), 0), vec![10, 11, 12]);
    assert_eq!(twice.slice(&s("n1"), 0), once.slice(&s("n1"), 0));
    assert_eq!(twice.lengths(), once.lengths());
}

#[test]
fn lengths_never_shrink() {
    let mut st = LogStore::new();
    let o = s("n1");
    let mut last = 0usize;
    st.register(o.clone());
    for step in 0..6i64 {
        match step % 3 {
            0 => st.append(o.clone(), step),
            1 => st.merge(&o, 0, &vec![0]),
            _ => st.register(o.clone()),
        }
        let now = st.slice(&o, 0).len();
        assert!(now >= last);
        last = now;
    }
    assert_eq!(st.slice(&o, 0), vec![0, 3]);
}

#[test]
fn slice_past_the_end_is_empty() {
    let mut st = LogStore::new();
    st.append(s("n1"), 1);
    st.append(s("n1"), 2);
    st.append(s("n1"), 3);
    assert_eq!(st.slice(&s("n1"), 1), vec![2, 3]);
    assert_eq!(st.slice(&s("n1"), 3), Vec::<i64>::new());
    assert_eq!(st.slice(&s("n1"), 5), Vec::<i64>::new());
    assert_eq!(st.slice(&s("n9"), 0), Vec::<i64>::new());
}

#[test]
fn merge_skips_unknown_origin_and_gap() {
    let mut st = LogStore::new();
    st.register(s("n1"));
    st.merge(&s("n2"), 0, &vec![1]);
    assert_eq!(st.lengths(), vec![(s("n1"), 0)]);
    st.merge(&s("n1"), 2, &vec![5, 6]);
    assert_eq!(st.slice(&s("n1"), 0), Vec::<i64>::new());
    st.merge(&s("n1"), 0, &vec![5, 6]);
    st.merge(&s("n1"), 1, &vec![6]);
    assert_eq!(st.slice(&s("n1"), 0), vec![5, 6]);
}

#[test]
fn register_keeps_an_existing_log() {
    let mut st = LogStore::new();
    st.append(s("n1"), 4);
    st.register(s("n1"));
    st.register(s("n2"));
    assert_eq!(st.lengths(), vec![(s("n1"), 1), (s("n2"), 0)]);
    assert_eq!(st.read_all(), vec![4]);
}
