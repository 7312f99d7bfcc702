use gossip_broadcast::ids::generate_id;
use gossip_broadcast::message::{
    BroadcastCReq, FetchReqBody, FetchRespBody, FetchRespEntry, TopologyCReq,
};
use gossip_broadcast::node::{Node, TopologyError};

fn s(x: &str) -> String {
    x.to_string()
}

fn pair_topology() -> TopologyCReq {
    TopologyCReq {
        topology: vec![(s("n1"), vec![s("n2")]), (s("n2"), vec![s("n1")])],
    }
}

fn pair() -> (Node, Node) {
    let mut n1 = Node::new(s("n1"));
    let mut n2 = Node::new(s("n2"));
    assert_eq!(n1.install_topology(&pair_topology()), Ok(()));
    assert_eq!(n2.install_topology(&pair_topology()), Ok(()));
    (n1, n2)
}

/// One gossip exchange: `to` pulls from `from`.
fn pull(to: &mut Node, from: &Node) {
    let req = to.gossip_request();
    let resp = from.respond_fetch(&req);
    to.apply_fetch(&resp);
}

fn sorted(mut v: Vec<i64>) -> Vec<i64> {
    v.sort();
    v
}

#[test]
fn broadcast_reaches_neighbour_after_one_tick() {
    let (mut n1, mut n2) = pair();
    n1.broadcast(&BroadcastCReq { message: 5 });
    assert_eq!(n1.read(), vec![5]);
    assert_eq!(n2.read(), Vec::<i64>::new());
    pull(&mut n2, &n1);
    assert_eq!(n2.read(), vec![5]);
}

#[test]
fn concurrent_broadcasts_converge() {
    let (mut n1, mut n2) = pair();
    n1.broadcast(&BroadcastCReq { message: 5 });
    n2.broadcast(&BroadcastCReq { message: 9 });
    pull(&mut n1, &n2);
    pull(&mut n2, &n1);
    assert_eq!(sorted(n1.read()), vec![5, 9]);
    assert_eq!(sorted(n2.read()), vec![5, 9]);
    pull(&mut n1, &n2);
    pull(&mut n2, &n1);
    assert_eq!(sorted(n1.read()), vec![5, 9]);
    assert_eq!(sorted(n2.read()), vec![5, 9]);
}

#[test]
fn fetch_response_merge_is_idempotent() {
    let (_, mut n2) = pair();
    let resp = FetchRespBody {
        typ: s("fetch_resp"),
        messages: vec![(
            s("n1"),
            FetchRespEntry {
                offset: 0,
                messages: vec![7, 8],
            },
        )],
    };
    n2.apply_fetch(&resp);
    assert_eq!(n2.log_store().slice(&s("n1"), 0), vec![7, 8]);
    n2.apply_fetch(&resp);
    assert_eq!(n2.log_store().slice(&s("n1"), 0).len(), 2);
    assert_eq!(n2.log_store().slice(&s("n1"), 0), vec![7, 8]);
}

#[test]
fn responder_omits_origin_when_requester_is_ahead() {
    let (mut n1, _) = pair();
    for v in [1, 2, 3] {
        n1.broadcast(&BroadcastCReq { message: v });
    }
    let mut req = FetchReqBody::default();
    req.offsets.push((s("n1"), 5));
    let resp = n1.respond_fetch(&req);
    assert_eq!(resp.typ, "fetch_resp");
    assert!(resp.messages.is_empty());
    let mut req = FetchReqBody::default();
    req.offsets.push((s("n1"), 3));
    req.offsets.push((s("n7"), 0));
    assert!(n1.respond_fetch(&req).messages.is_empty());
    let mut req = FetchReqBody::default();
    req.offsets.push((s("n1"), 1));
    let resp = n1.respond_fetch(&req);
    assert_eq!(resp.messages.len(), 1);
    assert_eq!(resp.messages[0].0, "n1");
    assert_eq!(resp.messages[0].1.offset, 1);
    assert_eq!(resp.messages[0].1.messages, vec![2, 3]);
}

#[test]
fn gossip_request_leaves_out_own_origin() {
    let (mut n1, _) = pair();
    n1.broadcast(&BroadcastCReq { message: 1 });
    let req = n1.gossip_request();
    assert_eq!(req.typ, "fetch_req");
    assert_eq!(req.offsets, vec![(s("n2"), 0)]);
    assert_eq!(n1.neighbor_list(), vec![s("n2")]);
}

#[test]
fn topology_without_own_entry_is_refused() {
    let mut n3 = Node::new(s("n3"));
    n3.broadcast(&BroadcastCReq { message: 4 });
    assert_eq!(
        n3.install_topology(&pair_topology()),
        Err(TopologyError::MissingOwnEntry)
    );
    assert!(n3.neighbor_list().is_empty());
    assert_eq!(n3.log_store().lengths(), vec![(s("n3"), 1)]);
}

#[test]
fn reinstalling_topology_replaces_neighbours_and_keeps_logs() {
    let (mut n1, _) = pair();
    n1.broadcast(&BroadcastCReq { message: 6 });
    let t = TopologyCReq {
        topology: vec![
            (s("n1"), vec![s("n3")]),
            (s("n2"), vec![]),
            (s("n3"), vec![s("n1")]),
        ],
    };
    assert_eq!(n1.install_topology(&t), Ok(()));
    assert_eq!(n1.neighbor_list(), vec![s("n3")]);
    assert_eq!(
        n1.log_store().lengths(),
        vec![(s("n1"), 1), (s("n2"), 0), (s("n3"), 0)]
    );
    assert_eq!(n1.read(), vec![6]);
}

#[test]
fn value_travels_along_a_line_of_peers() {
    let t = TopologyCReq {
        topology: vec![
            (s("a"), vec![s("b")]),
            (s("b"), vec![s("a"), s("c")]),
            (s("c"), vec![s("b")]),
        ],
    };
    let mut a = Node::new(s("a"));
    let mut b = Node::new(s("b"));
    let mut c = Node::new(s("c"));
    for n in [&mut a, &mut b, &mut c] {
        assert_eq!(n.install_topology(&t), Ok(()));
    }
    a.broadcast(&BroadcastCReq { message: 42 });
    pull(&mut c, &b);
    pull(&mut b, &a);
    assert_eq!(c.read(), Vec::<i64>::new());
    pull(&mut c, &b);
    assert_eq!(b.read(), vec![42]);
    assert_eq!(c.read(), vec![42]);
}

#[test]
fn generated_ids_are_hyphenated_uuids() {
    let a = generate_id();
    let b = generate_id();
    assert_eq!(a.len(), 36);
    for i in [8, 13, 18, 23] {
        assert_eq!(a.as_bytes()[i], b'-');
    }
    assert_ne!(a, b);
}
