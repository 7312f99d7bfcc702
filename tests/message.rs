use gossip_broadcast::message::{ClientReq, ClusterMsg, FetchReqBody, FetchRespBody};

#[test]
fn test_converting_str_to_creq() {
    assert_eq!(ClientReq::Echo, "echo".try_into().unwrap());
    assert_eq!(ClientReq::Generate, "generate".try_into().unwrap());
    assert_eq!(ClientReq::Broadcast, "broadcast".try_into().unwrap());
    assert_eq!(ClientReq::Read, "read".try_into().unwrap());
    assert_eq!(ClientReq::Topology, "topology".try_into().unwrap());
}

#[test]
fn unknown_client_kind_is_an_error_naming_it() {
    let r: Result<ClientReq, String> = "cas".try_into();
    assert_eq!(r, Err("Unsupported client request: cas".to_string()));
    assert_eq!(
        ClientReq::parse(""),
        Err("Unsupported client request: ".to_string())
    );
}

#[test]
fn client_kind_names_round_trip() {
    for k in [
        ClientReq::Echo,
        ClientReq::Generate,
        ClientReq::Broadcast,
        ClientReq::Read,
        ClientReq::Topology,
    ] {
        assert_eq!(ClientReq::parse(k.as_str()), Ok(k));
    }
    assert_eq!(ClientReq::Broadcast.as_str(), "broadcast");
}

#[test]
fn cluster_kinds_parse_and_print() {
    assert_eq!(ClusterMsg::parse("fetch_req"), Some(ClusterMsg::FetchReq));
    assert_eq!(ClusterMsg::parse("fetch_resp"), Some(ClusterMsg::FetchResp));
    assert_eq!(ClusterMsg::parse("fetch"), None);
    assert_eq!(ClusterMsg::FetchReq.as_str(), "fetch_req");
    assert_eq!(ClusterMsg::FetchResp.as_str(), "fetch_resp");
}

#[test]
fn default_bodies_carry_their_kind() {
    let q = FetchReqBody::default();
    assert_eq!(q.typ, "fetch_req");
    assert!(q.offsets.is_empty());
    let p = FetchRespBody::default();
    assert_eq!(p.typ, "fetch_resp");
    assert!(p.messages.is_empty());
}
