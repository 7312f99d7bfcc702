//! Request kinds and the bodies that peers exchange.
use vstd::prelude::*;
use vstd::string::StringExecFns;

verus! {

/// The kinds of request that a client may send.
#[derive(Copy, Clone, PartialEq, Eq, Debug, Structural)]
pub enum ClientReq {
    Echo,
    Generate,
    Broadcast,
    Read,
    Topology,
}

/// The name of a client request kind.
pub open spec fn client_req_name(k: ClientReq) -> Seq<char> {
    match k {
        ClientReq::Echo => "echo"@,
        ClientReq::Generate => "generate"@,
        ClientReq::Broadcast => "broadcast"@,
        ClientReq::Read => "read"@,
        ClientReq::Topology => "topology"@,
    }
}

/// The client request kind named by `s`, if any.
pub open spec fn client_req_of(s: Seq<char>) -> Option<ClientReq> {
    if s == "echo"@ {
        Some(ClientReq::Echo)
    } else if s == "generate"@ {
        Some(ClientReq::Generate)
    } else if s == "broadcast"@ {
        Some(ClientReq::Broadcast)
    } else if s == "read"@ {
        Some(ClientReq::Read)
    } else if s == "topology"@ {
        Some(ClientReq::Topology)
    } else {
        None
    }
}

/// Whether `r` is what reading the request kind `s` gives.
pub open spec fn parsed_as(s: Seq<char>, r: Result<ClientReq, String>) -> bool {
    match client_req_of(s) {
        Some(k) => r == Ok::<ClientReq, String>(k),
        None => r is Err && r->Err_0@ == "Unsupported client request: "@ + s,
    }
}

/// Each client request kind is read back from its own name.
pub proof fn lemma_client_req_names(k: ClientReq)
    ensures
        client_req_of(client_req_name(k)) == Some(k),
{
    reveal_strlit("echo");
    reveal_strlit("generate");
    reveal_strlit("broadcast");
    reveal_strlit("read");
    reveal_strlit("topology");
    assert("echo"@.len() == 4);
    assert("generate"@.len() == 8);
    assert("broadcast"@.len() == 9);
    assert("read"@.len() == 4);
    assert("topology"@.len() == 8);
    assert("echo"@[0] != "read"@[0]);
    assert("generate"@[0] != "topology"@[0]);
}

/// Equality of two string slices, by their characters.
fn same_text(a: &str, b: &str) -> (r: bool)
    ensures
        r == (a@ == b@),
{
    a.to_owned() == b.to_owned()
}

impl ClientReq {
    /// Reads a request kind; an unknown kind yields a message that names it.
    pub fn parse(s: &str) -> (r: Result<ClientReq, String>)
        ensures
            parsed_as(s@, r),
    {
        if same_text(s, "echo") {
            Ok(ClientReq::Echo)
        } else if same_text(s, "generate") {
            Ok(ClientReq::Generate)
        } else if same_text(s, "broadcast") {
            Ok(ClientReq::Broadcast)
        } else if same_text(s, "read") {
            Ok(ClientReq::Read)
        } else if same_text(s, "topology") {
            Ok(ClientReq::Topology)
        } else {
            Err(String::from_str("Unsupported client request: ").concat(s))
        }
    }
}

impl ClientReq {
    /// The kind's name on the wire.
    pub fn as_str(self) -> (r: &'static str)
        ensures
            r@ == client_req_name(self),
    {
        match self {
            ClientReq::Echo => "echo",
            ClientReq::Generate => "generate",
            ClientReq::Broadcast => "broadcast",
            ClientReq::Read => "read",
            ClientReq::Topology => "topology",
        }
    }
}

impl<'a> TryFrom<&'a str> for ClientReq {
    type Error = String;

    fn try_from(s: &'a str) -> (r: Result<ClientReq, String>)
        ensures
            parsed_as(s@, r),
    {
        ClientReq::parse(s)
    }
}

impl<'a> vstd::std_specs::convert::TryFromSpecImpl<&'a str> for ClientReq {
    /// The error message is pinned down by its characters only, so the
    /// result is described by `parsed_as` rather than by a single value.
    open spec fn obeys_try_from_spec() -> bool {
        false
    }

    open spec fn try_from_spec(v: &'a str) -> Result<ClientReq, String> {
        choose|r: Result<ClientReq, String>| parsed_as(v@, r)
    }
}

/// A broadcast request: the value to add to the cluster.
pub struct BroadcastCReq {
    pub message: i64,
}

/// A topology request: each node's assigned neighbours, as pairs of a node
/// and its neighbour list.
pub struct TopologyCReq {
    pub topology: Vec<(String, Vec<String>)>,
}

impl TopologyCReq {
    /// The topology as pairs of a node and its neighbours.
    pub open spec fn topology_view(&self) -> Seq<(Seq<char>, Seq<Seq<char>>)> {
        self.topology@.map_values(
            |p: (String, Vec<String>)| (p.0@, p.1@.map_values(|s: String| s@)),
        )
    }
}

/// The kinds of message that peers exchange.
#[derive(Copy, Clone, PartialEq, Eq, Debug, Structural)]
pub enum ClusterMsg {
    FetchReq,
    FetchResp,
}

/// The name of a peer message kind.
pub open spec fn cluster_msg_name(k: ClusterMsg) -> Seq<char> {
    match k {
        ClusterMsg::FetchReq => "fetch_req"@,
        ClusterMsg::FetchResp => "fetch_resp"@,
    }
}

/// The peer message kind named by `s`, if any.
pub open spec fn cluster_msg_of(s: Seq<char>) -> Option<ClusterMsg> {
    if s == "fetch_req"@ {
        Some(ClusterMsg::FetchReq)
    } else if s == "fetch_resp"@ {
        Some(ClusterMsg::FetchResp)
    } else {
        None
    }
}

/// Each peer message kind is read back from its own name.
pub proof fn lemma_cluster_msg_names(k: ClusterMsg)
    ensures
        cluster_msg_of(cluster_msg_name(k)) == Some(k),
{
    reveal_strlit("fetch_req");
    reveal_strlit("fetch_resp");
    assert("fetch_req"@.len() != "fetch_resp"@.len());
}

impl ClusterMsg {
    /// Reads a peer message kind; `None` for a kind that peers do not send.
    pub fn parse(s: &str) -> (r: Option<ClusterMsg>)
        ensures
            r == cluster_msg_of(s@),
    {
        if same_text(s, "fetch_req") {
            Some(ClusterMsg::FetchReq)
        } else if same_text(s, "fetch_resp") {
            Some(ClusterMsg::FetchResp)
        } else {
            None
        }
    }

    /// The kind's name on the wire.
    pub fn as_str(self) -> (r: &'static str)
        ensures
            r@ == cluster_msg_name(self),
    {
        match self {
            ClusterMsg::FetchReq => "fetch_req",
            ClusterMsg::FetchResp => "fetch_resp",
        }
    }
}

/// A pull request: for each origin, how many of its entries the sender has.
pub struct FetchReqBody {
    pub typ: String,
    pub offsets: Vec<(String, usize)>,
}

impl FetchReqBody {
    /// The offsets as (origin, count) pairs.
    pub open spec fn offsets_view(&self) -> Seq<(Seq<char>, usize)> {
        self.offsets@.map_values(|p: (String, usize)| (p.0@, p.1))
    }
}

impl Default for FetchReqBody {
    fn default() -> (r: FetchReqBody)
        ensures
            r.typ@ == "fetch_req"@,
            r.offsets@.len() == 0,
    {
        FetchReqBody { typ: String::from_str("fetch_req"), offsets: Vec::new() }
    }
}

/// The entries of one origin that a pull request lacked: they start at
/// position `offset` of the origin's log.
pub struct FetchRespEntry {
    pub offset: usize,
    pub messages: Vec<i64>,
}

/// The answer to a pull request, as pairs of an origin and its entry.
pub struct FetchRespBody {
    pub typ: String,
    pub messages: Vec<(String, FetchRespEntry)>,
}

impl FetchRespBody {
    /// The entries as (origin, offset, values) triples.
    pub open spec fn entries_view(&self) -> Seq<(Seq<char>, usize, Seq<i64>)> {
        self.messages@.map_values(
            |p: (String, FetchRespEntry)| (p.0@, p.1.offset, p.1.messages@),
        )
    }
}

impl Default for FetchRespBody {
    fn default() -> (r: FetchRespBody)
        ensures
            r.typ@ == "fetch_resp"@,
            r.messages@.len() == 0,
    {
        FetchRespBody { typ: String::from_str("fetch_resp"), messages: Vec::new() }
    }
}

} // verus!
