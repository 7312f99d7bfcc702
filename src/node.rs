//! One peer: its own identity, the neighbours it pulls from, and its log
//! store, with the decisions of the client and peer protocols.
use vstd::prelude::*;
use crate::message::{BroadcastCReq, FetchReqBody, FetchRespBody, FetchRespEntry, TopologyCReq};
use crate::store::{
    concat_all, grows, lemma_grows_refl, lemma_grows_trans, lemma_merged_idempotent, log_of,
    merge_into, merged, prefix_of, slice_from, LogStore,
};

verus! {

/// Why a topology could not be installed.
#[derive(Copy, Clone, PartialEq, Eq, Debug, Structural)]
pub enum TopologyError {
    /// The topology assigns no neighbours to this node.
    MissingOwnEntry,
}

/// `m` after registering, one after the other, each origin of `keys`
/// that it does not know yet, with an empty log.
pub open spec fn with_registered(
    m: Map<Seq<char>, Seq<i64>>,
    keys: Seq<Seq<char>>,
) -> Map<Seq<char>, Seq<i64>>
    decreases keys.len(),
{
    if keys.len() == 0 {
        m
    } else {
        let prev = with_registered(m, keys.drop_last());
        if prev.contains_key(keys.last()) {
            prev
        } else {
            prev.insert(keys.last(), Seq::empty())
        }
    }
}

/// The offsets that a pull request carries: for each origin of `names`
/// other than `me`, in order, the length of its log in `m`.
pub open spec fn offsets_excluding(
    names: Seq<Seq<char>>,
    m: Map<Seq<char>, Seq<i64>>,
    me: Seq<char>,
) -> Seq<(Seq<char>, usize)>
    decreases names.len(),
{
    if names.len() == 0 {
        Seq::empty()
    } else {
        let prev = offsets_excluding(names.drop_last(), m, me);
        if names.last() == me {
            prev
        } else {
            prev.push((names.last(), m[names.last()].len() as usize))
        }
    }
}

/// The answer to a pull request with offsets `offs`, given the logs `m`:
/// for each requested origin, in order, the entries past the requested
/// offset, and nothing for an origin with none.
pub open spec fn response_for(
    m: Map<Seq<char>, Seq<i64>>,
    offs: Seq<(Seq<char>, usize)>,
) -> Seq<(Seq<char>, usize, Seq<i64>)>
    decreases offs.len(),
{
    if offs.len() == 0 {
        Seq::empty()
    } else {
        let prev = response_for(m, offs.drop_last());
        let p = offs.last();
        let s = slice_from(log_of(m, p.0), p.1 as int);
        if s.len() == 0 {
            prev
        } else {
            prev.push((p.0, p.1, s))
        }
    }
}

/// `m` after merging each entry of a pull answer, in order.
pub open spec fn apply_entries(
    m: Map<Seq<char>, Seq<i64>>,
    es: Seq<(Seq<char>, usize, Seq<i64>)>,
) -> Map<Seq<char>, Seq<i64>>
    decreases es.len(),
{
    if es.len() == 0 {
        m
    } else {
        let e = es.last();
        merge_into(apply_entries(m, es.drop_last()), e.0, e.1 as int, e.2)
    }
}

/// The nodes that topology `t` names, in order.
pub open spec fn keys_of(t: Seq<(Seq<char>, Seq<Seq<char>>)>) -> Seq<Seq<char>> {
    t.map_values(|p: (Seq<char>, Seq<Seq<char>>)| p.0)
}

/// Entry `i` of topology `t` is the first that belongs to node `me`.
pub open spec fn first_entry_of(t: Seq<(Seq<char>, Seq<Seq<char>>)>, me: Seq<char>, i: int) -> bool {
    &&& 0 <= i < t.len()
    &&& t[i].0 == me
    &&& forall|j: int| 0 <= j < i ==> t[j].0 != me
}

/// Copies a list of strings.
fn clone_strings(v: &Vec<String>) -> (r: Vec<String>)
    ensures
        r@.map_values(|s: String| s@) == v@.map_values(|s: String| s@),
{
    let mut r: Vec<String> = Vec::new();
    let mut i: usize = 0;
    while i < v.len()
        invariant
            i <= v@.len(),
            r@.len() == i,
            forall|j: int| 0 <= j < i ==> (#[trigger] r@[j])@ == v@[j]@,
        decreases v@.len() - i,
    {
        r.push(v[i].clone());
        i = i + 1;
    }
    assert(r@.map_values(|s: String| s@) =~= v@.map_values(|s: String| s@));
    r
}

/// Where the first entry of node `me` stands in a topology, if any.
fn find_entry(t: &Vec<(String, Vec<String>)>, me: &String) -> (r: Option<usize>)
    ensures
        match r {
            Some(i) => first_entry_of(
                t@.map_values(|p: (String, Vec<String>)| (p.0@, p.1@.map_values(|s: String| s@))),
                me@,
                i as int,
            ),
            None => forall|j: int| 0 <= j < t@.len() ==> (#[trigger] t@[j]).0@ != me@,
        },
{
    let mut i: usize = 0;
    while i < t.len()
        invariant
            i <= t@.len(),
            forall|j: int| 0 <= j < i ==> (#[trigger] t@[j]).0@ != me@,
        decreases t@.len() - i,
    {
        if t[i].0 == *me {
            return Some(i);
        }
        i = i + 1;
    }
    None
}

/// The logs of requester `b`, with origins `names`, after one pull from a
/// responder with logs `a`.
pub open spec fn after_pull(
    a: Map<Seq<char>, Seq<i64>>,
    names: Seq<Seq<char>>,
    b: Map<Seq<char>, Seq<i64>>,
    me: Seq<char>,
) -> Map<Seq<char>, Seq<i64>> {
    apply_entries(b, response_for(a, offsets_excluding(names, b, me)))
}

proof fn lemma_after_pull_step(
    a: Map<Seq<char>, Seq<i64>>,
    names: Seq<Seq<char>>,
    b: Map<Seq<char>, Seq<i64>>,
    me: Seq<char>,
)
    requires
        names.no_duplicates(),
        forall|i: int| 0 <= i < names.len() ==> b.contains_key(#[trigger] names[i]),
        forall|k: Seq<char>| #[trigger] b.contains_key(k) ==> b[k].len() <= usize::MAX,
    ensures
        after_pull(a, names, b, me).dom() == b.dom(),
        forall|o: Seq<char>|
            b.contains_key(o) && !names.contains(o) ==> #[trigger] after_pull(a, names, b, me)[o]
                == b[o],
        forall|o: Seq<char>|
            names.contains(o) && o != me && prefix_of(b[o], log_of(a, o)) ==> #[trigger] after_pull(
                a,
                names,
                b,
                me,
            )[o] == log_of(a, o),
        forall|o: Seq<char>|
            names.contains(o) && prefix_of(log_of(a, o), b[o]) ==> #[trigger] after_pull(
                a,
                names,
                b,
                me,
            )[o] == b[o],
    decreases names.len(),
{
    if names.len() == 0 {
        assert(after_pull(a, names, b, me) == b);
        assert(after_pull(a, names, b, me).dom() =~= b.dom());
    } else {
        let n = names.drop_last();
        let x = names.last();
        assert forall|i: int| 0 <= i < n.len() implies b.contains_key(#[trigger] n[i]) by {
            assert(n[i] == names[i]);
        }
        lemma_after_pull_step(a, n, b, me);
        let prev = after_pull(a, n, b, me);
        assert(!n.contains(x)) by {
            if n.contains(x) {
                let j = choose|j: int| 0 <= j < n.len() && n[j] == x;
                assert(names[j] == names[names.len() - 1]);
            }
        }
        assert(b.contains_key(x)) by {
            assert(names[names.len() - 1] == x);
        }
        assert(prev[x] == b[x]);
        assert forall|o: Seq<char>| names.contains(o) && o != x implies n.contains(o) by {
            let j = choose|j: int| 0 <= j < names.len() && names[j] == o;
            assert(n[j] == o);
        }
        assert forall|o: Seq<char>| n.contains(o) implies names.contains(o) by {
            let j = choose|j: int| 0 <= j < n.len() && n[j] == o;
            assert(names[j] == o);
        }
        let offs_n = offsets_excluding(n, b, me);
        let lx = b[x].len();
        let sx = slice_from(log_of(a, x), lx as int);
        if x == me {
            assert(offsets_excluding(names, b, me) == offs_n);
            assert(after_pull(a, names, b, me) == prev);
        } else {
            let offs = offs_n.push((x, lx as usize));
            assert(offsets_excluding(names, b, me) == offs);
            assert(offs.drop_last() =~= offs_n);
            let resp_n = response_for(a, offs_n);
            if sx.len() == 0 {
                assert(response_for(a, offs) == resp_n);
                assert(after_pull(a, names, b, me)[x] == b[x]);
                assert(after_pull(a, names, b, me) == prev);
                if prefix_of(b[x], log_of(a, x)) {
                    assert(b[x] =~= log_of(a, x));
                }
            } else {
                let resp = resp_n.push((x, lx as usize, sx));
                assert(response_for(a, offs) == resp);
                assert(resp.drop_last() =~= resp_n);
                assert(after_pull(a, names, b, me) == merge_into(prev, x, lx as int, sx));
                if prefix_of(b[x], log_of(a, x)) {
                    assert(merged(b[x], lx as int, sx) =~= log_of(a, x));
                }
                assert(!prefix_of(log_of(a, x), b[x]));
            }
        }
        assert(after_pull(a, names, b, me).dom() =~= b.dom());
    }
}

/// One gossip exchange brings the requester up to the responder: after a
/// node with origins `names` and logs `b` sends its pull request to a peer
/// with logs `a` and merges the answer, each origin other than itself
/// whose log was a prefix of the peer's holds exactly the peer's log, and
/// one whose log already extended the peer's is left as it was. So where
/// the two logs of an origin agree up to the shorter, the requester ends
/// with the longer, and repeated pulls along the neighbour graph carry
/// every entry one hop further per round. The requester keeps its origins
/// and its own log.
pub proof fn lemma_pull_catches_up(
    a: Map<Seq<char>, Seq<i64>>,
    names: Seq<Seq<char>>,
    b: Map<Seq<char>, Seq<i64>>,
    me: Seq<char>,
)
    requires
        names.no_duplicates(),
        forall|k: Seq<char>| b.contains_key(k) <==> names.contains(k),
        forall|k: Seq<char>| #[trigger] b.contains_key(k) ==> b[k].len() <= usize::MAX,
    ensures
        after_pull(a, names, b, me).dom() == b.dom(),
        grows(b, after_pull(a, names, b, me)),
        b.contains_key(me) ==> after_pull(a, names, b, me)[me] == b[me],
        forall|o: Seq<char>|
            b.contains_key(o) && prefix_of(log_of(a, o), b[o]) ==> #[trigger] after_pull(
                a,
                names,
                b,
                me,
            )[o] == b[o],
        forall|o: Seq<char>|
            b.contains_key(o) && o != me && prefix_of(b[o], log_of(a, o)) ==> #[trigger] after_pull(
                a,
                names,
                b,
                me,
            )[o] == log_of(a, o),
{
    assert forall|i: int| 0 <= i < names.len() implies b.contains_key(#[trigger] names[i]) by {
        assert(names.contains(names[i]));
    }
    lemma_after_pull_step(a, names, b, me);
    assert forall|o: Seq<char>|
        b.contains_key(o) && prefix_of(log_of(a, o), b[o]) implies #[trigger] after_pull(a, names, b, me)[o] == b[o] by {
        assert(names.contains(o));
    }
    lemma_apply_entries_grows(b, response_for(a, offsets_excluding(names, b, me)));
    if b.contains_key(me) {
        lemma_own_log_untouched(a, names, b, me);
    }
}

/// A value relayed along a path of peers reaches its end: peer 0 holds
/// the log `full` of origin `o`; each later peer `i`, whose log of `o` is
/// a prefix of `full` (as every replica's is of its origin's own log),
/// pulls from peer `i - 1` once that peer has pulled. Then every peer of
/// the path holds `full`: with the pulls of one gossip round per hop,
/// every entry reaches each peer within as many rounds as it is hops away.
pub proof fn lemma_relay(
    o: Seq<char>,
    full: Seq<i64>,
    before: Seq<Map<Seq<char>, Seq<i64>>>,
    names: Seq<Seq<Seq<char>>>,
    ids: Seq<Seq<char>>,
    after: Seq<Map<Seq<char>, Seq<i64>>>,
)
    requires
        before.len() >= 1,
        names.len() == before.len(),
        ids.len() == before.len(),
        after.len() == before.len(),
        after[0].contains_key(o),
        after[0][o] == full,
        forall|i: int|
            1 <= i < before.len() ==> {
                &&& (#[trigger] names[i]).no_duplicates()
                &&& forall|k: Seq<char>| before[i].contains_key(k) <==> names[i].contains(k)
                &&& forall|k: Seq<char>|
                    #[trigger] before[i].contains_key(k) ==> before[i][k].len() <= usize::MAX
                &&& before[i].contains_key(o)
                &&& ids[i] != o
                &&& prefix_of(before[i][o], full)
                &&& after[i] == after_pull(after[i - 1], names[i], before[i], ids[i])
            },
    ensures
        forall|i: int| 0 <= i < after.len() ==> (#[trigger] after[i]).contains_key(o) && after[i][o] == full,
    decreases before.len(),
{
    if before.len() > 1 {
        let n = (before.len() - 1) as int;
        lemma_relay(
            o,
            full,
            before.drop_last(),
            names.drop_last(),
            ids.drop_last(),
            after.drop_last(),
        );
        assert(after.drop_last()[n - 1] == after[n - 1]);
        assert(names[n].no_duplicates());
        lemma_pull_catches_up(after[n - 1], names[n], before[n], ids[n]);
        assert forall|i: int| 0 <= i < after.len() implies (#[trigger] after[i]).contains_key(o) && after[i][o] == full by {
            if i < n {
                assert(after.drop_last()[i] == after[i]);
            }
        }
    }
}

/// No two entries of `es` name the same origin.
pub open spec fn distinct_origins(es: Seq<(Seq<char>, usize, Seq<i64>)>) -> bool {
    forall|i: int, j: int| 0 <= i < j < es.len() ==> (#[trigger] es[i]).0 != (#[trigger] es[j]).0
}

/// With each origin named once, merging an answer treats each origin on
/// its own: its entry is merged into its log, and the others stay.
proof fn lemma_apply_entries_pointwise(
    m: Map<Seq<char>, Seq<i64>>,
    es: Seq<(Seq<char>, usize, Seq<i64>)>,
)
    requires
        distinct_origins(es),
    ensures
        apply_entries(m, es).dom() == m.dom(),
        forall|j: int|
            0 <= j < es.len() && m.contains_key(es[j].0) ==> #[trigger] apply_entries(m, es)[es[j].0]
                == merged(m[es[j].0], es[j].1 as int, es[j].2),
        forall|o: Seq<char>|
            m.contains_key(o) && (forall|j: int| 0 <= j < es.len() ==> (#[trigger] es[j]).0 != o)
                ==> #[trigger] apply_entries(m, es)[o] == m[o],
    decreases es.len(),
{
    if es.len() == 0 {
        assert(apply_entries(m, es).dom() =~= m.dom());
    } else {
        let n = es.drop_last();
        let e = es.last();
        assert forall|i: int, j: int| 0 <= i < j < n.len() implies (#[trigger] n[i]).0 != (#[trigger] n[j]).0 by {
            assert(n[i] == es[i] && n[j] == es[j]);
        }
        lemma_apply_entries_pointwise(m, n);
        let prev = apply_entries(m, n);
        assert forall|j: int| 0 <= j < n.len() implies (#[trigger] n[j]).0 != e.0 by {
            assert(n[j] == es[j]);
            assert(es[es.len() - 1] == e);
        }
        assert(apply_entries(m, es).dom() =~= m.dom());
        assert forall|j: int|
            0 <= j < es.len() && m.contains_key(es[j].0) implies #[trigger] apply_entries(m, es)[es[j].0]
                == merged(m[es[j].0], es[j].1 as int, es[j].2) by {
            if j < n.len() {
                assert(n[j] == es[j]);
            }
        }
        assert forall|o: Seq<char>|
            m.contains_key(o) && (forall|j: int| 0 <= j < es.len() ==> (#[trigger] es[j]).0 != o)
                implies #[trigger] apply_entries(m, es)[o] == m[o] by {
            assert forall|j: int| 0 <= j < n.len() implies (#[trigger] n[j]).0 != o by {
                assert(n[j] == es[j]);
            }
            assert(es[es.len() - 1] == e);
        }
    }
}

/// A pull request names each origin at most once, since the origins of a
/// store are distinct.
pub proof fn lemma_offsets_distinct(names: Seq<Seq<char>>, m: Map<Seq<char>, Seq<i64>>, me: Seq<char>)
    requires
        names.no_duplicates(),
    ensures
        forall|i: int, j: int|
            0 <= i < j < offsets_excluding(names, m, me).len() ==> (#[trigger] offsets_excluding(
                names,
                m,
                me,
            )[i]).0 != (#[trigger] offsets_excluding(names, m, me)[j]).0,
        forall|i: int|
            0 <= i < offsets_excluding(names, m, me).len() ==> names.contains(
                (#[trigger] offsets_excluding(names, m, me)[i]).0,
            ),
    decreases names.len(),
{
    if names.len() > 0 {
        let n = names.drop_last();
        assert forall|i: int, j: int| 0 <= i < j < n.len() implies n[i] != n[j] by {
            assert(n[i] == names[i] && n[j] == names[j]);
        }
        lemma_offsets_distinct(n, m, me);
        let prev = offsets_excluding(n, m, me);
        let cur = offsets_excluding(names, m, me);
        let x = names[names.len() - 1];
        assert(names.last() == x);
        assert forall|i: int| 0 <= i < prev.len() implies (#[trigger] prev[i]).0 != x by {
            let j = choose|j: int| 0 <= j < n.len() && n[j] == prev[i].0;
            assert(n[j] == names[j]);
        }
        assert forall|i: int| 0 <= i < cur.len() implies names.contains((#[trigger] cur[i]).0) by {
            if i < prev.len() {
                assert(cur[i] == prev[i]);
                let j = choose|j: int| 0 <= j < n.len() && n[j] == prev[i].0;
                assert(names[j] == n[j]);
            } else {
                assert(cur[i].0 == x);
                assert(names[names.len() - 1] == x);
            }
        }
        assert forall|i: int, j: int| 0 <= i < j < cur.len() implies (#[trigger] cur[i]).0 != (#[trigger] cur[j]).0 by {
            if j < prev.len() {
                assert(cur[i] == prev[i] && cur[j] == prev[j]);
            } else {
                assert(cur[i] == prev[i]);
            }
        }
    }
}

/// An answer names only origins that its request named, each as often as
/// the request did at most: a request that names each origin once gets an
/// answer that does too.
pub proof fn lemma_response_distinct(a: Map<Seq<char>, Seq<i64>>, offs: Seq<(Seq<char>, usize)>)
    requires
        forall|i: int, j: int| 0 <= i < j < offs.len() ==> (#[trigger] offs[i]).0 != (#[trigger] offs[j]).0,
    ensures
        distinct_origins(response_for(a, offs)),
        forall|i: int|
            0 <= i < response_for(a, offs).len() ==> exists|j: int|
                0 <= j < offs.len() && (#[trigger] response_for(a, offs)[i]).0 == offs[j].0,
    decreases offs.len(),
{
    if offs.len() > 0 {
        let n = offs.drop_last();
        assert forall|i: int, j: int| 0 <= i < j < n.len() implies (#[trigger] n[i]).0 != (#[trigger] n[j]).0 by {
            assert(n[i] == offs[i] && n[j] == offs[j]);
        }
        lemma_response_distinct(a, n);
        let prev = response_for(a, n);
        let cur = response_for(a, offs);
        let last = offs[offs.len() - 1];
        assert(offs.last() == last);
        assert forall|i: int| 0 <= i < prev.len() implies (#[trigger] prev[i]).0 != last.0 by {
            let j = choose|j: int| 0 <= j < n.len() && prev[i].0 == n[j].0;
            assert(n[j] == offs[j]);
        }
        assert forall|i: int|
            0 <= i < cur.len() implies exists|j: int| 0 <= j < offs.len() && (#[trigger] cur[i]).0 == offs[j].0 by {
            if i < prev.len() {
                assert(cur[i] == prev[i]);
                let j = choose|j: int| 0 <= j < n.len() && prev[i].0 == n[j].0;
                assert(n[j] == offs[j]);
            } else {
                assert(cur[i].0 == offs[offs.len() - 1].0);
            }
        }
        assert forall|i: int, j: int| 0 <= i < j < cur.len() implies (#[trigger] cur[i]).0 != (#[trigger] cur[j]).0 by {
            if j < prev.len() {
                assert(cur[i] == prev[i] && cur[j] == prev[j]);
            } else {
                assert(cur[i] == prev[i]);
            }
        }
    }
}

/// Merging the same answer twice, when it names each origin once, yields
/// the same logs as merging it once: a duplicated or re-delivered answer
/// changes nothing.
pub proof fn lemma_apply_entries_idempotent(
    m: Map<Seq<char>, Seq<i64>>,
    es: Seq<(Seq<char>, usize, Seq<i64>)>,
)
    requires
        distinct_origins(es),
    ensures
        apply_entries(apply_entries(m, es), es) == apply_entries(m, es),
{
    let once = apply_entries(m, es);
    let twice = apply_entries(once, es);
    lemma_apply_entries_pointwise(m, es);
    lemma_apply_entries_pointwise(once, es);
    assert forall|o: Seq<char>| #[trigger] twice.contains_key(o) implies twice[o] == once[o] by {
        if exists|j: int| 0 <= j < es.len() && es[j].0 == o {
            let j = choose|j: int| 0 <= j < es.len() && es[j].0 == o;
            lemma_merged_idempotent(m[o], es[j].1 as int, es[j].2);
        }
    }
    assert(twice =~= once);
}

/// Merging a pull answer only grows a store.
pub proof fn lemma_apply_entries_grows(
    m: Map<Seq<char>, Seq<i64>>,
    es: Seq<(Seq<char>, usize, Seq<i64>)>,
)
    ensures
        grows(m, apply_entries(m, es)),
    decreases es.len(),
{
    if es.len() == 0 {
        lemma_grows_refl(m);
    } else {
        let e = es.last();
        let prev = apply_entries(m, es.drop_last());
        lemma_apply_entries_grows(m, es.drop_last());
        if prev.contains_key(e.0) {
            let l = prev[e.0];
            assert(merged(l, e.1 as int, e.2).subrange(0, l.len() as int) =~= l);
            lemma_grows_refl(prev);
            assert(grows(prev, merge_into(prev, e.0, e.1 as int, e.2)));
        } else {
            lemma_grows_refl(prev);
        }
        lemma_grows_trans(m, prev, apply_entries(m, es));
    }
}

/// A pull request never names the requester itself, so the answer leaves
/// the requester's own log alone.
proof fn lemma_own_log_untouched(
    a: Map<Seq<char>, Seq<i64>>,
    names: Seq<Seq<char>>,
    b: Map<Seq<char>, Seq<i64>>,
    me: Seq<char>,
)
    requires
        b.contains_key(me),
    ensures
        after_pull(a, names, b, me)[me] == b[me],
{
    lemma_offsets_skip_me(names, b, me);
    lemma_response_keys(a, offsets_excluding(names, b, me), me);
    lemma_apply_skips(b, response_for(a, offsets_excluding(names, b, me)), me);
}

proof fn lemma_offsets_skip_me(names: Seq<Seq<char>>, b: Map<Seq<char>, Seq<i64>>, me: Seq<char>)
    ensures
        forall|i: int|
            0 <= i < offsets_excluding(names, b, me).len() ==> (#[trigger] offsets_excluding(
                names,
                b,
                me,
            )[i]).0 != me,
    decreases names.len(),
{
    if names.len() > 0 {
        let n = names.drop_last();
        lemma_offsets_skip_me(n, b, me);
        let prev = offsets_excluding(n, b, me);
        let cur = offsets_excluding(names, b, me);
        assert forall|i: int| 0 <= i < cur.len() implies (#[trigger] cur[i]).0 != me by {
            if i < prev.len() {
                assert(cur[i] == prev[i]);
            }
        }
    }
}

proof fn lemma_response_keys(a: Map<Seq<char>, Seq<i64>>, offs: Seq<(Seq<char>, usize)>, me: Seq<char>)
    requires
        forall|i: int| 0 <= i < offs.len() ==> (#[trigger] offs[i]).0 != me,
    ensures
        forall|i: int|
            0 <= i < response_for(a, offs).len() ==> (#[trigger] response_for(a, offs)[i]).0 != me,
    decreases offs.len(),
{
    if offs.len() > 0 {
        let n = offs.drop_last();
        assert forall|i: int| 0 <= i < n.len() implies (#[trigger] n[i]).0 != me by {
            assert(n[i] == offs[i]);
        }
        lemma_response_keys(a, n, me);
        assert(offs.last() == offs[offs.len() - 1]);
        let prev = response_for(a, n);
        let cur = response_for(a, offs);
        assert forall|i: int| 0 <= i < cur.len() implies (#[trigger] cur[i]).0 != me by {
            if i < prev.len() {
                assert(cur[i] == prev[i]);
            }
        }
    }
}

proof fn lemma_apply_skips(
    m: Map<Seq<char>, Seq<i64>>,
    es: Seq<(Seq<char>, usize, Seq<i64>)>,
    me: Seq<char>,
)
    requires
        m.contains_key(me),
        forall|i: int| 0 <= i < es.len() ==> (#[trigger] es[i]).0 != me,
    ensures
        apply_entries(m, es).contains_key(me),
        apply_entries(m, es)[me] == m[me],
    decreases es.len(),
{
    if es.len() > 0 {
        let n = es.drop_last();
        assert forall|i: int| 0 <= i < n.len() implies (#[trigger] n[i]).0 != me by {
            assert(n[i] == es[i]);
        }
        lemma_apply_skips(m, n, me);
        assert(es.last() == es[es.len() - 1]);
    }
}

/// A peer of the cluster.
pub struct Node {
    id: String,
    store: LogStore,
    nodes: Vec<String>,
    neighbors: Vec<String>,
}

impl Node {
    /// This node's identifier.
    pub closed spec fn id(&self) -> Seq<char> {
        self.id@
    }

    /// What this node knows of each origin's log.
    pub closed spec fn log(&self) -> Map<Seq<char>, Seq<i64>> {
        self.store@
    }

    /// The origins of the log, in the order of registration.
    pub closed spec fn origins(&self) -> Seq<Seq<char>> {
        self.store.origins()
    }

    /// The nodes that the installed topology names.
    pub closed spec fn nodes(&self) -> Seq<Seq<char>> {
        self.nodes@.map_values(|s: String| s@)
    }

    /// The nodes that this node pulls from.
    pub closed spec fn neighbors(&self) -> Seq<Seq<char>> {
        self.neighbors@.map_values(|s: String| s@)
    }

    /// The log store holds each origin once.
    pub closed spec fn wf(&self) -> bool {
        self.store.wf()
    }

    /// The origins are those of the log, each once.
    pub proof fn lemma_origins(&self)
        requires
            self.wf(),
        ensures
            self.origins().no_duplicates(),
            forall|k: Seq<char>| self.log().contains_key(k) <==> self.origins().contains(k),
    {
        self.store.lemma_origins();
    }

    /// A node with an empty log and no topology yet.
    pub fn new(id: String) -> (n: Node)
        ensures
            n.wf(),
            n.id() == id@,
            n.log() == Map::<Seq<char>, Seq<i64>>::empty(),
            n.origins() == Seq::<Seq<char>>::empty(),
            n.nodes() == Seq::<Seq<char>>::empty(),
            n.neighbors() == Seq::<Seq<char>>::empty(),
    {
        let n = Node { id, store: LogStore::new(), nodes: Vec::new(), neighbors: Vec::new() };
        assert(n.nodes() =~= Seq::<Seq<char>>::empty());
        assert(n.neighbors() =~= Seq::<Seq<char>>::empty());
        n
    }

    /// This node's identifier.
    pub fn node_id(&self) -> (r: &String)
        ensures
            r@ == self.id(),
    {
        &self.id
    }

    /// The log store, for reading.
    pub fn log_store(&self) -> (r: &LogStore)
        ensures
            r@ == self.log(),
            r.origins() == self.origins(),
            self.wf() ==> r.wf(),
    {
        &self.store
    }

    /// The nodes that this node pulls from.
    pub fn neighbor_list(&self) -> (r: Vec<String>)
        ensures
            r@.map_values(|s: String| s@) == self.neighbors(),
    {
        clone_strings(&self.neighbors)
    }

    /// Installs a topology: this node's neighbours become those that the
    /// topology assigns to it, and every node that it names gets an empty
    /// log unless it has one. A topology that assigns nothing to this node
    /// is refused and changes nothing.
    pub fn install_topology(&mut self, req: &TopologyCReq) -> (r: Result<(), TopologyError>)
        requires
            old(self).wf(),
        ensures
            final(self).wf(),
            final(self).id() == old(self).id(),
            grows(old(self).log(), final(self).log()),
            (r is Err) <==> (forall|j: int|
                0 <= j < req.topology_view().len() ==> (#[trigger] req.topology_view()[j]).0
                    != old(self).id()),
            r is Err ==> {
                &&& r == Err::<(), TopologyError>(TopologyError::MissingOwnEntry)
                &&& final(self).log() == old(self).log()
                &&& final(self).origins() == old(self).origins()
                &&& final(self).nodes() == old(self).nodes()
                &&& final(self).neighbors() == old(self).neighbors()
            },
            r is Ok ==> exists|i: int|
                first_entry_of(req.topology_view(), old(self).id(), i) && final(self).neighbors()
                    == req.topology_view()[i].1,
            r is Ok ==> final(self).nodes() == keys_of(req.topology_view()),
            r is Ok ==> final(self).log() == with_registered(
                old(self).log(),
                keys_of(req.topology_view()),
            ),
    {
        let ghost t = req.topology_view();
        proof {
            lemma_grows_refl(self.store@);
        }
        match find_entry(&req.topology, &self.id) {
            None => {
                assert forall|j: int| 0 <= j < t.len() implies (#[trigger] t[j]).0 != old(self).id() by {
                    assert(req.topology@[j].0@ != self.id@);
                }
                Err(TopologyError::MissingOwnEntry)
            },
            Some(i) => {
                self.neighbors = clone_strings(&req.topology[i].1);
                assert(first_entry_of(t, old(self).id(), i as int));
                assert(self.neighbors() == t[i as int].1);
                let ghost start = self.store@;
                let mut nodes: Vec<String> = Vec::new();
                let mut k: usize = 0;
                while k < req.topology.len()
                    invariant
                        self.wf(),
                        self.id() == old(self).id(),
                        t == req.topology_view(),
                        start == old(self).log(),
                        k <= t.len(),
                        nodes@.len() == k,
                        forall|j: int| 0 <= j < k ==> (#[trigger] nodes@[j])@ == t[j].0,
                        self.store@ == with_registered(start, keys_of(t).take(k as int)),
                        grows(start, self.store@),
                        first_entry_of(t, old(self).id(), i as int),
                        self.neighbors() == t[i as int].1,
                    decreases t.len() - k,
                {
                    let ghost before = self.store@;
                    nodes.push(req.topology[k].0.clone());
                    self.store.register(req.topology[k].0.clone());
                    proof {
                        lemma_grows_trans(start, before, self.store@);
                        assert(keys_of(t).take(k + 1).drop_last() =~= keys_of(t).take(k as int));
                    }
                    k = k + 1;
                }
                self.nodes = nodes;
                proof {
                    assert(keys_of(t).take(k as int) =~= keys_of(t));
                    assert(self.nodes() =~= keys_of(t));
                }
                assert(first_entry_of(t, old(self).id(), i as int) && self.neighbors() == t[i as int].1);
                Ok(())
            },
        }
    }

    /// Accepts a client's value: it is appended to this node's own log.
    pub fn broadcast(&mut self, req: &BroadcastCReq)
        requires
            old(self).wf(),
        ensures
            final(self).wf(),
            final(self).id() == old(self).id(),
            final(self).nodes() == old(self).nodes(),
            final(self).neighbors() == old(self).neighbors(),
            final(self).log() == old(self).log().insert(
                old(self).id(),
                log_of(old(self).log(), old(self).id()).push(req.message),
            ),
            grows(old(self).log(), final(self).log()),
    {
        let me = self.id.clone();
        self.store.append(me, req.message);
    }

    /// Every value this node knows of, origin after origin.
    pub fn read(&self) -> (r: Vec<i64>)
        requires
            self.wf(),
        ensures
            r@ == concat_all(self.origins().map_values(|o: Seq<char>| self.log()[o])),
            forall|v: i64|
                r@.contains(v) <==> exists|o: Seq<char>|
                    self.log().contains_key(o) && #[trigger] self.log()[o].contains(v),
    {
        let r = self.store.read_all();
        assert forall|v: i64|
            r@.contains(v) <==> exists|o: Seq<char>|
                self.log().contains_key(o) && #[trigger] self.log()[o].contains(v) by {
            if r@.contains(v) {
                let o = choose|o: Seq<char>| self.store@.contains_key(o) && #[trigger] self.store@[o].contains(v);
                assert(self.log()[o].contains(v));
            }
            if exists|o: Seq<char>| self.log().contains_key(o) && #[trigger] self.log()[o].contains(v) {
                let o = choose|o: Seq<char>| self.log().contains_key(o) && #[trigger] self.log()[o].contains(v);
                assert(self.store@[o].contains(v));
            }
        }
        r
    }
    /// The pull request of one gossip round: for each known origin other
    /// than this node, how many of its entries this node has. The same
    /// request goes to every neighbour.
    pub fn gossip_request(&self) -> (r: FetchReqBody)
        requires
            self.wf(),
        ensures
            r.typ@ == "fetch_req"@,
            r.offsets_view() == offsets_excluding(self.origins(), self.log(), self.id()),
    {
        let lens = self.store.lengths();
        let mut r = FetchReqBody::default();
        let ghost names = self.origins();
        let mut i: usize = 0;
        while i < lens.len()
            invariant
                self.wf(),
                names == self.origins(),
                lens@.len() == names.len(),
                forall|j: int|
                    0 <= j < lens@.len() ==> (#[trigger] lens@[j]).0@ == names[j] && lens@[j].1
                        == self.log()[names[j]].len(),
                i <= lens@.len(),
                r.typ@ == "fetch_req"@,
                r.offsets_view() == offsets_excluding(names.take(i as int), self.log(), self.id()),
            decreases lens@.len() - i,
        {
            let p = &lens[i];
            let ghost before = r.offsets_view();
            proof {
                assert(names.take(i + 1).drop_last() =~= names.take(i as int));
            }
            if p.0 != self.id {
                r.offsets.push((p.0.clone(), p.1));
                assert(r.offsets_view() =~= before.push((names[i as int], self.log()[names[i as int]].len() as usize)));
            }
            i = i + 1;
        }
        assert(names.take(i as int) =~= names);
        r
    }

    /// The answer to a peer's pull request: for each origin that it names,
    /// the entries past the offset that it gives; an origin with nothing
    /// new, or one that this node does not know, is left out.
    pub fn respond_fetch(&self, req: &FetchReqBody) -> (r: FetchRespBody)
        requires
            self.wf(),
        ensures
            r.typ@ == "fetch_resp"@,
            r.entries_view() == response_for(self.log(), req.offsets_view()),
    {
        let mut r = FetchRespBody::default();
        let ghost offs = req.offsets_view();
        let mut i: usize = 0;
        while i < req.offsets.len()
            invariant
                self.wf(),
                offs == req.offsets_view(),
                i <= offs.len(),
                r.typ@ == "fetch_resp"@,
                r.entries_view() == response_for(self.log(), offs.take(i as int)),
            decreases offs.len() - i,
        {
            let p = &req.offsets[i];
            let ghost before = r.entries_view();
            proof {
                assert(offs.take(i + 1).drop_last() =~= offs.take(i as int));
            }
            let values = self.store.slice(&p.0, p.1);
            if values.len() > 0 {
                let ghost vs = values@;
                r.messages.push((p.0.clone(), FetchRespEntry { offset: p.1, messages: values }));
                assert(r.entries_view() =~= before.push((offs[i as int].0, offs[i as int].1, vs)));
            }
            i = i + 1;
        }
        assert(offs.take(i as int) =~= offs);
        r
    }

    /// Merges a peer's answer, entry by entry, into the log.
    pub fn apply_fetch(&mut self, resp: &FetchRespBody)
        requires
            old(self).wf(),
        ensures
            final(self).wf(),
            final(self).id() == old(self).id(),
            final(self).nodes() == old(self).nodes(),
            final(self).neighbors() == old(self).neighbors(),
            final(self).log() == apply_entries(old(self).log(), resp.entries_view()),
            grows(old(self).log(), final(self).log()),
    {
        let ghost es = resp.entries_view();
        proof {
            lemma_grows_refl(self.store@);
        }
        let mut i: usize = 0;
        while i < resp.messages.len()
            invariant
                self.wf(),
                self.id() == old(self).id(),
                self.nodes() == old(self).nodes(),
                self.neighbors() == old(self).neighbors(),
                es == resp.entries_view(),
                i <= es.len(),
                self.log() == apply_entries(old(self).log(), es.take(i as int)),
                grows(old(self).log(), self.log()),
            decreases es.len() - i,
        {
            let p = &resp.messages[i];
            let ghost before = self.store@;
            proof {
                assert(es.take(i + 1).drop_last() =~= es.take(i as int));
            }
            self.store.merge(&p.0, p.1.offset, &p.1.messages);
            proof {
                lemma_grows_trans(old(self).log(), before, self.store@);
            }
            i = i + 1;
        }
        assert(es.take(i as int) =~= es);
    }
}

} // verus!
