//! The local log store: for each origin, the append-only sequence of the
//! entries that origin accepted, as far as this peer knows them.
use vstd::prelude::*;

verus! {

/// The log recorded for origin `o` in `m`; empty for an origin not in `m`.
pub open spec fn log_of(m: Map<Seq<char>, Seq<i64>>, o: Seq<char>) -> Seq<i64> {
    if m.contains_key(o) {
        m[o]
    } else {
        Seq::empty()
    }
}

/// The entries of `l` at positions `from` and after; empty when `from`
/// is at or past the end.
pub open spec fn slice_from(l: Seq<i64>, from: int) -> Seq<i64> {
    if 0 <= from < l.len() {
        l.subrange(from, l.len() as int)
    } else {
        Seq::empty()
    }
}

/// `l` after merging `values`, which stand at positions `offset` and after
/// of the origin's log: only the unseen tail is appended. An offset past the
/// end of `l` would leave a gap, so it changes nothing.
pub open spec fn merged(l: Seq<i64>, offset: int, values: Seq<i64>) -> Seq<i64> {
    if offset <= l.len() && offset + values.len() > l.len() {
        l + values.subrange(l.len() - offset, values.len() as int)
    } else {
        l
    }
}

/// `m` after merging `values` at `offset` into the log of `o`; an origin
/// that `m` does not know is skipped.
pub open spec fn merge_into(
    m: Map<Seq<char>, Seq<i64>>,
    o: Seq<char>,
    offset: int,
    values: Seq<i64>,
) -> Map<Seq<char>, Seq<i64>> {
    if m.contains_key(o) {
        m.insert(o, merged(m[o], offset, values))
    } else {
        m
    }
}

/// `a` is a prefix of `b`.
pub open spec fn prefix_of(a: Seq<i64>, b: Seq<i64>) -> bool {
    a.len() <= b.len() && b.subrange(0, a.len() as int) == a
}

/// Every origin of `old` is still in `new`, and its log has only grown:
/// nothing was removed, rewritten or reordered.
pub open spec fn grows(old: Map<Seq<char>, Seq<i64>>, new: Map<Seq<char>, Seq<i64>>) -> bool {
    forall|o: Seq<char>|
        #[trigger] old.contains_key(o) ==> new.contains_key(o) && prefix_of(old[o], new[o])
}

/// The logs of `s`, one after the other.
pub open spec fn concat_all(s: Seq<Seq<i64>>) -> Seq<i64>
    decreases s.len(),
{
    if s.len() == 0 {
        Seq::empty()
    } else {
        concat_all(s.drop_last()) + s.last()
    }
}

/// A store grows from itself.
pub proof fn lemma_grows_refl(m: Map<Seq<char>, Seq<i64>>)
    ensures
        grows(m, m),
{
    assert forall|o: Seq<char>| #[trigger] m.contains_key(o) implies prefix_of(m[o], m[o]) by {
        assert(m[o].subrange(0, m[o].len() as int) =~= m[o]);
    }
}

/// Adding an origin that was not there is growth.
proof fn lemma_grows_insert_new(m: Map<Seq<char>, Seq<i64>>, o: Seq<char>, l: Seq<i64>)
    requires
        !m.contains_key(o),
    ensures
        grows(m, m.insert(o, l)),
{
    lemma_grows_refl(m);
}

/// Extending the log of one origin is growth.
proof fn lemma_grows_extend(m: Map<Seq<char>, Seq<i64>>, o: Seq<char>, l: Seq<i64>)
    requires
        m.contains_key(o),
        prefix_of(m[o], l),
    ensures
        grows(m, m.insert(o, l)),
{
    lemma_grows_refl(m);
}

/// Growth is transitive: over any sequence of operations that each grow
/// the store, no origin's log ever shrinks or changes an entry.
pub proof fn lemma_grows_trans(
    a: Map<Seq<char>, Seq<i64>>,
    b: Map<Seq<char>, Seq<i64>>,
    c: Map<Seq<char>, Seq<i64>>,
)
    requires
        grows(a, b),
        grows(b, c),
    ensures
        grows(a, c),
{
    assert forall|o: Seq<char>| #[trigger] a.contains_key(o) implies c.contains_key(o) && prefix_of(a[o], c[o]) by {
        assert(b.contains_key(o));
        assert(c[o].subrange(0, a[o].len() as int) =~= c[o].subrange(0, b[o].len() as int).subrange(0, a[o].len() as int));
    }
}

/// Append-only: when a store grows, the full slice of every origin, its
/// whole log, is no shorter than before and keeps every earlier entry.
pub proof fn lemma_grows_lengths(a: Map<Seq<char>, Seq<i64>>, b: Map<Seq<char>, Seq<i64>>)
    requires
        grows(a, b),
    ensures
        forall|o: Seq<char>|
            #[trigger] slice_from(log_of(a, o), 0).len() <= slice_from(log_of(b, o), 0).len(),
        forall|o: Seq<char>| prefix_of(#[trigger] log_of(a, o), log_of(b, o)),
{
    assert forall|o: Seq<char>| prefix_of(#[trigger] log_of(a, o), log_of(b, o)) by {
        if a.contains_key(o) {
            assert(b.contains_key(o));
        } else {
            assert(log_of(b, o).subrange(0, 0) =~= log_of(a, o));
        }
    }
    assert forall|o: Seq<char>|
        #[trigger] slice_from(log_of(a, o), 0).len() <= slice_from(log_of(b, o), 0).len() by {
        assert(prefix_of(log_of(a, o), log_of(b, o)));
    }
}

/// Merging the same values at the same offset twice leaves a log as
/// merging them once does.
pub proof fn lemma_merged_idempotent(l: Seq<i64>, offset: int, values: Seq<i64>)
    requires
        0 <= offset,
    ensures
        merged(merged(l, offset, values), offset, values) == merged(l, offset, values),
{
}

/// Merging the same (origin, offset, values) into a store twice yields
/// the same store as merging it once.
pub proof fn lemma_merge_idempotent(
    m: Map<Seq<char>, Seq<i64>>,
    o: Seq<char>,
    offset: int,
    values: Seq<i64>,
)
    requires
        0 <= offset,
    ensures
        merge_into(merge_into(m, o, offset, values), o, offset, values) == merge_into(
            m,
            o,
            offset,
            values,
        ),
{
    if m.contains_key(o) {
        lemma_merged_idempotent(m[o], offset, values);
        assert(merge_into(merge_into(m, o, offset, values), o, offset, values) =~= merge_into(
            m,
            o,
            offset,
            values,
        ));
    }
}

/// Overlapping deliveries do not duplicate: when `values` agree with `l`
/// where the two overlap and start no later than its end, the merge is
/// `l` extended so that `values` stand exactly at positions `offset` on;
/// a delivery that ends within `l` leaves it as it is.
pub proof fn lemma_merged_overlap(l: Seq<i64>, offset: int, values: Seq<i64>)
    requires
        0 <= offset <= l.len(),
        forall|j: int| 0 <= j < values.len() && offset + j < l.len() ==> values[j] == l[offset + j],
    ensures
        offset + values.len() > l.len() ==> {
            let r = merged(l, offset, values);
            &&& r.len() == offset + values.len()
            &&& r.subrange(0, l.len() as int) == l
            &&& r.subrange(offset, r.len() as int) == values
        },
        offset + values.len() <= l.len() ==> merged(l, offset, values) == l,
{
    if offset + values.len() > l.len() {
        let r = merged(l, offset, values);
        assert(r.subrange(0, l.len() as int) =~= l);
        assert(r.subrange(offset, r.len() as int) =~= values);
    }
}

/// Per-origin logs, in the order in which their origins were registered.
pub struct LogStore {
    origins: Vec<String>,
    logs: Vec<Vec<i64>>,
}

impl View for LogStore {
    type V = Map<Seq<char>, Seq<i64>>;

    closed spec fn view(&self) -> Map<Seq<char>, Seq<i64>> {
        Map::new(
            |k: Seq<char>| self.origins().contains(k),
            |k: Seq<char>| self.logs@[self.origins().index_of(k)]@,
        )
    }
}

impl LogStore {
    /// The known origins, in the order of registration.
    pub closed spec fn origins(&self) -> Seq<Seq<char>> {
        self.origins@.map_values(|s: String| s@)
    }

    /// Each origin is held once, beside its log.
    pub closed spec fn wf(&self) -> bool {
        &&& self.origins@.len() == self.logs@.len()
        &&& self.origins().no_duplicates()
    }

    /// The logs in the order of `origins`.
    pub open spec fn logs_in_order(&self) -> Seq<Seq<i64>> {
        self.origins().map_values(|o: Seq<char>| self@[o])
    }

    /// `origins` lists the store's origins, each once.
    pub proof fn lemma_origins(&self)
        requires
            self.wf(),
        ensures
            self.origins().no_duplicates(),
            forall|k: Seq<char>| self@.contains_key(k) <==> self.origins().contains(k),
    {
    }

    proof fn lemma_view_at(&self, i: int)
        requires
            self.wf(),
            0 <= i < self.origins().len(),
        ensures
            self@.contains_key(self.origins()[i]),
            self@[self.origins()[i]] == self.logs@[i]@,
    {
        let k = self.origins()[i];
        assert(self.origins().contains(k));
        let j = self.origins().index_of(k);
        assert(self.origins()[j] == k);
    }

    proof fn lemma_update_one(prev: LogStore, cur: LogStore, i: int)
        requires
            prev.wf(),
            cur.origins@ == prev.origins@,
            cur.logs@.len() == prev.logs@.len(),
            0 <= i < prev.logs@.len(),
            forall|j: int| 0 <= j < prev.logs@.len() && j != i ==> cur.logs@[j] == prev.logs@[j],
        ensures
            cur.wf(),
            cur.origins() == prev.origins(),
            cur@ == prev@.insert(prev.origins()[i], cur.logs@[i]@),
    {
        assert(cur.origins() =~= prev.origins());
        assert forall|k: Seq<char>| #[trigger] cur@.contains_key(k) implies prev@.contains_key(k) && cur@[k] == (if k == prev.origins()[i] {
            cur.logs@[i]@
        } else {
            prev@[k]
        }) by {
            let j = choose|j: int| 0 <= j < cur.origins().len() && cur.origins()[j] == k;
            cur.lemma_view_at(j);
            prev.lemma_view_at(j);
        }
        assert forall|k: Seq<char>| #[trigger] prev@.contains_key(k) implies cur@.contains_key(k) by {
            let j = choose|j: int| 0 <= j < prev.origins().len() && prev.origins()[j] == k;
            cur.lemma_view_at(j);
        }
        prev.lemma_view_at(i);
        assert(cur@ =~= prev@.insert(prev.origins()[i], cur.logs@[i]@));
    }

    /// An empty store.
    pub fn new() -> (s: LogStore)
        ensures
            s.wf(),
            s@ == Map::<Seq<char>, Seq<i64>>::empty(),
            s.origins() == Seq::<Seq<char>>::empty(),
    {
        let s = LogStore { origins: Vec::new(), logs: Vec::new() };
        assert(s@ =~= Map::<Seq<char>, Seq<i64>>::empty());
        assert(s.origins() =~= Seq::<Seq<char>>::empty());
        s
    }

    /// Where origin `o` stands, if it is known.
    fn find(&self, o: &String) -> (r: Option<usize>)
        requires
            self.wf(),
        ensures
            match r {
                Some(i) => i < self.origins().len() && self.origins()[i as int] == o@,
                None => !self.origins().contains(o@),
            },
    {
        let mut i: usize = 0;
        while i < self.origins.len()
            invariant
                self.wf(),
                i <= self.origins@.len(),
                forall|j: int| 0 <= j < i ==> self.origins()[j] != o@,
            decreases self.origins@.len() - i,
        {
            if self.origins[i] == *o {
                return Some(i);
            }
            i = i + 1;
        }
        None
    }

    /// Adds origin `o` with an empty log, unless it is already known.
    pub fn register(&mut self, o: String)
        requires
            old(self).wf(),
        ensures
            final(self).wf(),
            final(self)@ == (if old(self)@.contains_key(o@) {
                old(self)@
            } else {
                old(self)@.insert(o@, Seq::empty())
            }),
            grows(old(self)@, final(self)@),
    {
        match self.find(&o) {
            Some(_) => {
                assert(self@.contains_key(o@));
                proof {
                    lemma_grows_refl(self@);
                }
            },
            None => {
                let ghost prev = *self;
                self.origins.push(o);
                self.logs.push(Vec::new());
                assert(self.origins() =~= prev.origins().push(o@));
                assert forall|j: int| 0 <= j < prev.origins().len() implies #[trigger] self.origins()[j] != o@ by {
                    assert(prev.origins().contains(prev.origins()[j]));
                }
                assert forall|k: Seq<char>| #[trigger] self@.contains_key(k) && k != o@ implies prev@.contains_key(k) && self@[k] == prev@[k] by {
                    let j = choose|j: int| 0 <= j < self.origins().len() && self.origins()[j] == k;
                    self.lemma_view_at(j);
                    prev.lemma_view_at(j);
                }
                assert forall|k: Seq<char>| #[trigger] prev@.contains_key(k) implies self@.contains_key(k) by {
                    let j = choose|j: int| 0 <= j < prev.origins().len() && prev.origins()[j] == k;
                    self.lemma_view_at(j);
                }
                proof {
                    self.lemma_view_at(prev.origins().len() as int);
                }
                assert(self@ =~= prev@.insert(o@, Seq::empty()));
                proof {
                    lemma_grows_insert_new(prev@, o@, Seq::empty());
                }
            },
        }
    }

    /// Appends `v` to the log of `o`, registering `o` first if it is new.
    pub fn append(&mut self, o: String, v: i64)
        requires
            old(self).wf(),
        ensures
            final(self).wf(),
            final(self)@ == old(self)@.insert(o@, log_of(old(self)@, o@).push(v)),
            grows(old(self)@, final(self)@),
    {
        let key = o.clone();
        self.register(o);
        let ghost prev = *self;
        proof {
            prev.lemma_origins();
        }
        match self.find(&key) {
            Some(i) => {
                proof {
                    prev.lemma_view_at(i as int);
                }
                self.logs[i].push(v);
                proof {
                    LogStore::lemma_update_one(prev, *self, i as int);
                }
                assert(prev@[key@].push(v).subrange(0, prev@[key@].len() as int) =~= prev@[key@]);
                proof {
                    lemma_grows_extend(prev@, key@, prev@[key@].push(v));
                    lemma_grows_trans(old(self)@, prev@, self@);
                }
            },
            None => {},
        }
    }
}

impl LogStore {
    /// The length of each known origin's log, in the order of `origins`.
    pub fn lengths(&self) -> (r: Vec<(String, usize)>)
        requires
            self.wf(),
        ensures
            r@.len() == self.origins().len(),
            forall|i: int|
                0 <= i < r@.len() ==> (#[trigger] r@[i]).0@ == self.origins()[i] && r@[i].1
                    == self@[self.origins()[i]].len(),
    {
        let mut r: Vec<(String, usize)> = Vec::new();
        let mut i: usize = 0;
        while i < self.origins.len()
            invariant
                self.wf(),
                i <= self.origins@.len(),
                r@.len() == i,
                forall|j: int|
                    0 <= j < i ==> (#[trigger] r@[j]).0@ == self.origins()[j] && r@[j].1
                        == self@[self.origins()[j]].len(),
            decreases self.origins@.len() - i,
        {
            proof {
                self.lemma_view_at(i as int);
            }
            r.push((self.origins[i].clone(), self.logs[i].len()));
            i = i + 1;
        }
        r
    }

    /// The entries of `o` at positions `from` and after; empty for an
    /// unknown origin or when `from` is at or past the end of its log.
    pub fn slice(&self, o: &String, from: usize) -> (r: Vec<i64>)
        requires
            self.wf(),
        ensures
            r@ == slice_from(log_of(self@, o@), from as int),
    {
        let mut r: Vec<i64> = Vec::new();
        proof {
            self.lemma_origins();
        }
        match self.find(o) {
            None => {
                assert(r@ =~= slice_from(log_of(self@, o@), from as int));
            },
            Some(i) => {
                proof {
                    self.lemma_view_at(i as int);
                }
                let l = &self.logs[i];
                if from < l.len() {
                    let mut k: usize = from;
                    while k < l.len()
                        invariant
                            from <= k <= l@.len(),
                            r@ =~= l@.subrange(from as int, k as int),
                        decreases l@.len() - k,
                    {
                        r.push(l[k]);
                        k = k + 1;
                    }
                }
                assert(r@ =~= slice_from(log_of(self@, o@), from as int));
            },
        }
        r
    }

    /// Merges `values`, which stand at position `offset` of the log of `o`
    /// and after: only the part past the end of the local log is appended.
    /// An unknown origin is skipped, and so is an offset past the end of
    /// the local log, which would leave a gap.
    pub fn merge(&mut self, o: &String, offset: usize, values: &Vec<i64>)
        requires
            old(self).wf(),
        ensures
            final(self).wf(),
            final(self)@ == merge_into(old(self)@, o@, offset as int, values@),
            grows(old(self)@, final(self)@),
    {
        proof {
            self.lemma_origins();
            lemma_grows_refl(self@);
        }
        match self.find(o) {
            None => {},
            Some(i) => {
                let ghost prev = *self;
                proof {
                    prev.lemma_view_at(i as int);
                }
                let len = self.logs[i].len();
                if offset <= len && values.len() > len - offset {
                    let mut k: usize = len - offset;
                    while k < values.len()
                        invariant
                            self.origins@ == prev.origins@,
                            self.logs@.len() == prev.logs@.len(),
                            i < prev.logs@.len(),
                            len == prev.logs@[i as int]@.len(),
                            offset <= len,
                            len - offset <= k <= values@.len(),
                            self.logs@[i as int]@ == prev.logs@[i as int]@ + values@.subrange(
                                len - offset,
                                k as int,
                            ),
                            forall|j: int|
                                0 <= j < prev.logs@.len() && j != i ==> self.logs@[j]
                                    == prev.logs@[j],
                        decreases values@.len() - k,
                    {
                        self.logs[i].push(values[k]);
                        k = k + 1;
                        assert(self.logs@[i as int]@ =~= prev.logs@[i as int]@ + values@.subrange(
                            len - offset,
                            k as int,
                        ));
                    }
                }
                proof {
                    LogStore::lemma_update_one(prev, *self, i as int);
                    let l = prev.logs@[i as int]@;
                    assert(self.logs@[i as int]@ =~= merged(l, offset as int, values@));
                    assert(merged(l, offset as int, values@).subrange(0, l.len() as int) =~= l);
                    lemma_grows_extend(prev@, o@, merged(l, offset as int, values@));
                }
            },
        }
    }

    /// Every entry of every origin, origin after origin in the order of
    /// `origins`.
    pub fn read_all(&self) -> (r: Vec<i64>)
        requires
            self.wf(),
        ensures
            r@ == concat_all(self.logs_in_order()),
            forall|v: i64|
                r@.contains(v) <==> exists|o: Seq<char>|
                    self@.contains_key(o) && #[trigger] self@[o].contains(v),
    {
        let mut r: Vec<i64> = Vec::new();
        let mut i: usize = 0;
        while i < self.logs.len()
            invariant
                self.wf(),
                i <= self.logs@.len(),
                r@ == concat_all(self.logs_in_order().take(i as int)),
            decreases self.logs@.len() - i,
        {
            proof {
                self.lemma_view_at(i as int);
                assert(self.logs_in_order().take(i as int + 1).drop_last() =~= self.logs_in_order().take(i as int));
            }
            let l = &self.logs[i];
            let ghost start = r@;
            let mut k: usize = 0;
            while k < l.len()
                invariant
                    k <= l@.len(),
                    r@ == start + l@.take(k as int),
                decreases l@.len() - k,
            {
                r.push(l[k]);
                k = k + 1;
                assert(r@ =~= start + l@.take(k as int));
            }
            assert(l@.take(k as int) =~= l@);
            i = i + 1;
        }
        proof {
            assert(self.logs_in_order().take(i as int) =~= self.logs_in_order());
            lemma_concat_all_contains(self.logs_in_order());
            assert forall|v: i64| r@.contains(v) <==> exists|o: Seq<char>|
                self@.contains_key(o) && #[trigger] self@[o].contains(v) by {
                if r@.contains(v) {
                    let j = choose|j: int| 0 <= j < self.logs_in_order().len() && self.logs_in_order()[j].contains(v);
                    assert(self@.contains_key(self.origins()[j]));
                }
                if exists|o: Seq<char>| self@.contains_key(o) && #[trigger] self@[o].contains(v) {
                    let o = choose|o: Seq<char>| self@.contains_key(o) && #[trigger] self@[o].contains(v);
                    let j = choose|j: int| 0 <= j < self.origins().len() && self.origins()[j] == o;
                    assert(self.logs_in_order()[j].contains(v));
                }
            }
        }
        r
    }
}

/// A value is in the concatenation of some logs exactly when it is in one
/// of them.
pub proof fn lemma_concat_all_contains(s: Seq<Seq<i64>>)
    ensures
        forall|v: i64|
            concat_all(s).contains(v) <==> exists|j: int| 0 <= j < s.len() && #[trigger] s[j].contains(v),
    decreases s.len(),
{
    if s.len() > 0 {
        lemma_concat_all_contains(s.drop_last());
        let front = concat_all(s.drop_last());
        assert(concat_all(s) == front + s.last());
        assert forall|v: i64|
            concat_all(s).contains(v) <==> exists|j: int| 0 <= j < s.len() && #[trigger] s[j].contains(v) by {
            if concat_all(s).contains(v) {
                let p = choose|p: int| 0 <= p < concat_all(s).len() && concat_all(s)[p] == v;
                if p < front.len() {
                    assert(front.contains(v));
                    let j = choose|j: int| 0 <= j < s.drop_last().len() && #[trigger] s.drop_last()[j].contains(v);
                    assert(s[j].contains(v));
                } else {
                    assert(s.last()[p - front.len()] == v);
                    assert(s[s.len() - 1].contains(v));
                }
            }
            if exists|j: int| 0 <= j < s.len() && #[trigger] s[j].contains(v) {
                let j = choose|j: int| 0 <= j < s.len() && #[trigger] s[j].contains(v);
                let q = choose|q: int| 0 <= q < s[j].len() && s[j][q] == v;
                if j < s.len() - 1 {
                    assert(s.drop_last()[j].contains(v));
                    assert(front.contains(v));
                    let p = choose|p: int| 0 <= p < front.len() && front[p] == v;
                    assert(concat_all(s)[p] == v);
                } else {
                    assert(concat_all(s)[front.len() + q] == v);
                }
            }
        }
    }
}

} // verus!
