use vstd::prelude::*;

use crate::metric::{
    key_above, lemma_not_above_transitive, rank_key, rank_key_exec, ranks_above, valid_vector,
    MetricKind, DIM_LIMIT,
};

verus! {

/// The identity of a stored fragment: one entry per dedup field (the field's value,
/// or `None` where the fragment's metadata lacks it), or the fragment text alone.
pub open spec fn key_view(k: Seq<Option<String>>) -> Seq<Option<Seq<char>>> {
    k.map_values(|o: Option<String>| opt_view(o))
}

pub open spec fn opt_view(o: Option<String>) -> Option<Seq<char>> {
    match o {
        Some(s) => Some(s@),
        None => None,
    }
}

fn opt_equal(a: &Option<String>, b: &Option<String>) -> (r: bool)
    ensures
        r == (opt_view(*a) == opt_view(*b)),
{
    match (a, b) {
        (Some(x), Some(y)) => x.eq(y),
        (None, None) => true,
        _ => false,
    }
}

pub open spec fn meta_view(m: Seq<(String, String)>) -> Seq<(Seq<char>, Seq<char>)> {
    m.map_values(|p: (String, String)| (p.0@, p.1@))
}

/// One stored fragment: its dedup key, embedding, metadata and text.
pub struct VectorRecord {
    pub dedup_key: Vec<Option<String>>,
    pub vector: Vec<i32>,
    pub metadata: Vec<(String, String)>,
    pub text: String,
}

pub struct RecordView {
    pub key: Seq<Option<Seq<char>>>,
    pub vector: Seq<i32>,
    pub metadata: Seq<(Seq<char>, Seq<char>)>,
    pub text: Seq<char>,
}

impl View for VectorRecord {
    type V = RecordView;

    open spec fn view(&self) -> RecordView {
        RecordView {
            key: key_view(self.dedup_key@),
            vector: self.vector@,
            metadata: meta_view(self.metadata@),
            text: self.text@,
        }
    }
}

pub open spec fn records_view(s: Seq<VectorRecord>) -> Seq<RecordView> {
    s.map_values(|r: VectorRecord| r@)
}

/// No two records share a dedup key.
pub open spec fn keys_unique(s: Seq<RecordView>) -> bool {
    forall|i: int, j: int| 0 <= i < j < s.len() ==> s[i].key != s[j].key
}

pub open spec fn has_key(s: Seq<RecordView>, key: Seq<Option<Seq<char>>>) -> bool {
    exists|i: int| 0 <= i < s.len() && s[i].key == key
}

/// Inserting `r`: a record with the same key is replaced in place, otherwise `r` is appended.
pub open spec fn upserted(s: Seq<RecordView>, r: RecordView) -> Seq<RecordView> {
    if has_key(s, r.key) {
        s.update(choose|i: int| 0 <= i < s.len() && s[i].key == r.key, r)
    } else {
        s.push(r)
    }
}

/// Inserting the records of `rs` one after another.
pub open spec fn upsert_all(s: Seq<RecordView>, rs: Seq<RecordView>) -> Seq<RecordView>
    decreases rs.len(),
{
    if rs.len() == 0 {
        s
    } else {
        upserted(upsert_all(s, rs.drop_last()), rs.last())
    }
}

/// `r` lists positions of `s`: the `min(k, |s|)` best matches for `q`, best first,
/// each at most once, and no position left out ranks above one that was taken.
pub open spec fn is_top_k(
    metric: MetricKind,
    q: Seq<i32>,
    s: Seq<RecordView>,
    k: nat,
    r: Seq<usize>,
) -> bool {
    &&& r.len() == (if k < s.len() { k } else { s.len() })
    &&& forall|i: int| 0 <= i < r.len() ==> r[i] < s.len()
    &&& forall|i: int, j: int| 0 <= i < j < r.len() ==> r[i] != r[j]
    &&& forall|i: int, j: int|
        0 <= i < j < r.len() ==> !ranks_above(metric, q, s[r[j] as int].vector, s[r[i] as int].vector)
    &&& forall|i: int, x: int|
        0 <= i < r.len() && 0 <= x < s.len() && !r.contains(x as usize) ==> !ranks_above(
            metric,
            q,
            s[x].vector,
            s[r[i] as int].vector,
        )
}

proof fn lemma_upsert_keys(s: Seq<RecordView>, r: RecordView)
    requires
        keys_unique(s),
    ensures
        keys_unique(upserted(s, r)),
        has_key(upserted(s, r), r.key),
        forall|key: Seq<Option<Seq<char>>>| has_key(s, key) ==> has_key(upserted(s, r), key),
        has_key(s, r.key) ==> upserted(s, r).len() == s.len(),
{
    let t = upserted(s, r);
    if has_key(s, r.key) {
        let c = choose|i: int| 0 <= i < s.len() && s[i].key == r.key;
        assert(forall|i: int| 0 <= i < s.len() ==> t[i].key == s[i].key);
        assert(t[c].key == r.key);
        assert forall|key: Seq<Option<Seq<char>>>| has_key(s, key) implies has_key(t, key) by {
            let w = choose|i: int| 0 <= i < s.len() && s[i].key == key;
            assert(t[w].key == key);
        }
    } else {
        assert(t[s.len() as int].key == r.key);
        assert forall|key: Seq<Option<Seq<char>>>| has_key(s, key) implies has_key(t, key) by {
            let w = choose|i: int| 0 <= i < s.len() && s[i].key == key;
            assert(t[w].key == key);
        }
    }
}

proof fn lemma_upsert_all_keys(s: Seq<RecordView>, rs: Seq<RecordView>)
    requires
        keys_unique(s),
    ensures
        keys_unique(upsert_all(s, rs)),
        forall|j: int| 0 <= j < rs.len() ==> has_key(upsert_all(s, rs), #[trigger] rs[j].key),
        forall|key: Seq<Option<Seq<char>>>| has_key(s, key) ==> has_key(upsert_all(s, rs), key),
    decreases rs.len(),
{
    if rs.len() > 0 {
        let prev = upsert_all(s, rs.drop_last());
        lemma_upsert_all_keys(s, rs.drop_last());
        lemma_upsert_keys(prev, rs.last());
        assert forall|j: int| 0 <= j < rs.len() implies has_key(
            upsert_all(s, rs),
            #[trigger] rs[j].key,
        ) by {
            if j < rs.len() - 1 {
                assert(rs.drop_last()[j] == rs[j]);
            }
        }
    }
}

proof fn lemma_upsert_all_present(t: Seq<RecordView>, rs: Seq<RecordView>)
    requires
        keys_unique(t),
        forall|j: int| 0 <= j < rs.len() ==> has_key(t, #[trigger] rs[j].key),
    ensures
        upsert_all(t, rs).len() == t.len(),
    decreases rs.len(),
{
    if rs.len() > 0 {
        let prev = upsert_all(t, rs.drop_last());
        assert forall|j: int| 0 <= j < rs.drop_last().len() implies has_key(
            t,
            #[trigger] rs.drop_last()[j].key,
        ) by {
            assert(rs.drop_last()[j] == rs[j]);
        }
        lemma_upsert_all_present(t, rs.drop_last());
        lemma_upsert_all_keys(t, rs.drop_last());
        assert(has_key(t, rs[rs.len() - 1].key));
        lemma_upsert_keys(prev, rs.last());
    }
}

/// Submitting the same records again adds nothing: afterwards the store holds
/// exactly one record for each of their dedup keys, and no more records than
/// after the first submission.
pub proof fn lemma_resubmission_idempotent(s: Seq<RecordView>, rs: Seq<RecordView>)
    requires
        keys_unique(s),
    ensures
        keys_unique(upsert_all(upsert_all(s, rs), rs)),
        upsert_all(upsert_all(s, rs), rs).len() == upsert_all(s, rs).len(),
        forall|j: int|
            0 <= j < rs.len() ==> has_key(upsert_all(upsert_all(s, rs), rs), #[trigger] rs[j].key),
{
    let once = upsert_all(s, rs);
    lemma_upsert_all_keys(s, rs);
    lemma_upsert_all_keys(once, rs);
    lemma_upsert_all_present(once, rs);
}

/// Tells whether two dedup keys are equal.
pub fn keys_equal(a: &Vec<Option<String>>, b: &Vec<Option<String>>) -> (r: bool)
    ensures
        r == (key_view(a@) == key_view(b@)),
{
    if a.len() != b.len() {
        assert(key_view(a@).len() != key_view(b@).len());
        return false;
    }
    let mut i: usize = 0;
    while i < a.len()
        invariant
            a@.len() == b@.len(),
            i <= a@.len(),
            forall|j: int| 0 <= j < i ==> key_view(a@)[j] == key_view(b@)[j],
        decreases a@.len() - i,
    {
        let same = opt_equal(&a[i], &b[i]);
        assert(key_view(a@)[i as int] == opt_view(a@[i as int]));
        assert(key_view(b@)[i as int] == opt_view(b@[i as int]));
        if !same {
            assert(key_view(a@)[i as int] != key_view(b@)[i as int]);
            return false;
        }
        i = i + 1;
    }
    assert(key_view(a@) =~= key_view(b@));
    true
}

/// An in-process vector store for one index: records of a fixed dimension,
/// ranked under a fixed metric, unique by dedup key.
pub struct InMemoryStore {
    pub dim: usize,
    pub metric: MetricKind,
    pub records: Vec<VectorRecord>,
}

impl InMemoryStore {
    pub open spec fn records_view(&self) -> Seq<RecordView> {
        records_view(self.records@)
    }

    pub open spec fn wf(&self) -> bool {
        &&& self.dim <= DIM_LIMIT
        &&& keys_unique(self.records_view())
        &&& forall|i: int|
            0 <= i < self.records@.len() ==> valid_vector(
                #[trigger] self.records@[i].vector@,
                self.dim as nat,
            )
    }

    /// An empty store for vectors of `dim` components ranked by `metric`.
    pub fn new(dim: usize, metric: MetricKind) -> (r: Self)
        requires
            dim <= DIM_LIMIT,
        ensures
            r.wf(),
            r.dim == dim,
            r.metric == metric,
            r.records_view() == Seq::<RecordView>::empty(),
    {
        let r = InMemoryStore { dim, metric, records: Vec::new() };
        assert(r.records_view() =~= Seq::<RecordView>::empty());
        r
    }

    pub fn len(&self) -> (r: usize)
        ensures
            r == self.records_view().len(),
    {
        self.records.len()
    }

    /// Stores `rec`, replacing the record with the same dedup key if there is one.
    pub fn upsert(&mut self, rec: VectorRecord)
        requires
            old(self).wf(),
            valid_vector(rec.vector@, old(self).dim as nat),
        ensures
            final(self).wf(),
            final(self).dim == old(self).dim,
            final(self).metric == old(self).metric,
            final(self).records_view() == upserted(old(self).records_view(), rec@),
    {
        let ghost s = self.records_view();
        let ghost r = rec@;
        let ghost recs = self.records@;
        let mut j: usize = 0;
        while j < self.records.len()
            invariant
                self.wf(),
                self.records_view() == s,
                s == records_view(recs),
                s == old(self).records_view(),
                r == rec@,
                valid_vector(rec.vector@, self.dim as nat),
                self.records@ == recs,
                self.dim == old(self).dim,
                self.metric == old(self).metric,
                j <= self.records@.len(),
                forall|x: int| 0 <= x < j ==> s[x].key != r.key,
            decreases self.records@.len() - j,
        {
            assert(s[j as int] == self.records@[j as int]@);
            if keys_equal(&self.records[j].dedup_key, &rec.dedup_key) {
                proof {
                    assert(self.records@[j as int]@.key == key_view(self.records@[j as int].dedup_key@));
                    assert(r.key == key_view(rec.dedup_key@));
                    assert(s[j as int].key == r.key);
                    assert(has_key(s, r.key));
                    let c = choose|i: int| 0 <= i < s.len() && s[i].key == r.key;
                    assert(c == j);
                }
                self.records[j] = rec;
                proof {
                    assert(self.records@ == recs.update(j as int, rec));
                    assert(self.records_view() =~= s.update(j as int, r));
                    assert forall|i: int|
                        0 <= i < self.records@.len() implies valid_vector(
                        #[trigger] self.records@[i].vector@,
                        self.dim as nat,
                    ) by {
                        if i != j {
                            assert(self.records@[i] == recs[i]);
                        }
                    }
                }
                return;
            }
            j = j + 1;
        }
        proof {
            assert(!has_key(s, r.key));
        }
        self.records.push(rec);
        proof {
            assert(self.records_view() =~= s.push(r));
            assert forall|i: int|
                0 <= i < self.records@.len() implies valid_vector(
                #[trigger] self.records@[i].vector@,
                self.dim as nat,
            ) by {
                if i < s.len() {
                    assert(self.records@[i] == recs[i]);
                }
            }
        }
    }

    /// Positions of the `k` best matches for `q`, best first (fewer when the
    /// store holds fewer than `k` records).
    pub fn query(&self, q: &Vec<i32>, k: usize) -> (r: Vec<usize>)
        requires
            self.wf(),
            valid_vector(q@, self.dim as nat),
        ensures
            is_top_k(self.metric, q@, self.records_view(), k as nat, r@),
    {
        let ghost s = self.records_view();
        let ghost metric = self.metric;
        let n = self.records.len();
        let mut keys: Vec<(i128, i128)> = Vec::new();
        let mut i: usize = 0;
        while i < n
            invariant
                self.wf(),
                valid_vector(q@, self.dim as nat),
                s == self.records_view(),
                metric == self.metric,
                n == s.len(),
                i <= n,
                keys@.len() == i,
                forall|x: int|
                    0 <= x < i ==> (#[trigger] keys@[x]).0 == rank_key(metric, s[x].vector, q@).0
                        && keys@[x].1 == rank_key(metric, s[x].vector, q@).1 && 0 < keys@[x].1
                        <= 0x400_0000_0000 && -0x10_0000_0000_0000_0000_0000 <= keys@[x].0
                        <= 0x10_0000_0000_0000_0000_0000,
            decreases n - i,
        {
            assert(s[i as int].vector == self.records@[i as int].vector@);
            assert(valid_vector(self.records@[i as int].vector@, self.dim as nat));
            let key = rank_key_exec(self.metric, &self.records[i].vector, q);
            keys.push(key);
            i = i + 1;
        }
        let mut remaining: Vec<usize> = Vec::new();
        let mut x: usize = 0;
        while x < n
            invariant
                x <= n,
                remaining@.len() == x,
                forall|y: int| 0 <= y < x ==> remaining@[y] == y,
            decreases n - x,
        {
            remaining.push(x);
            x = x + 1;
        }
        assert forall|y: usize| y < n implies #[trigger] remaining@.contains(y) by {
            assert(remaining@[y as int] == y);
        }
        let mut chosen: Vec<usize> = Vec::new();
        while chosen.len() < k && remaining.len() > 0
            invariant
                n == s.len(),
                keys@.len() == n,
                forall|x: int|
                    0 <= x < n ==> (#[trigger] keys@[x]).0 == rank_key(metric, s[x].vector, q@).0
                        && keys@[x].1 == rank_key(metric, s[x].vector, q@).1 && 0 < keys@[x].1
                        <= 0x400_0000_0000 && -0x10_0000_0000_0000_0000_0000 <= keys@[x].0
                        <= 0x10_0000_0000_0000_0000_0000,
                chosen@.len() + remaining@.len() == n,
                chosen@.len() <= k,
                forall|i: int| 0 <= i < chosen@.len() ==> chosen@[i] < n,
                forall|i: int| 0 <= i < remaining@.len() ==> remaining@[i] < n,
                forall|i: int, j: int| 0 <= i < j < chosen@.len() ==> chosen@[i] != chosen@[j],
                forall|i: int, j: int|
                    0 <= i < j < remaining@.len() ==> remaining@[i] != remaining@[j],
                forall|i: int, j: int|
                    0 <= i < chosen@.len() && 0 <= j < remaining@.len() ==> chosen@[i]
                        != remaining@[j],
                forall|y: usize|
                    y < n ==> #[trigger] chosen@.contains(y) || #[trigger] remaining@.contains(y),
                forall|i: int, j: int|
                    0 <= i < j < chosen@.len() ==> !ranks_above(
                        metric,
                        q@,
                        s[chosen@[j] as int].vector,
                        s[chosen@[i] as int].vector,
                    ),
                forall|i: int, j: int|
                    0 <= i < chosen@.len() && 0 <= j < remaining@.len() ==> !ranks_above(
                        metric,
                        q@,
                        s[remaining@[j] as int].vector,
                        s[chosen@[i] as int].vector,
                    ),
            decreases remaining@.len(),
        {
            let mut best: usize = 0;
            let mut p: usize = 1;
            while p < remaining.len()
                invariant
                    n == s.len(),
                    keys@.len() == n,
                    forall|x: int|
                        0 <= x < n ==> (#[trigger] keys@[x]).0 == rank_key(metric, s[x].vector, q@).0
                            && keys@[x].1 == rank_key(metric, s[x].vector, q@).1 && 0 < keys@[x].1
                            <= 0x400_0000_0000 && -0x10_0000_0000_0000_0000_0000 <= keys@[x].0
                            <= 0x10_0000_0000_0000_0000_0000,
                    forall|i: int| 0 <= i < remaining@.len() ==> remaining@[i] < n,
                    0 < remaining@.len(),
                    best < p <= remaining@.len(),
                    forall|j: int|
                        0 <= j < p ==> !ranks_above(
                            metric,
                            q@,
                            s[remaining@[j] as int].vector,
                            s[remaining@[best as int] as int].vector,
                        ),
                decreases remaining@.len() - p,
            {
                let cand = remaining[p];
                let cur = remaining[best];
                if key_above(keys[cand], keys[cur]) {
                    proof {
                        assert forall|j: int| 0 <= j <= p implies !ranks_above(
                            metric,
                            q@,
                            s[remaining@[j] as int].vector,
                            s[cand as int].vector,
                        ) by {
                            if j < p {
                                lemma_not_above_transitive(
                                    metric,
                                    q@,
                                    s[remaining@[j] as int].vector,
                                    s[cur as int].vector,
                                    s[cand as int].vector,
                                );
                            }
                        }
                    }
                    best = p;
                }
                p = p + 1;
            }
            let ghost rem = remaining@;
            let ghost ch = chosen@;
            let b = remaining.remove(best);
            chosen.push(b);
            proof {
                assert(chosen@ == ch.push(b));
                assert(remaining@ == rem.remove(best as int));
                assert forall|j: int| 0 <= j < remaining@.len() implies #[trigger] remaining@[j] == (
                if j < best {
                    rem[j]
                } else {
                    rem[j + 1]
                }) by {}
                assert forall|y: usize| y < n implies #[trigger] chosen@.contains(y)
                    || #[trigger] remaining@.contains(y) by {
                    if ch.contains(y) {
                        let w = choose|w: int| 0 <= w < ch.len() && ch[w] == y;
                        assert(chosen@[w] == y);
                    } else {
                        assert(rem.contains(y));
                        let w = choose|w: int| 0 <= w < rem.len() && rem[w] == y;
                        if w == best {
                            assert(chosen@[ch.len() as int] == y);
                        } else if w < best {
                            assert(remaining@[w] == y);
                        } else {
                            assert(remaining@[w - 1] == y);
                        }
                    }
                }
            }
        }
        proof {
            assert forall|i: int, y: int|
                0 <= i < chosen@.len() && 0 <= y < s.len() && !chosen@.contains(
                    y as usize,
                ) implies !ranks_above(
                metric,
                q@,
                s[y].vector,
                s[chosen@[i] as int].vector,
            ) by {
                assert(remaining@.contains(y as usize));
                let w = choose|w: int| 0 <= w < remaining@.len() && remaining@[w] == y as usize;
            }
        }
        chosen
    }
}

} // verus!
