use vstd::prelude::*;

use crate::embeddings::{dims_of, EmbeddingRouter};
use crate::error::IndexError;
use crate::metric::{component_ok, valid_vector, MetricKind, COMPONENT_LIMIT, DIM_LIMIT};
use crate::store::{
    is_top_k, key_view, meta_view, opt_view, upsert_all, upserted, InMemoryStore, RecordView,
    VectorRecord,
};
use crate::text_splitters::{split_result, splitter_ok, strings_view, TextSplitterKind};

verus! {

/// A caller-supplied document: its text and its metadata as key/value pairs.
pub struct Document {
    pub text: String,
    pub metadata: Vec<(String, String)>,
}

/// The value of `field` in `m` (the first pair that names it).
pub open spec fn meta_get(m: Seq<(Seq<char>, Seq<char>)>, field: Seq<char>) -> Option<Seq<char>>
    decreases m.len(),
{
    if m.len() == 0 {
        None
    } else if m[0].0 == field {
        Some(m[0].1)
    } else {
        meta_get(m.drop_first(), field)
    }
}

pub open spec fn fields_view(f: Option<Vec<String>>) -> Option<Seq<Seq<char>>> {
    match f {
        Some(v) => Some(strings_view(v@)),
        None => None,
    }
}

/// The dedup key of a fragment: the values of the dedup fields in their configured
/// order, or the fragment text when no fields are configured.
pub open spec fn fragment_key(
    fields: Option<Seq<Seq<char>>>,
    text: Seq<char>,
    meta: Seq<(Seq<char>, Seq<char>)>,
) -> Seq<Option<Seq<char>>> {
    match fields {
        None => seq![Some(text)],
        Some(fs) => fs.map_values(|f: Seq<char>| meta_get(meta, f)),
    }
}

/// A piece of a document, ready to be embedded.
pub struct Fragment {
    pub text: String,
    pub metadata: Vec<(String, String)>,
    pub dedup_key: Vec<Option<String>>,
}

pub struct FragmentView {
    pub text: Seq<char>,
    pub metadata: Seq<(Seq<char>, Seq<char>)>,
    pub key: Seq<Option<Seq<char>>>,
}

impl View for Fragment {
    type V = FragmentView;

    open spec fn view(&self) -> FragmentView {
        FragmentView {
            text: self.text@,
            metadata: meta_view(self.metadata@),
            key: key_view(self.dedup_key@),
        }
    }
}

pub open spec fn fragments_view(v: Seq<Fragment>) -> Seq<FragmentView> {
    v.map_values(|f: Fragment| f@)
}

/// The fragments of one document.
pub open spec fn doc_fragments(
    splitter: TextSplitterKind,
    fields: Option<Seq<Seq<char>>>,
    text: Seq<char>,
    meta: Seq<(Seq<char>, Seq<char>)>,
) -> Seq<FragmentView> {
    match split_result(splitter, text) {
        Some(pieces) => pieces.map_values(
            |p: Seq<char>| FragmentView { text: p, metadata: meta, key: fragment_key(fields, p, meta) },
        ),
        None => Seq::empty(),
    }
}

/// The fragments of all documents, document by document.
pub open spec fn all_fragments(
    splitter: TextSplitterKind,
    fields: Option<Seq<Seq<char>>>,
    docs: Seq<Document>,
) -> Seq<FragmentView>
    decreases docs.len(),
{
    if docs.len() == 0 {
        Seq::empty()
    } else {
        all_fragments(splitter, fields, docs.drop_last()) + doc_fragments(
            splitter,
            fields,
            docs.last().text@,
            meta_view(docs.last().metadata@),
        )
    }
}

/// The records that fragments and their embeddings make, pairwise.
pub open spec fn records_of(frags: Seq<FragmentView>, vecs: Seq<Seq<i32>>) -> Seq<RecordView> {
    Seq::new(
        frags.len(),
        |i: int|
            RecordView {
                key: frags[i].key,
                vector: vecs[i],
                metadata: frags[i].metadata,
                text: frags[i].text,
            },
    )
}

pub open spec fn vectors_view(v: Seq<Vec<i32>>) -> Seq<Seq<i32>> {
    v.map_values(|x: Vec<i32>| x@)
}

/// What a search returns for one match.
pub struct SearchResult {
    pub text: String,
    pub metadata: Vec<(String, String)>,
}

/// The immutable settings of an index.
pub struct IndexConfig {
    pub name: String,
    pub embedding_model: String,
    pub vector_dim: usize,
    pub metric: MetricKind,
    pub splitter: TextSplitterKind,
    pub dedup_fields: Option<Vec<String>>,
}

/// A live index: its settings and its vector store.
pub struct Index {
    pub config: IndexConfig,
    pub store: InMemoryStore,
}

impl Index {
    pub open spec fn wf(&self) -> bool {
        &&& 0 < self.config.vector_dim <= DIM_LIMIT
        &&& self.store.wf()
        &&& self.store.dim == self.config.vector_dim
        &&& self.store.metric == self.config.metric
        &&& splitter_ok(self.config.splitter)
    }
}

/// The indexes by name, each name at most once.
pub struct IndexManager {
    pub indexes: Vec<Index>,
}

/// The outcome that `create_index` promises, relating the manager before and after.
pub open spec fn create_post(
    before: IndexManager,
    after: IndexManager,
    router: EmbeddingRouter,
    name: Seq<char>,
    embedding_model: Seq<char>,
    metric: MetricKind,
    splitter: TextSplitterKind,
    dedup_fields: Option<Vec<String>>,
    r: Result<(), IndexError>,
) -> bool {
    if before.has_index(name) {
        r matches Err(IndexError::IndexAlreadyExists) && after == before
    } else if dims_of(router.catalog(), embedding_model) is None {
        r matches Err(IndexError::UnknownModel) && after == before
    } else if !splitter_ok(splitter) {
        r matches Err(IndexError::InvalidSplitterPattern) && after == before
    } else {
        let ix = after.indexes@.last();
        &&& r is Ok
        &&& after.indexes@.len() == before.indexes@.len() + 1
        &&& forall|i: int| 0 <= i < before.indexes@.len() ==> after.indexes@[i] == before.indexes@[i]
        &&& ix.config.name@ == name
        &&& ix.config.embedding_model@ == embedding_model
        &&& ix.config.vector_dim == dims_of(router.catalog(), embedding_model)->0
        &&& ix.config.metric == metric
        &&& ix.config.splitter == splitter
        &&& ix.config.dedup_fields == dedup_fields
        &&& ix.store.records_view().len() == 0
    }
}

/// The outcome that `add_embedded` promises: nothing changes unless the index
/// exists and every vector fits it; then every record is upserted, in order.
pub open spec fn add_post(
    before: IndexManager,
    after: IndexManager,
    name: Seq<char>,
    frags: Seq<FragmentView>,
    vecs: Seq<Seq<i32>>,
    r: Result<(), IndexError>,
) -> bool {
    if !before.has_index(name) {
        r matches Err(IndexError::IndexNotFound) && after == before
    } else {
        forall|i: int|
            #![trigger before.indexes@[i]]
            0 <= i < before.indexes@.len() && before.indexes@[i].config.name@ == name ==> {
                let ix = before.indexes@[i];
                let dim = ix.config.vector_dim;
                if vecs.len() != frags.len() {
                    r matches Err(IndexError::EmbeddingCountMismatch) && after == before
                } else if exists|j: int| 0 <= j < vecs.len() && (#[trigger] vecs[j]).len() != dim {
                    r matches Err(IndexError::DimensionMismatch) && after == before
                } else if exists|j: int, c: int|
                    0 <= j < vecs.len() && 0 <= c < dim && !component_ok(#[trigger] vecs[j][c]) {
                    r matches Err(IndexError::ComponentOutOfRange) && after == before
                } else {
                    &&& r is Ok
                    &&& after.indexes@.len() == before.indexes@.len()
                    &&& forall|k: int|
                        0 <= k < before.indexes@.len() && k != i ==> after.indexes@[k]
                            == before.indexes@[k]
                    &&& after.indexes@[i].config == ix.config
                    &&& after.indexes@[i].store.records_view() == upsert_all(
                        ix.store.records_view(),
                        records_of(frags, vecs),
                    )
                }
            }
    }
}

/// The outcome that `search` promises.
pub open spec fn search_post(
    m: IndexManager,
    name: Seq<char>,
    q: Seq<i32>,
    k: nat,
    r: Result<Vec<SearchResult>, IndexError>,
) -> bool {
    if !m.has_index(name) {
        r matches Err(IndexError::IndexNotFound)
    } else {
        forall|i: int|
            #![trigger m.indexes@[i]]
            0 <= i < m.indexes@.len() && m.indexes@[i].config.name@ == name ==> {
                let ix = m.indexes@[i];
                let s = ix.store.records_view();
                if q.len() != ix.config.vector_dim {
                    r matches Err(IndexError::DimensionMismatch)
                } else if exists|c: int| 0 <= c < q.len() && !component_ok(#[trigger] q[c]) {
                    r matches Err(IndexError::ComponentOutOfRange)
                } else {
                    r matches Ok(v) && exists|p: Seq<usize>|
                        #![trigger is_top_k(ix.config.metric, q, s, k, p)]
                        is_top_k(ix.config.metric, q, s, k, p) && v@.len() == p.len() && forall|j: int|
                            0 <= j < p.len() ==> (#[trigger] v@[j]).text@ == s[p[j] as int].text
                                && meta_view(v@[j].metadata@) == s[p[j] as int].metadata
                }
            }
    }
}

/// Tells whether every component of `v` is within the component bound.
fn components_in_range(v: &Vec<i32>) -> (r: bool)
    ensures
        r == forall|c: int| 0 <= c < v@.len() ==> component_ok(#[trigger] v@[c]),
{
    let mut c: usize = 0;
    while c < v.len()
        invariant
            c <= v@.len(),
            forall|x: int| 0 <= x < c ==> component_ok(#[trigger] v@[x]),
        decreases v@.len() - c,
    {
        if v[c] < -COMPONENT_LIMIT || v[c] > COMPONENT_LIMIT {
            return false;
        }
        c = c + 1;
    }
    true
}

/// Every vector stored in an index has the dimension recorded for the index.
pub proof fn lemma_stored_vectors_have_index_dim(m: IndexManager, i: int, j: int)
    requires
        m.wf(),
        0 <= i < m.indexes@.len(),
        0 <= j < m.indexes@[i].store.records_view().len(),
    ensures
        m.indexes@[i].store.records_view()[j].vector.len() == m.indexes@[i].config.vector_dim,
{
    assert(m.indexes@[i].wf());
    assert(valid_vector(m.indexes@[i].store.records@[j].vector@, m.indexes@[i].store.dim as nat));
}

/// Of two creations under one name, at most one succeeds: once the first has
/// succeeded the second is refused with `IndexAlreadyExists`, and a first call on
/// a new name with a known model and a usable splitter does succeed.
pub proof fn lemma_create_same_name_once(
    m0: IndexManager,
    m1: IndexManager,
    m2: IndexManager,
    router: EmbeddingRouter,
    name: Seq<char>,
    model1: Seq<char>,
    metric1: MetricKind,
    splitter1: TextSplitterKind,
    fields1: Option<Vec<String>>,
    r1: Result<(), IndexError>,
    model2: Seq<char>,
    metric2: MetricKind,
    splitter2: TextSplitterKind,
    fields2: Option<Vec<String>>,
    r2: Result<(), IndexError>,
)
    requires
        create_post(m0, m1, router, name, model1, metric1, splitter1, fields1, r1),
        create_post(m1, m2, router, name, model2, metric2, splitter2, fields2, r2),
    ensures
        !(r1 is Ok && r2 is Ok),
        r1 is Ok ==> r2 matches Err(IndexError::IndexAlreadyExists),
        m0.has_index(name) ==> (r1 matches Err(IndexError::IndexAlreadyExists)),
        m0.has_index(name) ==> (r2 matches Err(IndexError::IndexAlreadyExists)),
        !m0.has_index(name) && dims_of(router.catalog(), model1) is Some && splitter_ok(splitter1)
            ==> r1 is Ok && (r2 matches Err(IndexError::IndexAlreadyExists)),
{
    if r1 is Ok {
        let last = m1.indexes@.len() - 1;
        assert(m1.indexes@[last].config.name@ == name);
        assert(m1.has_index(name));
    }
}

/// Looks up `field` in `m`.
fn meta_lookup(m: &Vec<(String, String)>, field: &String) -> (r: Option<String>)
    ensures
        opt_view(r) == meta_get(meta_view(m@), field@),
{
    let ghost mv = meta_view(m@);
    let mut i: usize = 0;
    assert(mv.subrange(0, mv.len() as int) =~= mv);
    while i < m.len()
        invariant
            mv == meta_view(m@),
            i <= m@.len(),
            meta_get(mv, field@) == meta_get(mv.subrange(i as int, mv.len() as int), field@),
        decreases m@.len() - i,
    {
        let ghost rest = mv.subrange(i as int, mv.len() as int);
        assert(rest[0] == mv[i as int]);
        assert(mv[i as int] == (m@[i as int].0@, m@[i as int].1@));
        if m[i].0.eq(field) {
            return Some(m[i].1.clone());
        }
        assert(rest.drop_first() =~= mv.subrange(i as int + 1, mv.len() as int));
        i = i + 1;
    }
    None
}

/// A copy of metadata pairs.
fn copy_metadata(m: &Vec<(String, String)>) -> (r: Vec<(String, String)>)
    ensures
        meta_view(r@) == meta_view(m@),
{
    let mut out: Vec<(String, String)> = Vec::new();
    let mut i: usize = 0;
    while i < m.len()
        invariant
            i <= m@.len(),
            out@.len() == i,
            forall|j: int| 0 <= j < i ==> (#[trigger] meta_view(out@)[j]) == meta_view(m@)[j],
        decreases m@.len() - i,
    {
        let ghost prev = out@;
        out.push((m[i].0.clone(), m[i].1.clone()));
        assert(meta_view(out@)[i as int] == meta_view(m@)[i as int]);
        assert forall|j: int| 0 <= j < i implies #[trigger] meta_view(out@)[j] == meta_view(
            m@,
        )[j] by {
            assert(out@[j] == prev[j]);
            assert(meta_view(prev)[j] == meta_view(m@)[j]);
        }
        i = i + 1;
    }
    assert(meta_view(out@) =~= meta_view(m@));
    out
}

/// The dedup key of a fragment with text `text` and metadata `meta`.
fn dedup_key_of(fields: &Option<Vec<String>>, text: &String, meta: &Vec<(String, String)>) -> (r:
    Vec<Option<String>>)
    ensures
        key_view(r@) == fragment_key(fields_view(*fields), text@, meta_view(meta@)),
{
    match fields {
        None => {
            let r = vec![Some(text.clone())];
            assert(key_view(r@) =~= seq![Some(text@)]);
            r
        },
        Some(fs) => {
            let ghost want = fragment_key(fields_view(*fields), text@, meta_view(meta@));
            let mut out: Vec<Option<String>> = Vec::new();
            let mut i: usize = 0;
            while i < fs.len()
                invariant
                    want == strings_view(fs@).map_values(
                        |f: Seq<char>| meta_get(meta_view(meta@), f),
                    ),
                    i <= fs@.len(),
                    out@.len() == i,
                    forall|j: int| 0 <= j < i ==> (#[trigger] key_view(out@)[j]) == want[j],
                decreases fs@.len() - i,
            {
                let v = meta_lookup(meta, &fs[i]);
                let ghost prev = out@;
                out.push(v);
                assert(key_view(out@)[i as int] == want[i as int]);
                assert forall|j: int| 0 <= j < i implies #[trigger] key_view(out@)[j]
                    == want[j] by {
                    assert(out@[j] == prev[j]);
                    assert(key_view(prev)[j] == want[j]);
                }
                i = i + 1;
            }
            assert(key_view(out@) =~= want);
            out
        },
    }
}

impl IndexManager {
    pub open spec fn has_index(&self, name: Seq<char>) -> bool {
        exists|i: int| 0 <= i < self.indexes@.len() && self.indexes@[i].config.name@ == name
    }

    pub open spec fn wf(&self) -> bool {
        &&& forall|i: int, j: int|
            0 <= i < j < self.indexes@.len() ==> self.indexes@[i].config.name@
                != self.indexes@[j].config.name@
        &&& forall|i: int| 0 <= i < self.indexes@.len() ==> (#[trigger] self.indexes@[i]).wf()
    }

    /// A manager that holds no index.
    pub fn new() -> (r: Self)
        ensures
            r.wf(),
            r.indexes@.len() == 0,
    {
        IndexManager { indexes: Vec::new() }
    }

    /// The position of the index called `name`.
    pub fn find(&self, name: &String) -> (r: Option<usize>)
        ensures
            match r {
                Some(i) => i < self.indexes@.len() && self.indexes@[i as int].config.name@ == name@,
                None => !self.has_index(name@),
            },
    {
        let mut i: usize = 0;
        while i < self.indexes.len()
            invariant
                i <= self.indexes@.len(),
                forall|j: int| 0 <= j < i ==> self.indexes@[j].config.name@ != name@,
            decreases self.indexes@.len() - i,
        {
            if self.indexes[i].config.name.eq(name) {
                return Some(i);
            }
            i = i + 1;
        }
        None
    }

    /// The settings of the index called `name`, or `None` when there is no such index.
    pub fn load(&self, name: &String) -> (r: Option<&IndexConfig>)
        ensures
            r is None <==> !self.has_index(name@),
            r matches Some(c) ==> exists|i: int|
                0 <= i < self.indexes@.len() && self.indexes@[i].config.name@ == name@ && *c
                    == self.indexes@[i].config,
    {
        match self.find(name) {
            Some(i) => Some(&self.indexes[i].config),
            None => None,
        }
    }

    /// Creates an index called `name` whose vectors have the dimension of
    /// `embedding_model`. Refused, with nothing changed, when the name is taken,
    /// the model is unknown, or the splitter's pattern does not compile (checked
    /// in that order).
    pub fn create_index(
        &mut self,
        router: &EmbeddingRouter,
        name: String,
        embedding_model: String,
        metric: MetricKind,
        splitter: TextSplitterKind,
        dedup_fields: Option<Vec<String>>,
    ) -> (r: Result<(), IndexError>)
        requires
            old(self).wf(),
            router.wf(),
        ensures
            final(self).wf(),
            create_post(
                *old(self),
                *final(self),
                *router,
                name@,
                embedding_model@,
                metric,
                splitter,
                dedup_fields,
                r,
            ),
    {
        if let Some(i) = self.find(&name) {
            return Err(IndexError::IndexAlreadyExists);
        }
        let dim = match router.dimensions(&embedding_model) {
            Ok(d) => d,
            Err(e) => {
                return Err(e);
            },
        };
        if !splitter.is_usable() {
            return Err(IndexError::InvalidSplitterPattern);
        }
        let store = InMemoryStore::new(dim, metric);
        let config = IndexConfig { name, embedding_model, vector_dim: dim, metric, splitter, dedup_fields };
        self.indexes.push(Index { config, store });
        Ok(())
    }

    /// The fragments of `docs` under the settings of index `name`, in document
    /// order, each with its document's metadata and its dedup key.
    pub fn fragments(&self, name: &String, docs: &Vec<Document>) -> (r: Result<
        Vec<Fragment>,
        IndexError,
    >)
        requires
            self.wf(),
        ensures
            !self.has_index(name@) ==> r matches Err(IndexError::IndexNotFound),
            self.has_index(name@) ==> r is Ok,
            r matches Ok(v) ==> forall|i: int|
                0 <= i < self.indexes@.len() && self.indexes@[i].config.name@ == name@
                    ==> fragments_view(v@) == all_fragments(
                    self.indexes@[i].config.splitter,
                    fields_view(self.indexes@[i].config.dedup_fields),
                    docs@,
                ),
    {
        let ix = match self.find(name) {
            Some(ix) => ix,
            None => {
                return Err(IndexError::IndexNotFound);
            },
        };
        let cfg = &self.indexes[ix].config;
        assert(self.indexes@[ix as int].wf());
        let ghost splitter = cfg.splitter;
        let ghost fields = fields_view(cfg.dedup_fields);
        let mut out: Vec<Fragment> = Vec::new();
        let mut d: usize = 0;
        assert(docs@.take(0) =~= Seq::<Document>::empty());
        assert(fragments_view(out@) =~= Seq::<FragmentView>::empty());
        while d < docs.len()
            invariant
                splitter == cfg.splitter,
                fields == fields_view(cfg.dedup_fields),
                splitter_ok(splitter),
                d <= docs@.len(),
                fragments_view(out@) == all_fragments(splitter, fields, docs@.take(d as int)),
            decreases docs@.len() - d,
        {
            let doc = &docs[d];
            let pieces = match cfg.splitter.split(&doc.text) {
                Ok(p) => p,
                Err(e) => {
                    return Err(e);
                },
            };
            let ghost meta = meta_view(doc.metadata@);
            let ghost before = fragments_view(out@);
            let ghost df = doc_fragments(splitter, fields, doc.text@, meta);
            assert(df.len() == pieces@.len());
            let mut p: usize = 0;
            assert(before + df.take(0) =~= before);
            while p < pieces.len()
                invariant
                    fields == fields_view(cfg.dedup_fields),
                    meta == meta_view(doc.metadata@),
                    df == doc_fragments(splitter, fields, doc.text@, meta),
                    split_result(splitter, doc.text@) == Some(strings_view(pieces@)),
                    df.len() == pieces@.len(),
                    p <= pieces@.len(),
                    fragments_view(out@) == before + df.take(p as int),
                decreases pieces@.len() - p,
            {
                let text = pieces[p].clone();
                let metadata = copy_metadata(&doc.metadata);
                let dedup_key = dedup_key_of(&cfg.dedup_fields, &pieces[p], &doc.metadata);
                let f = Fragment { text, metadata, dedup_key };
                let ghost prev = out@;
                out.push(f);
                proof {
                    assert(strings_view(pieces@)[p as int] == pieces@[p as int]@);
                    assert(f@ == df[p as int]);
                    assert(fragments_view(out@) =~= fragments_view(prev).push(f@));
                    assert(df.take(p as int + 1) =~= df.take(p as int).push(df[p as int]));
                    assert(fragments_view(out@) =~= before + df.take(p as int + 1));
                }
                p = p + 1;
            }
            proof {
                assert(df.take(p as int) =~= df);
                assert(docs@.take(d as int + 1).drop_last() =~= docs@.take(d as int));
                assert(docs@.take(d as int + 1).last() == docs@[d as int]);
            }
            d = d + 1;
        }
        assert(docs@.take(d as int) =~= docs@);
        Ok(out)
    }

    /// Stores fragments with their embeddings (`vectors[i]` embeds `fragments[i]`)
    /// in index `name`, upserting by dedup key. All vectors are checked before any
    /// record is written: a refused call changes nothing.
    pub fn add_embedded(&mut self, name: &String, fragments: Vec<Fragment>, vectors: Vec<Vec<i32>>) -> (r:
        Result<(), IndexError>)
        requires
            old(self).wf(),
        ensures
            final(self).wf(),
            add_post(
                *old(self),
                *final(self),
                name@,
                fragments_view(fragments@),
                vectors_view(vectors@),
                r,
            ),
    {
        let ix = match self.find(name) {
            Some(ix) => ix,
            None => {
                return Err(IndexError::IndexNotFound);
            },
        };
        let ghost frs = fragments_view(fragments@);
        let ghost vs = vectors_view(vectors@);
        let ghost old_ix = self.indexes@[ix as int];
        assert(self.indexes@[ix as int].wf());
        if vectors.len() != fragments.len() {
            return Err(IndexError::EmbeddingCountMismatch);
        }
        let dim = self.indexes[ix].config.vector_dim;
        let mut j: usize = 0;
        while j < vectors.len()
            invariant
                *self == *old(self),
                self.wf(),
                ix < self.indexes@.len(),
                self.indexes@[ix as int].config.name@ == name@,
                dim == self.indexes@[ix as int].config.vector_dim,
                vectors@.len() == fragments@.len(),
                frs == fragments_view(fragments@),
                vs == vectors_view(vectors@),
                j <= vectors@.len(),
                forall|x: int| 0 <= x < j ==> (#[trigger] vs[x]).len() == dim,
            decreases vectors@.len() - j,
        {
            assert(vs[j as int] == vectors@[j as int]@);
            if vectors[j].len() != dim {
                assert(vs[j as int].len() != dim);
                return Err(IndexError::DimensionMismatch);
            }
            j = j + 1;
        }
        j = 0;
        while j < vectors.len()
            invariant
                *self == *old(self),
                self.wf(),
                ix < self.indexes@.len(),
                self.indexes@[ix as int].config.name@ == name@,
                dim == self.indexes@[ix as int].config.vector_dim,
                vectors@.len() == fragments@.len(),
                frs == fragments_view(fragments@),
                vs == vectors_view(vectors@),
                j <= vectors@.len(),
                forall|x: int| 0 <= x < vs.len() ==> (#[trigger] vs[x]).len() == dim,
                forall|x: int, c: int|
                    0 <= x < j && 0 <= c < dim ==> component_ok(#[trigger] vs[x][c]),
            decreases vectors@.len() - j,
        {
            assert(vs[j as int] == vectors@[j as int]@);
            if !components_in_range(&vectors[j]) {
                proof {
                    let c = choose|c: int| 0 <= c < vectors@[j as int]@.len() && !component_ok(vectors@[j as int]@[c]);
                    assert(!component_ok(vs[j as int][c]));
                }
                return Err(IndexError::ComponentOutOfRange);
            }
            j = j + 1;
        }
        let ghost recs = records_of(frs, vs);
        let ghost s0 = old_ix.store.records_view();
        let mut index = self.indexes.remove(ix);
        let mut frags = fragments;
        let mut vecs = vectors;
        let ghost fr0 = frags@;
        let ghost v0 = vecs@;
        let ghost mut done: int = 0;
        assert(recs.take(0) =~= Seq::<RecordView>::empty());
        while frags.len() > 0
            invariant
                index == (Index { config: old_ix.config, store: index.store }),
                index.wf(),
                index.store.dim == dim,
                dim == old_ix.config.vector_dim,
                frs == fragments_view(fr0),
                vs == vectors_view(v0),
                recs == records_of(frs, vs),
                fr0.len() == v0.len(),
                forall|x: int| 0 <= x < vs.len() ==> (#[trigger] vs[x]).len() == dim,
                forall|x: int, c: int|
                    0 <= x < vs.len() && 0 <= c < dim ==> component_ok(#[trigger] vs[x][c]),
                0 <= done <= fr0.len(),
                frags@ == fr0.skip(done),
                vecs@ == v0.skip(done),
                index.store.records_view() == upsert_all(s0, recs.take(done)),
            decreases frags@.len(),
        {
            let f = frags.remove(0);
            let v = vecs.remove(0);
            proof {
                assert(f == fr0[done]);
                assert(v == v0[done]);
                assert(vs[done] == v@);
                assert(frs[done] == f@);
                assert forall|c: int| 0 <= c < v@.len() implies component_ok(#[trigger] v@[c]) by {
                    assert(vs[done][c] == v@[c]);
                }
            }
            let rec = VectorRecord { dedup_key: f.dedup_key, vector: v, metadata: f.metadata, text: f.text };
            index.store.upsert(rec);
            proof {
                assert(rec@ == recs[done]);
                assert(recs.take(done + 1).drop_last() =~= recs.take(done));
                assert(recs.take(done + 1).last() == recs[done]);
                assert(frags@ =~= fr0.skip(done + 1));
                assert(vecs@ =~= v0.skip(done + 1));
                done = done + 1;
            }
        }
        proof {
            assert(recs.take(done) =~= recs);
        }
        self.indexes.insert(ix, index);
        proof {
            assert forall|k: int| 0 <= k < self.indexes@.len() && k != ix implies self.indexes@[k]
                == old(self).indexes@[k] by {}
            assert forall|a: int, b: int|
                0 <= a < b < self.indexes@.len() implies self.indexes@[a].config.name@
                != self.indexes@[b].config.name@ by {
                assert(self.indexes@[a].config == old(self).indexes@[a].config);
                assert(self.indexes@[b].config == old(self).indexes@[b].config);
            }
            assert forall|a: int| 0 <= a < self.indexes@.len() implies (
            #[trigger] self.indexes@[a]).wf() by {
                if a != ix {
                    assert(self.indexes@[a] == old(self).indexes@[a]);
                }
            }
        }
        Ok(())
    }

    /// The `k` stored fragments of index `name` that best match the embedded
    /// query `query`, best first, as text and metadata.
    pub fn search(&self, name: &String, query: &Vec<i32>, k: usize) -> (r: Result<
        Vec<SearchResult>,
        IndexError,
    >)
        requires
            self.wf(),
        ensures
            search_post(*self, name@, query@, k as nat, r),
    {
        let ix = match self.find(name) {
            Some(ix) => ix,
            None => {
                return Err(IndexError::IndexNotFound);
            },
        };
        let index = &self.indexes[ix];
        assert(self.indexes@[ix as int].wf());
        if query.len() != index.config.vector_dim {
            return Err(IndexError::DimensionMismatch);
        }
        if !components_in_range(query) {
            return Err(IndexError::ComponentOutOfRange);
        }
        let positions = index.store.query(query, k);
        let ghost s = index.store.records_view();
        let mut out: Vec<SearchResult> = Vec::new();
        let mut j: usize = 0;
        while j < positions.len()
            invariant
                s == index.store.records_view(),
                forall|x: int| 0 <= x < positions@.len() ==> positions@[x] < s.len(),
                j <= positions@.len(),
                out@.len() == j,
                forall|x: int|
                    0 <= x < j ==> (#[trigger] out@[x]).text@ == s[positions@[x] as int].text
                        && meta_view(out@[x].metadata@) == s[positions@[x] as int].metadata,
            decreases positions@.len() - j,
        {
            let p = positions[j];
            let rec = &index.store.records[p];
            assert(s[p as int] == index.store.records@[p as int]@);
            let res = SearchResult { text: rec.text.clone(), metadata: copy_metadata(&rec.metadata) };
            out.push(res);
            j = j + 1;
        }
        assert(is_top_k(index.config.metric, query@, s, k as nat, positions@));
        Ok(out)
    }
}

} // verus!
