use indexify::{
    Document, EmbeddingModel, EmbeddingRouter, IndexError, IndexManager, MetricKind,
    TextSplitterKind, COMPONENT_LIMIT,
};

fn router() -> EmbeddingRouter {
    EmbeddingRouter::new(vec![
        EmbeddingModel { name: "tiny".to_string(), dimensions: 4 },
        EmbeddingModel { name: "wide".to_string(), dimensions: 8 },
    ])
    .unwrap()
}

fn doc(text: &str, meta: &[(&str, &str)]) -> Document {
    Document {
        text: text.to_string(),
        metadata: meta.iter().map(|(k, v)| (k.to_string(), v.to_string())).collect(),
    }
}

fn create(
    m: &mut IndexManager,
    name: &str,
    model: &str,
    metric: MetricKind,
    splitter: TextSplitterKind,
    fields: Option<Vec<String>>,
) -> Result<(), IndexError> {
    m.create_index(&router(), name.to_string(), model.to_string(), metric, splitter, fields)
}

fn add(m: &mut IndexManager, name: &str, docs: Vec<Document>, vectors: Vec<Vec<i32>>) -> Result<(), IndexError> {
    let frags = m.fragments(&name.to_string(), &docs)?;
    m.add_embedded(&name.to_string(), frags, vectors)
}

fn stored(m: &IndexManager, name: &str) -> usize {
    let i = m.find(&name.to_string()).unwrap();
    m.indexes[i].store.len()
}

#[test]
fn end_to_end_cosine_search_returns_the_document() {
    let mut m = IndexManager::new();
    create(&mut m, "docs", "tiny", MetricKind::Cosine, TextSplitterKind::Whole, None).unwrap();
    add(&mut m, "docs", vec![doc("hello", &[("src", "t1")])], vec![vec![1, 2, 3, 4]]).unwrap();
    let r = m.search(&"docs".to_string(), &vec![1, 2, 3, 4], 1).unwrap();
    assert_eq!(r.len(), 1);
    assert_eq!(r[0].text, "hello");
    assert_eq!(r[0].metadata, vec![("src".to_string(), "t1".to_string())]);
}

#[test]
fn unknown_model_is_refused_and_nothing_is_created() {
    let mut m = IndexManager::new();
    let r = create(&mut m, "docs", "does-not-exist", MetricKind::Dot, TextSplitterKind::Whole, None);
    assert!(matches!(r, Err(IndexError::UnknownModel)));
    assert!(m.load(&"docs".to_string()).is_none());
    assert!(m.indexes.is_empty());
}

#[test]
fn second_create_with_same_name_is_refused() {
    let mut m = IndexManager::new();
    assert!(create(&mut m, "docs", "tiny", MetricKind::Dot, TextSplitterKind::Whole, None).is_ok());
    let r = create(&mut m, "docs", "wide", MetricKind::Cosine, TextSplitterKind::NewLine, None);
    assert!(matches!(r, Err(IndexError::IndexAlreadyExists)));
    assert_eq!(m.indexes.len(), 1);
    assert_eq!(m.load(&"docs".to_string()).unwrap().vector_dim, 4);
}

#[test]
fn bad_splitter_pattern_is_refused_at_creation() {
    let mut m = IndexManager::new();
    let bad = TextSplitterKind::Regex { pattern: "(".to_string() };
    let r = create(&mut m, "docs", "tiny", MetricKind::Dot, bad, None);
    assert!(matches!(r, Err(IndexError::InvalidSplitterPattern)));
    assert!(m.indexes.is_empty());
}

#[test]
fn recorded_dimension_is_the_models() {
    let mut m = IndexManager::new();
    create(&mut m, "a", "tiny", MetricKind::Dot, TextSplitterKind::Whole, None).unwrap();
    create(&mut m, "b", "wide", MetricKind::Euclidean, TextSplitterKind::Whole, None).unwrap();
    assert_eq!(m.load(&"a".to_string()).unwrap().vector_dim, 4);
    assert_eq!(m.load(&"b".to_string()).unwrap().vector_dim, 8);
    let r = add(&mut m, "b", vec![doc("x", &[])], vec![vec![1, 2, 3, 4]]);
    assert!(matches!(r, Err(IndexError::DimensionMismatch)));
    assert_eq!(stored(&m, "b"), 0);
}

#[test]
fn resubmitting_a_document_keeps_one_record() {
    let mut m = IndexManager::new();
    create(&mut m, "docs", "tiny", MetricKind::Dot, TextSplitterKind::NewLine, None).unwrap();
    let d = || doc("first\nsecond", &[("k", "v")]);
    let vs = || vec![vec![1, 0, 0, 0], vec![0, 1, 0, 0]];
    add(&mut m, "docs", vec![d()], vs()).unwrap();
    assert_eq!(stored(&m, "docs"), 2);
    add(&mut m, "docs", vec![d()], vs()).unwrap();
    assert_eq!(stored(&m, "docs"), 2);
}

#[test]
fn dedup_fields_replace_edited_content() {
    let mut m = IndexManager::new();
    let fields = Some(vec!["id".to_string()]);
    create(&mut m, "docs", "tiny", MetricKind::Dot, TextSplitterKind::Whole, fields).unwrap();
    add(&mut m, "docs", vec![doc("old text", &[("id", "7"), ("x", "1")])], vec![vec![1, 0, 0, 0]]).unwrap();
    add(&mut m, "docs", vec![doc("new text", &[("x", "2"), ("id", "7")])], vec![vec![0, 1, 0, 0]]).unwrap();
    assert_eq!(stored(&m, "docs"), 1);
    let r = m.search(&"docs".to_string(), &vec![0, 1, 0, 0], 5).unwrap();
    assert_eq!(r.len(), 1);
    assert_eq!(r[0].text, "new text");
}

#[test]
fn dedup_key_ignores_metadata_order() {
    let mut m = IndexManager::new();
    let fields = Some(vec!["a".to_string(), "b".to_string()]);
    create(&mut m, "docs", "tiny", MetricKind::Dot, TextSplitterKind::Whole, fields).unwrap();
    let d1 = doc("t", &[("a", "1"), ("b", "2")]);
    let d2 = doc("t", &[("b", "2"), ("a", "1")]);
    let f1 = m.fragments(&"docs".to_string(), &vec![d1]).unwrap();
    let f2 = m.fragments(&"docs".to_string(), &vec![d2]).unwrap();
    assert_eq!(f1[0].dedup_key, f2[0].dedup_key);
    assert_eq!(f1[0].dedup_key, vec![Some("1".to_string()), Some("2".to_string())]);
}

#[test]
fn fragments_carry_text_metadata_and_key() {
    let mut m = IndexManager::new();
    create(&mut m, "docs", "tiny", MetricKind::Dot, TextSplitterKind::NewLine, None).unwrap();
    let docs = vec![doc("a\nb", &[("s", "1")]), doc("c", &[])];
    let f = m.fragments(&"docs".to_string(), &docs).unwrap();
    assert_eq!(f.len(), 3);
    assert_eq!(f[0].text, "a");
    assert_eq!(f[1].text, "b");
    assert_eq!(f[2].text, "c");
    assert_eq!(f[1].metadata, vec![("s".to_string(), "1".to_string())]);
    assert_eq!(f[2].dedup_key, vec![Some("c".to_string())]);
}

#[test]
fn missing_index_is_reported() {
    let mut m = IndexManager::new();
    assert!(m.load(&"nope".to_string()).is_none());
    assert!(matches!(m.fragments(&"nope".to_string(), &vec![]), Err(IndexError::IndexNotFound)));
    assert!(matches!(
        m.add_embedded(&"nope".to_string(), vec![], vec![]),
        Err(IndexError::IndexNotFound)
    ));
    assert!(matches!(m.search(&"nope".to_string(), &vec![0; 4], 1), Err(IndexError::IndexNotFound)));
}

#[test]
fn embedding_count_and_range_are_checked() {
    let mut m = IndexManager::new();
    create(&mut m, "docs", "tiny", MetricKind::Dot, TextSplitterKind::Whole, None).unwrap();
    let r = add(&mut m, "docs", vec![doc("x", &[])], vec![]);
    assert!(matches!(r, Err(IndexError::EmbeddingCountMismatch)));
    let r = add(&mut m, "docs", vec![doc("x", &[])], vec![vec![0, 0, COMPONENT_LIMIT + 1, 0]]);
    assert!(matches!(r, Err(IndexError::ComponentOutOfRange)));
    assert_eq!(stored(&m, "docs"), 0);
    let r = m.search(&"docs".to_string(), &vec![0, 0, 0], 1);
    assert!(matches!(r, Err(IndexError::DimensionMismatch)));
    let r = m.search(&"docs".to_string(), &vec![0, -COMPONENT_LIMIT - 1, 0, 0], 1);
    assert!(matches!(r, Err(IndexError::ComponentOutOfRange)));
}

fn three_point_index(metric: MetricKind) -> IndexManager {
    let mut m = IndexManager::new();
    create(&mut m, "pts", "tiny", metric, TextSplitterKind::Whole, None).unwrap();
    let docs = vec![doc("near", &[]), doc("mid", &[]), doc("far", &[])];
    let vectors = vec![vec![10, 0, 0, 0], vec![6, 6, 0, 0], vec![-10, 0, 0, 0]];
    add(&mut m, "pts", docs, vectors).unwrap();
    m
}

fn texts(m: &IndexManager, q: Vec<i32>, k: usize) -> Vec<String> {
    m.search(&"pts".to_string(), &q, k).unwrap().into_iter().map(|r| r.text).collect()
}

#[test]
fn euclidean_ranks_by_ascending_distance() {
    let m = three_point_index(MetricKind::Euclidean);
    assert_eq!(texts(&m, vec![9, 1, 0, 0], 3), vec!["near", "mid", "far"]);
    assert_eq!(texts(&m, vec![-9, 0, 0, 0], 2), vec!["far", "mid"]);
}

#[test]
fn dot_ranks_by_descending_product() {
    let m = three_point_index(MetricKind::Dot);
    // products with (0, 1, 0, 0): near 0, mid 6, far 0
    assert_eq!(texts(&m, vec![0, 1, 0, 0], 1), vec!["mid"]);
    // products with (1, 0, 0, 0): near 10, mid 6, far -10
    assert_eq!(texts(&m, vec![1, 0, 0, 0], 3), vec!["near", "mid", "far"]);
}

#[test]
fn cosine_ignores_vector_length() {
    let mut m = IndexManager::new();
    create(&mut m, "pts", "tiny", MetricKind::Cosine, TextSplitterKind::Whole, None).unwrap();
    let docs = vec![doc("long-off-axis", &[]), doc("short-on-axis", &[])];
    let vectors = vec![vec![1000, 900, 0, 0], vec![1, 0, 0, 0]];
    add(&mut m, "pts", docs, vectors).unwrap();
    assert_eq!(texts(&m, vec![5, 0, 0, 0], 2), vec!["short-on-axis", "long-off-axis"]);
    // with dot the long vector would win
    let mut d = IndexManager::new();
    create(&mut d, "pts", "tiny", MetricKind::Dot, TextSplitterKind::Whole, None).unwrap();
    let docs = vec![doc("long-off-axis", &[]), doc("short-on-axis", &[])];
    add(&mut d, "pts", docs, vec![vec![1000, 900, 0, 0], vec![1, 0, 0, 0]]).unwrap();
    assert_eq!(texts(&d, vec![5, 0, 0, 0], 1), vec!["long-off-axis"]);
}

#[test]
fn search_returns_fewer_than_k_without_error() {
    let m = three_point_index(MetricKind::Dot);
    assert_eq!(texts(&m, vec![1, 0, 0, 0], 10).len(), 3);
    assert_eq!(texts(&m, vec![1, 0, 0, 0], 0).len(), 0);
    let mut e = IndexManager::new();
    create(&mut e, "pts", "tiny", MetricKind::Dot, TextSplitterKind::Whole, None).unwrap();
    assert!(texts(&e, vec![1, 0, 0, 0], 3).is_empty());
}

#[test]
fn router_lists_models_and_dimensions() {
    let r = router();
    assert_eq!(r.list_models(), vec!["tiny".to_string(), "wide".to_string()]);
    assert_eq!(r.dimensions(&"wide".to_string()), Ok(8));
    assert!(matches!(r.dimensions(&"x".to_string()), Err(IndexError::UnknownModel)));
    assert!(EmbeddingRouter::new(vec![EmbeddingModel { name: "z".to_string(), dimensions: 0 }]).is_none());
}
