use loupe::index::{
    page_keys, pk_literal, primary_key, rows_filter, order_rows_by_pk, SortCache, SortIndex, SortIndexBuilder,
    SORT_BATCH, SORT_CACHE_MAX,
};
use loupe::json::{JsonNumber, JsonValue};
use loupe::sort::stable_sort_order;

fn s(t: &str) -> JsonValue {
    JsonValue::Str(t.to_string())
}

fn n(u: u64) -> JsonValue {
    JsonValue::Number(JsonNumber::PosInt(u))
}

fn obj(entries: Vec<(&str, JsonValue)>) -> JsonValue {
    JsonValue::Object(entries.into_iter().map(|(k, v)| (k.to_string(), v)).collect())
}

fn describe(pk_type: &str) -> JsonValue {
    obj(vec![(
        "fields",
        JsonValue::Array(vec![
            obj(vec![("name", s("vec")), ("type", s("FloatVector"))]),
            obj(vec![("name", s("pk")), ("type", s(pk_type)), ("primaryKey", JsonValue::Bool(true))]),
            obj(vec![("name", s("score")), ("type", s("Double"))]),
        ]),
    )])
}

fn texts(v: &[JsonValue]) -> Vec<String> {
    v.iter().map(|x| x.to_json_text()).collect()
}

#[test]
fn primary_key_found_by_flag() {
    assert_eq!(primary_key(&describe("Int64")), Some(("pk".to_string(), false)));
    assert_eq!(primary_key(&describe("VarChar")), Some(("pk".to_string(), true)));
    let unnamed = obj(vec![("fields", JsonValue::Array(vec![obj(vec![("primaryKey", JsonValue::Bool(true))])]))]);
    assert_eq!(primary_key(&unnamed), Some(("id".to_string(), false)));
    assert_eq!(primary_key(&obj(vec![])), None);
}

#[test]
fn pk_literals() {
    assert_eq!(pk_literal(&n(42), false), "42");
    assert_eq!(pk_literal(&s("a\"b"), true), "\"a\\\"b\"");
    assert_eq!(pk_literal(&n(42), true), "\"\"");
}

#[test]
fn missing_primary_key_is_refused() {
    let err = SortIndexBuilder::start(&obj(vec![]), "", "score", "asc").err().unwrap();
    assert_eq!(err.0, 422);
    assert_eq!(err.1, "collection has no primary key");
}

#[test]
fn keyset_batches_then_stable_sort() {
    let mut b = SortIndexBuilder::start(&describe("Int64"), "score > 0", "score", "desc").ok().unwrap();
    let q = b.next_query();
    assert_eq!(q.filter, "score > 0");
    assert_eq!(q.output_fields, vec!["pk".to_string(), "score".to_string()]);
    assert_eq!((q.limit, q.offset), (SORT_BATCH, 0));
    let full: Vec<JsonValue> = (0..SORT_BATCH as u64).map(|i| obj(vec![("pk", n(i)), ("score", n(i % 3))])).collect();
    assert_eq!(b.absorb(&full, 1_000_000).ok(), Some(false));
    assert_eq!(b.next_query().filter, format!("(score > 0) and pk > {}", SORT_BATCH - 1));
    let tail = vec![obj(vec![("pk", n(20_000)), ("score", n(2))]), obj(vec![("pk", n(20_001))])];
    assert_eq!(b.absorb(&tail, 1_000_000).ok(), Some(true));
    let index = b.finish();
    assert_eq!(index.pk_field, "pk");
    assert_eq!(index.keys.len(), SORT_BATCH + 2);
    // descending reverses the whole order: the missing (null) score first, then 2, 1, 0, ties in key order
    let first = texts(&index.keys[..4]);
    assert_eq!(first, vec!["20001", "2", "5", "8"]);
    assert_eq!(index.keys[3334].to_json_text(), "20000");
    assert_eq!(index.keys[index.keys.len() - 1].to_json_text(), "9999");
}

#[test]
fn growing_past_the_cap_is_refused() {
    let mut b = SortIndexBuilder::start(&describe("VarChar"), "", "score", "asc").ok().unwrap();
    let full: Vec<JsonValue> = (0..SORT_BATCH as u64).map(|i| obj(vec![("pk", s(&i.to_string())), ("score", n(i))])).collect();
    let err = b.absorb(&full, 5).err().unwrap();
    assert_eq!(err.0, 422);
    assert_eq!(err.1, "collection grew past the sort cap while indexing");
    assert_eq!(b.next_query().filter, format!("pk > \"{}\"", SORT_BATCH - 1));
}

#[test]
fn stable_order_keeps_ties_in_place() {
    let vals = vec![n(3), n(1), n(3), JsonValue::Null, n(1)];
    assert_eq!(stable_sort_order(&vals, false), vec![1, 4, 0, 2, 3]);
    assert_eq!(stable_sort_order(&vals, true), vec![3, 0, 2, 1, 4]);
}

#[test]
fn pages_and_row_order() {
    let index = SortIndex { pk_field: "pk".to_string(), keys: vec![n(5), n(3), n(9), n(1)] };
    assert_eq!(texts(&page_keys(&index, 1, 2)), vec!["3", "9"]);
    assert_eq!(texts(&page_keys(&index, 3, 10)), vec!["1"]);
    assert!(page_keys(&index, 10, 2).is_empty());
    let page = page_keys(&index, 0, 3);
    assert_eq!(rows_filter("pk", &page), Some("pk in [5, 3, 9]".to_string()));
    assert_eq!(rows_filter("pk", &vec![s("a"), s("b")]), Some("pk in [\"a\", \"b\"]".to_string()));
    assert_eq!(rows_filter("pk", &vec![]), None);
    let rows = vec![
        obj(vec![("pk", n(9)), ("v", s("nine"))]),
        obj(vec![("pk", n(5)), ("v", s("five"))]),
        obj(vec![("pk", n(5)), ("v", s("five again"))]),
    ];
    let ordered = order_rows_by_pk(&rows, "pk", &page);
    assert_eq!(texts(&ordered), vec![r#"{"pk":5,"v":"five again"}"#, r#"{"pk":9,"v":"nine"}"#]);
}

#[test]
fn cache_refresh_and_eviction() {
    let mut cache: SortCache<u32> = SortCache::new();
    for i in 0..SORT_CACHE_MAX as u32 {
        cache.insert(format!("k{i}"), i);
    }
    assert_eq!(cache.len(), SORT_CACHE_MAX);
    assert_eq!(cache.cached_index("k3", false), Some(&3));
    cache.insert("new".to_string(), 99);
    assert_eq!(cache.len(), 1);
    assert_eq!(cache.get("k3"), None);
    assert_eq!(cache.cached_index("new", true), None);
    assert_eq!(cache.get("new"), None);
}

#[test]
fn consecutive_pages_join_up() {
    let index = SortIndex { pk_field: "pk".to_string(), keys: (0..10).map(n).collect() };
    let mut joined = texts(&page_keys(&index, 2, 3));
    joined.extend(texts(&page_keys(&index, 5, 4)));
    assert_eq!(joined, texts(&page_keys(&index, 2, 7)));
    assert_eq!(joined.len(), 7);
}
