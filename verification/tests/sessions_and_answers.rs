use loupe::api::{
    connect_answer, default_limit, default_port, defaults, describe_collection, ok_answer, page_answer,
    plan_query, route_query, sort_cache_key, sort_names, summarize, scalar_fields, ApiError, QueryBody, QueryRoute,
};
use loupe::config::Config;
use loupe::json::{JsonNumber, JsonValue};
use loupe::milvus::{
    collection_names, count_of, count_request, load_state_of, query_request, request_failed, row_count_of,
    unwrap_envelope, MilvusError, RestClient, list_request, describe_request, query_rows_of,
};
use loupe::session::{format_session_id, new_session_id, SessionTable};

fn s(t: &str) -> JsonValue {
    JsonValue::Str(t.to_string())
}

fn n(u: u64) -> JsonValue {
    JsonValue::Number(JsonNumber::PosInt(u))
}

fn neg(i: i64) -> JsonValue {
    JsonValue::Number(JsonNumber::NegInt(i))
}

fn obj(entries: Vec<(&str, JsonValue)>) -> JsonValue {
    JsonValue::Object(entries.into_iter().map(|(k, v)| (k.to_string(), v)).collect())
}

fn body(filter: &str, limit: usize, sort_field: &str) -> QueryBody {
    QueryBody {
        filter: filter.to_string(),
        limit,
        offset: 0,
        sort_field: sort_field.to_string(),
        sort_dir: "asc".to_string(),
        refresh: false,
    }
}

fn describe() -> JsonValue {
    obj(vec![
        ("description", s("demo")),
        ("fields", JsonValue::Array(vec![
            obj(vec![("name", s("id")), ("type", s("Int64")), ("primaryKey", JsonValue::Bool(true))]),
            obj(vec![("name", s("emb")), ("type", s("BinaryVector"))]),
            obj(vec![("name", s("title")), ("type", s("VarChar"))]),
        ])),
        ("indexes", JsonValue::Array(vec![])),
    ])
}

#[test]
fn session_ids_and_table() {
    assert_eq!(format_session_id(255, 16), "ff-10");
    let id = new_session_id(7);
    assert!(id.ends_with("-7"));
    assert_ne!(new_session_id(1), new_session_id(2));
    let mut t: SessionTable<u8> = SessionTable::new();
    let e = t.resolve(None).err().unwrap();
    assert_eq!((e.0, e.1.as_str()), (401, "missing X-Session header"));
    let e = t.resolve(Some("abc")).err().unwrap();
    assert_eq!((e.0, e.1.as_str()), (401, "session expired, sign in again"));
    t.insert("abc".to_string(), 5);
    assert_eq!(t.resolve(Some("abc")).ok(), Some(&5));
    t.disconnect(None);
    assert_eq!(t.resolve(Some("abc")).ok(), Some(&5));
    t.disconnect(Some("abc"));
    assert!(t.resolve(Some("abc")).is_err());
}

#[test]
fn small_answers() {
    let c = Config {
        host: "h".into(), port: "1".into(), user: "u".into(), password: "p".into(),
        gui_port: 3003, bind: "127.0.0.1".into(), row_cap: 200, sort_cap: 10,
    };
    assert_eq!(defaults(&c).to_json_text(), r#"{"host":"h","port":"1","user":"u","password":"p"}"#);
    assert_eq!(connect_answer("x-1").to_json_text(), r#"{"session":"x-1"}"#);
    assert_eq!(ok_answer().to_json_text(), r#"{"ok":true}"#);
    assert_eq!(default_port(), "19530");
    assert_eq!(default_limit(), 50);
    let ok = summarize("c", Ok(12), Ok("LoadStateLoaded".to_string()));
    assert_eq!(ok.to_json_text(), r#"{"name":"c","rows":12,"loaded":"LoadStateLoaded"}"#);
    let degraded = summarize("c", Err(MilvusError("x".into())), Err(MilvusError("y".into())));
    assert_eq!(degraded.to_json_text(), r#"{"name":"c","rows":-1,"loaded":"unknown"}"#);
}

#[test]
fn describe_answer_and_its_failure() {
    let d = describe_collection("c", Ok(describe()), Ok(3), Err(MilvusError("down".into()))).ok().unwrap();
    let t = d.to_json_text();
    assert!(t.starts_with(r#"{"name":"c","description":"demo","rows":3,"loaded":"unknown","fields":["#));
    assert!(t.ends_with(r#""indexes":[]}"#));
    let e: ApiError = describe_collection("c", Err(MilvusError("gone".into())), Ok(3), Ok("x".into())).err().unwrap();
    assert_eq!((e.0, e.1.as_str()), (502, "gone"));
    let from: ApiError = MilvusError("boom".into()).into();
    assert_eq!(from.0, 502);
}

#[test]
fn query_planning_and_routing() {
    assert_eq!(scalar_fields(&describe()), vec!["id".to_string(), "title".to_string()]);
    let e = plan_query(&obj(vec![]), &body("", 10, ""), 200).err().unwrap();
    assert_eq!((e.0, e.1.as_str()), (422, "collection has no scalar fields to display"));
    let e = plan_query(&obj(vec![]), &body("", 10, ""), 0).err().unwrap();
    assert_eq!((e.0, e.1.as_str()), (422, "collection has no scalar fields to display"));
    let plan = plan_query(&describe(), &body("", 0, ""), 200).ok().unwrap();
    assert_eq!(plan.limit, 1);
    assert_eq!(plan_query(&describe(), &body("", 5000, ""), 200).ok().unwrap().limit, 200);
    assert_eq!(plan_query(&describe(), &body("", 50, ""), 200).ok().unwrap().limit, 50);
    assert!(matches!(route_query(&plan, &body("", 1, ""), 10_000, 5), Ok(QueryRoute::Plain)));
    let e = route_query(&plan, &body("", 1, "emb"), 1, 5).err().unwrap();
    assert_eq!((e.0, e.1.as_str()), (422, "unknown sort field: emb"));
    let e = route_query(&plan, &body("", 1, "title"), 6, 5).err().unwrap();
    assert_eq!(e.1, "6 rows exceed the whole collection sort cap of 5, raise MILVUS_GUI_SORT_CAP or add a filter");
    assert!(matches!(route_query(&plan, &body("", 1, "title"), 5, 5), Ok(QueryRoute::Sorted)));
    assert_eq!(sort_cache_key(Some("s1"), "c", &body("a > 1", 1, "title")), "s1|c|a > 1|title|asc");
    assert_eq!(sort_cache_key(None, "c", &body("", 1, "t")), "|c||t|asc");
    let page = page_answer(&plan.fields, vec![obj(vec![("id", n(1))])], 50, 0, 7, true);
    assert_eq!(page.to_json_text(), r#"{"fields":["id","title"],"rows":[{"id":1}],"limit":50,"offset":0,"total":7,"sorted":true}"#);
    let plain = page_answer(&plan.fields, vec![], 50, 0, -1, false);
    assert_eq!(plain.to_json_text(), r#"{"fields":["id","title"],"rows":[],"limit":50,"offset":0,"total":-1}"#);
}

#[test]
fn names_are_sorted() {
    let names = vec!["b".to_string(), "a".to_string(), "B".to_string(), "a".to_string()];
    assert_eq!(sort_names(names), vec!["B", "a", "a", "b"]);
}

#[test]
fn milvus_protocol() {
    let c = RestClient::new("db", "19530", "root", "pw").ok().unwrap();
    assert_eq!(c.base, "http://db:19530/v2/vectordb");
    assert_eq!(c.auth, "Bearer root:pw");
    assert_eq!(c.endpoint("/collections/list"), "http://db:19530/v2/vectordb/collections/list");
    let ok = obj(vec![("code", n(0)), ("data", JsonValue::Array(vec![s("a"), n(1), s("b")]))]);
    let data = unwrap_envelope(&ok).ok().unwrap();
    assert_eq!(collection_names(&data), vec!["a".to_string(), "b".to_string()]);
    let failed = obj(vec![("code", neg(-5)), ("message", s("no such collection"))]);
    assert_eq!(unwrap_envelope(&failed).err().unwrap().0, "Milvus code -5: no such collection");
    assert_eq!(unwrap_envelope(&obj(vec![])).err().unwrap().0, "Milvus code -1: unknown Milvus error");
    assert_eq!(row_count_of(&obj(vec![("rowCount", n(12))])), 12);
    assert_eq!(row_count_of(&JsonValue::Null), 0);
    assert_eq!(load_state_of(&obj(vec![])), "unknown");
    assert_eq!(count_of(&JsonValue::Array(vec![obj(vec![("count(*)", n(3))])])), 3);
    assert_eq!(count_of(&JsonValue::Array(vec![])), 0);
    assert_eq!(query_rows_of(JsonValue::Array(vec![n(1), n(2)])).len(), 2);
    assert_eq!(query_rows_of(s("x")).len(), 0);
    assert_eq!(request_failed("u", "e").0, "request to u failed: e");
    let q = query_request("c", "id > 1", &vec!["id".to_string()], 10, 20);
    assert_eq!(q.path, "/entities/query");
    assert_eq!(q.payload.to_json_text(), r#"{"collectionName":"c","filter":"id > 1","outputFields":["id"],"limit":10,"offset":20}"#);
    assert_eq!(count_request("c", "").payload.to_json_text(), r#"{"collectionName":"c","filter":"","outputFields":["count(*)"],"limit":1}"#);
    assert_eq!(list_request().payload.to_json_text(), "{}");
    assert_eq!(describe_request("c").path, "/collections/describe");
}

#[test]
fn client_assembly_and_transport_errors() {
    let failed = RestClient::assemble("h", "1", "u", "p", Err("builder error".to_string())).err().unwrap();
    assert_eq!(failed.0, "builder error");
    let http = reqwest::Client::new();
    let c = RestClient::assemble("h", "1", "u", "p", Ok(http)).ok().unwrap();
    assert_eq!((c.base.as_str(), c.auth.as_str()), ("http://h:1/v2/vectordb", "Bearer u:p"));
    assert_eq!(loupe::milvus::invalid_json("u", "eof").0, "invalid JSON from u: eof");
}
