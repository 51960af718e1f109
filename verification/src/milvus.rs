//! The Milvus RESTful v2 API: the client's address and credentials, the
//! request of each operation, the `{code, message, data}` envelope and the
//! decoding of each answer.

use vstd::prelude::*;
use crate::json::{
    JsonData, JsonValue, int_json, items_view, lemma_items_view, uint_json, strings_json, texts,
    object_json, pairs_view, uint_value, text_value, strings_value, object_value,
};
use crate::text::{format_i64, signed_decimal};

verus! {

/// An error reported by, or on the way to, the Milvus service.
pub struct MilvusError(pub String);

#[verifier::external_type_specification]
#[verifier::external_body]
pub struct ExHttpClient(reqwest::Client);

#[verifier::external_type_specification]
#[verifier::external_body]
pub struct ExHttpError(reqwest::Error);

/// `reqwest::Client::builder().timeout(..).build()`: an HTTP client whose
/// requests time out after `secs` seconds. `build` fails only on an error
/// that a setter recorded in the builder; `Client::builder()` and `timeout`
/// record none, and with the features this crate enables no TLS backend or
/// alternative resolver is set up, so the build always succeeds.
#[verifier::external_body]
fn build_http_client(secs: u64) -> (r: reqwest::Result<reqwest::Client>)
    ensures
        r is Ok,
{
    reqwest::Client::builder().timeout(std::time::Duration::from_secs(secs)).build()
}

/// The `Display` text of a `reqwest` error; it depends on the error's kind
/// and source, which are opaque here, so nothing is promised of it.
#[verifier::external_body]
fn http_error_text(e: &reqwest::Error) -> String {
    e.to_string()
}

/// The seconds an HTTP call to Milvus may take.
pub const REQUEST_TIMEOUT_SECS: u64 = 20;

/// A client of one Milvus service: the base URL of its v2 API, the
/// `Authorization` header value, and the HTTP client.
pub struct RestClient {
    pub base: String,
    pub auth: String,
    pub http: reqwest::Client,
}

/// The base URL of the Milvus v2 API on `host:port`.
pub open spec fn base_url(host: Seq<char>, port: Seq<char>) -> Seq<char> {
    "http://"@ + host + ":"@ + port + "/v2/vectordb"@
}

/// The `Authorization` header value for `user` and `password`.
pub open spec fn bearer(user: Seq<char>, password: Seq<char>) -> Seq<char> {
    "Bearer "@ + user + ":"@ + password
}

impl RestClient {
    /// A client for the Milvus service on `host:port` signing in as `user`,
    /// whose HTTP calls time out after `REQUEST_TIMEOUT_SECS` seconds. Setting
    /// up the HTTP client cannot fail, so the result is always `Ok`.
    pub fn new(host: &str, port: &str, user: &str, password: &str) -> (r: Result<RestClient, MilvusError>)
        ensures
            r matches Ok(c) && c.base@ == base_url(host@, port@) && c.auth@ == bearer(user@, password@),
    {
        let http = match build_http_client(REQUEST_TIMEOUT_SECS) {
            Ok(h) => Ok(h),
            Err(e) => Err(http_error_text(&e)),
        };
        RestClient::assemble(host, port, user, password, http)
    }

    /// The client around an HTTP client that was set up, or the error
    /// carrying the text of the failure to set one up.
    pub fn assemble(host: &str, port: &str, user: &str, password: &str, http: Result<reqwest::Client, String>) -> (r: Result<RestClient, MilvusError>)
        ensures
            http is Ok ==> (r matches Ok(c) && c.base@ == base_url(host@, port@) && c.auth@ == bearer(user@, password@)
                && c.http == http->Ok_0),
            http is Err ==> (r matches Err(e) && e.0@ == http->Err_0@),
    {
        let http = match http {
            Ok(h) => h,
            Err(text) => return Err(MilvusError(text)),
        };
        let mut base = String::from_str("http://");
        base.append(host);
        base.append(":");
        base.append(port);
        base.append("/v2/vectordb");
        let mut auth = String::from_str("Bearer ");
        auth.append(user);
        auth.append(":");
        auth.append(password);
        Ok(RestClient { base, auth, http })
    }

    /// The URL of an API path.
    pub fn endpoint(&self, path: &str) -> (r: String)
        ensures
            r@ == self.base@ + path@,
    {
        let mut url = self.base.clone();
        url.append(path);
        url
    }
}

/// The error for a call that did not get an answer.
pub fn request_failed(url: &str, detail: &str) -> (r: MilvusError)
    ensures
        r.0@ == "request to "@ + url@ + " failed: "@ + detail@,
{
    let mut m = String::from_str("request to ");
    m.append(url);
    m.append(" failed: ");
    m.append(detail);
    MilvusError(m)
}

/// The error for an answer that is not JSON.
pub fn invalid_json(url: &str, detail: &str) -> (r: MilvusError)
    ensures
        r.0@ == "invalid JSON from "@ + url@ + ": "@ + detail@,
{
    let mut m = String::from_str("invalid JSON from ");
    m.append(url);
    m.append(": ");
    m.append(detail);
    MilvusError(m)
}

/// The status code of an answer envelope: its integer `code`, `-1` when absent.
pub open spec fn envelope_code(body: JsonData) -> i64 {
    match body.member("code"@).int_value() {
        Some(c) => c,
        None => -1i64,
    }
}

/// The message of a failed answer envelope.
pub open spec fn envelope_message(body: JsonData) -> Seq<char> {
    match body.member("message"@).str_value() {
        Some(m) => m,
        None => "unknown Milvus error"@,
    }
}

/// Unwraps the `{code, message, data}` envelope of an answer: code 0 yields
/// the data, any other code the error `Milvus code {code}: {message}`.
pub fn unwrap_envelope(body: &JsonValue) -> (r: Result<JsonValue, MilvusError>)
    ensures
        envelope_code(body@) == 0 ==> (r matches Ok(d) && d@ == body@.member("data"@)),
        envelope_code(body@) != 0 ==> (r matches Err(e) && e.0@ == "Milvus code "@ + signed_decimal(
            envelope_code(body@) as int,
        ) + ": "@ + envelope_message(body@)),
        body@.member("code"@) == int_json(0) ==> (r matches Ok(d) && d@ == body@.member("data"@)),
        forall|c: i64| #![auto] c != 0 && body@.member("code"@) == int_json(c) ==> (r matches Err(e) && e.0@
            == "Milvus code "@ + signed_decimal(c as int) + ": "@ + envelope_message(body@)),
{
    proof {
        law_envelope_outcome(body@);
    }
    let code: i64 = match body.field("code").as_i64() {
        Some(c) => c,
        None => -1,
    };
    if code != 0 {
        let message = match body.field("message").as_str() {
            Some(m) => m.clone(),
            None => String::from_str("unknown Milvus error"),
        };
        let mut m = String::from_str("Milvus code ");
        let c = format_i64(code);
        m.append(c.as_str());
        m.append(": ");
        m.append(message.as_str());
        return Err(MilvusError(m));
    }
    Ok(body.field("data"))
}

/// Only code 0 is success: an answer whose `code` is the integer `c` yields
/// its data when `c` is 0 and fails with `c` itself otherwise; an answer
/// without an integer code fails. The failure text carries the answer's
/// `message` when it is a string.
pub proof fn law_envelope_outcome(body: JsonData)
    ensures
        body.member("code"@) == int_json(0) ==> envelope_code(body) == 0,
        forall|c: i64| #![auto] c != 0 && body.member("code"@) == int_json(c) ==> envelope_code(body) == c,
        body.member("code"@).int_value() is None ==> envelope_code(body) != 0,
        forall|m: Seq<char>| #![auto] body.member("message"@) == JsonData::Str(m) ==> envelope_message(body) == m,
{
}

/// One call of the API: the path under the base URL and the JSON payload.
pub struct MilvusRequest {
    pub path: String,
    pub payload: JsonValue,
}

/// `{"collectionName": name}`.
pub open spec fn collection_payload(name: Seq<char>) -> JsonData {
    object_json(seq![("collectionName"@, JsonData::Str(name))])
}

/// The payload of a per-collection request is an object with the single
/// member `collectionName`, whose value is the collection's name.
pub proof fn law_collection_payload(name: Seq<char>)
    ensures
        collection_payload(name) == JsonData::Object(seq![("collectionName"@, JsonData::Str(name))]),
        collection_payload(name).member("collectionName"@) == JsonData::Str(name),
{
}

fn collection_request(path: &str, name: &str) -> (r: MilvusRequest)
    ensures
        r.path@ == path@,
        r.payload@ == collection_payload(name@),
        r.payload@ == JsonData::Object(seq![("collectionName"@, JsonData::Str(name@))]),
{
    proof {
        law_collection_payload(name@);
    }
    let e = vec![(String::from_str("collectionName"), text_value(name))];
    let payload = object_value(e);
    assert(pairs_view(e@) =~= seq![("collectionName"@, JsonData::Str(name@))]);
    MilvusRequest { path: String::from_str(path), payload }
}

/// Lists the collections: `/collections/list` with `{}`.
pub fn list_request() -> (r: MilvusRequest)
    ensures
        r.path@ == "/collections/list"@,
        r.payload@ == object_json(Seq::empty()),
{
    let e: Vec<(String, JsonValue)> = Vec::new();
    let payload = object_value(e);
    assert(pairs_view(e@) =~= Seq::<(Seq<char>, JsonData)>::empty());
    MilvusRequest { path: String::from_str("/collections/list"), payload }
}

/// Describes a collection: `/collections/describe`.
pub fn describe_request(name: &str) -> (r: MilvusRequest)
    ensures
        r.path@ == "/collections/describe"@,
        r.payload@ == collection_payload(name@),
        r.payload@ == JsonData::Object(seq![("collectionName"@, JsonData::Str(name@))]),
{
    collection_request("/collections/describe", name)
}

/// The statistics of a collection: `/collections/get_stats`.
pub fn stats_request(name: &str) -> (r: MilvusRequest)
    ensures
        r.path@ == "/collections/get_stats"@,
        r.payload@ == collection_payload(name@),
        r.payload@ == JsonData::Object(seq![("collectionName"@, JsonData::Str(name@))]),
{
    collection_request("/collections/get_stats", name)
}

/// The load state of a collection: `/collections/get_load_state`.
pub fn load_state_request(name: &str) -> (r: MilvusRequest)
    ensures
        r.path@ == "/collections/get_load_state"@,
        r.payload@ == collection_payload(name@),
        r.payload@ == JsonData::Object(seq![("collectionName"@, JsonData::Str(name@))]),
{
    collection_request("/collections/get_load_state", name)
}

/// Loads a collection into memory: `/collections/load`.
pub fn load_request(name: &str) -> (r: MilvusRequest)
    ensures
        r.path@ == "/collections/load"@,
        r.payload@ == collection_payload(name@),
        r.payload@ == JsonData::Object(seq![("collectionName"@, JsonData::Str(name@))]),
{
    collection_request("/collections/load", name)
}

/// Releases a collection from memory: `/collections/release`.
pub fn release_request(name: &str) -> (r: MilvusRequest)
    ensures
        r.path@ == "/collections/release"@,
        r.payload@ == collection_payload(name@),
        r.payload@ == JsonData::Object(seq![("collectionName"@, JsonData::Str(name@))]),
{
    collection_request("/collections/release", name)
}

/// Queries rows: `/entities/query` with the filter, the output fields, the
/// limit and the offset.
pub fn query_request(name: &str, filter: &str, output_fields: &Vec<String>, limit: usize, offset: usize) -> (r: MilvusRequest)
    ensures
        r.path@ == "/entities/query"@,
        r.payload@ == object_json(
            seq![
                ("collectionName"@, JsonData::Str(name@)),
                ("filter"@, JsonData::Str(filter@)),
                ("outputFields"@, strings_json(texts(output_fields@))),
                ("limit"@, uint_json(limit as u64)),
                ("offset"@, uint_json(offset as u64)),
            ],
        ),
{
    let e = vec![
        (String::from_str("collectionName"), text_value(name)),
        (String::from_str("filter"), text_value(filter)),
        (String::from_str("outputFields"), strings_value(output_fields)),
        (String::from_str("limit"), uint_value(limit as u64)),
        (String::from_str("offset"), uint_value(offset as u64)),
    ];
    let payload = object_value(e);
    assert(pairs_view(e@) =~= seq![
        ("collectionName"@, JsonData::Str(name@)),
        ("filter"@, JsonData::Str(filter@)),
        ("outputFields"@, strings_json(texts(output_fields@))),
        ("limit"@, uint_json(limit as u64)),
        ("offset"@, uint_json(offset as u64)),
    ]);
    MilvusRequest { path: String::from_str("/entities/query"), payload }
}

/// Counts the rows matching a filter: `/entities/query` asking for
/// `count(*)` with limit 1.
pub fn count_request(name: &str, filter: &str) -> (r: MilvusRequest)
    ensures
        r.path@ == "/entities/query"@,
        r.payload@ == object_json(
            seq![
                ("collectionName"@, JsonData::Str(name@)),
                ("filter"@, JsonData::Str(filter@)),
                ("outputFields"@, strings_json(seq!["count(*)"@])),
                ("limit"@, uint_json(1)),
            ],
        ),
{
    let fields = vec![String::from_str("count(*)")];
    let e = vec![
        (String::from_str("collectionName"), text_value(name)),
        (String::from_str("filter"), text_value(filter)),
        (String::from_str("outputFields"), strings_value(&fields)),
        (String::from_str("limit"), uint_value(1)),
    ];
    let payload = object_value(e);
    assert(texts(fields@) =~= seq!["count(*)"@]);
    assert(pairs_view(e@) =~= seq![
        ("collectionName"@, JsonData::Str(name@)),
        ("filter"@, JsonData::Str(filter@)),
        ("outputFields"@, strings_json(seq!["count(*)"@])),
        ("limit"@, uint_json(1)),
    ]);
    MilvusRequest { path: String::from_str("/entities/query"), payload }
}

/// The string items of an array, in order; other items are skipped.
pub open spec fn string_items(items: Seq<JsonData>) -> Seq<Seq<char>>
    decreases items.len(),
{
    if items.len() == 0 {
        Seq::empty()
    } else {
        let rest = string_items(items.drop_last());
        match items.last().str_value() {
            Some(s) => rest.push(s),
            None => rest,
        }
    }
}

/// The collection names in the data of a list answer; none when it is not an array.
pub fn collection_names(data: &JsonValue) -> (r: Vec<String>)
    ensures
        texts(r@) == match data@.items() {
            Some(items) => string_items(items),
            None => Seq::empty(),
        },
{
    let mut out: Vec<String> = Vec::new();
    let items = match data.as_array() {
        Some(items) => items,
        None => {
            assert(texts(out@) =~= Seq::<Seq<char>>::empty());
            return out;
        },
    };
    let ghost iv = items_view(items@);
    proof {
        lemma_items_view(items@);
    }
    let mut i: usize = 0;
    assert(texts(out@) =~= string_items(iv.take(0)));
    while i < items.len()
        invariant
            i <= items@.len(),
            iv == items_view(items@),
            data@.items() == Some(iv),
            iv.len() == items@.len(),
            forall|j: int| 0 <= j < items@.len() ==> #[trigger] iv[j] == items@[j]@,
            texts(out@) == string_items(iv.take(i as int)),
        decreases items@.len() - i,
    {
        proof {
            assert(iv.take(i + 1).drop_last() =~= iv.take(i as int));
            assert(iv.take(i + 1).last() == items@[i as int]@);
        }
        match items[i].as_str() {
            Some(s) => {
                let ghost before = out@;
                out.push(s.clone());
                assert(texts(out@) =~= texts(before).push(s@));
            },
            None => {},
        }
        i += 1;
    }
    assert(iv.take(items@.len() as int) =~= iv);
    out
}

/// The row count in the data of a statistics answer: `rowCount`, 0 when absent.
pub fn row_count_of(data: &JsonValue) -> (r: i64)
    ensures
        r == match data@.member("rowCount"@).int_value() {
            Some(n) => n,
            None => 0i64,
        },
{
    match data.field("rowCount").as_i64() {
        Some(n) => n,
        None => 0,
    }
}

/// The load state in the data of a load state answer: `loadState`,
/// `"unknown"` when absent.
pub fn load_state_of(data: &JsonValue) -> (r: String)
    ensures
        r@ == match data@.member("loadState"@).str_value() {
            Some(s) => s,
            None => "unknown"@,
        },
{
    match data.field("loadState").as_str() {
        Some(s) => s.clone(),
        None => String::from_str("unknown"),
    }
}

/// The rows in the data of a query answer; none when it is not an array.
pub fn query_rows_of(data: JsonValue) -> (r: Vec<JsonValue>)
    ensures
        items_view(r@) == match data@.items() {
            Some(items) => items,
            None => Seq::empty(),
        },
{
    match data {
        JsonValue::Array(items) => items,
        _ => {
            let r: Vec<JsonValue> = Vec::new();
            assert(items_view(r@) =~= Seq::<JsonData>::empty());
            r
        },
    }
}

/// The count in the data of a count answer: `data[0]["count(*)"]`, 0 when absent.
pub fn count_of(data: &JsonValue) -> (r: i64)
    ensures
        r == match data@.element(0).member("count(*)"@).int_value() {
            Some(n) => n,
            None => 0i64,
        },
{
    match data.element_at(0).field("count(*)").as_i64() {
        Some(n) => n,
        None => 0,
    }
}

} // verus!
