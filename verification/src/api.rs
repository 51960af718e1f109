//! The answers of the HTTP API: errors with their status codes, the request
//! bodies, and the JSON documents the handlers return.

use vstd::prelude::*;
use crate::milvus::MilvusError;
use crate::config::Config;
use crate::json::{
    JsonData, JsonValue, items_view, lemma_items_view, int_json, uint_json,
    strings_json, texts, object_json, pairs_view, int_value, uint_value, text_value, strings_value,
    object_value,
};
use crate::order::{seq_order, lemma_seq_order_equal};
use crate::sort::{in_range, positions, not_after, stable_sort_order};
use crate::text::{at, decimal, ends_with, format_i64, format_u64, signed_decimal};

verus! {

/// `401 Unauthorized`.
pub const UNAUTHORIZED: u16 = 401;

/// `422 Unprocessable Entity`.
pub const UNPROCESSABLE_ENTITY: u16 = 422;

/// `502 Bad Gateway`.
pub const BAD_GATEWAY: u16 = 502;

/// An error answer: an HTTP status code and a message, sent as `{"error": message}`.
pub struct ApiError(pub u16, pub String);

impl ApiError {
    /// A `422` answer.
    pub fn unprocessable(message: &str) -> (r: ApiError)
        ensures
            r.0 == UNPROCESSABLE_ENTITY,
            r.1@ == message@,
    {
        ApiError(UNPROCESSABLE_ENTITY, String::from_str(message))
    }

    /// A `401` answer.
    pub fn unauthorized(message: &str) -> (r: ApiError)
        ensures
            r.0 == UNAUTHORIZED,
            r.1@ == message@,
    {
        ApiError(UNAUTHORIZED, String::from_str(message))
    }
}

impl From<MilvusError> for ApiError {
    /// A failure of the Milvus service is a `502` carrying its message.
    fn from(err: MilvusError) -> (r: ApiError) {
        ApiError(BAD_GATEWAY, err.0)
    }
}

impl vstd::std_specs::convert::FromSpecImpl<MilvusError> for ApiError {
    open spec fn obeys_from_spec() -> bool {
        true
    }

    open spec fn from_spec(err: MilvusError) -> ApiError {
        ApiError(BAD_GATEWAY, err.0)
    }
}

/// The connection form's defaults: the configured host, port, user and password.
pub fn defaults(config: &Config) -> (r: JsonValue)
    ensures
        r@ == object_json(
            seq![
                ("host"@, JsonData::Str(config.host@)),
                ("port"@, JsonData::Str(config.port@)),
                ("user"@, JsonData::Str(config.user@)),
                ("password"@, JsonData::Str(config.password@)),
            ],
        ),
{
    let e = vec![
        (String::from_str("host"), JsonValue::Str(config.host.clone())),
        (String::from_str("port"), JsonValue::Str(config.port.clone())),
        (String::from_str("user"), JsonValue::Str(config.user.clone())),
        (String::from_str("password"), JsonValue::Str(config.password.clone())),
    ];
    let r = object_value(e);
    assert(pairs_view(e@) =~= seq![
        ("host"@, JsonData::Str(config.host@)),
        ("port"@, JsonData::Str(config.port@)),
        ("user"@, JsonData::Str(config.user@)),
        ("password"@, JsonData::Str(config.password@)),
    ]);
    r
}

/// The sign-in form: where the Milvus service is and whose credentials to use.
pub struct ConnectBody {
    pub host: String,
    pub port: String,
    pub user: String,
    pub password: String,
}

/// The port used when the sign-in form leaves it out.
pub fn default_port() -> (r: String)
    ensures
        r@ == "19530"@,
{
    String::from_str("19530")
}

/// A request for one page of rows: a filter expression, the page size and
/// start, an optional sort field and direction, and whether to rebuild the
/// sort index.
pub struct QueryBody {
    pub filter: String,
    pub limit: usize,
    pub offset: usize,
    pub sort_field: String,
    pub sort_dir: String,
    pub refresh: bool,
}

/// The page size used when a query leaves it out.
pub fn default_limit() -> (r: usize)
    ensures
        r == 50,
{
    50
}

/// The answer to a successful sign-in: the new session's id.
pub fn connect_answer(session: &str) -> (r: JsonValue)
    ensures
        r@ == object_json(seq![("session"@, JsonData::Str(session@))]),
{
    let e = vec![(String::from_str("session"), text_value(session))];
    let r = object_value(e);
    assert(pairs_view(e@) =~= seq![("session"@, JsonData::Str(session@))]);
    r
}

/// The answer of an action that has nothing to report: `{"ok": true}`.
pub fn ok_answer() -> (r: JsonValue)
    ensures
        r@ == object_json(seq![("ok"@, JsonData::Bool(true))]),
{
    let e = vec![(String::from_str("ok"), JsonValue::Bool(true))];
    let r = object_value(e);
    assert(pairs_view(e@) =~= seq![("ok"@, JsonData::Bool(true))]);
    r
}

/// A row count, or `-1` when it could not be fetched.
pub open spec fn rows_or_placeholder(rows: Result<i64, MilvusError>) -> i64 {
    match rows {
        Ok(n) => n,
        Err(_) => -1i64,
    }
}

/// A load state, or `"unknown"` when it could not be fetched.
pub open spec fn state_or_placeholder(loaded: Result<String, MilvusError>) -> Seq<char> {
    match loaded {
        Ok(s) => s@,
        Err(_) => "unknown"@,
    }
}

/// A string value's text, or the empty text for any other value.
pub open spec fn text_or_empty(v: JsonData) -> Seq<char> {
    match v.str_value() {
        Some(t) => t,
        None => Seq::empty(),
    }
}

/// One collection of the list: its name, row count and load state, where a
/// failed lookup degrades to `-1` rows or the state `"unknown"`.
pub fn summarize(name: &str, rows: Result<i64, MilvusError>, loaded: Result<String, MilvusError>) -> (r: JsonValue)
    ensures
        r@ == object_json(
            seq![
                ("name"@, JsonData::Str(name@)),
                ("rows"@, int_json(rows_or_placeholder(rows))),
                ("loaded"@, JsonData::Str(state_or_placeholder(loaded))),
            ],
        ),
{
    let n: i64 = match &rows {
        Ok(n) => *n,
        Err(_) => -1,
    };
    let state = match &loaded {
        Ok(s) => s.clone(),
        Err(_) => String::from_str("unknown"),
    };
    let e = vec![
        (String::from_str("name"), text_value(name)),
        (String::from_str("rows"), int_value(n)),
        (String::from_str("loaded"), JsonValue::Str(state)),
    ];
    let r = object_value(e);
    assert(pairs_view(e@) =~= seq![
        ("name"@, JsonData::Str(name@)),
        ("rows"@, int_json(n)),
        ("loaded"@, JsonData::Str(state@)),
    ]);
    r
}

/// The details of one collection: its description (empty when missing), row
/// count and load state (degraded as in `summarize`), fields and indexes. A
/// failed description is a `502`.
pub fn describe_collection(
    name: &str,
    describe: Result<JsonValue, MilvusError>,
    rows: Result<i64, MilvusError>,
    loaded: Result<String, MilvusError>,
) -> (r: Result<JsonValue, ApiError>)
    ensures
        describe is Err ==> r == Err::<JsonValue, ApiError>(ApiError(BAD_GATEWAY, describe->Err_0.0)),
        describe is Ok ==> (r matches Ok(v) && v@ == object_json(
            seq![
                ("name"@, JsonData::Str(name@)),
                ("description"@, JsonData::Str(text_or_empty(describe->Ok_0@.member("description"@)))),
                ("rows"@, int_json(rows_or_placeholder(rows))),
                ("loaded"@, JsonData::Str(state_or_placeholder(loaded))),
                ("fields"@, describe->Ok_0@.member("fields"@)),
                ("indexes"@, describe->Ok_0@.member("indexes"@)),
            ],
        )),
{
    let d = match &describe {
        Ok(d) => d,
        Err(e) => {
            return Err(ApiError(BAD_GATEWAY, e.0.clone()));
        },
    };
    let description = match d.field("description").as_str() {
        Some(t) => t.clone(),
        None => String::new(),
    };
    let n: i64 = match rows {
        Ok(n) => n,
        Err(_) => -1,
    };
    let state = match loaded {
        Ok(s) => s,
        Err(_) => String::from_str("unknown"),
    };
    let e = vec![
        (String::from_str("name"), text_value(name)),
        (String::from_str("description"), JsonValue::Str(description)),
        (String::from_str("rows"), int_value(n)),
        (String::from_str("loaded"), JsonValue::Str(state)),
        (String::from_str("fields"), d.field("fields")),
        (String::from_str("indexes"), d.field("indexes")),
    ];
    let r = object_value(e);
    assert(pairs_view(e@) =~= seq![
        ("name"@, JsonData::Str(name@)),
        ("description"@, JsonData::Str(description@)),
        ("rows"@, int_json(n)),
        ("loaded"@, JsonData::Str(state@)),
        ("fields"@, d@.member("fields"@)),
        ("indexes"@, d@.member("indexes"@)),
    ]);
    Ok(r)
}

/// Whether `s` ends with `suffix`.
pub open spec fn has_suffix(s: Seq<char>, suffix: Seq<char>) -> bool {
    suffix.len() <= s.len() && s.skip(s.len() - suffix.len()) == suffix
}

/// The names of the fields that are not vectors (whose type does not end in
/// `Vector`), in order; a field without a name is left out.
pub open spec fn scalar_field_names(fields: Seq<JsonData>) -> Seq<Seq<char>>
    decreases fields.len(),
{
    if fields.len() == 0 {
        Seq::empty()
    } else {
        let rest = scalar_field_names(fields.drop_last());
        let f = fields.last();
        let ty = match f.member("type"@).str_value() {
            Some(t) => t,
            None => Seq::empty(),
        };
        if !has_suffix(ty, "Vector"@) {
            match f.member("name"@).str_value() {
                Some(n) => rest.push(n),
                None => rest,
            }
        } else {
            rest
        }
    }
}

/// The scalar fields of a described collection.
pub open spec fn scalar_fields_of(describe: JsonData) -> Seq<Seq<char>> {
    match describe.member("fields"@).items() {
        Some(fields) => scalar_field_names(fields),
        None => Seq::empty(),
    }
}

/// Whether a field description's type is a vector type: its `type` is a
/// string whose last six characters are `Vector`.
pub open spec fn is_vector_field(f: JsonData) -> bool {
    match f.member("type"@) {
        JsonData::Str(t) => t.len() >= 6 && t.subrange(t.len() - 6, t.len() as int) == seq![
            'V',
            'e',
            'c',
            't',
            'o',
            'r',
        ],
        _ => false,
    }
}

/// The grid shows exactly the named fields that are not vectors: the name of
/// every field that is not a vector is shown, and every name shown belongs to
/// a field that is not a vector, so a vector field is shown only where a
/// field that is not a vector has the same name. A description without a
/// list of fields shows none.
pub proof fn law_scalar_fields(describe: JsonData)
    ensures
        forall|fields: Seq<JsonData>, i: int, n: Seq<char>|
            describe.member("fields"@) == JsonData::Array(fields) && 0 <= i < fields.len() && !is_vector_field(
                fields[i],
            ) && fields[i].member("name"@) == JsonData::Str(n) ==> scalar_fields_of(describe).contains(n),
        forall|n: Seq<char>|
            scalar_fields_of(describe).contains(n) ==> exists|fields: Seq<JsonData>, i: int|
                describe.member("fields"@) == JsonData::Array(fields) && 0 <= i < fields.len() && !is_vector_field(
                    fields[i],
                ) && fields[i].member("name"@) == JsonData::Str(n),
        !(describe.member("fields"@) is Array) ==> scalar_fields_of(describe).len() == 0,
{
    if let JsonData::Array(fields) = describe.member("fields"@) {
        lemma_scalar_field_names(fields);
    }
}

proof fn lemma_vector_suffix(t: Seq<char>)
    ensures
        has_suffix(t, "Vector"@) <==> (t.len() >= 6 && t.subrange(t.len() - 6, t.len() as int) == seq![
            'V',
            'e',
            'c',
            't',
            'o',
            'r',
        ]),
{
    reveal_strlit("Vector");
    assert("Vector"@ =~= seq!['V', 'e', 'c', 't', 'o', 'r']);
    if t.len() >= 6 {
        assert(t.skip(t.len() - 6) =~= t.subrange(t.len() - 6, t.len() as int));
    }
}

proof fn lemma_scalar_field_names(fields: Seq<JsonData>)
    ensures
        forall|i: int, n: Seq<char>|
            0 <= i < fields.len() && !is_vector_field(fields[i]) && fields[i].member("name"@) == JsonData::Str(n)
                ==> scalar_field_names(fields).contains(n),
        forall|n: Seq<char>|
            scalar_field_names(fields).contains(n) ==> exists|i: int|
                0 <= i < fields.len() && !is_vector_field(fields[i]) && fields[i].member("name"@) == JsonData::Str(n),
    decreases fields.len(),
{
    if fields.len() > 0 {
        let init = fields.drop_last();
        let f = fields.last();
        lemma_scalar_field_names(init);
        let rest = scalar_field_names(init);
        let ty = match f.member("type"@).str_value() {
            Some(t) => t,
            None => Seq::<char>::empty(),
        };
        lemma_vector_suffix(ty);
        reveal_strlit("Vector");
        assert(!has_suffix(ty, "Vector"@) <==> !is_vector_field(f));
        assert forall|i: int, n: Seq<char>|
            0 <= i < fields.len() && !is_vector_field(fields[i]) && fields[i].member("name"@) == JsonData::Str(n)
            implies scalar_field_names(fields).contains(n) by {
            if i < fields.len() - 1 {
                assert(init[i] == fields[i]);
                assert(rest.contains(n));
                let k = choose|k: int| 0 <= k < rest.len() && rest[k] == n;
                if !is_vector_field(f) && f.member("name"@) is Str {
                    assert(scalar_field_names(fields) == rest.push(f.member("name"@)->Str_0));
                    assert(scalar_field_names(fields)[k] == n);
                } else {
                    assert(scalar_field_names(fields) == rest);
                }
            } else {
                assert(scalar_field_names(fields) == rest.push(n));
                assert(rest.push(n)[rest.len() as int] == n);
            }
        }
        assert forall|n: Seq<char>| scalar_field_names(fields).contains(n) implies exists|i: int|
            0 <= i < fields.len() && !is_vector_field(fields[i]) && fields[i].member("name"@) == JsonData::Str(n) by {
            let whole = scalar_field_names(fields);
            let k = choose|k: int| 0 <= k < whole.len() && whole[k] == n;
            if !is_vector_field(f) && f.member("name"@) is Str {
                assert(whole == rest.push(f.member("name"@)->Str_0));
            } else {
                assert(whole == rest);
            }
            if k < rest.len() {
                assert(rest[k] == n);
                assert(rest.contains(n));
                let i = choose|i: int| 0 <= i < init.len() && !is_vector_field(init[i]) && init[i].member("name"@) == JsonData::Str(n);
                assert(fields[i] == init[i]);
            } else {
                assert(fields[fields.len() - 1] == f);
            }
        }
    }
}

/// The fields shown in the grid: all but the vector fields.
pub fn scalar_fields(describe: &JsonValue) -> (r: Vec<String>)
    ensures
        texts(r@) == scalar_fields_of(describe@),
{
    let fields_value = describe.field("fields");
    let fields = match fields_value.as_array() {
        Some(f) => f,
        None => {
            let r: Vec<String> = Vec::new();
            assert(texts(r@) =~= Seq::<Seq<char>>::empty());
            return r;
        },
    };
    let ghost fs = items_view(fields@);
    proof {
        lemma_items_view(fields@);
    }
    let mut out: Vec<String> = Vec::new();
    let mut i: usize = 0;
    assert(texts(out@) =~= scalar_field_names(fs.take(0)));
    while i < fields.len()
        invariant
            i <= fields@.len(),
            fs == items_view(fields@),
            describe@.member("fields"@).items() == Some(fs),
            fs.len() == fields@.len(),
            forall|j: int| 0 <= j < fields@.len() ==> #[trigger] fs[j] == fields@[j]@,
            texts(out@) == scalar_field_names(fs.take(i as int)),
        decreases fields@.len() - i,
    {
        let f = &fields[i];
        proof {
            assert(fs.take(i + 1).drop_last() =~= fs.take(i as int));
            assert(fs.take(i + 1).last() == f@);
        }
        let ty = match f.field("type").as_str() {
            Some(t) => t.clone(),
            None => String::new(),
        };
        if !ends_with(ty.as_str(), "Vector") {
            match f.field("name").as_str() {
                Some(n) => {
                    let ghost before = out@;
                    out.push(n.clone());
                    assert(texts(out@) =~= texts(before).push(n@));
                },
                None => {},
            }
        }
        i += 1;
    }
    assert(fs.take(fields@.len() as int) =~= fs);
    out
}

/// `x` clamped to `lo..=hi` (`Ord::clamp`).
pub open spec fn clamp(x: nat, lo: nat, hi: nat) -> nat {
    if x < lo {
        lo
    } else if x > hi {
        hi
    } else {
        x
    }
}

/// The page size is always between 1 and the row cap.
pub proof fn law_page_size_within_cap(requested: nat, row_cap: nat)
    requires
        row_cap >= 1,
    ensures
        1 <= clamp(requested, 1, row_cap) <= row_cap,
        1 <= requested <= row_cap ==> clamp(requested, 1, row_cap) == requested,
{
}

/// What a page query shows: the scalar fields and the page size.
pub struct QueryPlan {
    pub fields: Vec<String>,
    pub limit: usize,
}

/// Plans a page query on a described collection: the grid shows its scalar
/// fields, and the page size is clamped to `1..=row_cap`. A collection
/// without scalar fields cannot be shown, whatever the row cap.
pub fn plan_query(describe: &JsonValue, body: &QueryBody, row_cap: usize) -> (r: Result<QueryPlan, ApiError>)
    requires
        row_cap >= 1 || scalar_fields_of(describe@).len() == 0,
    ensures
        scalar_fields_of(describe@).len() == 0 ==> (r matches Err(e) && e.0 == UNPROCESSABLE_ENTITY
            && e.1@ == "collection has no scalar fields to display"@),
        scalar_fields_of(describe@).len() > 0 ==> (r matches Ok(p) && texts(p.fields@) == scalar_fields_of(
            describe@,
        ) && p.limit as nat == clamp(body.limit as nat, 1, row_cap as nat)),
{
    let fields = scalar_fields(describe);
    if fields.len() == 0 {
        return Err(ApiError::unprocessable("collection has no scalar fields to display"));
    }
    let limit = if body.limit < 1 {
        1
    } else if body.limit > row_cap {
        row_cap
    } else {
        body.limit
    };
    Ok(QueryPlan { fields, limit })
}

/// How a page is served: straight from the collection, or through a sort index.
pub enum QueryRoute {
    Plain,
    Sorted,
}

/// Whether `name` is one of `fields`.
pub fn contains_text(fields: &Vec<String>, name: &str) -> (r: bool)
    ensures
        r == texts(fields@).contains(name@),
{
    let wanted = String::from_str(name);
    let mut i: usize = 0;
    while i < fields.len()
        invariant
            i <= fields@.len(),
            wanted@ == name@,
            forall|j: int| 0 <= j < i ==> fields@[j]@ != name@,
        decreases fields@.len() - i,
    {
        if fields[i].eq(&wanted) {
            assert(texts(fields@)[i as int] == name@);
            return true;
        }
        i += 1;
    }
    assert(!texts(fields@).contains(name@)) by {
        if texts(fields@).contains(name@) {
            let j = choose|j: int| 0 <= j < texts(fields@).len() && texts(fields@)[j] == name@;
            assert(fields@[j]@ == name@);
        }
    }
    false
}

/// The message for a collection too large to sort whole.
pub open spec fn sort_cap_message(total: i64, sort_cap: usize) -> Seq<char> {
    signed_decimal(total as int) + " rows exceed the whole collection sort cap of "@ + decimal(sort_cap as nat)
        + ", raise MILVUS_GUI_SORT_CAP or add a filter"@
}

/// Chooses how to serve a page once the matching row count `total` is known:
/// without a sort field, straight from the collection; a sort field must be
/// one of the shown fields, and a sorted page needs the whole match, which
/// must not exceed `sort_cap` rows.
pub fn route_query(plan: &QueryPlan, body: &QueryBody, total: i64, sort_cap: usize) -> (r: Result<QueryRoute, ApiError>)
    ensures
        body.sort_field@.len() == 0 ==> r == Ok::<QueryRoute, ApiError>(QueryRoute::Plain),
        body.sort_field@.len() > 0 && !texts(plan.fields@).contains(body.sort_field@) ==> (r matches Err(e)
            && e.0 == UNPROCESSABLE_ENTITY && e.1@ == "unknown sort field: "@ + body.sort_field@),
        body.sort_field@.len() > 0 && texts(plan.fields@).contains(body.sort_field@) && (total as usize)
            > sort_cap ==> (r matches Err(e) && e.0 == UNPROCESSABLE_ENTITY && e.1@ == sort_cap_message(total, sort_cap)),
        body.sort_field@.len() > 0 && texts(plan.fields@).contains(body.sort_field@) && (total as usize)
            <= sort_cap ==> r == Ok::<QueryRoute, ApiError>(QueryRoute::Sorted),
{
    if body.sort_field.unicode_len() == 0 {
        return Ok(QueryRoute::Plain);
    }
    if !contains_text(&plan.fields, body.sort_field.as_str()) {
        let mut m = String::from_str("unknown sort field: ");
        m.append(body.sort_field.as_str());
        return Err(ApiError(UNPROCESSABLE_ENTITY, m));
    }
    if (total as usize) > sort_cap {
        let mut m = format_i64(total);
        m.append(" rows exceed the whole collection sort cap of ");
        let cap = format_u64(sort_cap as u64);
        m.append(cap.as_str());
        m.append(", raise MILVUS_GUI_SORT_CAP or add a filter");
        return Err(ApiError(UNPROCESSABLE_ENTITY, m));
    }
    Ok(QueryRoute::Sorted)
}

/// The key of a sort index in the cache: session, collection, filter, sort
/// field and direction, separated by `|`; a request without a session header
/// uses the empty session.
pub fn sort_cache_key(session: Option<&str>, name: &str, body: &QueryBody) -> (r: String)
    ensures
        r@ == (match session {
            Some(s) => s@,
            None => Seq::empty(),
        }) + "|"@ + name@ + "|"@ + body.filter@ + "|"@ + body.sort_field@ + "|"@ + body.sort_dir@,
{
    let mut k = String::new();
    match session {
        Some(s) => k.append(s),
        None => {},
    }
    k.append("|");
    k.append(name);
    k.append("|");
    k.append(body.filter.as_str());
    k.append("|");
    k.append(body.sort_field.as_str());
    k.append("|");
    k.append(body.sort_dir.as_str());
    k
}

/// The answer for one page: the shown fields, the rows, the page size and
/// start, the matching row count, and `"sorted": true` for a page served
/// through a sort index.
pub fn page_answer(fields: &Vec<String>, rows: Vec<JsonValue>, limit: usize, offset: usize, total: i64, sorted: bool) -> (r: JsonValue)
    ensures
        !sorted ==> r@ == object_json(
            seq![
                ("fields"@, strings_json(texts(fields@))),
                ("rows"@, JsonData::Array(items_view(rows@))),
                ("limit"@, uint_json(limit as u64)),
                ("offset"@, uint_json(offset as u64)),
                ("total"@, int_json(total)),
            ],
        ),
        sorted ==> r@ == object_json(
            seq![
                ("fields"@, strings_json(texts(fields@))),
                ("rows"@, JsonData::Array(items_view(rows@))),
                ("limit"@, uint_json(limit as u64)),
                ("offset"@, uint_json(offset as u64)),
                ("total"@, int_json(total)),
                ("sorted"@, JsonData::Bool(true)),
            ],
        ),
{
    let ghost rows_view = items_view(rows@);
    let mut e = vec![
        (String::from_str("fields"), strings_value(fields)),
        (String::from_str("rows"), JsonValue::Array(rows)),
        (String::from_str("limit"), uint_value(limit as u64)),
        (String::from_str("offset"), uint_value(offset as u64)),
        (String::from_str("total"), int_value(total)),
    ];
    if sorted {
        e.push((String::from_str("sorted"), JsonValue::Bool(true)));
        let r = object_value(e);
        assert(pairs_view(e@) =~= seq![
            ("fields"@, strings_json(texts(fields@))),
            ("rows"@, JsonData::Array(rows_view)),
            ("limit"@, uint_json(limit as u64)),
            ("offset"@, uint_json(offset as u64)),
            ("total"@, int_json(total)),
            ("sorted"@, JsonData::Bool(true)),
        ]);
        r
    } else {
        let r = object_value(e);
        assert(pairs_view(e@) =~= seq![
            ("fields"@, strings_json(texts(fields@))),
            ("rows"@, JsonData::Array(rows_view)),
            ("limit"@, uint_json(limit as u64)),
            ("offset"@, uint_json(offset as u64)),
            ("total"@, int_json(total)),
        ]);
        r
    }
}

/// Collection names in lexicographic order (`slice::sort`).
pub fn sort_names(names: Vec<String>) -> (r: Vec<String>)
    ensures
        exists|perm: Seq<usize>| {
            &&& perm.to_multiset() == positions(names@.len()).to_multiset()
            &&& perm.len() == names@.len()
            &&& in_range(perm, names@.len())
            &&& texts(r@) == perm.map_values(|p: usize| names@[at(p)]@)
        },
        forall|i: int, j: int| 0 <= i < j < r@.len() ==> seq_order(#[trigger] r@[i]@, #[trigger] r@[j]@) != std::cmp::Ordering::Greater,
{
    let mut vals: Vec<JsonValue> = Vec::new();
    let mut i: usize = 0;
    while i < names.len()
        invariant
            i <= names@.len(),
            vals@.len() == i,
            forall|j: int| 0 <= j < i ==> #[trigger] vals@[j]@ == JsonData::Str(names@[j]@),
        decreases names@.len() - i,
    {
        vals.push(JsonValue::Str(names[i].clone()));
        i += 1;
    }
    proof {
        lemma_items_view(vals@);
    }
    let order = stable_sort_order(&vals, false);
    let mut out: Vec<String> = Vec::new();
    let mut k: usize = 0;
    while k < order.len()
        invariant
            k <= order@.len(),
            order@.len() == names@.len(),
            in_range(order@, names@.len()),
            vals@.len() == names@.len(),
            forall|j: int| 0 <= j < names@.len() ==> #[trigger] vals@[j]@ == JsonData::Str(names@[j]@),
            texts(out@) == order@.take(at(k)).map_values(|p: usize| names@[at(p)]@),
        decreases order@.len() - k,
    {
        let p = order[k];
        let ghost before = out@;
        out.push(names[p].clone());
        k += 1;
        proof {
            assert(texts(out@) =~= texts(before).push(names@[at(p)]@));
            assert(order@.take(at(k)).map_values(|p: usize| names@[at(p)]@) =~= order@.take(k - 1).map_values(|p: usize| names@[at(p)]@).push(names@[at(p)]@));
        }
    }
    proof {
        assert(order@.take(at(order.len())) =~= order@);
        let keys = items_view(vals@);
        assert(texts(out@).len() == out@.len());
        assert(out@.len() == order@.len());
        assert forall|a: int, b: int| 0 <= a < b < out@.len() implies seq_order(#[trigger] out@[a]@, #[trigger] out@[b]@) != std::cmp::Ordering::Greater by {
            let pa = order@[a];
            let pb = order@[b];
            assert(pa < names@.len() && pb < names@.len());
            assert(vals@[at(pa)]@ == JsonData::Str(names@[at(pa)]@));
            assert(vals@[at(pb)]@ == JsonData::Str(names@[at(pb)]@));
            assert(texts(out@)[a] == out@[a]@);
            assert(texts(out@)[b] == out@[b]@);
            assert(keys[at(pa)] == JsonData::Str(names@[at(pa)]@));
            assert(keys[at(pb)] == JsonData::Str(names@[at(pb)]@));
            assert(texts(out@)[a] == names@[at(pa)]@);
            assert(texts(out@)[b] == names@[at(pb)]@);
            assert(not_after(keys, false, pa, pb));
            lemma_seq_order_equal(names@[at(pa)]@, names@[at(pb)]@);
        }
    }
    out
}

} // verus!
