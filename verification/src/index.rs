//! The sort index of a collection: the primary keys of all rows that match a
//! filter, in the order of one field. It is built from keyset-paginated
//! batches, served page by page, and kept in a small cache.

use vstd::prelude::*;
use crate::api::{ApiError, UNPROCESSABLE_ENTITY};
use crate::json::{JsonData, JsonValue, json_quoted, json_text, items_view, lemma_items_view, quote_json_string};
use crate::sort::{in_range, positions, sorted_by, stable_sort_order};
use crate::keyed::KeyedList;

verus! {

/// The number of rows fetched per batch while building a sort index.
pub const SORT_BATCH: usize = 10000;

/// The first field description marked as the primary key.
pub open spec fn primary_field(fields: Seq<JsonData>) -> Option<JsonData>
    decreases fields.len(),
{
    if fields.len() == 0 {
        None
    } else if fields[0].member("primaryKey"@).bool_value() == Some(true) {
        Some(fields[0])
    } else {
        primary_field(fields.drop_first())
    }
}

/// The primary key of a described collection: its name (`"id"` when the
/// description has none) and whether it is a `VarChar`.
pub open spec fn primary_key_of(describe: JsonData) -> Option<(Seq<char>, bool)> {
    match describe.member("fields"@).items() {
        None => None,
        Some(fields) => match primary_field(fields) {
            None => None,
            Some(f) => Some(
                (
                    match f.member("name"@).str_value() {
                        Some(n) => n,
                        None => "id"@,
                    },
                    f.member("type"@).str_value() == Some("VarChar"@),
                ),
            ),
        },
    }
}

/// The primary key is the first field marked `"primaryKey": true`, and only
/// such a field: its name (`"id"` when it has none) and whether its type is
/// `VarChar`. A description whose fields carry no such mark has none.
pub proof fn law_primary_key(describe: JsonData, fields: Seq<JsonData>)
    requires
        describe.member("fields"@) == JsonData::Array(fields),
    ensures
        forall|i: int|
            0 <= i < fields.len() && fields[i].member("primaryKey"@) == JsonData::Bool(true) && (forall|j: int|
                0 <= j < i ==> fields[j].member("primaryKey"@) != JsonData::Bool(true)) ==> primary_key_of(describe)
                == Some(
                (
                    match fields[i].member("name"@) {
                        JsonData::Str(n) => n,
                        _ => "id"@,
                    },
                    fields[i].member("type"@) == JsonData::Str("VarChar"@),
                ),
            ),
        (forall|i: int| 0 <= i < fields.len() ==> fields[i].member("primaryKey"@) != JsonData::Bool(true))
            ==> primary_key_of(describe) is None,
{
    assert forall|i: int|
        0 <= i < fields.len() && fields[i].member("primaryKey"@) == JsonData::Bool(true) && (forall|j: int|
            0 <= j < i ==> fields[j].member("primaryKey"@) != JsonData::Bool(true)) implies primary_field(fields)
        == Some(fields[i]) by {
        lemma_primary_field_first(fields, i);
    }
    if forall|i: int| 0 <= i < fields.len() ==> fields[i].member("primaryKey"@) != JsonData::Bool(true) {
        lemma_primary_field_none(fields);
    }
}

proof fn lemma_primary_field_first(fields: Seq<JsonData>, i: int)
    requires
        0 <= i < fields.len(),
        fields[i].member("primaryKey"@) == JsonData::Bool(true),
        forall|j: int| 0 <= j < i ==> fields[j].member("primaryKey"@) != JsonData::Bool(true),
    ensures
        primary_field(fields) == Some(fields[i]),
    decreases i,
{
    if i > 0 {
        let rest = fields.drop_first();
        assert forall|j: int| 0 <= j < i - 1 implies rest[j].member("primaryKey"@) != JsonData::Bool(true) by {
            assert(rest[j] == fields[j + 1]);
        }
        lemma_primary_field_first(rest, i - 1);
        assert(fields[0].member("primaryKey"@) != JsonData::Bool(true));
    }
}

proof fn lemma_primary_field_none(fields: Seq<JsonData>)
    requires
        forall|i: int| 0 <= i < fields.len() ==> fields[i].member("primaryKey"@) != JsonData::Bool(true),
    ensures
        primary_field(fields) is None,
    decreases fields.len(),
{
    if fields.len() > 0 {
        let rest = fields.drop_first();
        assert forall|i: int| 0 <= i < rest.len() implies rest[i].member("primaryKey"@) != JsonData::Bool(true) by {
            assert(rest[i] == fields[i + 1]);
        }
        lemma_primary_field_none(rest);
        assert(fields[0].member("primaryKey"@) != JsonData::Bool(true));
    }
}

/// Finds the primary key field of a collection description.
pub fn primary_key(describe: &JsonValue) -> (r: Option<(String, bool)>)
    ensures
        match r {
            Some((name, is_string)) => primary_key_of(describe@) == Some((name@, is_string)),
            None => primary_key_of(describe@) is None,
        },
{
    let fields_value = describe.field("fields");
    let fields = match fields_value.as_array() {
        Some(f) => f,
        None => return None,
    };
    let ghost fs = items_view(fields@);
    proof {
        lemma_items_view(fields@);
        assert(fs.skip(0) =~= fs);
    }
    let mut i: usize = 0;
    while i < fields.len()
        invariant
            i <= fields@.len(),
            fs == items_view(fields@),
            describe@.member("fields"@).items() == Some(fs),
            fs.len() == fields@.len(),
            forall|j: int| 0 <= j < fields@.len() ==> #[trigger] fs[j] == fields@[j]@,
            primary_field(fs) == primary_field(fs.skip(i as int)),
        decreases fields@.len() - i,
    {
        proof {
            assert(fs.skip(i as int).drop_first() =~= fs.skip(i + 1));
            assert(fs.skip(i as int)[0] == fs[i as int]);
        }
        let f = &fields[i];
        if f.field("primaryKey").as_bool() == Some(true) {
            let name = match f.field("name").as_str() {
                Some(n) => n.clone(),
                None => String::from_str("id"),
            };
            let is_string = match f.field("type").as_str() {
                Some(t) => t.eq(&String::from_str("VarChar")),
                None => false,
            };
            return Some((name, is_string));
        }
        i += 1;
    }
    None
}

/// The literal for a primary key in a filter expression: a JSON string
/// literal for a `VarChar` key (of the empty string when the value is not a
/// string), the value's JSON text otherwise.
pub open spec fn pk_literal_of(pk: JsonData, is_string: bool) -> Seq<char> {
    if is_string {
        json_quoted(
            match pk.str_value() {
                Some(s) => s,
                None => Seq::empty(),
            },
        )
    } else {
        json_text(pk)
    }
}

/// Renders a primary key as a literal of a filter expression.
pub fn pk_literal(pk: &JsonValue, is_string: bool) -> (r: String)
    ensures
        r@ == pk_literal_of(pk@, is_string),
{
    if is_string {
        match pk.as_str() {
            Some(s) => quote_json_string(s.as_str()),
            None => {
                let q = quote_json_string("");
                proof {
                    reveal_strlit("");
                    assert(""@ =~= Seq::<char>::empty());
                }
                q
            },
        }
    } else {
        pk.to_json_text()
    }
}

/// The filter of one batch: the user's filter, narrowed to keys above the
/// last key seen (`pk > last`), in parentheses when both are present.
pub open spec fn keyset_filter(filter: Seq<char>, pk_field: Seq<char>, last: Option<Seq<char>>) -> Seq<char> {
    match last {
        Some(lit) => {
            let keyset = pk_field + " > "@ + lit;
            if filter.len() > 0 {
                "("@ + filter + ") and "@ + keyset
            } else {
                keyset
            }
        },
        None => filter,
    }
}

/// What a sort index under construction has read so far.
pub struct SortBuild {
    pub pk_field: Seq<char>,
    pub pk_is_string: bool,
    pub sort_field: Seq<char>,
    pub filter: Seq<char>,
    pub descending: bool,
    pub pks: Seq<JsonData>,
    pub sort_values: Seq<JsonData>,
    pub last_pk: Option<JsonData>,
}

/// One query that the building of a sort index needs answered: rows matching
/// `filter`, with the listed fields, `limit` at most, from `offset`.
pub struct BatchQuery {
    pub filter: String,
    pub output_fields: Vec<String>,
    pub limit: usize,
    pub offset: usize,
}

/// The values of `field` in each row.
pub open spec fn column(rows: Seq<JsonData>, field: Seq<char>) -> Seq<JsonData> {
    rows.map_values(|r: JsonData| r.member(field))
}

/// The filter of the next batch: the user's filter, narrowed to keys after
/// the last key seen.
pub open spec fn next_filter(b: SortBuild) -> Seq<char> {
    keyset_filter(
        b.filter,
        b.pk_field,
        match b.last_pk {
            Some(pk) => Some(pk_literal_of(pk, b.pk_is_string)),
            None => None,
        },
    )
}

/// The state after taking in a batch of rows: their keys and sort values
/// appended, and the last row's key remembered.
pub open spec fn absorbed(b: SortBuild, rows: Seq<JsonData>) -> SortBuild {
    SortBuild {
        pks: b.pks + column(rows, b.pk_field),
        sort_values: b.sort_values + column(rows, b.sort_field),
        last_pk: if rows.len() > 0 {
            Some(rows.last().member(b.pk_field))
        } else {
            b.last_pk
        },
        ..b
    }
}

/// After a non-empty batch, the next batch asks for the keys after the
/// batch's last key, within the user's filter; an empty batch changes nothing
/// but ends the scan. Every row read is kept, in the order read.
pub proof fn law_keyset_pagination(b: SortBuild, rows: Seq<JsonData>)
    ensures
        rows.len() > 0 ==> next_filter(absorbed(b, rows)) == keyset_filter(
            b.filter,
            b.pk_field,
            Some(pk_literal_of(rows.last().member(b.pk_field), b.pk_is_string)),
        ),
        rows.len() == 0 ==> absorbed(b, rows) == b,
        absorbed(b, rows).pks.len() == b.pks.len() + rows.len(),
        forall|i: int| 0 <= i < rows.len() ==> #[trigger] absorbed(b, rows).pks[b.pks.len() + i] == rows[i].member(b.pk_field),
{
    if rows.len() == 0 {
        assert(column(rows, b.pk_field) =~= Seq::<JsonData>::empty());
        assert(column(rows, b.sort_field) =~= Seq::<JsonData>::empty());
        assert(b.pks + column(rows, b.pk_field) =~= b.pks);
        assert(b.sort_values + column(rows, b.sort_field) =~= b.sort_values);
    }
}

/// A sort index in construction: streams `(pk, sort value)` pairs from
/// batches fetched in primary key order, then sorts them once.
pub struct SortIndexBuilder {
    pk_field: String,
    pk_is_string: bool,
    sort_field: String,
    filter: String,
    descending: bool,
    pairs: Vec<(JsonValue, JsonValue)>,
    last_pk: Option<JsonValue>,
}

impl View for SortIndexBuilder {
    type V = SortBuild;

    closed spec fn view(&self) -> SortBuild {
        SortBuild {
            pk_field: self.pk_field@,
            pk_is_string: self.pk_is_string,
            sort_field: self.sort_field@,
            filter: self.filter@,
            descending: self.descending,
            pks: Seq::new(self.pairs@.len(), |i: int| self.pairs@[i].0@),
            sort_values: Seq::new(self.pairs@.len(), |i: int| self.pairs@[i].1@),
            last_pk: match self.last_pk {
                Some(v) => Some(v@),
                None => None,
            },
        }
    }
}

/// A sort index: the primary keys of a collection's matching rows in sorted order.
pub struct SortIndex {
    pub pk_field: String,
    pub keys: Vec<JsonValue>,
}

impl SortIndexBuilder {
    /// Starts a sort index over the rows matching `filter`, ordered by
    /// `sort_field`, descending when `sort_dir` is `"desc"`. A collection
    /// without a primary key cannot be indexed.
    pub fn start(describe: &JsonValue, filter: &str, sort_field: &str, sort_dir: &str) -> (r: Result<SortIndexBuilder, ApiError>)
        ensures
            match primary_key_of(describe@) {
                None => r matches Err(e) && e.0 == UNPROCESSABLE_ENTITY && e.1@ == "collection has no primary key"@,
                Some((pk_field, pk_is_string)) => r matches Ok(b) && b@ == (SortBuild {
                    pk_field,
                    pk_is_string,
                    sort_field: sort_field@,
                    filter: filter@,
                    descending: sort_dir@ == "desc"@,
                    pks: Seq::empty(),
                    sort_values: Seq::empty(),
                    last_pk: None,
                }),
            },
    {
        match primary_key(describe) {
            None => Err(ApiError::unprocessable("collection has no primary key")),
            Some((pk_field, pk_is_string)) => {
                let dir = String::from_str(sort_dir);
                let desc = String::from_str("desc");
                let descending = dir.eq(&desc);
                let b = SortIndexBuilder {
                    pk_field,
                    pk_is_string,
                    sort_field: String::from_str(sort_field),
                    filter: String::from_str(filter),
                    descending,
                    pairs: Vec::new(),
                    last_pk: None,
                };
                assert(b@.pks =~= Seq::<JsonData>::empty());
                assert(b@.sort_values =~= Seq::<JsonData>::empty());
                Ok(b)
            },
        }
    }

    /// The next batch to fetch: up to `SORT_BATCH` rows with the primary key
    /// and the sort field, whose keys follow the last key seen.
    pub fn next_query(&self) -> (q: BatchQuery)
        ensures
            q.filter@ == next_filter(self@),
            q.output_fields@.len() == 2,
            q.output_fields@[0]@ == self@.pk_field,
            q.output_fields@[1]@ == self@.sort_field,
            q.limit == SORT_BATCH,
            q.offset == 0,
    {
        let filter = match &self.last_pk {
            Some(pk) => {
                let lit = pk_literal(pk, self.pk_is_string);
                let mut keyset = self.pk_field.clone();
                keyset.append(" > ");
                keyset.append(lit.as_str());
                if self.filter.unicode_len() > 0 {
                    let mut f = String::new();
                    f.append("(");
                    f.append(self.filter.as_str());
                    f.append(") and ");
                    f.append(keyset.as_str());
                    f
                } else {
                    keyset
                }
            },
            None => self.filter.clone(),
        };
        let mut fields: Vec<String> = Vec::new();
        fields.push(self.pk_field.clone());
        fields.push(self.sort_field.clone());
        BatchQuery { filter, output_fields: fields, limit: SORT_BATCH, offset: 0 }
    }

    /// Takes in one fetched batch: appends each row's `(pk, sort value)`
    /// pair and remembers the last row's key. A short batch ends the scan;
    /// otherwise the scan goes on, unless more rows than `sort_cap` have
    /// been gathered.
    pub fn absorb(&mut self, batch: &Vec<JsonValue>, sort_cap: usize) -> (r: Result<bool, ApiError>)
        ensures
            final(self)@ == absorbed(old(self)@, items_view(batch@)),
            batch@.len() < SORT_BATCH ==> r == Ok::<bool, ApiError>(true),
            batch@.len() >= SORT_BATCH && final(self)@.pks.len() <= sort_cap ==> r == Ok::<bool, ApiError>(false),
            batch@.len() >= SORT_BATCH && final(self)@.pks.len() > sort_cap ==> (r matches Err(e)
                && e.0 == UNPROCESSABLE_ENTITY && e.1@ == "collection grew past the sort cap while indexing"@),
    {
        let ghost start = self@;
        let ghost rows = items_view(batch@);
        assert(absorbed(start, rows).pks == start.pks + column(rows, start.pk_field));
        proof {
            lemma_items_view(batch@);
        }
        let mut i: usize = 0;
        while i < batch.len()
            invariant
                i <= batch@.len(),
                rows == items_view(batch@),
                rows.len() == batch@.len(),
                forall|j: int| 0 <= j < batch@.len() ==> #[trigger] rows[j] == batch@[j]@,
                self@ == (SortBuild {
                    pks: start.pks + column(rows.take(i as int), start.pk_field),
                    sort_values: start.sort_values + column(rows.take(i as int), start.sort_field),
                    ..start
                }),
            decreases batch@.len() - i,
        {
            let pk = batch[i].field(self.pk_field.as_str());
            let sv = batch[i].field(self.sort_field.as_str());
            let ghost before = self.pairs@;
            let ghost old_view = self@;
            self.pairs.push((pk, sv));
            i += 1;
            proof {
                assert(rows.take(i as int) =~= rows.take(i - 1).push(rows[i - 1]));
                assert(self.pairs@ == before.push((pk, sv)));
                assert(self@.pks =~= old_view.pks.push(rows[i - 1].member(start.pk_field)));
                assert(self@.sort_values =~= old_view.sort_values.push(rows[i - 1].member(start.sort_field)));
                assert(self@.pks =~= start.pks + column(rows.take(i as int), start.pk_field));
                assert(self@.sort_values =~= start.sort_values + column(rows.take(i as int), start.sort_field));
            }
        }
        assert(rows.take(batch@.len() as int) =~= rows);
        if batch.len() > 0 {
            self.last_pk = Some(batch[batch.len() - 1].field(self.pk_field.as_str()));
        }
        if batch.len() < SORT_BATCH {
            return Ok(true);
        }
        if self.pairs.len() > sort_cap {
            return Err(ApiError::unprocessable("collection grew past the sort cap while indexing"));
        }
        Ok(false)
    }

    /// Sorts the gathered keys by their sort values (stably; descending
    /// reverses the order of the values, not of equal ones).
    pub fn finish(self) -> (index: SortIndex)
        ensures
            index.pk_field@ == self@.pk_field,
            exists|perm: Seq<usize>| {
                &&& perm.to_multiset() == positions(self@.pks.len()).to_multiset()
                &&& perm.len() == self@.pks.len()
                &&& in_range(perm, self@.pks.len())
                &&& sorted_by(self@.sort_values, self@.descending, perm)
                &&& items_view(index.keys@) == perm.map_values(|p: usize| self@.pks[p as int])
            },
    {
        let ghost view = self@;
        let mut sort_values: Vec<JsonValue> = Vec::new();
        let mut i: usize = 0;
        while i < self.pairs.len()
            invariant
                i <= self.pairs@.len(),
                view == self@,
                items_view(sort_values@) == view.sort_values.take(i as int),
            decreases self.pairs@.len() - i,
        {
            let v = self.pairs[i].1.duplicate();
            let ghost before = sort_values@;
            sort_values.push(v);
            i += 1;
            proof {
                assert(sort_values@.drop_last() =~= before);
                assert(view.sort_values.take(i as int) =~= view.sort_values.take(i - 1).push(view.sort_values[i - 1]));
            }
        }
        assert(view.sort_values.take(self.pairs@.len() as int) =~= view.sort_values);
        proof {
            lemma_items_view(sort_values@);
        }
        let order = stable_sort_order(&sort_values, self.descending);
        let mut keys: Vec<JsonValue> = Vec::new();
        let mut k: usize = 0;
        while k < order.len()
            invariant
                k <= order@.len(),
                order@.len() == self.pairs@.len(),
                view == self@,
                in_range(order@, self.pairs@.len()),
                items_view(keys@) == order@.take(k as int).map_values(|p: usize| view.pks[p as int]),
            decreases order@.len() - k,
        {
            let p = order[k];
            let key = self.pairs[p].0.duplicate();
            let ghost before = keys@;
            keys.push(key);
            k += 1;
            proof {
                assert(keys@.drop_last() =~= before);
                assert(order@.take(k as int).map_values(|p: usize| view.pks[p as int]) =~= order@.take(k - 1).map_values(|p: usize| view.pks[p as int]).push(view.pks[p as int]));
            }
        }
        assert(order@.take(order@.len() as int) =~= order@);
        proof {
            let perm = order@;
            assert(sort_values@.len() == view.pks.len());
            assert(perm.to_multiset() == positions(view.pks.len()).to_multiset());
            assert(sorted_by(view.sort_values, view.descending, perm));
            assert(items_view(keys@) == perm.map_values(|p: usize| view.pks[p as int]));
        }
        SortIndex { pk_field: self.pk_field, keys }
    }
}

/// The keys of one page: at most `limit` keys from position `offset`
/// (`iter().skip(offset).take(limit)`).
pub open spec fn page_of(keys: Seq<JsonData>, offset: nat, limit: nat) -> Seq<JsonData> {
    let start = if offset < keys.len() { offset } else { keys.len() };
    let end = if start + limit < keys.len() { start + limit } else { keys.len() };
    keys.subrange(start as int, end as int)
}

/// The primary keys of one page of a sort index.
pub fn page_keys(index: &SortIndex, offset: usize, limit: usize) -> (r: Vec<JsonValue>)
    ensures
        items_view(r@) == page_of(items_view(index.keys@), offset as nat, limit as nat),
{
    proof {
        lemma_items_view(index.keys@);
    }
    let n = index.keys.len();
    let start = if offset < n { offset } else { n };
    let end = if limit < n - start { start + limit } else { n };
    let ghost ks = items_view(index.keys@);
    let mut out: Vec<JsonValue> = Vec::new();
    let mut i: usize = start;
    while i < end
        invariant
            start <= i <= end <= n,
            n == index.keys@.len(),
            ks == items_view(index.keys@),
            ks.len() == n,
            forall|j: int| 0 <= j < n ==> #[trigger] ks[j] == index.keys@[j]@,
            items_view(out@) == ks.subrange(start as int, i as int),
        decreases end - i,
    {
        let k = index.keys[i].duplicate();
        let ghost before = out@;
        out.push(k);
        i += 1;
        proof {
            assert(out@.drop_last() =~= before);
            assert(ks.subrange(start as int, i as int) =~= ks.subrange(start as int, i - 1).push(ks[i - 1]));
        }
    }
    out
}

/// Parts joined by a separator (`[String]::join`).
pub open spec fn joined(parts: Seq<Seq<char>>, sep: Seq<char>) -> Seq<char>
    decreases parts.len(),
{
    if parts.len() == 0 {
        Seq::empty()
    } else if parts.len() == 1 {
        parts[0]
    } else {
        joined(parts.drop_last(), sep) + sep + parts.last()
    }
}

/// The filter that selects the rows of one page by primary key:
/// `pk in [lit, lit, ...]`, with string literals when the first key is a string.
pub open spec fn pk_in_filter(pk_field: Seq<char>, keys: Seq<JsonData>) -> Seq<char> {
    let is_string = keys[0] is Str;
    pk_field + " in ["@ + joined(keys.map_values(|k: JsonData| pk_literal_of(k, is_string)), ", "@)
        + "]"@
}

/// The filter that fetches the rows of a page, or `None` for an empty page,
/// which needs no query.
pub fn rows_filter(pk_field: &str, page_keys: &Vec<JsonValue>) -> (r: Option<String>)
    ensures
        page_keys@.len() == 0 ==> r is None,
        page_keys@.len() > 0 ==> (r matches Some(f) && f@ == pk_in_filter(pk_field@, items_view(page_keys@))),
{
    if page_keys.len() == 0 {
        return None;
    }
    proof {
        lemma_items_view(page_keys@);
    }
    let ghost ks = items_view(page_keys@);
    let is_string = page_keys[0].is_string();
    let ghost lits = ks.map_values(|k: JsonData| pk_literal_of(k, is_string));
    let mut list = String::new();
    let mut i: usize = 0;
    while i < page_keys.len()
        invariant
            i <= page_keys@.len(),
            ks == items_view(page_keys@),
            ks.len() == page_keys@.len(),
            forall|j: int| 0 <= j < page_keys@.len() ==> #[trigger] ks[j] == page_keys@[j]@,
            lits == ks.map_values(|k: JsonData| pk_literal_of(k, is_string)),
            list@ == joined(lits.take(i as int), ", "@),
        decreases page_keys@.len() - i,
    {
        let lit = pk_literal(&page_keys[i], is_string);
        proof {
            assert(lits.take(i + 1).drop_last() =~= lits.take(i as int));
            assert(lits.take(i + 1).last() == lit@);
            if i == 0 {
                assert(lits.take(1).len() == 1);
            }
        }
        if i > 0 {
            list.append(", ");
        }
        list.append(lit.as_str());
        i += 1;
        proof {
            if i == 1 {
                assert(joined(lits.take(0), ", "@) =~= Seq::<char>::empty());
                assert(list@ =~= joined(lits.take(1), ", "@));
            } else {
                assert(list@ =~= joined(lits.take(i as int), ", "@));
            }
        }
    }
    assert(lits.take(page_keys@.len() as int) =~= lits);
    let mut f = String::from_str(pk_field);
    f.append(" in [");
    f.append(list.as_str());
    f.append("]");
    Some(f)
}

/// The fetched rows by the text of their primary key; a later row with the
/// same key replaces an earlier one (collecting into a `HashMap`).
pub open spec fn rows_by_pk(rows: Seq<JsonData>, pk_field: Seq<char>) -> Map<Seq<char>, JsonData>
    decreases rows.len(),
{
    if rows.len() == 0 {
        Map::empty()
    } else {
        rows_by_pk(rows.drop_last(), pk_field).insert(
            json_text(rows.last().member(pk_field)),
            rows.last(),
        )
    }
}

/// The rows in the order of the page keys: each key takes the row stored
/// under its text, which is then gone, and a key with no row is skipped.
pub open spec fn pick_rows(by_pk: Map<Seq<char>, JsonData>, keys: Seq<JsonData>) -> Seq<JsonData>
    decreases keys.len(),
{
    if keys.len() == 0 {
        Seq::empty()
    } else {
        let t = json_text(keys[0]);
        if by_pk.contains_key(t) {
            seq![by_pk[t]] + pick_rows(by_pk.remove(t), keys.drop_first())
        } else {
            pick_rows(by_pk, keys.drop_first())
        }
    }
}

/// Puts the fetched rows of a page back in the order of its keys.
pub fn order_rows_by_pk(rows: &Vec<JsonValue>, pk_field: &str, page_keys: &Vec<JsonValue>) -> (r: Vec<JsonValue>)
    ensures
        items_view(r@) == pick_rows(rows_by_pk(items_view(rows@), pk_field@), items_view(page_keys@)),
{
    proof {
        lemma_items_view(rows@);
        lemma_items_view(page_keys@);
    }
    let ghost rs = items_view(rows@);
    let mut by_pk: KeyedList<JsonValue> = KeyedList::new();
    let mut i: usize = 0;
    assert(by_pk@.map_values(|v: JsonValue| v@) =~= rows_by_pk(rs.take(0), pk_field@));
    while i < rows.len()
        invariant
            i <= rows@.len(),
            rs == items_view(rows@),
            rs.len() == rows@.len(),
            forall|j: int| 0 <= j < rows@.len() ==> #[trigger] rs[j] == rows@[j]@,
            by_pk@.map_values(|v: JsonValue| v@) == rows_by_pk(rs.take(i as int), pk_field@),
        decreases rows@.len() - i,
    {
        let key = rows[i].field(pk_field).to_json_text();
        let row = rows[i].duplicate();
        let ghost before = by_pk@;
        by_pk.insert(key, row);
        i += 1;
        proof {
            assert(rs.take(i as int).drop_last() =~= rs.take(i - 1));
            assert(rs.take(i as int).last() == rs[i - 1]);
            assert(by_pk@.map_values(|v: JsonValue| v@) =~= before.map_values(|v: JsonValue| v@).insert(key@, row@));
        }
    }
    assert(rs.take(rows@.len() as int) =~= rs);
    let ghost ks = items_view(page_keys@);
    let ghost total = pick_rows(rows_by_pk(rs, pk_field@), ks);
    let mut out: Vec<JsonValue> = Vec::new();
    let mut k: usize = 0;
    assert(ks.skip(0) =~= ks);
    while k < page_keys.len()
        invariant
            k <= page_keys@.len(),
            ks == items_view(page_keys@),
            ks.len() == page_keys@.len(),
            forall|j: int| 0 <= j < page_keys@.len() ==> #[trigger] ks[j] == page_keys@[j]@,
            items_view(out@) + pick_rows(by_pk@.map_values(|v: JsonValue| v@), ks.skip(k as int)) == total,
        decreases page_keys@.len() - k,
    {
        let t = page_keys[k].to_json_text();
        let ghost m = by_pk@.map_values(|v: JsonValue| v@);
        proof {
            assert(ks.skip(k as int)[0] == ks[k as int]);
            assert(ks.skip(k as int).drop_first() =~= ks.skip(k + 1));
        }
        match by_pk.remove(t.as_str()) {
            Some(row) => {
                let ghost before = out@;
                proof {
                    assert(m.contains_key(t@));
                    assert(by_pk@.map_values(|v: JsonValue| v@) =~= m.remove(t@));
                }
                out.push(row);
                proof {
                    assert(out@.drop_last() =~= before);
                    assert(items_view(out@) =~= items_view(before).push(m[t@]));
                    assert(items_view(out@) + pick_rows(m.remove(t@), ks.skip(k + 1)) =~= items_view(before) + (seq![m[t@]] + pick_rows(m.remove(t@), ks.skip(k + 1))));
                }
            },
            None => {
                proof {
                    assert(!m.contains_key(t@));
                    assert(by_pk@.map_values(|v: JsonValue| v@) =~= m);
                }
            },
        }
        k += 1;
    }
    proof {
        assert(ks.skip(page_keys@.len() as int).len() == 0);
        assert(items_view(out@) + Seq::<JsonData>::empty() =~= items_view(out@));
    }
    out
}

/// The number of sort indexes kept at most; the cache is emptied when full.
pub const SORT_CACHE_MAX: usize = 8;

/// The cache after storing `v` under `key`: emptied first when it already
/// holds `SORT_CACHE_MAX` entries.
pub open spec fn cache_insert<V>(m: Map<Seq<char>, V>, key: Seq<char>, v: V) -> Map<Seq<char>, V> {
    (if m.dom().len() >= SORT_CACHE_MAX {
        Map::<Seq<char>, V>::empty()
    } else {
        m
    }).insert(key, v)
}

/// A sort index just cached is found under its key, and the cache never
/// holds more than `SORT_CACHE_MAX` indexes; a refresh then drops it.
pub proof fn law_sort_cache_insert<V>(m: Map<Seq<char>, V>, key: Seq<char>, v: V)
    requires
        m.dom().finite(),
        m.dom().len() <= SORT_CACHE_MAX,
    ensures
        cache_insert(m, key, v).contains_key(key),
        cache_insert(m, key, v)[key] == v,
        cache_insert(m, key, v).dom().finite(),
        cache_insert(m, key, v).dom().len() <= SORT_CACHE_MAX,
        !cache_insert(m, key, v).remove(key).contains_key(key),
{
    let base = if m.dom().len() >= SORT_CACHE_MAX {
        Map::<Seq<char>, V>::empty()
    } else {
        m
    };
    assert(base.dom().finite());
    vstd::set::axiom_set_insert_len(base.dom(), key);
    assert(cache_insert(m, key, v).dom() =~= base.dom().insert(key));
    if m.dom().len() >= SORT_CACHE_MAX {
        assert(base.dom() =~= Set::<Seq<char>>::empty());
    }
}

/// Built sort indexes by cache key (session, collection, filter, field,
/// direction), at most `SORT_CACHE_MAX` of them.
pub struct SortCache<V> {
    entries: KeyedList<V>,
}

impl<V> View for SortCache<V> {
    type V = Map<Seq<char>, V>;

    closed spec fn view(&self) -> Map<Seq<char>, V> {
        self.entries@
    }
}

impl<V> SortCache<V> {
    #[verifier::type_invariant]
    spec fn bounded(self) -> bool {
        &&& self.entries@.dom().finite()
        &&& self.entries@.dom().len() <= SORT_CACHE_MAX
    }

    /// An empty cache.
    pub fn new() -> (r: Self)
        ensures
            r@ == Map::<Seq<char>, V>::empty(),
    {
        SortCache { entries: KeyedList::new() }
    }

    /// The number of cached indexes, never more than `SORT_CACHE_MAX`.
    pub fn len(&self) -> (r: usize)
        ensures
            self@.dom().finite(),
            r == self@.dom().len(),
            r <= SORT_CACHE_MAX,
    {
        proof {
            use_type_invariant(self);
        }
        self.entries.len()
    }

    /// The index cached under `key`.
    pub fn get(&self, key: &str) -> (r: Option<&V>)
        ensures
            match r {
                Some(v) => self@.contains_key(key@) && self@[key@] == *v,
                None => !self@.contains_key(key@),
            },
    {
        self.entries.get(key)
    }

    /// Drops the index cached under `key`.
    pub fn remove(&mut self, key: &str)
        ensures
            final(self)@ == old(self)@.remove(key@),
    {
        proof {
            use_type_invariant(&*self);
        }
        let mut e: KeyedList<V> = KeyedList::new();
        std::mem::swap(&mut e, &mut self.entries);
        let _ = e.remove(key);
        proof {
            vstd::set::axiom_set_remove_len(old(self)@.dom(), key@);
            assert(e@.dom() =~= old(self)@.dom().remove(key@));
        }
        self.entries = e;
    }

    /// Caches `index` under `key`, first emptying the cache when it already
    /// holds `SORT_CACHE_MAX` indexes.
    pub fn insert(&mut self, key: String, index: V)
        ensures
            final(self)@ == cache_insert(old(self)@, key@, index),
    {
        proof {
            use_type_invariant(&*self);
        }
        let mut e: KeyedList<V> = KeyedList::new();
        std::mem::swap(&mut e, &mut self.entries);
        if e.len() >= SORT_CACHE_MAX {
            e.clear();
        }
        let ghost before = e@;
        let ghost k = key@;
        e.insert(key, index);
        proof {
            assert(before.dom().finite());
            assert(e@.dom() =~= before.dom().insert(k));
            vstd::set::axiom_set_insert_len(before.dom(), k);
            if before.dom().len() >= SORT_CACHE_MAX {
                assert(before.dom() =~= Set::<Seq<char>>::empty());
            }
        }
        self.entries = e;
    }

    /// The cached index for a query: a refresh drops it and answers `None`,
    /// otherwise it is looked up.
    pub fn cached_index(&mut self, key: &str, refresh: bool) -> (r: Option<&V>)
        ensures
            refresh ==> r is None && final(self)@ == old(self)@.remove(key@),
            !refresh ==> final(self)@ == old(self)@ && match r {
                Some(v) => old(self)@.contains_key(key@) && old(self)@[key@] == *v,
                None => !old(self)@.contains_key(key@),
            },
    {
        if refresh {
            self.remove(key);
            return None;
        }
        self.get(key)
    }
}

/// Consecutive pages of an index join up: the page of `l1` keys at `offset`
/// followed by the page of `l2` keys right after it is the page of `l1 + l2`
/// keys at `offset`.
pub proof fn law_pages_join(keys: Seq<JsonData>, offset: nat, l1: nat, l2: nat)
    ensures
        page_of(keys, offset, l1) + page_of(keys, offset + l1, l2) == page_of(keys, offset, l1 + l2),
{
    assert(page_of(keys, offset, l1) + page_of(keys, offset + l1, l2) =~= page_of(keys, offset, l1 + l2));
}

/// A row stored under a key text has that text as its primary key's text.
pub proof fn lemma_rows_by_pk_keys(rows: Seq<JsonData>, pk_field: Seq<char>, t: Seq<char>)
    ensures
        rows_by_pk(rows, pk_field).contains_key(t) ==> json_text(rows_by_pk(rows, pk_field)[t].member(pk_field)) == t,
    decreases rows.len(),
{
    if rows.len() > 0 {
        lemma_rows_by_pk_keys(rows.drop_last(), pk_field, t);
    }
}

/// When the page keys have distinct texts and a row was fetched for each,
/// the page's rows are the fetched rows in the order of the keys, each with
/// the primary key of its position.
pub proof fn law_rows_follow_page_keys(rows: Seq<JsonData>, pk_field: Seq<char>, keys: Seq<JsonData>)
    requires
        forall|i: int| 0 <= i < keys.len() ==> rows_by_pk(rows, pk_field).contains_key(#[trigger] json_text(keys[i])),
        forall|i: int, j: int| 0 <= i < j < keys.len() ==> json_text(#[trigger] keys[i]) != json_text(#[trigger] keys[j]),
    ensures
        pick_rows(rows_by_pk(rows, pk_field), keys).len() == keys.len(),
        forall|i: int| 0 <= i < keys.len() ==> #[trigger] pick_rows(rows_by_pk(rows, pk_field), keys)[i] == rows_by_pk(
            rows,
            pk_field,
        )[json_text(keys[i])],
        forall|i: int| 0 <= i < keys.len() ==> json_text(#[trigger] pick_rows(rows_by_pk(rows, pk_field), keys)[i].member(
            pk_field,
        )) == json_text(keys[i]),
{
    let m = rows_by_pk(rows, pk_field);
    lemma_pick_rows_in_order(m, keys);
    assert forall|i: int| 0 <= i < keys.len() implies json_text(#[trigger] pick_rows(m, keys)[i].member(pk_field)) == json_text(keys[i]) by {
        lemma_rows_by_pk_keys(rows, pk_field, json_text(keys[i]));
    }
}

proof fn lemma_pick_rows_in_order(m: Map<Seq<char>, JsonData>, keys: Seq<JsonData>)
    requires
        forall|i: int| 0 <= i < keys.len() ==> m.contains_key(#[trigger] json_text(keys[i])),
        forall|i: int, j: int| 0 <= i < j < keys.len() ==> json_text(#[trigger] keys[i]) != json_text(#[trigger] keys[j]),
    ensures
        pick_rows(m, keys).len() == keys.len(),
        forall|i: int| 0 <= i < keys.len() ==> #[trigger] pick_rows(m, keys)[i] == m[json_text(keys[i])],
    decreases keys.len(),
{
    if keys.len() > 0 {
        let t = json_text(keys[0]);
        let rest = keys.drop_first();
        let m2 = m.remove(t);
        assert forall|i: int| 0 <= i < rest.len() implies m2.contains_key(#[trigger] json_text(rest[i])) by {
            assert(rest[i] == keys[i + 1]);
            assert(json_text(keys[0]) != json_text(keys[i + 1]));
        }
        assert forall|i: int, j: int| 0 <= i < j < rest.len() implies json_text(#[trigger] rest[i]) != json_text(#[trigger] rest[j]) by {
            assert(rest[i] == keys[i + 1]);
            assert(rest[j] == keys[j + 1]);
        }
        lemma_pick_rows_in_order(m2, rest);
        assert forall|i: int| 0 <= i < keys.len() implies #[trigger] pick_rows(m, keys)[i] == m[json_text(keys[i])] by {
            if i > 0 {
                assert(rest[i - 1] == keys[i]);
                assert(json_text(keys[0]) != json_text(keys[i]));
            }
        }
    }
}

} // verus!
