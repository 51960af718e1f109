//! A JSON value held as plain data: what the REST API returns and what the
//! handlers answer, with the accessors and the compact text rendering that
//! the logic reads.

use vstd::prelude::*;
use crate::text::{hex_char, decimal, format_u64, format_i64, push_char, signed_decimal};

verus! {

/// Whether an `f64` bit pattern is finite: its exponent bits are not all set,
/// so it is neither an infinity nor a NaN.
pub open spec fn is_finite_bits(b: u64) -> bool {
    b % 0x8000_0000_0000_0000 < 0x7ff0_0000_0000_0000
}

/// The bit pattern of a finite `f64`: JSON numbers hold no infinity and no NaN.
pub struct FiniteF64 {
    bits: u64,
}

impl View for FiniteF64 {
    type V = u64;

    closed spec fn view(&self) -> u64 {
        self.bits
    }
}

impl FiniteF64 {
    #[verifier::type_invariant]
    spec fn finite(self) -> bool {
        is_finite_bits(self.bits)
    }

    /// The float with bit pattern `bits`, if it is finite (as
    /// `serde_json::Number::from_f64` accepts only finite floats).
    pub fn from_bits(bits: u64) -> (r: Option<FiniteF64>)
        ensures
            r is Some <==> is_finite_bits(bits),
            r matches Some(f) ==> f@ == bits,
    {
        if bits % 0x8000_0000_0000_0000 < 0x7ff0_0000_0000_0000 {
            Some(FiniteF64 { bits })
        } else {
            None
        }
    }

    /// The bit pattern, which is always finite.
    pub fn to_bits(&self) -> (r: u64)
        ensures
            r == self@,
            is_finite_bits(r),
    {
        proof {
            use_type_invariant(self);
        }
        self.bits
    }

    /// A copy of the float.
    pub fn duplicate(&self) -> (r: FiniteF64)
        ensures
            r@ == self@,
    {
        proof {
            use_type_invariant(self);
        }
        FiniteF64 { bits: self.bits }
    }
}

/// A JSON number as `serde_json` holds it: a non-negative integer, a negative
/// integer, or a finite float. A float keeps the bit pattern of its `f64`
/// value and the text `serde_json` renders for it.
pub enum JsonNumber {
    PosInt(u64),
    NegInt(i64),
    Float { bits: FiniteF64, text: String },
}

/// A JSON value. An object keeps its entries in the order `serde_json`
/// iterates them.
pub enum JsonValue {
    Null,
    Bool(bool),
    Number(JsonNumber),
    Str(String),
    Array(Vec<JsonValue>),
    Object(Vec<(String, JsonValue)>),
}

/// How `serde_json` writes one character inside a string literal: `"` and
/// `\` behind a backslash, the five control characters with a short escape
/// as `\b \t \n \f \r`, every other control character as `\u00` and two
/// lower-case hex digits, and everything else unchanged.
pub open spec fn escaped_char(c: char) -> Seq<char> {
    if c == '"' {
        seq!['\\', '"']
    } else if c == '\\' {
        seq!['\\', '\\']
    } else if c == '\u{8}' {
        seq!['\\', 'b']
    } else if c == '\t' {
        seq!['\\', 't']
    } else if c == '\n' {
        seq!['\\', 'n']
    } else if c == '\u{c}' {
        seq!['\\', 'f']
    } else if c == '\r' {
        seq!['\\', 'r']
    } else if (c as nat) < 32 {
        let code = c as nat;
        let high = hex_char(code / 16);
        let low = hex_char(code % 16);
        seq!['\\', 'u', '0', '0'].push(high).push(low)
    } else {
        seq![c]
    }
}

/// The characters of `s`, each written as `serde_json` writes it in a string.
pub open spec fn escaped(s: Seq<char>) -> Seq<char>
    decreases s.len(),
{
    if s.len() == 0 {
        Seq::empty()
    } else {
        escaped(s.drop_last()) + escaped_char(s.last())
    }
}

/// The JSON string literal that `serde_json::to_string` renders for `s`: the
/// escaped characters between double quotes.
pub open spec fn json_quoted(s: Seq<char>) -> Seq<char> {
    seq!['"'] + escaped(s) + seq!['"']
}

/// Characters that `serde_json` copies into a string literal unescaped.
pub open spec fn plain_string(s: Seq<char>) -> bool {
    forall|i: int| 0 <= i < s.len() ==> {
        let c = #[trigger] s[i];
        c != '"' && c != '\\' && c >= ' '
    }
}

/// A string whose characters need no escape is written as it is.
pub proof fn lemma_plain_string_unescaped(s: Seq<char>)
    requires
        plain_string(s),
    ensures
        escaped(s) == s,
    decreases s.len(),
{
    if s.len() > 0 {
        assert(plain_string(s.drop_last())) by {
            assert forall|i: int| 0 <= i < s.drop_last().len() implies {
                let c = #[trigger] s.drop_last()[i];
                c != '"' && c != '\\' && c >= ' '
            } by {
                assert(s.drop_last()[i] == s[i]);
            }
        }
        lemma_plain_string_unescaped(s.drop_last());
        let c = s[s.len() - 1];
        assert(c != '"' && c != '\\' && c >= ' ');
        assert(s.drop_last().push(s.last()) =~= s);
    }
}

/// The value of a hexadecimal digit, in either case.
pub open spec fn hex_digit_value(c: char) -> int {
    if '0' <= c && c <= '9' {
        (c as int) - 48
    } else if 'a' <= c && c <= 'f' {
        (c as int) - 87
    } else if 'A' <= c && c <= 'F' {
        (c as int) - 55
    } else {
        0
    }
}

/// The content of a JSON string literal decoded: each escape (`\"`, `\\`,
/// `\/`, `\b`, `\t`, `\n`, `\f`, `\r`, `\uXXXX`) back to its character, any
/// other character as it is.
pub open spec fn unescaped(t: Seq<char>) -> Seq<char>
    decreases t.len(),
{
    if t.len() == 0 {
        Seq::empty()
    } else if t[0] == '\\' && t.len() >= 2 && t[1] == 'u' && t.len() >= 6 {
        let code = hex_digit_value(t[2]) * 4096 + hex_digit_value(t[3]) * 256 + hex_digit_value(t[4]) * 16
            + hex_digit_value(t[5]);
        seq![code as char] + unescaped(t.skip(6))
    } else if t[0] == '\\' && t.len() >= 2 && (t[1] == '"' || t[1] == '\\' || t[1] == '/') {
        seq![t[1]] + unescaped(t.skip(2))
    } else if t[0] == '\\' && t.len() >= 2 && t[1] == 'b' {
        seq!['\u{8}'] + unescaped(t.skip(2))
    } else if t[0] == '\\' && t.len() >= 2 && t[1] == 't' {
        seq!['\t'] + unescaped(t.skip(2))
    } else if t[0] == '\\' && t.len() >= 2 && t[1] == 'n' {
        seq!['\n'] + unescaped(t.skip(2))
    } else if t[0] == '\\' && t.len() >= 2 && t[1] == 'f' {
        seq!['\u{c}'] + unescaped(t.skip(2))
    } else if t[0] == '\\' && t.len() >= 2 && t[1] == 'r' {
        seq!['\r'] + unescaped(t.skip(2))
    } else {
        seq![t[0]] + unescaped(t.drop_first())
    }
}

proof fn lemma_hex_digit_value(d: nat)
    requires
        d < 16,
    ensures
        hex_digit_value(hex_char(d)) == d,
{
    assert(hex_char(d) as int == if d < 10 { 48 + d } else { 87 + d });
}

proof fn lemma_unescaped_char(c: char, rest: Seq<char>)
    ensures
        unescaped(escaped_char(c) + rest) == seq![c] + unescaped(rest),
{
    let t = escaped_char(c) + rest;
    if c == '"' || c == '\\' || c == '\u{8}' || c == '\t' || c == '\n' || c == '\u{c}' || c == '\r' {
        assert(t.skip(2) =~= rest);
    } else if (c as nat) < 32 {
        let code = c as nat;
        lemma_hex_digit_value(code / 16);
        lemma_hex_digit_value(code % 16);
        assert(t[2] == '0' && t[3] == '0');
        assert(t.skip(6) =~= rest);
        assert(hex_digit_value(t[2]) * 4096 + hex_digit_value(t[3]) * 256 + hex_digit_value(t[4]) * 16
            + hex_digit_value(t[5]) == code);
    } else {
        assert(t.drop_first() =~= rest);
    }
}

proof fn lemma_unescaped_escaped(a: Seq<char>, rest: Seq<char>)
    ensures
        unescaped(escaped(a) + rest) == a + unescaped(rest),
    decreases a.len(),
{
    if a.len() == 0 {
        assert(escaped(a) + rest =~= rest);
        assert(a + unescaped(rest) =~= unescaped(rest));
    } else {
        let c = a.last();
        let front = a.drop_last();
        assert(escaped(a) + rest =~= escaped(front) + (escaped_char(c) + rest));
        lemma_unescaped_escaped(front, escaped_char(c) + rest);
        lemma_unescaped_char(c, rest);
        assert(front + (seq![c] + unescaped(rest)) =~= a + unescaped(rest));
    }
}

proof fn lemma_escaped_quotes(s: Seq<char>)
    ensures
        forall|i: int| 0 <= i < escaped(s).len() && #[trigger] escaped(s)[i] == '"' ==> i > 0 && escaped(s)[i - 1] == '\\',
    decreases s.len(),
{
    if s.len() > 0 {
        let front = s.drop_last();
        let piece = escaped_char(s.last());
        lemma_escaped_quotes(front);
        let e = escaped(s);
        assert(e == escaped(front) + piece);
        assert forall|i: int| 0 <= i < e.len() && #[trigger] e[i] == '"' implies i > 0 && e[i - 1] == '\\' by {
            if i < escaped(front).len() {
                assert(e[i] == escaped(front)[i]);
                assert(e[i - 1] == escaped(front)[i - 1]);
            } else {
                let j = i - escaped(front).len();
                assert(e[i] == piece[j]);
                let c = s.last();
                if (c as nat) < 32 && !(c == '\u{8}' || c == '\t' || c == '\n' || c == '\u{c}' || c == '\r') {
                    let code = c as nat;
                    assert(hex_char(code / 16) as int == if code / 16 < 10 { 48 + code / 16 } else { 87 + code / 16 });
                    assert(hex_char(code % 16) as int == if code % 16 < 10 { 48 + code % 16 } else { 87 + code % 16 });
                }
                assert(j == 1);
                assert(e[i - 1] == piece[0]);
            }
        }
    }
}

/// A string literal from `serde_json` cannot end early and reads back as its
/// string: inside the quotes, every `"` is escaped by the backslash before it,
/// and decoding the escapes gives back exactly the characters of `s`. So a
/// string key placed in a filter stays one string literal.
pub proof fn law_string_literal_round_trips(s: Seq<char>)
    ensures
        json_quoted(s) == seq!['"'] + escaped(s) + seq!['"'],
        unescaped(escaped(s)) == s,
        forall|i: int| 0 <= i < escaped(s).len() && #[trigger] escaped(s)[i] == '"' ==> i > 0 && escaped(s)[i - 1] == '\\',
{
    lemma_unescaped_escaped(s, Seq::empty());
    assert(escaped(s) + Seq::<char>::empty() =~= escaped(s));
    assert(s + unescaped(Seq::<char>::empty()) =~= s);
    lemma_escaped_quotes(s);
}

#[verifier::external_type_specification]
#[verifier::external_body]
pub struct ExJsonError(serde_json::Error);

/// `serde_json::to_string` on a string slice. Serialising a `str` into the
/// in-memory buffer cannot fail; the literal is `json_quoted(s)`: a double
/// quote, each character as `escaped_char` writes it, and a double quote.
#[verifier::external_body]
fn serialize_str(s: &str) -> (r: Result<String, serde_json::Error>)
    ensures
        r is Ok,
        r matches Ok(t) ==> t@ == json_quoted(s@),
{
    serde_json::to_string(s)
}

/// The JSON string literal for `s`.
pub fn quote_json_string(s: &str) -> (r: String)
    ensures
        r@ == json_quoted(s@),
        plain_string(s@) ==> r@ == seq!['"'] + s@ + seq!['"'],
{
    proof {
        if plain_string(s@) {
            lemma_plain_string_unescaped(s@);
        }
    }
    match serialize_str(s) {
        Ok(t) => t,
        Err(_) => {
            let mut t = String::new();
            push_char(&mut t, '"');
            push_char(&mut t, '"');
            t
        },
    }
}

/// The mathematical content of a JSON number.
pub enum NumberData {
    PosInt(u64),
    NegInt(i64),
    Float(u64, Seq<char>),
}

/// The mathematical content of a JSON value: strings as character sequences,
/// arrays and objects as sequences.
pub enum JsonData {
    Null,
    Bool(bool),
    Number(NumberData),
    Str(Seq<char>),
    Array(Seq<JsonData>),
    Object(Seq<(Seq<char>, JsonData)>),
}

pub open spec fn number_view(n: JsonNumber) -> NumberData {
    match n {
        JsonNumber::PosInt(u) => NumberData::PosInt(u),
        JsonNumber::NegInt(i) => NumberData::NegInt(i),
        JsonNumber::Float { bits, text } => NumberData::Float(bits@, text@),
    }
}

pub open spec fn json_view(v: JsonValue) -> JsonData
    decreases v, 0nat,
{
    match v {
        JsonValue::Null => JsonData::Null,
        JsonValue::Bool(b) => JsonData::Bool(b),
        JsonValue::Number(n) => JsonData::Number(number_view(n)),
        JsonValue::Str(s) => JsonData::Str(s@),
        JsonValue::Array(items) => JsonData::Array(items_view(items@)),
        JsonValue::Object(entries) => JsonData::Object(entries_view(entries@)),
    }
}

pub open spec fn items_view(s: Seq<JsonValue>) -> Seq<JsonData>
    decreases s, s.len(),
{
    if s.len() == 0 {
        Seq::empty()
    } else {
        items_view(s.drop_last()).push(json_view(s.last()))
    }
}

pub open spec fn entries_view(s: Seq<(String, JsonValue)>) -> Seq<(Seq<char>, JsonData)>
    decreases s, s.len(),
{
    if s.len() == 0 {
        Seq::empty()
    } else {
        entries_view(s.drop_last()).push((s.last().0@, json_view(s.last().1)))
    }
}

impl View for JsonValue {
    type V = JsonData;

    open spec fn view(&self) -> JsonData {
        json_view(*self)
    }
}

pub proof fn lemma_items_view(s: Seq<JsonValue>)
    ensures
        items_view(s).len() == s.len(),
        forall|i: int| 0 <= i < s.len() ==> #[trigger] items_view(s)[i] == json_view(s[i]),
    decreases s.len(),
{
    if s.len() > 0 {
        lemma_items_view(s.drop_last());
    }
}

pub proof fn lemma_entries_view(s: Seq<(String, JsonValue)>)
    ensures
        entries_view(s).len() == s.len(),
        forall|i: int| 0 <= i < s.len() ==> #[trigger] entries_view(s)[i] == (s[i].0@, json_view(s[i].1)),
    decreases s.len(),
{
    if s.len() > 0 {
        lemma_entries_view(s.drop_last());
    }
}

/// The text `serde_json` renders for a number.
pub open spec fn number_text(n: NumberData) -> Seq<char> {
    match n {
        NumberData::PosInt(u) => decimal(u as nat),
        NumberData::NegInt(i) => signed_decimal(i as int),
        NumberData::Float(bits, text) => text,
    }
}

/// The compact JSON text of a value (`Value::to_string`).
pub open spec fn json_text(v: JsonData) -> Seq<char>
    decreases v, 0nat,
{
    match v {
        JsonData::Null => seq!['n', 'u', 'l', 'l'],
        JsonData::Bool(b) => if b {
            seq!['t', 'r', 'u', 'e']
        } else {
            seq!['f', 'a', 'l', 's', 'e']
        },
        JsonData::Number(n) => number_text(n),
        JsonData::Str(s) => json_quoted(s),
        JsonData::Array(items) => seq!['['] + items_text(items) + seq![']'],
        JsonData::Object(entries) => seq!['{'] + entries_text(entries) + seq!['}'],
    }
}

/// The texts of array items separated by commas.
pub open spec fn items_text(s: Seq<JsonData>) -> Seq<char>
    decreases s, s.len(),
{
    if s.len() == 0 {
        Seq::empty()
    } else if s.len() == 1 {
        json_text(s[0])
    } else {
        items_text(s.drop_last()) + seq![','] + json_text(s.last())
    }
}

/// The texts of object entries, `"key":value`, separated by commas.
pub open spec fn entries_text(s: Seq<(Seq<char>, JsonData)>) -> Seq<char>
    decreases s, s.len(),
{
    if s.len() == 0 {
        Seq::empty()
    } else if s.len() == 1 {
        json_quoted(s[0].0) + seq![':'] + json_text(s[0].1)
    } else {
        entries_text(s.drop_last()) + seq![','] + json_quoted(s.last().0) + seq![':'] + json_text(
            s.last().1,
        )
    }
}

/// The value stored under `key` among object entries; `Null` when absent.
pub open spec fn entry_value(entries: Seq<(Seq<char>, JsonData)>, key: Seq<char>) -> JsonData
    decreases entries.len(),
{
    if entries.len() == 0 {
        JsonData::Null
    } else if entries[0].0 == key {
        entries[0].1
    } else {
        entry_value(entries.drop_first(), key)
    }
}

impl JsonData {
    /// `value[key]`: the member of an object, `Null` otherwise.
    pub open spec fn member(self, key: Seq<char>) -> JsonData {
        match self {
            JsonData::Object(entries) => entry_value(entries, key),
            _ => JsonData::Null,
        }
    }

    /// `value[i]`: the item of an array, `Null` when absent.
    pub open spec fn element(self, i: int) -> JsonData {
        match self {
            JsonData::Array(items) => if 0 <= i < items.len() {
                items[i]
            } else {
                JsonData::Null
            },
            _ => JsonData::Null,
        }
    }

    /// `Value::as_i64`.
    pub open spec fn int_value(self) -> Option<i64> {
        match self {
            JsonData::Number(NumberData::PosInt(u)) => if u <= i64::MAX {
                Some(u as i64)
            } else {
                None
            },
            JsonData::Number(NumberData::NegInt(i)) => Some(i),
            _ => None,
        }
    }

    /// `Value::as_str`.
    pub open spec fn str_value(self) -> Option<Seq<char>> {
        match self {
            JsonData::Str(s) => Some(s),
            _ => None,
        }
    }

    /// `Value::as_bool`.
    pub open spec fn bool_value(self) -> Option<bool> {
        match self {
            JsonData::Bool(b) => Some(b),
            _ => None,
        }
    }

    /// `Value::as_array`.
    pub open spec fn items(self) -> Option<Seq<JsonData>> {
        match self {
            JsonData::Array(items) => Some(items),
            _ => None,
        }
    }
}

impl JsonValue {
    /// A copy of the value.
    pub fn duplicate(&self) -> (r: JsonValue)
        ensures
            r@ == self@,
        decreases self,
    {
        match self {
            JsonValue::Null => JsonValue::Null,
            JsonValue::Bool(b) => JsonValue::Bool(*b),
            JsonValue::Number(n) => JsonValue::Number(
                match n {
                    JsonNumber::PosInt(u) => JsonNumber::PosInt(*u),
                    JsonNumber::NegInt(i) => JsonNumber::NegInt(*i),
                    JsonNumber::Float { bits, text } => JsonNumber::Float {
                        bits: bits.duplicate(),
                        text: text.clone(),
                    },
                },
            ),
            JsonValue::Str(s) => JsonValue::Str(s.clone()),
            JsonValue::Array(items) => {
                let mut out: Vec<JsonValue> = Vec::new();
                let mut i: usize = 0;
                while i < items.len()
                    invariant
                        i <= items.len(),
                        *self == JsonValue::Array(*items),
                        items_view(out@) == items_view(items@.take(i as int)),
                    decreases items.len() - i,
                {
                    proof {
                        assert(decreases_to!(*self => self->Array_0));
                        assert(decreases_to!(*items => items@));
                        assert(decreases_to!(items@ => items@[i as int]));
                    }
                    let c = items[i].duplicate();
                    let ghost before = out@;
                    out.push(c);
                    proof {
                        assert(out@.drop_last() =~= before);
                        assert(items@.take(i + 1).drop_last() =~= items@.take(i as int));
                    }
                    i += 1;
                }
                assert(items@.take(items.len() as int) =~= items@);
                JsonValue::Array(out)
            },
            JsonValue::Object(entries) => {
                let mut out: Vec<(String, JsonValue)> = Vec::new();
                let mut i: usize = 0;
                while i < entries.len()
                    invariant
                        i <= entries.len(),
                        *self == JsonValue::Object(*entries),
                        entries_view(out@) == entries_view(entries@.take(i as int)),
                    decreases entries.len() - i,
                {
                    proof {
                        assert(decreases_to!(*self => self->Object_0));
                        assert(decreases_to!(*entries => entries@));
                        assert(decreases_to!(entries@ => entries@[i as int]));
                        assert(decreases_to!(entries@[i as int] => entries@[i as int].1));
                    }
                    let c = entries[i].1.duplicate();
                    let k = entries[i].0.clone();
                    let ghost before = out@;
                    out.push((k, c));
                    proof {
                        assert(out@.drop_last() =~= before);
                        assert(entries@.take(i + 1).drop_last() =~= entries@.take(i as int));
                    }
                    i += 1;
                }
                assert(entries@.take(entries.len() as int) =~= entries@);
                JsonValue::Object(out)
            },
        }
    }

    /// `value[key]`, copied.
    pub fn field(&self, key: &str) -> (r: JsonValue)
        ensures
            r@ == self@.member(key@),
    {
        match self {
            JsonValue::Object(entries) => {
                let wanted = String::from_str(key);
                let ghost ev = entries_view(entries@);
                proof {
                    lemma_entries_view(entries@);
                    assert(ev.skip(0) =~= ev);
                }
                let mut i: usize = 0;
                while i < entries.len()
                    invariant
                        i <= entries.len(),
                        wanted@ == key@,
                        *self == JsonValue::Object(*entries),
                        ev == entries_view(entries@),
                        ev.len() == entries@.len(),
                        forall|j: int| 0 <= j < entries@.len() ==> #[trigger] ev[j] == (entries@[j].0@, json_view(entries@[j].1)),
                        entry_value(ev, key@) == entry_value(ev.skip(i as int), key@),
                    decreases entries.len() - i,
                {
                    proof {
                        assert(ev.skip(i as int).drop_first() =~= ev.skip(i + 1));
                        assert(ev.skip(i as int)[0] == ev[i as int]);
                    }
                    if entries[i].0 == wanted {
                        return entries[i].1.duplicate();
                    }
                    i += 1;
                }
                JsonValue::Null
            },
            _ => JsonValue::Null,
        }
    }

    /// `value[i]`, copied.
    pub fn element_at(&self, i: usize) -> (r: JsonValue)
        ensures
            r@ == self@.element(i as int),
    {
        match self {
            JsonValue::Array(items) => {
                proof { lemma_items_view(items@); }
                if i < items.len() {
                    items[i].duplicate()
                } else {
                    JsonValue::Null
                }
            },
            _ => JsonValue::Null,
        }
    }

    /// `Value::as_i64`.
    pub fn as_i64(&self) -> (r: Option<i64>)
        ensures
            r == self@.int_value(),
    {
        match self {
            JsonValue::Number(JsonNumber::PosInt(u)) => if *u <= 9223372036854775807u64 {
                Some(*u as i64)
            } else {
                None
            },
            JsonValue::Number(JsonNumber::NegInt(i)) => Some(*i),
            _ => None,
        }
    }

    /// `Value::as_str`.
    pub fn as_str(&self) -> (r: Option<&String>)
        ensures
            match r {
                Some(s) => self@.str_value() == Some(s@),
                None => self@.str_value() is None,
            },
    {
        match self {
            JsonValue::Str(s) => Some(s),
            _ => None,
        }
    }

    /// `Value::as_bool`.
    pub fn as_bool(&self) -> (r: Option<bool>)
        ensures
            r == self@.bool_value(),
    {
        match self {
            JsonValue::Bool(b) => Some(*b),
            _ => None,
        }
    }

    /// `Value::as_array`.
    pub fn as_array(&self) -> (r: Option<&Vec<JsonValue>>)
        ensures
            match r {
                Some(v) => self@.items() == Some(items_view(v@)),
                None => self@.items() is None,
            },
    {
        match self {
            JsonValue::Array(items) => Some(items),
            _ => None,
        }
    }

    /// `Value::is_string`.
    pub fn is_string(&self) -> (r: bool)
        ensures
            r == self@ is Str,
    {
        match self {
            JsonValue::Str(_) => true,
            _ => false,
        }
    }

    /// The compact JSON text of the value (`Value::to_string`).
    pub fn to_json_text(&self) -> (r: String)
        ensures
            r@ == json_text(self@),
        decreases self,
    {
        match self {
            JsonValue::Null => {
                let mut s = String::new();
                s.append("null");
                proof { reveal_strlit("null"); }
                s
            },
            JsonValue::Bool(b) => {
                let mut s = String::new();
                if *b {
                    s.append("true");
                    proof { reveal_strlit("true"); }
                } else {
                    s.append("false");
                    proof { reveal_strlit("false"); }
                }
                s
            },
            JsonValue::Number(n) => match n {
                JsonNumber::PosInt(u) => format_u64(*u),
                JsonNumber::NegInt(i) => format_i64(*i),
                JsonNumber::Float { bits, text } => text.clone(),
            },
            JsonValue::Str(s) => quote_json_string(s.as_str()),
            JsonValue::Array(items) => {
                let mut s = String::new();
                push_char(&mut s, '[');
                proof { lemma_items_view(items@); }
                let mut i: usize = 0;
                while i < items.len()
                    invariant
                        i <= items.len(),
                        *self == JsonValue::Array(*items),
                        items_view(items@).len() == items@.len(),
                        forall|j: int| 0 <= j < items@.len() ==> #[trigger] items_view(items@)[j] == json_view(items@[j]),
                        s@ == seq!['['] + items_text(items_view(items@).take(i as int)),
                    decreases items.len() - i,
                {
                    proof {
                        assert(decreases_to!(*self => self->Array_0));
                        assert(decreases_to!(*items => items@));
                        assert(decreases_to!(items@ => items@[i as int]));
                    }
                    let t = items[i].to_json_text();
                    proof {
                        let p = items_view(items@).take(i + 1);
                        assert(p.drop_last() =~= items_view(items@).take(i as int));
                        assert(p.last() == json_view(items@[i as int]));
                        if i == 0 {
                            assert(p.len() == 1);
                            assert(items_text(items_view(items@).take(0)) =~= Seq::<char>::empty());
                        }
                    }
                    if i > 0 {
                        push_char(&mut s, ',');
                    }
                    s.append(t.as_str());
                    i += 1;
                    assert(s@ =~= seq!['['] + items_text(items_view(items@).take(i as int)));
                }
                push_char(&mut s, ']');
                assert(items_view(items@).take(items.len() as int) =~= items_view(items@));
                s
            },
            JsonValue::Object(entries) => {
                let mut s = String::new();
                push_char(&mut s, '{');
                proof { lemma_entries_view(entries@); }
                let mut i: usize = 0;
                while i < entries.len()
                    invariant
                        i <= entries.len(),
                        *self == JsonValue::Object(*entries),
                        entries_view(entries@).len() == entries@.len(),
                        forall|j: int| 0 <= j < entries@.len() ==> #[trigger] entries_view(entries@)[j] == (entries@[j].0@, json_view(entries@[j].1)),
                        s@ == seq!['{'] + entries_text(entries_view(entries@).take(i as int)),
                    decreases entries.len() - i,
                {
                    proof {
                        assert(decreases_to!(*self => self->Object_0));
                        assert(decreases_to!(*entries => entries@));
                        assert(decreases_to!(entries@ => entries@[i as int]));
                        assert(decreases_to!(entries@[i as int] => entries@[i as int].1));
                    }
                    let k = quote_json_string(entries[i].0.as_str());
                    let t = entries[i].1.to_json_text();
                    proof {
                        let p = entries_view(entries@).take(i + 1);
                        assert(p.drop_last() =~= entries_view(entries@).take(i as int));
                        assert(p.last() == (entries@[i as int].0@, json_view(entries@[i as int].1)));
                        if i == 0 {
                            assert(p.len() == 1);
                            assert(entries_text(entries_view(entries@).take(0)) =~= Seq::<char>::empty());
                        }
                    }
                    if i > 0 {
                        push_char(&mut s, ',');
                    }
                    s.append(k.as_str());
                    push_char(&mut s, ':');
                    s.append(t.as_str());
                    i += 1;
                    assert(s@ =~= seq!['{'] + entries_text(entries_view(entries@).take(i as int)));
                }
                push_char(&mut s, '}');
                assert(entries_view(entries@).take(entries.len() as int) =~= entries_view(entries@));
                s
            },
        }
    }
}

/// The JSON number for a signed integer (`Value::from(i64)`).
pub open spec fn int_json(i: i64) -> JsonData {
    if i < 0 {
        JsonData::Number(NumberData::NegInt(i))
    } else {
        JsonData::Number(NumberData::PosInt(i as u64))
    }
}

/// The JSON number for an unsigned integer.
pub open spec fn uint_json(u: u64) -> JsonData {
    JsonData::Number(NumberData::PosInt(u))
}

/// A JSON array of strings.
pub open spec fn strings_json(s: Seq<Seq<char>>) -> JsonData {
    JsonData::Array(s.map_values(|x: Seq<char>| JsonData::Str(x)))
}

/// The views of a list of strings.
pub open spec fn texts(v: Seq<String>) -> Seq<Seq<char>> {
    v.map_values(|s: String| s@)
}

/// A JSON object with the given entries, in order.
pub open spec fn object_json(entries: Seq<(Seq<char>, JsonData)>) -> JsonData {
    JsonData::Object(entries)
}

pub fn int_value(i: i64) -> (r: JsonValue)
    ensures
        r@ == int_json(i),
{
    if i < 0 {
        JsonValue::Number(JsonNumber::NegInt(i))
    } else {
        JsonValue::Number(JsonNumber::PosInt(i as u64))
    }
}

pub fn uint_value(u: u64) -> (r: JsonValue)
    ensures
        r@ == uint_json(u),
{
    JsonValue::Number(JsonNumber::PosInt(u))
}

pub fn text_value(s: &str) -> (r: JsonValue)
    ensures
        r@ == JsonData::Str(s@),
{
    JsonValue::Str(String::from_str(s))
}

pub fn strings_value(v: &Vec<String>) -> (r: JsonValue)
    ensures
        r@ == strings_json(texts(v@)),
{
    let mut items: Vec<JsonValue> = Vec::new();
    let mut i: usize = 0;
    while i < v.len()
        invariant
            i <= v@.len(),
            items_view(items@) == texts(v@.take(i as int)).map_values(|x: Seq<char>| JsonData::Str(x)),
        decreases v@.len() - i,
    {
        let ghost before = items@;
        let item = JsonValue::Str(v[i].clone());
        items.push(item);
        i += 1;
        proof {
            assert(items@.drop_last() =~= before);
            assert(items@.last() == item);
            assert(items_view(items@) == items_view(before).push(item@));
            assert(texts(v@.take(i as int)).map_values(|x: Seq<char>| JsonData::Str(x)) =~= texts(
                v@.take(i - 1),
            ).map_values(|x: Seq<char>| JsonData::Str(x)).push(JsonData::Str(v@[i - 1]@)));
        }
    }
    assert(v@.take(v@.len() as int) =~= v@);
    JsonValue::Array(items)
}

/// The views of object entries.
pub open spec fn pairs_view(entries: Seq<(String, JsonValue)>) -> Seq<(Seq<char>, JsonData)> {
    Seq::new(entries.len(), |i: int| (entries[i].0@, entries[i].1@))
}

pub fn object_value(entries: Vec<(String, JsonValue)>) -> (r: JsonValue)
    ensures
        r@ == object_json(pairs_view(entries@)),
{
    proof {
        lemma_entries_view(entries@);
        assert(entries_view(entries@) =~= pairs_view(entries@));
    }
    JsonValue::Object(entries)
}

} // verus!
