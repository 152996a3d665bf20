//! A plain model of JSON documents, with serde_json doing the parsing and
//! the printing.
use vstd::prelude::*;
use vstd::utf8::valid_utf8;

use crate::text::{decimal_string, decimal_text, str_eq};

verus! {

#[verifier::external_type_specification]
#[verifier::external_body]
pub struct ExSerdeJsonValue(serde_json::Value);

/// A JSON number: its printed form and, when it is a non-negative integer
/// that fits, its value as a `u64`.
#[derive(Debug)]
pub struct JsonNumber {
    pub text: String,
    pub unsigned: Option<u64>,
}

/// A JSON document. Objects keep their members in order.
#[derive(Debug)]
pub enum Json {
    Null,
    Bool(bool),
    Number(JsonNumber),
    Str(String),
    Array(Vec<Json>),
    Object(Vec<(String, Json)>),
}

/// The document that serde_json parses from `bytes`, when they are valid JSON.
pub uninterp spec fn json_parse(bytes: Seq<u8>) -> Option<JsonV>;

/// The compact text that serde_json prints for `value`.
pub uninterp spec fn json_text(value: JsonV) -> Seq<u8>;

/// Converts a serde_json document into the model, member for member.
#[verifier::external_body]
fn json_from_serde(value: serde_json::Value) -> Json {
    match value {
        serde_json::Value::Null => Json::Null,
        serde_json::Value::Bool(b) => Json::Bool(b),
        serde_json::Value::Number(n) => Json::Number(
            JsonNumber { text: n.to_string(), unsigned: n.as_u64() },
        ),
        serde_json::Value::String(s) => Json::Str(s),
        serde_json::Value::Array(items) => Json::Array(items.into_iter().map(json_from_serde).collect()),
        serde_json::Value::Object(members) => Json::Object(
            members.into_iter().map(|(k, v)| (k, json_from_serde(v))).collect(),
        ),
    }
}

/// Converts a model document back into serde_json, member for member.
#[verifier::external_body]
fn json_to_serde(value: &Json) -> serde_json::Value {
    match value {
        Json::Null => serde_json::Value::Null,
        Json::Bool(b) => serde_json::Value::Bool(*b),
        Json::Number(n) => match n.unsigned {
            Some(u) => serde_json::Value::Number(u.into()),
            None => n.text.parse::<serde_json::Number>().map(serde_json::Value::Number).unwrap_or(serde_json::Value::Null),
        },
        Json::Str(s) => serde_json::Value::String(s.clone()),
        Json::Array(items) => serde_json::Value::Array(items.iter().map(json_to_serde).collect()),
        Json::Object(members) => serde_json::Value::Object(
            members.iter().map(|(k, v)| (k.clone(), json_to_serde(v))).collect(),
        ),
    }
}

/// `serde_json::from_slice::<serde_json::Value>`: parses `bytes` as JSON. The
/// contract claims that the outcome depends on the bytes alone and that
/// every object's keys are distinct and in increasing order, as serde_json
/// (without its `preserve_order` feature) keeps an object's members in a
/// map ordered by key; the error text is serde_json's explanation and is
/// not stated.
#[verifier::external_body]
pub fn parse_json(bytes: &[u8]) -> (r: Result<Json, String>)
    ensures
        r is Ok <==> json_parse(bytes@) is Some,
        r matches Ok(v) ==> json_parse(bytes@) == Some(jv(v)),
        r matches Ok(v) ==> object_keys_distinct(jv(v)),
        r matches Ok(v) ==> forall|depth: nat| #[trigger] sorted_upto(jv(v), depth),
{
    match serde_json::from_slice::<serde_json::Value>(bytes) {
        Ok(v) => Ok(json_from_serde(v)),
        Err(e) => Err(e.to_string()),
    }
}

/// `serde_json::to_string` on the document, as bytes: its compact JSON
/// text, which is UTF-8. The contract claims that the text depends on the
/// document's value alone. serde_json's source serializes a `Value` without
/// any failure path (its keys are strings and its writer cannot fail), so
/// the error arm is not taken. It also claims that `serde_json::from_slice`
/// reads the text back to the same document when the document's numbers
/// are integers as serde_json prints them (a `u64` in plain decimal, read
/// back as a `u64`; a negative `i64` as `-` and its magnitude, read back
/// as an `i64`), its objects' keys are in increasing order (the order of
/// serde_json's map, so nothing is reordered) and it nests at most
/// `ROUND_TRIP_DEPTH` containers deep (the parser's recursion limit refuses
/// the 128th). Strings are escaped on printing and read back as they were.
/// Fractions and exponents are left out: without serde_json's
/// `float_roundtrip` feature its float parsing is best-effort. (A number
/// whose text serde_json cannot read, which no parsed document holds, is
/// printed as `null` by the conversion.)
#[verifier::external_body]
pub fn print_json(value: &Json) -> (r: Vec<u8>)
    ensures
        r@ == json_text(jv(*value)),
        valid_utf8(r@),
        round_trips(jv(*value)) ==> json_parse(r@) == Some(jv(*value)),
{
    match serde_json::to_string(&json_to_serde(value)) {
        Ok(text) => text.into_bytes(),
        Err(_) => Vec::new(),
    }
}

/// The value of the first member named `key`.
pub open spec fn member(members: Seq<(String, Json)>, key: Seq<char>) -> Option<Json>
    decreases members.len(),
{
    if members.len() == 0 {
        None
    } else if members[0].0@ == key {
        Some(members[0].1)
    } else {
        member(members.drop_first(), key)
    }
}

/// Position of the first member named `key`.
pub open spec fn member_pos(members: Seq<(String, Json)>, key: Seq<char>) -> Option<int>
    decreases members.len(),
{
    if members.len() == 0 {
        None
    } else if members[0].0@ == key {
        Some(0)
    } else {
        match member_pos(members.drop_first(), key) {
            Some(i) => Some(i + 1),
            None => None,
        }
    }
}

pub proof fn lemma_member_pos(members: Seq<(String, Json)>, key: Seq<char>)
    ensures
        match member_pos(members, key) {
            Some(i) => 0 <= i < members.len() && members[i].0@ == key && member(members, key) == Some(
                members[i].1,
            ),
            None => member(members, key) is None,
        },
    decreases members.len(),
{
    if members.len() > 0 && members[0].0@ != key {
        lemma_member_pos(members.drop_first(), key);
    }
}

/// The value of member `key` when `value` is an object.
pub open spec fn spec_get(value: Json, key: Seq<char>) -> Option<Json> {
    match value {
        Json::Object(members) => member(members@, key),
        _ => None,
    }
}

proof fn lemma_member_skip(members: Seq<(String, Json)>, key: Seq<char>, i: int)
    requires
        0 <= i < members.len(),
        members[i].0@ != key,
    ensures
        member(members.skip(i), key) == member(members.skip(i + 1), key),
{
    assert(members.skip(i).drop_first() =~= members.skip(i + 1));
}

/// Position of the first member named `key`.
pub fn member_index(members: &Vec<(String, Json)>, key: &str) -> (r: Option<usize>)
    ensures
        r matches Some(i) ==> i < members@.len() && members@[i as int].0@ == key@ && member(
            members@,
            key@,
        ) == Some(members@[i as int].1) && forall|j: int| 0 <= j < i ==> members@[j].0@ != key@,
        r is None ==> member(members@, key@) is None,
{
    let mut i: usize = 0;
    proof {
        assert(members@.skip(0) =~= members@);
    }
    while i < members.len()
        invariant
            0 <= i <= members@.len(),
            member(members@, key@) == member(members@.skip(i as int), key@),
            forall|j: int| 0 <= j < i ==> members@[j].0@ != key@,
        decreases members.len() - i,
    {
        if str_eq(members[i].0.as_str(), key) {
            proof {
                assert(members@.skip(i as int)[0] == members@[i as int]);
            }
            return Some(i);
        }
        proof {
            lemma_member_skip(members@, key@, i as int);
        }
        i = i + 1;
    }
    proof {
        assert(members@.skip(i as int).len() == 0);
    }
    None
}

impl Json {
    /// Member `key` of an object; `None` for other documents.
    pub fn get(&self, key: &str) -> (r: Option<&Json>)
        ensures
            r matches Some(v) ==> spec_get(*self, key@) == Some(*v),
            r is None ==> spec_get(*self, key@) is None,
    {
        match self {
            Json::Object(members) => match member_index(members, key) {
                Some(i) => Some(&members[i].1),
                None => None,
            },
            _ => None,
        }
    }

    pub fn as_bool(&self) -> (r: Option<bool>)
        ensures
            r == (match *self {
                Json::Bool(b) => Some(b),
                _ => None,
            }),
    {
        match self {
            Json::Bool(b) => Some(*b),
            _ => None,
        }
    }

    pub fn as_str(&self) -> (r: Option<&String>)
        ensures
            r matches Some(s) ==> *self == Json::Str(*s),
            r is None ==> !(*self is Str),
    {
        match self {
            Json::Str(s) => Some(s),
            _ => None,
        }
    }

    /// The value of a non-negative integer that fits in a `u64`.
    pub fn as_u64(&self) -> (r: Option<u64>)
        ensures
            r == spec_as_u64(*self),
    {
        match self {
            Json::Number(n) => n.unsigned,
            _ => None,
        }
    }

    pub fn as_object(&self) -> (r: Option<&Vec<(String, Json)>>)
        ensures
            r matches Some(m) ==> *self == Json::Object(*m),
            r is None ==> !(*self is Object),
    {
        match self {
            Json::Object(m) => Some(m),
            _ => None,
        }
    }
}

pub open spec fn spec_as_u64(value: Json) -> Option<u64> {
    match value {
        Json::Number(n) => n.unsigned,
        _ => None,
    }
}

/// The members' keys are in strictly increasing order.
pub open spec fn keys_sorted(members: Seq<(Seq<char>, JsonV)>) -> bool {
    forall|i: int, j: int|
        0 <= i < j < members.len() ==> text_lt(#[trigger] members[i].0, #[trigger] members[j].0)
}

/// Every object within `depth` levels of `value` has its keys in strictly
/// increasing order.
pub open spec fn sorted_upto(value: JsonV, depth: nat) -> bool
    decreases depth,
{
    if depth == 0 {
        true
    } else {
        match value {
            JsonV::Array(items) => forall|i: int|
                0 <= i < items.len() ==> sorted_upto(#[trigger] items[i], (depth - 1) as nat),
            JsonV::Object(members) => keys_sorted(members) && forall|i: int|
                0 <= i < members.len() ==> sorted_upto(#[trigger] members[i].1, (depth - 1) as nat),
            _ => true,
        }
    }
}

/// An integer as serde_json prints it: a `u64` in plain decimal, or a
/// negative `i64` as `-` and its magnitude in plain decimal.
pub open spec fn plain_integer(text: Seq<char>, unsigned: Option<u64>) -> bool {
    match unsigned {
        Some(n) => text == decimal_text(n as nat),
        None => exists|k: nat| 1 <= k <= 0x8000_0000_0000_0000 && text == "-"@ + decimal_text(k),
    }
}

/// `value` nests at most `depth` containers deep and has no number but an
/// integer as serde_json prints it (see `plain_integer`).
pub open spec fn plain_upto(value: JsonV, depth: nat) -> bool
    decreases depth,
{
    match value {
        JsonV::Number(text, unsigned) => plain_integer(text, unsigned),
        JsonV::Array(items) => depth > 0 && forall|i: int|
            0 <= i < items.len() ==> plain_upto(#[trigger] items[i], (depth - 1) as nat),
        JsonV::Object(members) => depth > 0 && forall|i: int|
            0 <= i < members.len() ==> plain_upto(#[trigger] members[i].1, (depth - 1) as nat),
        _ => true,
    }
}

/// How deeply a document may nest for its text to be read back: serde_json's
/// parser refuses the 128th nested container.
pub const ROUND_TRIP_DEPTH: u64 = 127;

/// `value` nests at most `depth` containers deep, has no number but a `u64`
/// in plain decimal, and keeps every object's keys in order.
pub open spec fn json_within(value: JsonV, depth: nat) -> bool {
    plain_upto(value, depth) && sorted_upto(value, depth)
}

/// The document's text reads back to it (see `print_json`).
pub open spec fn round_trips(value: JsonV) -> bool {
    json_within(value, ROUND_TRIP_DEPTH as nat)
}

/// A document within some depth is within every greater depth.
pub proof fn lemma_within_mono(value: JsonV, d: nat, e: nat)
    requires
        json_within(value, d),
        d <= e,
    ensures
        json_within(value, e),
    decreases d,
{
    match value {
        JsonV::Array(items) => {
            assert forall|i: int| 0 <= i < items.len() implies json_within(
                #[trigger] items[i],
                (e - 1) as nat,
            ) by {
                assert(plain_upto(items[i], (d - 1) as nat));
                assert(sorted_upto(items[i], (d - 1) as nat));
                lemma_within_mono(items[i], (d - 1) as nat, (e - 1) as nat);
            }
        },
        JsonV::Object(members) => {
            assert forall|i: int| 0 <= i < members.len() implies json_within(
                #[trigger] members[i].1,
                (e - 1) as nat,
            ) by {
                assert(plain_upto(members[i].1, (d - 1) as nat));
                assert(sorted_upto(members[i].1, (d - 1) as nat));
                lemma_within_mono(members[i].1, (d - 1) as nat, (e - 1) as nat);
            }
        },
        _ => {},
    }
}

/// An object is within `depth + 1` exactly when its keys are in order and
/// every value is within `depth`.
pub proof fn lemma_object_within(members: Seq<(Seq<char>, JsonV)>, depth: nat)
    ensures
        json_within(JsonV::Object(members), depth + 1) <==> keys_sorted(members) && values_all(
            members,
            |v: JsonV| json_within(v, depth),
        ),
{
    let f = |v: JsonV| json_within(v, depth);
    if keys_sorted(members) && values_all(members, f) {
        assert forall|i: int| 0 <= i < members.len() implies plain_upto(
            #[trigger] members[i].1,
            depth,
        ) by {
            assert(f(members[i].1));
        }
        assert forall|i: int| 0 <= i < members.len() implies sorted_upto(
            #[trigger] members[i].1,
            depth,
        ) by {
            assert(f(members[i].1));
        }
    }
    if json_within(JsonV::Object(members), depth + 1) {
        assert forall|i: int| 0 <= i < members.len() implies f(#[trigger] members[i].1) by {
            assert(plain_upto(members[i].1, depth));
            assert(sorted_upto(members[i].1, depth));
        }
    }
}

/// No two members of the object are named alike.
pub open spec fn keys_distinct(members: Seq<(Seq<char>, JsonV)>) -> bool {
    forall|i: int, j: int| 0 <= i < j < members.len() ==> #[trigger] members[i].0 != #[trigger] members[j].0
}

/// An object's members are named distinctly; other documents qualify as they are.
pub open spec fn object_keys_distinct(value: JsonV) -> bool {
    match value {
        JsonV::Object(members) => keys_distinct(members),
        _ => true,
    }
}

/// A JSON document as a mathematical value: texts as character sequences.
pub enum JsonV {
    Null,
    Bool(bool),
    Number(Seq<char>, Option<u64>),
    Str(Seq<char>),
    Array(Seq<JsonV>),
    Object(Seq<(Seq<char>, JsonV)>),
}

/// The mathematical value of a document.
pub open spec fn jv(value: Json) -> JsonV
    decreases value,
{
    match value {
        Json::Null => JsonV::Null,
        Json::Bool(b) => JsonV::Bool(b),
        Json::Number(n) => JsonV::Number(n.text@, n.unsigned),
        Json::Str(s) => JsonV::Str(s@),
        Json::Array(items) => JsonV::Array(items_v(items@)),
        Json::Object(members) => JsonV::Object(members_v(members@)),
    }
}

pub open spec fn items_v(items: Seq<Json>) -> Seq<JsonV>
    decreases items,
{
    if items.len() == 0 {
        Seq::empty()
    } else {
        seq![jv(items[0])] + items_v(items.drop_first())
    }
}

pub open spec fn members_v(members: Seq<(String, Json)>) -> Seq<(Seq<char>, JsonV)>
    decreases members,
{
    if members.len() == 0 {
        Seq::empty()
    } else {
        seq![(members[0].0@, jv(members[0].1))] + members_v(members.drop_first())
    }
}

pub proof fn lemma_members_v_index(members: Seq<(String, Json)>)
    ensures
        members_v(members).len() == members.len(),
        forall|i: int|
            0 <= i < members.len() ==> #[trigger] members_v(members)[i] == (
                members[i].0@,
                jv(members[i].1),
            ),
    decreases members.len(),
{
    if members.len() > 0 {
        lemma_members_v_index(members.drop_first());
        assert forall|i: int| 0 <= i < members.len() implies #[trigger] members_v(members)[i] == (
            members[i].0@,
            jv(members[i].1),
        ) by {
            if i > 0 {
                assert(members_v(members)[i] == members_v(members.drop_first())[i - 1]);
            }
        }
    }
}

pub proof fn lemma_items_v_index(items: Seq<Json>)
    ensures
        items_v(items).len() == items.len(),
        forall|i: int| 0 <= i < items.len() ==> #[trigger] items_v(items)[i] == jv(items[i]),
    decreases items.len(),
{
    if items.len() > 0 {
        lemma_items_v_index(items.drop_first());
        assert forall|i: int| 0 <= i < items.len() implies #[trigger] items_v(items)[i] == jv(
            items[i],
        ) by {
            if i > 0 {
                assert(items_v(items)[i] == items_v(items.drop_first())[i - 1]);
            }
        }
    }
}

/// Position of the first member named `key`.
pub open spec fn member_pos_v(members: Seq<(Seq<char>, JsonV)>, key: Seq<char>) -> Option<int>
    decreases members.len(),
{
    if members.len() == 0 {
        None
    } else if members[0].0 == key {
        Some(0)
    } else {
        match member_pos_v(members.drop_first(), key) {
            Some(i) => Some(i + 1),
            None => None,
        }
    }
}

pub proof fn lemma_member_pos_v(members: Seq<(Seq<char>, JsonV)>, key: Seq<char>)
    ensures
        match member_pos_v(members, key) {
            Some(i) => 0 <= i < members.len() && members[i].0 == key && forall|j: int|
                0 <= j < i ==> members[j].0 != key,
            None => forall|j: int| 0 <= j < members.len() ==> members[j].0 != key,
        },
    decreases members.len(),
{
    if members.len() > 0 && members[0].0 != key {
        lemma_member_pos_v(members.drop_first(), key);
        match member_pos_v(members.drop_first(), key) {
            Some(i) => {
                assert forall|j: int| 0 <= j < i + 1 implies members[j].0 != key by {
                    if j > 0 {
                        assert(members[j] == members.drop_first()[j - 1]);
                    }
                }
            },
            None => {
                assert forall|j: int| 0 <= j < members.len() implies members[j].0 != key by {
                    if j > 0 {
                        assert(members[j] == members.drop_first()[j - 1]);
                    }
                }
            },
        }
    }
}

/// The first-member position of a key is the same for a member list and its view.
pub proof fn lemma_member_pos_view(members: Seq<(String, Json)>, key: Seq<char>)
    ensures
        member_pos(members, key) == member_pos_v(members_v(members), key),
    decreases members.len(),
{
    if members.len() > 0 {
        lemma_member_pos_view(members.drop_first(), key);
        assert(members_v(members).drop_first() =~= members_v(members.drop_first()));
    }
}

/// `a` comes before `b` in the order of Rust strings: character by
/// character, a proper prefix first.
pub open spec fn text_lt(a: Seq<char>, b: Seq<char>) -> bool
    decreases a.len(),
{
    if b.len() == 0 {
        false
    } else if a.len() == 0 {
        true
    } else if a[0] != b[0] {
        (a[0] as int) < (b[0] as int)
    } else {
        text_lt(a.drop_first(), b.drop_first())
    }
}

/// Whether `a` comes before `b` (see `text_lt`).
pub fn text_less(a: &str, b: &str) -> (r: bool)
    ensures
        r == text_lt(a@, b@),
{
    let x = crate::text::chars_of(a);
    let y = crate::text::chars_of(b);
    let mut i: usize = 0;
    proof {
        assert(a@.skip(0) =~= a@);
        assert(b@.skip(0) =~= b@);
    }
    while i < x.len() && i < y.len()
        invariant
            x@ == a@,
            y@ == b@,
            0 <= i <= x@.len(),
            i <= y@.len(),
            text_lt(a@, b@) == text_lt(a@.skip(i as int), b@.skip(i as int)),
        decreases x.len() - i,
    {
        if x[i] != y[i] {
            proof {
                assert(a@.skip(i as int)[0] == x@[i as int]);
                assert(b@.skip(i as int)[0] == y@[i as int]);
            }
            return x[i] < y[i];
        }
        proof {
            assert(a@.skip(i as int)[0] == b@.skip(i as int)[0]);
            assert(a@.skip(i as int).drop_first() =~= a@.skip(i + 1));
            assert(b@.skip(i as int).drop_first() =~= b@.skip(i + 1));
        }
        i = i + 1;
    }
    i < y.len()
}

/// Where a new member named `key` goes so that the members stay in key
/// order: before the first member whose key comes after it.
pub open spec fn sorted_pos(members: Seq<(Seq<char>, JsonV)>, key: Seq<char>) -> int
    decreases members.len(),
{
    if members.len() == 0 {
        0
    } else if text_lt(key, members[0].0) {
        0
    } else {
        1 + sorted_pos(members.drop_first(), key)
    }
}

pub proof fn lemma_sorted_pos_bounds(members: Seq<(Seq<char>, JsonV)>, key: Seq<char>)
    ensures
        0 <= sorted_pos(members, key) <= members.len(),
    decreases members.len(),
{
    if members.len() > 0 {
        lemma_sorted_pos_bounds(members.drop_first(), key);
    }
}

/// `members` with member `key` set to `value`: replaced in place when it is
/// there, otherwise inserted where its key keeps the members in order, as
/// serde_json's map (ordered by key) does.
pub open spec fn insert_v(members: Seq<(Seq<char>, JsonV)>, key: Seq<char>, value: JsonV) -> Seq<
    (Seq<char>, JsonV),
> {
    match member_pos_v(members, key) {
        Some(i) => members.update(i, (key, value)),
        None => members.insert(sorted_pos(members, key), (key, value)),
    }
}

/// The position at which a new member named `key` goes (see `sorted_pos`).
fn member_insert_pos(members: &Vec<(String, Json)>, key: &str) -> (r: usize)
    ensures
        r == sorted_pos(members_v(members@), key@),
{
    let ghost mv = members_v(members@);
    proof {
        lemma_members_v_index(members@);
        assert(mv.skip(0) =~= mv);
    }
    let mut i: usize = 0;
    while i < members.len()
        invariant
            mv == members_v(members@),
            mv.len() == members@.len(),
            forall|j: int| 0 <= j < members@.len() ==> #[trigger] mv[j] == (members@[j].0@, jv(members@[j].1)),
            0 <= i <= members@.len(),
            sorted_pos(mv, key@) == i + sorted_pos(mv.skip(i as int), key@),
        decreases members.len() - i,
    {
        proof {
            assert(mv.skip(i as int)[0] == mv[i as int]);
            assert(mv.skip(i as int).drop_first() =~= mv.skip(i + 1));
        }
        if text_less(key, members[i].0.as_str()) {
            return i;
        }
        i = i + 1;
    }
    proof {
        assert(mv.skip(i as int).len() == 0);
    }
    i
}

/// Sets member `key` of an object's member list to `value`.
pub fn insert_member(members: &mut Vec<(String, Json)>, key: &str, value: Json)
    ensures
        members_v(final(members)@) == insert_v(members_v(old(members)@), key@, jv(value)),
{
    proof {
        lemma_member_pos(old(members)@, key@);
        lemma_member_pos_view(old(members)@, key@);
        lemma_members_v_index(old(members)@);
    }
    match member_index(members, key) {
        Some(i) => {
            proof {
                lemma_member_pos_v(members_v(old(members)@), key@);
            }
            let ghost prev = members@;
            members.set(i, (String::from_str(key), value));
            proof {
                lemma_members_v_index(members@);
                let p = member_pos_v(members_v(prev), key@)->0;
                assert(p == i as int) by {
                    if p < i {
                        assert(members_v(prev)[p].0 == key@);
                        assert(members_v(prev)[p] == (prev[p].0@, jv(prev[p].1)));
                    } else if p > i {
                        assert(members_v(prev)[i as int] == (prev[i as int].0@, jv(prev[i as int].1)));
                    }
                }
                assert(members_v(members@) =~= insert_v(members_v(prev), key@, jv(value)));
            }
        },
        None => {
            let ghost prev = members@;
            let pos = member_insert_pos(members, key);
            proof {
                lemma_sorted_pos_bounds(members_v(prev), key@);
            }
            members.insert(pos, (String::from_str(key), value));
            proof {
                lemma_member_pos_v(members_v(prev), key@);
                lemma_members_v_index(members@);
                assert(member_pos_v(members_v(prev), key@) is None) by {
                    if member_pos_v(members_v(prev), key@) is Some {
                        let p = member_pos_v(members_v(prev), key@)->0;
                        assert(members_v(prev)[p].0 == key@);
                    }
                }
                assert(members_v(members@) =~= insert_v(members_v(prev), key@, jv(value)));
            }
        },
    }
}

/// Inserting a member whose key the list lacks, at any position: looking
/// that key up gives the new value, and other keys keep theirs.
pub proof fn lemma_get_inserted(
    members: Seq<(Seq<char>, JsonV)>,
    p: int,
    key: Seq<char>,
    value: JsonV,
    other: Seq<char>,
)
    requires
        member_pos_v(members, key) is None,
        0 <= p <= members.len(),
    ensures
        spec_get_v(JsonV::Object(members.insert(p, (key, value))), other) == if other == key {
            Some(value)
        } else {
            spec_get_v(JsonV::Object(members), other)
        },
{
    let inserted = members.insert(p, (key, value));
    lemma_member_pos_v(members, key);
    lemma_member_pos_v(members, other);
    lemma_member_pos_v(inserted, other);
    assert(forall|j: int| 0 <= j < p ==> #[trigger] inserted[j] == members[j]);
    assert(forall|j: int| p < j <= members.len() ==> #[trigger] inserted[j] == members[j - 1]);
    assert(inserted[p] == (key, value));
    if other == key {
        match member_pos_v(inserted, other) {
            Some(q) => {
                if q < p {
                    assert(members[q].0 == key);
                } else if q > p {
                    assert(inserted[p].0 == key);
                }
            },
            None => {
                assert(inserted[p].0 == key);
            },
        }
    } else {
        match member_pos_v(members, other) {
            Some(m) => {
                let mi = if m < p { m } else { m + 1 };
                assert(inserted[mi] == members[m]);
                match member_pos_v(inserted, other) {
                    Some(q) => {
                        if q < mi {
                            if q < p {
                                assert(members[q].0 == other);
                            } else if q > p {
                                assert(members[q - 1].0 == other);
                            }
                        } else if q > mi {
                            assert(inserted[mi].0 == other);
                        }
                    },
                    None => {
                        assert(inserted[mi].0 == other);
                    },
                }
            },
            None => {
                match member_pos_v(inserted, other) {
                    Some(q) => {
                        if q < p {
                            assert(members[q].0 == other);
                        } else if q > p {
                            assert(members[q - 1].0 == other);
                        }
                    },
                    None => {},
                }
            },
        }
    }
}

proof fn lemma_text_lt_irreflexive(a: Seq<char>)
    ensures
        !text_lt(a, a),
    decreases a.len(),
{
    if a.len() > 0 {
        lemma_text_lt_irreflexive(a.drop_first());
    }
}

proof fn lemma_text_lt_total(a: Seq<char>, b: Seq<char>)
    requires
        a != b,
    ensures
        text_lt(a, b) || text_lt(b, a),
    decreases a.len(),
{
    if a.len() > 0 && b.len() > 0 {
        if a[0] == b[0] {
            if a.drop_first() == b.drop_first() {
                assert(a.len() == b.len()) by {
                    assert(a.drop_first().len() == b.drop_first().len());
                }
                assert(a =~= b) by {
                    assert forall|i: int| 0 <= i < a.len() implies a[i] == b[i] by {
                        if i > 0 {
                            assert(a[i] == a.drop_first()[i - 1]);
                            assert(b[i] == b.drop_first()[i - 1]);
                        }
                    }
                }
            }
            lemma_text_lt_total(a.drop_first(), b.drop_first());
        } else {
            assert((a[0] as int) != (b[0] as int));
        }
    } else if a.len() == 0 && b.len() == 0 {
        assert(a =~= b);
    }
}

proof fn lemma_text_lt_transitive(a: Seq<char>, b: Seq<char>, c: Seq<char>)
    requires
        text_lt(a, b),
        text_lt(b, c),
    ensures
        text_lt(a, c),
    decreases a.len(),
{
    if a.len() > 0 && b.len() > 0 && c.len() > 0 && a[0] == b[0] && b[0] == c[0] {
        lemma_text_lt_transitive(a.drop_first(), b.drop_first(), c.drop_first());
    }
}

/// Before `sorted_pos` every key does not come after `key`; the member at
/// `sorted_pos`, when there is one, comes after it.
pub proof fn lemma_sorted_pos(members: Seq<(Seq<char>, JsonV)>, key: Seq<char>)
    ensures
        0 <= sorted_pos(members, key) <= members.len(),
        forall|j: int| 0 <= j < sorted_pos(members, key) ==> !text_lt(key, #[trigger] members[j].0),
        sorted_pos(members, key) < members.len() ==> text_lt(
            key,
            members[sorted_pos(members, key)].0,
        ),
    decreases members.len(),
{
    if members.len() > 0 && !text_lt(key, members[0].0) {
        let rest = members.drop_first();
        lemma_sorted_pos(rest, key);
        assert forall|j: int| 0 <= j < sorted_pos(members, key) implies !text_lt(
            key,
            #[trigger] members[j].0,
        ) by {
            if j > 0 {
                assert(members[j] == rest[j - 1]);
            }
        }
        if sorted_pos(members, key) < members.len() {
            assert(members[sorted_pos(members, key)] == rest[sorted_pos(rest, key)]);
        }
    }
}

/// Every member's value has property `f`.
pub open spec fn values_all(members: Seq<(Seq<char>, JsonV)>, f: spec_fn(JsonV) -> bool) -> bool {
    forall|i: int| 0 <= i < members.len() ==> f(#[trigger] members[i].1)
}

/// Setting a member keeps the keys in order, and keeps a property that
/// every value and the new value have.
pub proof fn lemma_insert_keeps_order(
    members: Seq<(Seq<char>, JsonV)>,
    key: Seq<char>,
    value: JsonV,
    f: spec_fn(JsonV) -> bool,
)
    ensures
        keys_sorted(members) ==> keys_sorted(insert_v(members, key, value)),
        values_all(members, f) && f(value) ==> values_all(insert_v(members, key, value), f),
{
    let ins = insert_v(members, key, value);
    lemma_member_pos_v(members, key);
    match member_pos_v(members, key) {
        Some(p) => {
            assert(forall|j: int| 0 <= j < members.len() ==> #[trigger] ins[j].0 == members[j].0);
            if values_all(members, f) && f(value) {
                assert forall|i: int| 0 <= i < ins.len() implies f(#[trigger] ins[i].1) by {
                    if i != p {
                        assert(ins[i] == members[i]);
                    }
                }
            }
        },
        None => {
            lemma_sorted_pos(members, key);
            let p = sorted_pos(members, key);
            assert(forall|j: int| 0 <= j < p ==> #[trigger] ins[j] == members[j]);
            assert(forall|j: int| p < j <= members.len() ==> #[trigger] ins[j] == members[j - 1]);
            assert(ins[p] == (key, value));
            if keys_sorted(members) {
                assert forall|i: int, j: int| 0 <= i < j < ins.len() implies text_lt(
                    #[trigger] ins[i].0,
                    #[trigger] ins[j].0,
                ) by {
                    if j < p {
                        assert(text_lt(members[i].0, members[j].0));
                    } else if j == p {
                        assert(!text_lt(key, members[i].0));
                        assert(members[i].0 != key);
                        lemma_text_lt_total(members[i].0, key);
                    } else if i == p {
                        if j - 1 > p {
                            assert(text_lt(members[p].0, members[j - 1].0));
                            lemma_text_lt_transitive(key, members[p].0, members[j - 1].0);
                        }
                    } else if i < p {
                        assert(text_lt(members[i].0, members[j - 1].0));
                    } else {
                        assert(text_lt(members[i - 1].0, members[j - 1].0));
                    }
                }
            }
            if values_all(members, f) && f(value) {
                assert forall|i: int| 0 <= i < ins.len() implies f(#[trigger] ins[i].1) by {
                    if i < p {
                        assert(ins[i] == members[i]);
                    } else if i > p {
                        assert(ins[i] == members[i - 1]);
                    }
                }
            }
        },
    }
}

/// Member `key` of an object value; `None` for other values.
pub open spec fn spec_get_v(value: JsonV, key: Seq<char>) -> Option<JsonV> {
    match value {
        JsonV::Object(members) => match member_pos_v(members, key) {
            Some(i) => Some(members[i].1),
            None => None,
        },
        _ => None,
    }
}

/// Looking a member up commutes with taking views.
pub proof fn lemma_get_view(value: Json, key: Seq<char>)
    ensures
        match spec_get(value, key) {
            Some(v) => spec_get_v(jv(value), key) == Some(jv(v)),
            None => spec_get_v(jv(value), key) is None,
        },
{
    if value is Object {
        let ms = value->Object_0;
        lemma_member_pos(ms@, key);
        lemma_member_pos_view(ms@, key);
        lemma_members_v_index(ms@);
    }
}

/// A number document for `n`.
pub fn json_u64(n: u64) -> (r: Json)
    ensures
        jv(r) == JsonV::Number(decimal_text(n as nat), Some(n)),
{
    Json::Number(JsonNumber { text: decimal_string(n), unsigned: Some(n) })
}

/// The position that `member_index` finds is the first-member position of the view.
pub proof fn lemma_first_member_view(members: Seq<(String, Json)>, key: Seq<char>, i: int)
    requires
        0 <= i < members.len(),
        members[i].0@ == key,
        forall|j: int| 0 <= j < i ==> members[j].0@ != key,
    ensures
        member_pos_v(members_v(members), key) == Some(i),
{
    lemma_members_v_index(members);
    lemma_member_pos_v(members_v(members), key);
    match member_pos_v(members_v(members), key) {
        Some(p) => {
            if p < i {
                assert(members_v(members)[p] == (members[p].0@, jv(members[p].1)));
            } else if p > i {
                assert(members_v(members)[i] == (members[i].0@, jv(members[i].1)));
            }
        },
        None => {
            assert(members_v(members)[i] == (members[i].0@, jv(members[i].1)));
        },
    }
}

/// When `member_index` finds nothing, the view has no such member either.
pub proof fn lemma_no_member_view(members: Seq<(String, Json)>, key: Seq<char>)
    requires
        member(members, key) is None,
    ensures
        member_pos_v(members_v(members), key) is None,
{
    lemma_member_pos(members, key);
    lemma_member_pos_view(members, key);
}

/// The two texts that serde_json prints for a float zero.
pub open spec fn zero_float_text(text: Seq<char>) -> bool {
    text == "0.0"@ || text == "-0.0"@
}

/// Two documents are equal as serde_json's `Value`s compare them: numbers
/// by value (serde_json prints each float in one shortest form, but the
/// zero printed `0.0` equals the one printed `-0.0`), arrays item by item,
/// objects member by member in key order, other values as they are.
pub open spec fn json_same(a: JsonV, b: JsonV) -> bool
    decreases a,
{
    match a {
        JsonV::Number(t1, u1) => match b {
            JsonV::Number(t2, u2) => (t1 == t2 && u1 == u2) || (zero_float_text(t1)
                && zero_float_text(t2) && u1 is None && u2 is None),
            _ => false,
        },
        JsonV::Array(xs) => match b {
            JsonV::Array(ys) => xs.len() == ys.len() && forall|i: int|
                0 <= i < xs.len() ==> json_same(#[trigger] xs[i], ys[i]),
            _ => false,
        },
        JsonV::Object(xs) => match b {
            JsonV::Object(ys) => xs.len() == ys.len() && forall|i: int|
                #![trigger xs[i]]
                0 <= i < xs.len() ==> xs[i].0 == ys[i].0 && json_same(xs[i].1, ys[i].1),
            _ => false,
        },
        _ => a == b,
    }
}

/// Every document equals itself.
pub proof fn lemma_json_same_reflexive(a: JsonV)
    ensures
        json_same(a, a),
    decreases a,
{
    match a {
        JsonV::Array(xs) => {
            assert forall|i: int| 0 <= i < xs.len() implies json_same(#[trigger] xs[i], xs[i]) by {
                assert(decreases_to!(a => xs[i]));
                lemma_json_same_reflexive(xs[i]);
            }
            assert(json_same(a, a));
        },
        JsonV::Object(xs) => {
            assert forall|i: int| #![trigger xs[i]] 0 <= i < xs.len() implies xs[i].0 == xs[i].0
                && json_same(xs[i].1, xs[i].1) by {
                assert(decreases_to!(a => xs[i].1));
                lemma_json_same_reflexive(xs[i].1);
            }
            assert(json_same(a, a));
        },
        _ => {},
    }
}

/// Whether a number's text is one that serde_json prints for a float zero.
fn is_zero_float_text(text: &str) -> (r: bool)
    ensures
        r == zero_float_text(text@),
{
    str_eq(text, "0.0") || str_eq(text, "-0.0")
}

/// Whether two documents are equal as serde_json's `Value`s compare them
/// (see `json_same`).
pub fn json_eq(a: &Json, b: &Json) -> (r: bool)
    ensures
        r == json_same(jv(*a), jv(*b)),
    decreases a,
{
    match (a, b) {
        (Json::Null, Json::Null) => true,
        (Json::Bool(x), Json::Bool(y)) => *x == *y,
        (Json::Number(x), Json::Number(y)) => (str_eq(x.text.as_str(), y.text.as_str())
            && x.unsigned == y.unsigned) || (is_zero_float_text(x.text.as_str())
            && is_zero_float_text(y.text.as_str()) && x.unsigned.is_none() && y.unsigned.is_none()),
        (Json::Str(x), Json::Str(y)) => str_eq(x.as_str(), y.as_str()),
        (Json::Array(xs), Json::Array(ys)) => {
            proof {
                lemma_items_v_index(xs@);
                lemma_items_v_index(ys@);
            }
            if xs.len() != ys.len() {
                return false;
            }
            let mut i: usize = 0;
            while i < xs.len()
                invariant
                    *a == Json::Array(*xs),
                    *b == Json::Array(*ys),
                    xs@.len() == ys@.len(),
                    0 <= i <= xs@.len(),
                    forall|j: int| 0 <= j < i ==> json_same(jv(xs@[j]), jv(ys@[j])),
                    items_v(xs@).len() == xs@.len(),
                    items_v(ys@).len() == ys@.len(),
                    forall|j: int| 0 <= j < xs@.len() ==> #[trigger] items_v(xs@)[j] == jv(xs@[j]),
                    forall|j: int| 0 <= j < ys@.len() ==> #[trigger] items_v(ys@)[j] == jv(ys@[j]),
                decreases xs.len() - i,
            {
                proof {
                    assert(decreases_to!(*a => (*a)->Array_0));
                    assert(decreases_to!(*xs => xs@));
                    assert(decreases_to!(xs@ => xs@[i as int]));
                }
                if !json_eq(&xs[i], &ys[i]) {
                    proof {
                        assert(!json_same(items_v(xs@)[i as int], items_v(ys@)[i as int]));
                    }
                    return false;
                }
                i = i + 1;
            }
            proof {
                let (xv, yv) = (items_v(xs@), items_v(ys@));
                assert forall|j: int| 0 <= j < xv.len() implies json_same(#[trigger] xv[j], yv[j]) by {
                    assert(xv[j] == jv(xs@[j]) && yv[j] == jv(ys@[j]));
                }
            }
            true
        },
        (Json::Object(xs), Json::Object(ys)) => {
            proof {
                lemma_members_v_index(xs@);
                lemma_members_v_index(ys@);
            }
            if xs.len() != ys.len() {
                return false;
            }
            let mut i: usize = 0;
            while i < xs.len()
                invariant
                    *a == Json::Object(*xs),
                    *b == Json::Object(*ys),
                    xs@.len() == ys@.len(),
                    0 <= i <= xs@.len(),
                    forall|j: int| 0 <= j < i ==> xs@[j].0@ == ys@[j].0@ && json_same(jv(xs@[j].1), jv(ys@[j].1)),
                    members_v(xs@).len() == xs@.len(),
                    members_v(ys@).len() == ys@.len(),
                    forall|j: int| 0 <= j < xs@.len() ==> #[trigger] members_v(xs@)[j] == (xs@[j].0@, jv(xs@[j].1)),
                    forall|j: int| 0 <= j < ys@.len() ==> #[trigger] members_v(ys@)[j] == (ys@[j].0@, jv(ys@[j].1)),
                decreases xs.len() - i,
            {
                proof {
                    assert(decreases_to!(*a => (*a)->Object_0));
                    assert(decreases_to!(*xs => xs@));
                    assert(decreases_to!(xs@ => xs@[i as int]));
                    assert(decreases_to!(xs@[i as int] => xs@[i as int].1));
                }
                if !str_eq(xs[i].0.as_str(), ys[i].0.as_str()) || !json_eq(&xs[i].1, &ys[i].1) {
                    proof {
                        let (xv, yv) = (members_v(xs@), members_v(ys@));
                        assert(xv[i as int] == (xs@[i as int].0@, jv(xs@[i as int].1)));
                        assert(yv[i as int] == (ys@[i as int].0@, jv(ys@[i as int].1)));
                        assert(!(xv[i as int].0 == yv[i as int].0 && json_same(xv[i as int].1, yv[i as int].1)));
                    }
                    return false;
                }
                i = i + 1;
            }
            proof {
                let (xv, yv) = (members_v(xs@), members_v(ys@));
                assert forall|j: int| #![trigger xv[j]] 0 <= j < xv.len() implies xv[j].0 == yv[j].0
                    && json_same(xv[j].1, yv[j].1) by {
                    assert(xv[j] == (xs@[j].0@, jv(xs@[j].1)) && yv[j] == (ys@[j].0@, jv(ys@[j].1)));
                }
            }
            true
        },
        _ => false,
    }
}

} // verus!
