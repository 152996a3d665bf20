//! Adding the Chinese native-menu strings to the bundled zh-CN locale.
use vstd::prelude::*;

use crate::error::{error_with, explains, install_error, EngineError, Refusal};
use crate::json::{
    json_eq, json_parse, json_same, lemma_json_same_reflexive, keys_distinct, lemma_member_pos_v, member_pos_v, json_text, jv, lemma_first_member_view, lemma_members_v_index,
    lemma_no_member_view, insert_member, insert_v, lemma_get_inserted, lemma_sorted_pos_bounds, sorted_pos,
    keys_sorted, lemma_insert_keeps_order, plain_upto, round_trips, sorted_upto, values_all, ROUND_TRIP_DEPTH, member_index, members_v, parse_json, print_json,
    spec_get_v, Json, JsonV,
};

verus! {

/// Where the bundled zh-CN native-menu locale lives inside the archive.
pub const NATIVE_LOCALE_PATH: &'static str = "native-menu-locales/zh-CN.json";

/// The members of an embedded JSON object named `label`; refused when the
/// text is not JSON or not an object.
pub open spec fn spec_embedded_object(source: Seq<u8>, label: Seq<char>) -> Result<
    Seq<(Seq<char>, JsonV)>,
    Refusal,
> {
    match json_parse(source) {
        None => Err(Refusal::Starting("parse embedded "@ + label + ": "@)),
        Some(JsonV::Object(members)) => Ok(members),
        Some(_) => Err(Refusal::Exactly("embedded "@ + label + " is not a JSON object"@)),
    }
}

/// An installation error whose explanation is `a`, `b`, `c` and `d` in turn.
fn error_with_parts(a: &str, b: &str, c: &str, d: &str) -> (e: EngineError)
    ensures
        e.spec_message() == a@ + b@ + c@ + d@,
        (a@ + b@ + c@).is_prefix_of(e.spec_message()),
{
    let mut m = String::from_str(a);
    m.append(b);
    m.append(c);
    m.append(d);
    proof {
        assert((a@ + b@ + c@ + d@).subrange(0, (a@ + b@ + c@).len() as int) =~= a@ + b@ + c@);
    }
    EngineError::Install(m)
}

/// Parses an embedded JSON object (see `spec_embedded_object`).
pub fn embedded_object(source: &[u8], label: &str) -> (r: Result<Vec<(String, Json)>, EngineError>)
    ensures
        match spec_embedded_object(source@, label@) {
            Ok(members) => r matches Ok(m) && members_v(m@) == members,
            Err(why) => r matches Err(e) && explains(why, e.spec_message()),
        },
        r matches Ok(m) ==> keys_distinct(members_v(m@)),
        r matches Ok(m) ==> forall|depth: nat| #[trigger] sorted_upto(JsonV::Object(members_v(m@)), depth),
{
    match parse_json(source) {
        Err(e) => Err(error_with_parts("parse embedded ", label, ": ", e.as_str())),
        Ok(Json::Object(members)) => Ok(members),
        Ok(_) => {
            proof {
                reveal_strlit("");
                assert("embedded "@ + label@ + " is not a JSON object"@ + ""@ =~= "embedded "@ + label@
                    + " is not a JSON object"@);
            }
            Err(error_with_parts("embedded ", label, " is not a JSON object", ""))
        },
    }
}

/// Every addition is present in the locale with a value equal to its own
/// as serde_json compares values (see `crate::json::json_same`).
pub open spec fn spec_locale_has_all(
    locale: Seq<(Seq<char>, JsonV)>,
    additions: Seq<(Seq<char>, JsonV)>,
) -> bool {
    forall|i: int|
        0 <= i < additions.len() ==> found_equal(
            spec_get_v(JsonV::Object(locale), #[trigger] additions[i].0),
            additions[i].1,
        )
}

/// A member was found and its value equals `value` (see
/// `crate::json::json_same`).
pub open spec fn found_equal(found: Option<JsonV>, value: JsonV) -> bool {
    found matches Some(v) && json_same(v, value)
}

/// Every addition is present in the locale with exactly its value.
pub open spec fn spec_locale_holds(
    locale: Seq<(Seq<char>, JsonV)>,
    additions: Seq<(Seq<char>, JsonV)>,
) -> bool {
    forall|i: int|
        0 <= i < additions.len() ==> spec_get_v(JsonV::Object(locale), #[trigger] additions[i].0)
            == Some(additions[i].1)
}

/// A locale that holds every addition exactly holds each with an equal value.
pub proof fn lemma_holds_has_all(
    locale: Seq<(Seq<char>, JsonV)>,
    additions: Seq<(Seq<char>, JsonV)>,
)
    requires
        spec_locale_holds(locale, additions),
    ensures
        spec_locale_has_all(locale, additions),
{
    assert forall|i: int| 0 <= i < additions.len() implies found_equal(
        spec_get_v(JsonV::Object(locale), #[trigger] additions[i].0),
        additions[i].1,
    ) by {
        lemma_json_same_reflexive(additions[i].1);
    }
}

/// Whether the locale members hold every native-string addition of
/// `additions_json` with exactly its value; refused when the additions are
/// not a JSON object.
pub fn native_locale_is_valid(locale: &Vec<(String, Json)>, additions_json: &[u8]) -> (r: Result<
    bool,
    EngineError,
>)
    ensures
        match spec_embedded_object(additions_json@, "native locale additions"@) {
            Ok(adds) => r matches Ok(b) && b == spec_locale_has_all(members_v(locale@), adds),
            Err(why) => r matches Err(e) && explains(why, e.spec_message()),
        },
{
    let additions = match embedded_object(additions_json, "native locale additions") {
        Ok(a) => a,
        Err(e) => {
            return Err(e);
        },
    };
    let ghost adds = members_v(additions@);
    let ghost loc = members_v(locale@);
    proof {
        lemma_members_v_index(additions@);
    }
    let mut i: usize = 0;
    while i < additions.len()
        invariant
            0 <= i <= additions@.len(),
            adds == members_v(additions@),
            spec_embedded_object(additions_json@, "native locale additions"@) == Ok::<
                Seq<(Seq<char>, JsonV)>,
                Refusal,
            >(adds),
            loc == members_v(locale@),
            adds.len() == additions@.len(),
            forall|j: int|
                0 <= j < additions@.len() ==> #[trigger] adds[j] == (
                    additions@[j].0@,
                    jv(additions@[j].1),
                ),
            forall|j: int|
                0 <= j < i ==> found_equal(
                    spec_get_v(JsonV::Object(loc), #[trigger] adds[j].0),
                    adds[j].1,
                ),
        decreases additions.len() - i,
    {
        let key = additions[i].0.as_str();
        let found = member_index(locale, key);
        proof {
            assert(adds[i as int] == (additions@[i as int].0@, jv(additions@[i as int].1)));
        }
        let ok = match found {
            Some(p) => {
                proof {
                    lemma_first_member_view(locale@, key@, p as int);
                    lemma_members_v_index(locale@);
                    assert(loc[p as int] == (locale@[p as int].0@, jv(locale@[p as int].1)));
                    assert(spec_get_v(JsonV::Object(loc), adds[i as int].0) == Some(
                        jv(locale@[p as int].1),
                    ));
                }
                json_eq(&locale[p].1, &additions[i].1)
            },
            None => {
                proof {
                    lemma_no_member_view(locale@, key@);
                    assert(spec_get_v(JsonV::Object(loc), adds[i as int].0) is None);
                }
                false
            },
        };
        if !ok {
            proof {
                assert(!found_equal(spec_get_v(JsonV::Object(loc), adds[i as int].0), adds[i as int].1));
                assert(!spec_locale_has_all(loc, adds));
            }
            return Ok(false);
        }
        i = i + 1;
    }
    Ok(true)
}

/// `locale` with every addition set in turn, a later addition of the same
/// key winning over an earlier one.
pub open spec fn spec_insert_all(
    locale: Seq<(Seq<char>, JsonV)>,
    additions: Seq<(Seq<char>, JsonV)>,
) -> Seq<(Seq<char>, JsonV)>
    decreases additions.len(),
{
    if additions.len() == 0 {
        locale
    } else {
        spec_insert_all(insert_v(locale, additions[0].0, additions[0].1), additions.drop_first())
    }
}

/// What patching the native zh-CN locale gives: the locale's JSON text with
/// every addition set; refused when the locale is not JSON or not an
/// object, or when the additions are refused.
pub open spec fn spec_patch_native_locale(content: Seq<u8>, additions_json: Seq<u8>) -> Result<
    Seq<u8>,
    Refusal,
> {
    match json_parse(content) {
        None => Err(Refusal::Starting("parse native zh-CN locale: "@)),
        Some(JsonV::Object(locale)) => match spec_embedded_object(
            additions_json,
            "native locale additions"@,
        ) {
            Err(why) => Err(why),
            Ok(adds) => Ok(json_text(JsonV::Object(spec_insert_all(locale, adds)))),
        },
        Some(_) => Err(Refusal::Exactly("native zh-CN locale is not a JSON object"@)),
    }
}

/// Adds the native-menu strings of `additions_json` to a zh-CN locale
/// document (see `spec_patch_native_locale`).
pub fn patch_native_locale(content: &[u8], additions_json: &[u8]) -> (r: Result<
    Vec<u8>,
    EngineError,
>)
    ensures
        match spec_patch_native_locale(content@, additions_json@) {
            Ok(b) => r matches Ok(v) && v@ == b,
            Err(why) => r matches Err(e) && explains(why, e.spec_message()),
        },
        r is Ok && locale_plain(content@, additions_json@) ==> locale_round_trips(
            content@,
            additions_json@,
        ),
        r matches Ok(p) ==> (locale_plain(content@, additions_json@) ==> {
            &&& spec_patch_native_locale(p@, additions_json@) == Ok::<Seq<u8>, Refusal>(p@)
            &&& patched_locale(content@, additions_json@) matches Some(doc) && json_parse(p@)
                == Some(doc) && spec_locale_holds(doc->Object_0, additions_of(additions_json@))
                && spec_locale_has_all(doc->Object_0, additions_of(additions_json@))
        }),
{
    let mut locale = match parse_json(content) {
        Err(e) => {
            return Err(error_with("parse native zh-CN locale: ", e.as_str()));
        },
        Ok(Json::Object(members)) => members,
        Ok(_) => {
            return Err(install_error("native zh-CN locale is not a JSON object"));
        },
    };
    let mut additions = match embedded_object(additions_json, "native locale additions") {
        Ok(a) => a,
        Err(e) => {
            return Err(e);
        },
    };
    let ghost target = spec_insert_all(members_v(locale@), members_v(additions@));
    let ghost locale_before = members_v(locale@);
    let ghost additions_before = additions@;
    while additions.len() > 0
        invariant
            spec_insert_all(members_v(locale@), members_v(additions@)) == target,
        decreases additions.len(),
    {
        let ghost before = additions@;
        let (key, value) = additions.remove(0);
        proof {
            assert(additions@ =~= before.drop_first());
            assert(members_v(before).drop_first() =~= members_v(before.drop_first()));
        }
        insert_member(&mut locale, key.as_str(), value);
    }
    let doc = Json::Object(locale);
    let printed = print_json(&doc);
    proof {
        let adds = members_v(additions_before);
        if locale_plain(content@, additions_json@) {
            let d = ROUND_TRIP_DEPTH as nat;
            assert(sorted_upto(JsonV::Object(locale_before), d));
            assert(sorted_upto(JsonV::Object(adds), d));
            assert(plain_upto(JsonV::Object(locale_before), d));
            assert(plain_upto(JsonV::Object(adds), d));
            lemma_insert_all_round_trips(locale_before, adds, (d - 1) as nat);
            assert(jv(doc) == JsonV::Object(target));
            assert(round_trips(JsonV::Object(target)));
        }
        if locale_plain(content@, additions_json@) {
            lemma_insert_all_has_all(locale_before, adds);
            lemma_insert_all_noop(target, adds);
            lemma_holds_has_all(target, adds);
        }
    }
    Ok(printed)
}

/// Setting additions whose keys are distinct leaves every one of them in
/// the locale with its value.
pub proof fn lemma_insert_all_has_all(
    locale: Seq<(Seq<char>, JsonV)>,
    additions: Seq<(Seq<char>, JsonV)>,
)
    requires
        forall|i: int, j: int|
            0 <= i < j < additions.len() ==> #[trigger] additions[i].0 != #[trigger] additions[j].0,
    ensures
        spec_locale_holds(spec_insert_all(locale, additions), additions),
    decreases additions.len(),
{
    if additions.len() > 0 {
        let rest = additions.drop_first();
        let next = insert_v(locale, additions[0].0, additions[0].1);
        assert forall|i: int, j: int| 0 <= i < j < rest.len() implies #[trigger] rest[i].0
            != #[trigger] rest[j].0 by {
            assert(rest[i] == additions[i + 1]);
            assert(rest[j] == additions[j + 1]);
        }
        lemma_insert_all_has_all(next, rest);
        let result = spec_insert_all(next, rest);
        assert forall|i: int| 0 <= i < additions.len() implies spec_get_v(
            JsonV::Object(result),
            #[trigger] additions[i].0,
        ) == Some(additions[i].1) by {
            if i > 0 {
                assert(rest[i - 1] == additions[i]);
                assert(rest[i - 1].0 == additions[i].0);
            } else {
                lemma_get_after_insert(locale, additions[0].0, additions[0].1);
                assert forall|j: int| 0 <= j < rest.len() implies #[trigger] rest[j].0
                    != additions[0].0 by {
                    assert(rest[j] == additions[j + 1]);
                    assert(additions[0].0 != additions[j + 1].0);
                }
                lemma_insert_all_keeps(next, rest, additions[0].0);
            }
        }
    }
}

/// After setting `key`, looking `key` up gives the value set.
pub proof fn lemma_get_after_insert(members: Seq<(Seq<char>, JsonV)>, key: Seq<char>, value: JsonV)
    ensures
        spec_get_v(JsonV::Object(insert_v(members, key, value)), key) == Some(value),
{
    lemma_member_pos_v(members, key);
    let inserted = insert_v(members, key, value);
    lemma_member_pos_v(inserted, key);
    match member_pos_v(members, key) {
        Some(p) => {
            match member_pos_v(inserted, key) {
                Some(q) => {
                    if q < p {
                        assert(inserted[q] == members[q]);
                    } else if q > p {
                        assert(inserted[p].0 == key);
                    }
                },
                None => {
                    assert(inserted[p].0 == key);
                },
            }
        },
        None => {
            lemma_sorted_pos_bounds(members, key);
            lemma_get_inserted(members, sorted_pos(members, key), key, value, key);
        },
    }
}

/// Setting other keys leaves the value of `key` as it was.
pub proof fn lemma_insert_all_keeps(
    locale: Seq<(Seq<char>, JsonV)>,
    additions: Seq<(Seq<char>, JsonV)>,
    key: Seq<char>,
)
    requires
        forall|j: int| 0 <= j < additions.len() ==> #[trigger] additions[j].0 != key,
    ensures
        spec_get_v(JsonV::Object(spec_insert_all(locale, additions)), key) == spec_get_v(
            JsonV::Object(locale),
            key,
        ),
    decreases additions.len(),
{
    if additions.len() > 0 {
        let rest = additions.drop_first();
        assert forall|j: int| 0 <= j < rest.len() implies #[trigger] rest[j].0 != key by {
            assert(rest[j] == additions[j + 1]);
        }
        let next = insert_v(locale, additions[0].0, additions[0].1);
        lemma_insert_all_keeps(next, rest, key);
        lemma_get_other_after_insert(locale, additions[0].0, additions[0].1, key);
    }
}

/// Setting one key leaves the value of another as it was.
pub proof fn lemma_get_other_after_insert(
    members: Seq<(Seq<char>, JsonV)>,
    set_key: Seq<char>,
    value: JsonV,
    key: Seq<char>,
)
    requires
        set_key != key,
    ensures
        spec_get_v(JsonV::Object(insert_v(members, set_key, value)), key) == spec_get_v(
            JsonV::Object(members),
            key,
        ),
{
    let inserted = insert_v(members, set_key, value);
    lemma_member_pos_v(members, set_key);
    match member_pos_v(members, set_key) {
        Some(s) => {
            lemma_member_pos_v(members, key);
            lemma_member_pos_v(inserted, key);
            let n = members.len() as int;
            assert(forall|j: int| 0 <= j < n ==> #[trigger] inserted[j].0 == members[j].0);
            assert(forall|j: int|
                0 <= j < n && members[j].0 == key ==> #[trigger] inserted[j] == members[j]);
            match member_pos_v(members, key) {
                Some(p) => {
                    match member_pos_v(inserted, key) {
                        Some(q) => {
                            if q < p {
                                assert(members[q].0 == key);
                            } else if q > p {
                                assert(inserted[p].0 == key);
                            }
                        },
                        None => {
                            assert(inserted[p].0 == key);
                        },
                    }
                },
                None => {
                    match member_pos_v(inserted, key) {
                        Some(q) => {
                            assert(members[q].0 == key);
                        },
                        None => {},
                    }
                },
            }
        },
        None => {
            lemma_sorted_pos_bounds(members, set_key);
            lemma_get_inserted(members, sorted_pos(members, set_key), set_key, value, key);
        },
    }
}

/// The additions of `additions_json`, when it is an object.
pub open spec fn additions_of(additions_json: Seq<u8>) -> Seq<(Seq<char>, JsonV)> {
    match spec_embedded_object(additions_json, "native locale additions"@) {
        Ok(adds) => adds,
        Err(_) => Seq::empty(),
    }
}

/// The locale document after patching, when patching succeeds.
pub open spec fn patched_locale(content: Seq<u8>, additions_json: Seq<u8>) -> Option<JsonV> {
    match (json_parse(content), spec_embedded_object(additions_json, "native locale additions"@)) {
        (Some(JsonV::Object(locale)), Ok(adds)) => Some(JsonV::Object(spec_insert_all(locale, adds))),
        _ => None,
    }
}

/// The locale and the additions nest at most `ROUND_TRIP_DEPTH` deep and
/// hold no number but integers as serde_json prints them (see
/// `crate::json::plain_integer`), as the bundled locale
/// and the additions do (they hold only strings); then the patched locale's
/// text reads back to the patched document (see `crate::json::print_json`).
pub open spec fn locale_plain(content: Seq<u8>, additions_json: Seq<u8>) -> bool {
    match (json_parse(content), spec_embedded_object(additions_json, "native locale additions"@)) {
        (Some(JsonV::Object(locale)), Ok(adds)) => plain_upto(
            JsonV::Object(locale),
            ROUND_TRIP_DEPTH as nat,
        ) && plain_upto(JsonV::Object(adds), ROUND_TRIP_DEPTH as nat),
        _ => true,
    }
}

/// Setting additions into a locale keeps its keys in order and keeps every
/// value plain and ordered within `depth` levels, when the locale's and the
/// additions' values are.
proof fn lemma_insert_all_round_trips(
    locale: Seq<(Seq<char>, JsonV)>,
    additions: Seq<(Seq<char>, JsonV)>,
    depth: nat,
)
    requires
        keys_sorted(locale),
        values_all(locale, |v: JsonV| plain_upto(v, depth) && sorted_upto(v, depth)),
        values_all(additions, |v: JsonV| plain_upto(v, depth) && sorted_upto(v, depth)),
    ensures
        keys_sorted(spec_insert_all(locale, additions)),
        values_all(
            spec_insert_all(locale, additions),
            |v: JsonV| plain_upto(v, depth) && sorted_upto(v, depth),
        ),
    decreases additions.len(),
{
    if additions.len() > 0 {
        let f = |v: JsonV| plain_upto(v, depth) && sorted_upto(v, depth);
        assert(f(additions[0].1));
        lemma_insert_keeps_order(locale, additions[0].0, additions[0].1, f);
        let rest = additions.drop_first();
        assert forall|i: int| 0 <= i < rest.len() implies f(#[trigger] rest[i].1) by {
            assert(rest[i] == additions[i + 1]);
        }
        lemma_insert_all_round_trips(
            insert_v(locale, additions[0].0, additions[0].1),
            rest,
            depth,
        );
    }
}

/// The patched locale's JSON text parses back to the patched document.
pub open spec fn locale_round_trips(content: Seq<u8>, additions_json: Seq<u8>) -> bool {
    match patched_locale(content, additions_json) {
        Some(doc) => json_parse(json_text(doc)) == Some(doc),
        None => true,
    }
}

/// Setting additions that the locale already holds changes nothing.
pub proof fn lemma_insert_all_noop(
    locale: Seq<(Seq<char>, JsonV)>,
    additions: Seq<(Seq<char>, JsonV)>,
)
    requires
        spec_locale_holds(locale, additions),
    ensures
        spec_insert_all(locale, additions) == locale,
    decreases additions.len(),
{
    if additions.len() > 0 {
        let key = additions[0].0;
        let value = additions[0].1;
        assert(spec_get_v(JsonV::Object(locale), additions[0].0) == Some(value));
        lemma_member_pos_v(locale, key);
        let i = member_pos_v(locale, key)->0;
        assert(locale.update(i, (key, value)) =~= locale);
        let rest = additions.drop_first();
        assert forall|k: int| 0 <= k < rest.len() implies spec_get_v(
            JsonV::Object(locale),
            #[trigger] rest[k].0,
        ) == Some(rest[k].1) by {
            assert(rest[k] == additions[k + 1]);
            assert(additions[k + 1].0 == rest[k].0);
        }
        lemma_insert_all_noop(locale, rest);
    }
}

} // verus!
