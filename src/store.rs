//! Reading the ledger file back into a ledger.
use vstd::prelude::*;
use crate::decode::json_is_object;
use crate::ledger::{
    entry_views, keys_unique, map_of, opt_view, EntryView, Ledger, RecordView, VersionRecord,
};

verus! {

/// The member names of the JSON object `text`, in the order the parsed map
/// yields them.
pub uninterp spec fn json_member_names(text: Seq<char>) -> Seq<Seq<char>>;

/// In the JSON object `text`, the member `key` seen as an object: `None` where
/// it is absent or no object, else the string under `field` where there is one.
pub uninterp spec fn json_nested_string(text: Seq<char>, key: Seq<char>, field: Seq<char>) -> Option<Option<Seq<char>>>;

/// Relies on serde_json's `from_str` into a `Map` and `Map::keys`.
#[verifier::external_body]
fn json_object_keys(text: &str) -> (r: Option<Vec<String>>)
    ensures
        r is Some <==> json_is_object(text@),
        r is Some ==> r->0@.len() == json_member_names(text@).len(),
        r is Some ==> forall|i: int|
            0 <= i < r->0@.len() ==> #[trigger] r->0@[i]@ == json_member_names(text@)[i],
{
    let object: serde_json::Map<String, serde_json::Value> = serde_json::from_str(text).ok()?;
    Some(object.keys().cloned().collect())
}

/// Relies on serde_json's `from_str` into a `Map`, `Map::get`,
/// `Value::as_object` and `Value::as_str`.
#[verifier::external_body]
fn json_nested_string_field(text: &str, key: &str, field: &str) -> (r: Option<Option<String>>)
    requires
        json_is_object(text@),
    ensures
        r is Some <==> json_nested_string(text@, key@, field@) is Some,
        r is Some ==> opt_view(r->0) == json_nested_string(text@, key@, field@)->0,
{
    let object: serde_json::Map<String, serde_json::Value> = serde_json::from_str(text).ok()?;
    let inner = object.get(key)?.as_object()?;
    Some(inner.get(field).and_then(|v| v.as_str()).map(|s| s.to_string()))
}

/// The record under `key`: an object with string `clientVersion` and
/// `buildDate`; `buildVersion` and `webPlayer` are kept where they are strings.
pub open spec fn record_of_json(text: Seq<char>, key: Seq<char>) -> Option<RecordView> {
    match (
        json_nested_string(text, key, "clientVersion"@),
        json_nested_string(text, key, "buildDate"@),
        json_nested_string(text, key, "buildVersion"@),
        json_nested_string(text, key, "webPlayer"@),
    ) {
        (Some(Some(cv)), Some(Some(bd)), Some(bv), Some(wp)) => Some(
            RecordView { client_version: cv, build_date: bd, build_version: bv, web_player: wp },
        ),
        _ => None,
    }
}

/// The entries under `names`, in order; `None` where one is no record.
pub open spec fn entries_of_json(text: Seq<char>, names: Seq<Seq<char>>) -> Option<Seq<EntryView>>
    decreases names.len(),
{
    if names.len() == 0 {
        Some(Seq::<EntryView>::empty())
    } else {
        match (entries_of_json(text, names.drop_last()), record_of_json(text, names.last())) {
            (Some(es), Some(r)) => Some(es.push((names.last(), r))),
            _ => None,
        }
    }
}

/// What the ledger file `text` holds: a JSON object whose members are
/// records, under unique keys.
pub open spec fn ledger_of_json(text: Seq<char>) -> Option<Map<Seq<char>, RecordView>> {
    if !json_is_object(text) {
        None
    } else {
        match entries_of_json(text, json_member_names(text)) {
            Some(es) => if keys_unique(es) {
                Some(map_of(es))
            } else {
                None
            },
            None => None,
        }
    }
}

proof fn lemma_entries_prefix_fails(text: Seq<char>, names: Seq<Seq<char>>, k: int)
    requires
        0 <= k <= names.len(),
        entries_of_json(text, names.take(k)) is None,
    ensures
        entries_of_json(text, names) is None,
    decreases names.len() - k,
{
    if k == names.len() {
        assert(names.take(k) =~= names);
    } else {
        assert(names.take(k + 1).drop_last() =~= names.take(k));
        lemma_entries_prefix_fails(text, names, k + 1);
    }
}

/// Reads one record of the ledger file.
fn record_from_json(text: &str, key: &str) -> (r: Option<VersionRecord>)
    requires
        json_is_object(text@),
    ensures
        match r {
            Some(v) => record_of_json(text@, key@) == Some(v@),
            None => record_of_json(text@, key@) is None,
        },
{
    let cv = json_nested_string_field(text, key, "clientVersion");
    let bd = json_nested_string_field(text, key, "buildDate");
    let bv = json_nested_string_field(text, key, "buildVersion");
    let wp = json_nested_string_field(text, key, "webPlayer");
    match (cv, bd, bv, wp) {
        (Some(Some(c)), Some(Some(b)), Some(v), Some(w)) => Some(
            VersionRecord { client_version: c, build_date: b, build_version: v, web_player: w },
        ),
        _ => None,
    }
}

/// Reads the ledger file's text. `None` where it is no JSON object, where a
/// member is no record with string `clientVersion` and `buildDate`, or where
/// a key occurs twice.
pub fn parse_ledger(text: &str) -> (r: Option<Ledger>)
    ensures
        r is Some <==> ledger_of_json(text@) is Some,
        r is Some ==> r->0.wf() && r->0@ == ledger_of_json(text@)->0,
{
    let keys = match json_object_keys(text) {
        Some(k) => k,
        None => return None,
    };
    let ghost names = json_member_names(text@);
    let mut entries: Vec<(String, VersionRecord)> = Vec::new();
    let mut i: usize = 0;
    proof {
        assert(names.take(0) =~= Seq::<Seq<char>>::empty());
        assert(entry_views(entries@) =~= Seq::<EntryView>::empty());
    }
    while i < keys.len()
        invariant
            json_is_object(text@),
            names == json_member_names(text@),
            keys@.len() == names.len(),
            forall|j: int| 0 <= j < keys@.len() ==> #[trigger] keys@[j]@ == names[j],
            i <= keys@.len(),
            entries_of_json(text@, names.take(i as int)) == Some(entry_views(entries@)),
        decreases keys.len() - i,
    {
        let ghost es0 = entry_views(entries@);
        let key = keys[i].clone();
        let rec = record_from_json(text, key.as_str());
        proof {
            let t = names.take(i as int + 1);
            assert(t.drop_last() =~= names.take(i as int));
            assert(t.last() == key@);
        }
        match rec {
            Some(v) => {
                entries.push((key, v));
                proof {
                    assert(entry_views(entries@) =~= es0.push((names[i as int], entries@.last().1@)));
                }
            },
            None => {
                proof {
                    let t = names.take(i as int + 1);
                    assert(record_of_json(text@, t.last()) is None);
                    assert(entries_of_json(text@, t) is None);
                    lemma_entries_prefix_fails(text@, names, i as int + 1);
                }
                return None;
            },
        }
        i += 1;
    }
    proof {
        assert(names.take(names.len() as int) =~= names);
    }
    Ledger::from_entries(entries)
}

} // verus!
