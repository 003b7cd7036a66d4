//! The struct configuration document as a JSON value, for merging, and the
//! way back.
//!
//! A value is an object with `name` and `value`; a struct is an object with
//! `name`, `meta` and the list `values` of its entries; a document is an
//! object with its `name` and the list `root_values`.

use crate::cfg_syntax::Entry;
use crate::json::Json;
use crate::merge::MergeError;
use vstd::prelude::*;

verus! {

/// The key of the name of an entry or a document.
pub open spec fn key_name() -> Seq<char> {
    "name"@
}

/// The key of the text of a value.
pub open spec fn key_value() -> Seq<char> {
    "value"@
}

/// The key of the trailing text of a struct.
pub open spec fn key_meta() -> Seq<char> {
    "meta"@
}

/// The key of the entries of a struct.
pub open spec fn key_values() -> Seq<char> {
    "values"@
}

/// The key of the entries of a document.
pub open spec fn key_root() -> Seq<char> {
    "root_values"@
}

/// The five keys differ from each other.
pub proof fn lemma_keys_differ()
    ensures
        key_name() != key_value(),
        key_name() != key_meta(),
        key_name() != key_values(),
        key_name() != key_root(),
        key_value() != key_meta(),
        key_value() != key_values(),
        key_meta() != key_values(),
{
    reveal_strlit("name");
    reveal_strlit("value");
    reveal_strlit("meta");
    reveal_strlit("values");
    reveal_strlit("root_values");
    assert(key_name().len() == 4 && key_value().len() == 5 && key_values().len() == 6
        && key_root().len() == 11 && key_meta().len() == 4);
    assert(key_name()[0] == 'n' && key_meta()[0] == 'm');
}

/// The JSON value of an entry.
pub open spec fn lower_entry(entry: Entry) -> Json
    decreases entry,
{
    match entry {
        Entry::Value { name, value } => Json::Object(
            Map::empty().insert(key_name(), Json::Text(name)).insert(
                key_value(),
                Json::Text(value),
            ),
        ),
        Entry::Struct { name, meta, entries } => Json::Object(
            Map::empty().insert(key_name(), Json::Text(name)).insert(
                key_meta(),
                Json::Text(meta),
            ).insert(key_values(), Json::List(lower_entries(entries, entries.len()))),
        ),
    }
}

/// The JSON values of the first `count` entries.
pub open spec fn lower_entries(entries: Seq<Entry>, count: nat) -> Seq<Json>
    decreases entries, count,
{
    if count == 0 || count > entries.len() {
        Seq::empty()
    } else {
        lower_entries(entries, (count - 1) as nat).push(lower_entry(entries[count - 1]))
    }
}

/// The JSON value of a document.
pub open spec fn lower_doc(name: Seq<char>, entries: Seq<Entry>) -> Json {
    Json::Object(
        Map::empty().insert(key_name(), Json::Text(name)).insert(
            key_root(),
            Json::List(lower_entries(entries, entries.len())),
        ),
    )
}

/// The text under a key of an object, if there is one.
pub open spec fn text_at(object: Map<Seq<char>, Json>, key: Seq<char>) -> Option<Seq<char>> {
    if object.contains_key(key) && object[key] is Text {
        Some(object[key]->Text_0)
    } else {
        None
    }
}

/// The list under a key of an object, if there is one.
pub open spec fn list_at(object: Map<Seq<char>, Json>, key: Seq<char>) -> Option<Seq<Json>> {
    if object.contains_key(key) && object[key] is List {
        Some(object[key]->List_0)
    } else {
        None
    }
}

/// How deep the structs of an entry nest.
pub open spec fn nesting(entry: Entry) -> nat
    decreases entry,
{
    match entry {
        Entry::Value { .. } => 0,
        Entry::Struct { entries, .. } => 1 + nesting_of(entries, entries.len()),
    }
}

/// How deep the structs of the first `count` entries nest.
pub open spec fn nesting_of(entries: Seq<Entry>, count: nat) -> nat
    decreases entries, count,
{
    if count == 0 || count > entries.len() {
        0
    } else {
        let head = nesting_of(entries, (count - 1) as nat);
        let last = nesting(entries[count - 1]);
        if head >= last {
            head
        } else {
            last
        }
    }
}

/// The entry that a JSON value stands for: an object with a `name` and
/// either a `value`, or a `meta` and `values` that stand for entries. Other
/// members do not count. Structs nest at most `room` deep.
pub open spec fn raise_entry(value: Json, room: nat) -> Result<Entry, MergeError>
    decreases value, 0nat,
{
    match value {
        Json::Object(object) => {
            if !object.dom().finite() {
                Err(MergeError::Shape)
            } else if text_at(object, key_name()) is None {
                Err(MergeError::Shape)
            } else if text_at(object, key_value()) is Some {
                Ok(
                    Entry::Value {
                        name: text_at(object, key_name())->0,
                        value: text_at(object, key_value())->0,
                    },
                )
            } else if text_at(object, key_meta()) is Some && list_at(object, key_values()) is Some {
                if room == 0 {
                    Err(MergeError::TooLarge)
                } else {
                    let items = object[key_values()]->List_0;
                    match raise_entries(items, items.len(), (room - 1) as nat) {
                        Ok(entries) => Ok(
                            Entry::Struct {
                                name: text_at(object, key_name())->0,
                                meta: text_at(object, key_meta())->0,
                                entries,
                            },
                        ),
                        Err(e) => Err(e),
                    }
                }
            } else {
                Err(MergeError::Shape)
            }
        },
        _ => Err(MergeError::Shape),
    }
}

/// The entries that the first `count` JSON values stand for; the error of the
/// first that stands for none.
pub open spec fn raise_entries(values: Seq<Json>, count: nat, room: nat) -> Result<
    Seq<Entry>,
    MergeError,
>
    decreases values, count,
{
    if count == 0 || count > values.len() {
        Ok(Seq::empty())
    } else {
        match raise_entries(values, (count - 1) as nat, room) {
            Ok(head) => match raise_entry(values[count - 1], room) {
                Ok(entry) => Ok(head.push(entry)),
                Err(e) => Err(e),
            },
            Err(e) => Err(e),
        }
    }
}

/// The deepest nesting of structs in a document that is read from JSON.
pub open spec fn max_nesting() -> nat {
    0xFFFF_FFFF
}

/// The name and the entries of the document that a JSON value stands for.
pub open spec fn raise_doc(value: Json) -> Result<(Seq<char>, Seq<Entry>), MergeError> {
    match value {
        Json::Object(object) => {
            if text_at(object, key_name()) is Some && list_at(object, key_root()) is Some {
                let items = object[key_root()]->List_0;
                match raise_entries(items, items.len(), max_nesting()) {
                    Ok(entries) => Ok((text_at(object, key_name())->0, entries)),
                    Err(e) => Err(e),
                }
            } else {
                Err(MergeError::Shape)
            }
        },
        _ => Err(MergeError::Shape),
    }
}

/// The entries of a list, one for each value and in their order.
pub proof fn lemma_lower_entries(entries: Seq<Entry>, count: nat)
    requires
        count <= entries.len(),
    ensures
        lower_entries(entries, count).len() == count,
        forall|i: int|
            0 <= i < count ==> #[trigger] lower_entries(entries, count)[i] == lower_entry(
                entries[i],
            ),
    decreases count,
{
    if count > 0 {
        lemma_lower_entries(entries, (count - 1) as nat);
    }
}

/// An entry is read back from its JSON value.
pub proof fn lemma_raise_lower_entry(entry: Entry, room: nat)
    requires
        nesting(entry) <= room,
    ensures
        raise_entry(lower_entry(entry), room) == Ok::<Entry, MergeError>(entry),
    decreases entry, 0nat,
{
    lemma_keys_differ();
    match entry {
        Entry::Value { name, value } => {
            let object = Map::<Seq<char>, Json>::empty().insert(key_name(), Json::Text(name)).insert(
                key_value(),
                Json::Text(value),
            );
            assert(object.dom() =~= Set::<Seq<char>>::empty().insert(key_name()).insert(
                key_value(),
            ));
            assert(object.dom().finite());
            assert(text_at(object, key_name()) == Some(name));
            assert(text_at(object, key_value()) == Some(value));
        },
        Entry::Struct { name, meta, entries } => {
            lemma_raise_lower_entries(entries, entries.len(), (room - 1) as nat);
            assert(entries.take(entries.len() as int) =~= entries);
            let items = lower_entries(entries, entries.len());
            lemma_lower_entries(entries, entries.len());
            let object = Map::<Seq<char>, Json>::empty().insert(key_name(), Json::Text(name)).insert(
                key_meta(),
                Json::Text(meta),
            ).insert(key_values(), Json::List(items));
            assert(object.dom() =~= Set::<Seq<char>>::empty().insert(key_name()).insert(
                key_meta(),
            ).insert(key_values()));
            assert(object.dom().finite());
            assert(text_at(object, key_name()) == Some(name));
            assert(text_at(object, key_meta()) == Some(meta));
            assert(!object.contains_key(key_value()));
            assert(list_at(object, key_values()) == Some(items));
        },
    }
}

/// Entries are read back from their JSON values.
pub proof fn lemma_raise_lower_entries(entries: Seq<Entry>, count: nat, room: nat)
    requires
        count <= entries.len(),
        nesting_of(entries, count) <= room,
    ensures
        raise_entries(lower_entries(entries, entries.len()), count, room) == Ok::<
            Seq<Entry>,
            MergeError,
        >(entries.take(count as int)),
    decreases entries, count,
{
    let lowered = lower_entries(entries, entries.len());
    lemma_lower_entries(entries, entries.len());
    if count == 0 {
        assert(entries.take(0) =~= Seq::<Entry>::empty());
    } else {
        lemma_raise_lower_entries(entries, (count - 1) as nat, room);
        lemma_raise_lower_entry(entries[count - 1], room);
        assert(lowered[count - 1] == lower_entry(entries[count - 1]));
        assert(entries.take(count as int) =~= entries.take(count - 1).push(entries[count - 1]));
    }
}

/// A document is read back from its JSON value.
pub proof fn lemma_raise_lower_doc(name: Seq<char>, entries: Seq<Entry>)
    requires
        nesting_of(entries, entries.len()) <= max_nesting(),
    ensures
        raise_doc(lower_doc(name, entries)) == Ok::<(Seq<char>, Seq<Entry>), MergeError>(
            (name, entries),
        ),
{
    lemma_keys_differ();
    lemma_raise_lower_entries(entries, entries.len(), max_nesting());
    assert(entries.take(entries.len() as int) =~= entries);
    let items = lower_entries(entries, entries.len());
    lemma_lower_entries(entries, entries.len());
    let object = Map::<Seq<char>, Json>::empty().insert(key_name(), Json::Text(name)).insert(
        key_root(),
        Json::List(items),
    );
    assert(text_at(object, key_name()) == Some(name));
    assert(list_at(object, key_root()) == Some(items));
}

} // verus!
