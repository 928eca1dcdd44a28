//! What holds of all tables.
use crate::imports::insert_all;
use crate::syntax::IdentView;
use crate::table::{by_id, by_name, distinct_keys, insert, lemma_by_id, lookup};
use vstd::prelude::*;

verus! {

/// A search by identity finds the first entry of the identifier, and fails only if there is
/// none.
pub proof fn law_the_first_identifier_is_found<V>(entries: Seq<(IdentView, V)>, id: u64)
    ensures
        match by_id(entries, id) {
            Some(e) => exists|i: int|
                0 <= i < entries.len() && #[trigger] entries[i] == e && e.0.id == id && (
                forall|j: int| 0 <= j < i ==> (#[trigger] entries[j]).0.id != id),
            None => forall|j: int|
                0 <= j < entries.len() ==> (#[trigger] entries[j]).0.id != id,
        },
    decreases entries.len(),
{
    if entries.len() > 0 {
        let rest = entries.drop_last();
        law_the_first_identifier_is_found(rest, id);
        if by_id(rest, id) is Some {
            let e = by_id(rest, id)->0;
            let i = choose|i: int|
                0 <= i < rest.len() && #[trigger] rest[i] == e && e.0.id == id && (forall|j: int|
                    0 <= j < i ==> (#[trigger] rest[j]).0.id != id);
            assert(entries[i] == e);
            assert forall|j: int| 0 <= j < i implies (#[trigger] entries[j]).0.id != id by {
                assert(rest[j] == entries[j]);
            }
        } else {
            assert forall|j: int| 0 <= j < rest.len() implies (
            #[trigger] entries[j]).0.id != id by {
                assert(rest[j] == entries[j]);
            }
            assert(entries[entries.len() - 1] == entries.last());
        }
    }
}

/// A search by name finds the first entry of the name, and fails only if there is none.
pub proof fn law_the_first_name_is_found<V>(entries: Seq<(IdentView, V)>, name: Seq<char>)
    ensures
        match by_name(entries, name) {
            Some(e) => exists|i: int|
                0 <= i < entries.len() && #[trigger] entries[i] == e && e.0.name == name && (
                forall|j: int| 0 <= j < i ==> (#[trigger] entries[j]).0.name != name),
            None => forall|j: int|
                0 <= j < entries.len() ==> (#[trigger] entries[j]).0.name != name,
        },
    decreases entries.len(),
{
    if entries.len() > 0 {
        let rest = entries.drop_last();
        law_the_first_name_is_found(rest, name);
        if by_name(rest, name) is Some {
            let e = by_name(rest, name)->0;
            let i = choose|i: int|
                0 <= i < rest.len() && #[trigger] rest[i] == e && e.0.name == name && (
                forall|j: int| 0 <= j < i ==> (#[trigger] rest[j]).0.name != name);
            assert(entries[i] == e);
            assert forall|j: int| 0 <= j < i implies (#[trigger] entries[j]).0.name != name by {
                assert(rest[j] == entries[j]);
            }
        } else {
            assert forall|j: int| 0 <= j < rest.len() implies (
            #[trigger] entries[j]).0.name != name by {
                assert(rest[j] == entries[j]);
            }
            assert(entries[entries.len() - 1] == entries.last());
        }
    }
}

/// An identifier means its own entry, if it has one, and else the first entry of its name; it
/// means nothing only if there is neither.
pub proof fn law_identity_comes_before_the_name<V>(
    entries: Seq<(IdentView, V)>,
    ident: IdentView,
)
    ensures
        forall|i: int|
            0 <= i < entries.len() && (#[trigger] entries[i]).0.id == ident.id ==> (lookup(
                entries,
                ident,
            ) matches Some(e) && e.0.id == ident.id),
        forall|i: int|
            0 <= i < entries.len() && (#[trigger] entries[i]).0.name == ident.name ==> (lookup(
                entries,
                ident,
            ) matches Some(e) && (e.0.id == ident.id || e.0.name == ident.name)),
        lookup(entries, ident) matches Some(e) ==> entries.contains(e) && (e.0.id == ident.id
            || e.0.name == ident.name),
        (forall|j: int|
            0 <= j < entries.len() ==> (#[trigger] entries[j]).0.id != ident.id && entries[j].0.name
                != ident.name) ==> lookup(entries, ident) is None,
        lookup(entries, ident) matches Some(e) ==> exists|i: int|
            {
                &&& 0 <= i < entries.len() && #[trigger] entries[i] == e
                &&& if e.0.id == ident.id {
                    forall|j: int| 0 <= j < i ==> (#[trigger] entries[j]).0.id != ident.id
                } else {
                    &&& e.0.name == ident.name
                    &&& forall|j: int|
                        0 <= j < entries.len() ==> (#[trigger] entries[j]).0.id != ident.id
                    &&& forall|j: int|
                        0 <= j < i ==> (#[trigger] entries[j]).0.name != ident.name
                }
            },
{
    law_the_first_identifier_is_found(entries, ident.id);
    law_the_first_name_is_found(entries, ident.name);
}

/// A new key comes last. A key that is there already keeps its place and gets the new value,
/// and no other entry changes.
pub proof fn law_inserting_changes_one_entry<V>(
    entries: Seq<(IdentView, V)>,
    key: IdentView,
    value: V,
)
    ensures
        ({
            let res = insert(entries, key, value);
            &&& (forall|j: int| 0 <= j < entries.len() ==> (#[trigger] entries[j]).0.id != key.id)
                ==> res == entries.push((key, value))
            &&& forall|i: int|
                0 <= i < entries.len() && (#[trigger] entries[i]).0.id == key.id ==> res.len()
                    == entries.len() && res[i] == (entries[i].0, value)
            &&& forall|i: int|
                0 <= i < entries.len() && (#[trigger] entries[i]).0.id != key.id ==> res[i]
                    == entries[i]
        }),
{
    law_the_first_identifier_is_found(entries, key.id);
}

/// Extending a table by a list of entries inserts them one after the other.
pub proof fn law_extending_inserts_one_by_one<V>(
    entries: Seq<(IdentView, V)>,
    more: Seq<(IdentView, V)>,
    last: (IdentView, V),
)
    ensures
        insert_all(entries, Seq::empty()) == entries,
        insert_all(entries, more.push(last)) == insert(insert_all(entries, more), last.0, last.1),
{
    assert(more.push(last).drop_last() =~= more);
}

/// In a table that is extended by another one, an identifier that the other one has gets the
/// value it has there, and every other identifier keeps its value.
pub proof fn law_the_extension_counts<V>(
    entries: Seq<(IdentView, V)>,
    more: Seq<(IdentView, V)>,
    id: u64,
)
    requires
        distinct_keys(more),
    ensures
        match by_id(more, id) {
            Some((_, value)) => by_id(insert_all(entries, more), id) matches Some((_, v)) && v
                == value,
            None => by_id(insert_all(entries, more), id) == by_id(entries, id),
        },
    decreases more.len(),
{
    if more.len() > 0 {
        let rest = more.drop_last();
        let (key, value) = more.last();
        let before = insert_all(entries, rest);
        let res = insert(before, key, value);
        assert(more[more.len() - 1] == more.last());
        assert forall|i: int, j: int| 0 <= i < j < rest.len() implies #[trigger] rest[i].0.id
            != #[trigger] rest[j].0.id by {
            assert(more[i].0.id != more[j].0.id);
        }
        law_the_extension_counts(entries, rest, id);
        law_the_first_identifier_is_found(before, id);
        law_the_first_identifier_is_found(res, id);
        law_the_first_identifier_is_found(rest, id);
        lemma_by_id(before, key.id);
        if key.id == id {
            if by_id(rest, id) is Some {
                let i = choose|i: int|
                    0 <= i < rest.len() && #[trigger] rest[i] == by_id(rest, id)->0;
                assert(more[i].0.id != more[more.len() - 1].0.id);
            }
            if by_id(before, id) is None {
                assert(res[before.len() as int].0.id == id);
            } else {
                let i = choose|i: int|
                    0 <= i < before.len() && #[trigger] before[i] == by_id(before, id)->0;
                assert(res[i].0.id == id);
            }
            let e = by_id(res, id)->0;
            let i = choose|i: int| 0 <= i < res.len() && #[trigger] res[i] == e;
            if i < before.len() {
                assert(before[i].0.id == id);
            }
        } else {
            lemma_other_entry(before, key, value, id);
        }
    }
}

/// An insertion does not change what other identifiers are found with.
proof fn lemma_other_entry<V>(entries: Seq<(IdentView, V)>, key: IdentView, value: V, id: u64)
    requires
        key.id != id,
    ensures
        by_id(insert(entries, key, value), id) == by_id(entries, id),
{
    let res = insert(entries, key, value);
    law_the_first_identifier_is_found(entries, id);
    law_the_first_identifier_is_found(res, id);
    if by_id(entries, id) is Some {
        let i = choose|i: int|
            0 <= i < entries.len() && #[trigger] entries[i] == by_id(entries, id)->0
                && entries[i].0.id == id && (forall|j: int|
                0 <= j < i ==> (#[trigger] entries[j]).0.id != id);
        assert(res[i] == entries[i]);
        let k = choose|k: int|
            0 <= k < res.len() && #[trigger] res[k] == by_id(res, id)->0 && res[k].0.id == id && (
            forall|j: int| 0 <= j < k ==> (#[trigger] res[j]).0.id != id);
        if k < i {
            assert(entries[k].0.id == res[k].0.id);
        } else if i < k {
            assert(res[i].0.id != id);
        }
    } else if by_id(res, id) is Some {
        let k = choose|k: int| 0 <= k < res.len() && #[trigger] res[k] == by_id(res, id)->0;
        if k < entries.len() {
            assert(entries[k].0.id == res[k].0.id);
        }
    }
}

} // verus!
