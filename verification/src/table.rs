//! Tables keyed by identifiers.
//!
//! A table is a list of entries in the order in which their keys first came in, no key
//! twice. An identifier is looked up by identity; another module's identifier, which has
//! an identity of its own, is found by its name.
use crate::syntax::{Ident, IdentView};
use crate::views::{group_views, opt_view, views};
use vstd::prelude::*;

verus! {

broadcast use group_views;

/// The first entry whose key is the identifier numbered `id`.
pub open spec fn by_id<V>(entries: Seq<(IdentView, V)>, id: u64) -> Option<(IdentView, V)>
    decreases entries.len(),
{
    if entries.len() == 0 {
        None
    } else if by_id(entries.drop_last(), id) is Some {
        by_id(entries.drop_last(), id)
    } else if entries.last().0.id == id {
        Some(entries.last())
    } else {
        None
    }
}

/// The first entry whose key is called `name`.
pub open spec fn by_name<V>(entries: Seq<(IdentView, V)>, name: Seq<char>) -> Option<(IdentView, V)>
    decreases entries.len(),
{
    if entries.len() == 0 {
        None
    } else if by_name(entries.drop_last(), name) is Some {
        by_name(entries.drop_last(), name)
    } else if entries.last().0.name == name {
        Some(entries.last())
    } else {
        None
    }
}

/// The entry that an identifier means: its own, or else the first of the same name.
pub open spec fn lookup<V>(entries: Seq<(IdentView, V)>, ident: IdentView) -> Option<
    (IdentView, V),
> {
    if by_id(entries, ident.id) is Some {
        by_id(entries, ident.id)
    } else {
        by_name(entries, ident.name)
    }
}

/// The table with `value` at `key`: a key that is there already gets the new value, a new
/// key comes last.
pub open spec fn insert<V>(entries: Seq<(IdentView, V)>, key: IdentView, value: V) -> Seq<
    (IdentView, V),
> {
    if by_id(entries, key.id) is Some {
        Seq::new(
            entries.len(),
            |i: int|
                if entries[i].0.id == key.id {
                    (entries[i].0, value)
                } else {
                    entries[i]
                },
        )
    } else {
        entries.push((key, value))
    }
}

/// No identifier is the key of two entries.
pub open spec fn distinct_keys<V>(entries: Seq<(IdentView, V)>) -> bool {
    forall|i: int, j: int|
        0 <= i < j < entries.len() ==> #[trigger] entries[i].0.id != #[trigger] entries[j].0.id
}

/// An entry found by identity is an entry of the table and has that identity; when none
/// is found there is none.
pub proof fn lemma_by_id<V>(entries: Seq<(IdentView, V)>, id: u64)
    ensures
        by_id(entries, id) matches Some(e) ==> e.0.id == id && exists|i: int|
            0 <= i < entries.len() && #[trigger] entries[i] == e,
        by_id(entries, id) is None ==> forall|i: int|
            0 <= i < entries.len() ==> (#[trigger] entries[i]).0.id != id,
    decreases entries.len(),
{
    if entries.len() > 0 {
        lemma_by_id(entries.drop_last(), id);
        assert forall|i: int| by_id(entries, id) is None && 0 <= i < entries.len() implies (
        #[trigger] entries[i]).0.id != id by {
            if i < entries.len() - 1 {
                assert(entries.drop_last()[i] == entries[i]);
            }
        }
        if by_id(entries.drop_last(), id) is Some {
            let e = by_id(entries.drop_last(), id)->0;
            let i = choose|i: int|
                0 <= i < entries.drop_last().len() && #[trigger] entries.drop_last()[i] == e;
            assert(entries[i] == e);
        } else {
            assert(entries[entries.len() - 1] == entries.last());
        }
    }
}

/// An entry found by name is an entry of the table and has that name; when none is found
/// there is none.
pub proof fn lemma_by_name<V>(entries: Seq<(IdentView, V)>, name: Seq<char>)
    ensures
        by_name(entries, name) matches Some(e) ==> e.0.name == name && exists|i: int|
            0 <= i < entries.len() && #[trigger] entries[i] == e,
        by_name(entries, name) is None ==> forall|i: int|
            0 <= i < entries.len() ==> (#[trigger] entries[i]).0.name != name,
    decreases entries.len(),
{
    if entries.len() > 0 {
        lemma_by_name(entries.drop_last(), name);
        assert forall|i: int| by_name(entries, name) is None && 0 <= i < entries.len() implies (
        #[trigger] entries[i]).0.name != name by {
            if i < entries.len() - 1 {
                assert(entries.drop_last()[i] == entries[i]);
            }
        }
        if by_name(entries.drop_last(), name) is Some {
            let e = by_name(entries.drop_last(), name)->0;
            let i = choose|i: int|
                0 <= i < entries.drop_last().len() && #[trigger] entries.drop_last()[i] == e;
            assert(entries[i] == e);
        } else {
            assert(entries[entries.len() - 1] == entries.last());
        }
    }
}

/// Inserting keeps the keys distinct.
pub proof fn lemma_insert_distinct<V>(entries: Seq<(IdentView, V)>, key: IdentView, value: V)
    requires
        distinct_keys(entries),
    ensures
        distinct_keys(insert(entries, key, value)),
{
    lemma_by_id(entries, key.id);
    let res = insert(entries, key, value);
    assert forall|i: int, j: int| 0 <= i < j < res.len() implies #[trigger] res[i].0.id
        != #[trigger] res[j].0.id by {
        if by_id(entries, key.id) is Some {
            assert(entries[i].0.id != entries[j].0.id);
        } else if j < entries.len() {
            assert(entries[i].0.id != entries[j].0.id);
        } else {
            assert(entries[i].0.id != key.id);
        }
    }
}

/// A search through all entries but the last ones finds the first match there is.
proof fn lemma_by_id_prefix<V>(entries: Seq<(IdentView, V)>, id: u64, n: int)
    requires
        0 <= n <= entries.len(),
        by_id(entries.take(n), id) is Some,
    ensures
        by_id(entries, id) == by_id(entries.take(n), id),
    decreases entries.len(),
{
    if n < entries.len() {
        assert(entries.drop_last().take(n) =~= entries.take(n));
        lemma_by_id_prefix(entries.drop_last(), id, n);
    } else {
        assert(entries.take(n) =~= entries);
    }
}

/// A search through all entries but the last ones finds the first match there is.
proof fn lemma_by_name_prefix<V>(entries: Seq<(IdentView, V)>, name: Seq<char>, n: int)
    requires
        0 <= n <= entries.len(),
        by_name(entries.take(n), name) is Some,
    ensures
        by_name(entries, name) == by_name(entries.take(n), name),
    decreases entries.len(),
{
    if n < entries.len() {
        assert(entries.drop_last().take(n) =~= entries.take(n));
        lemma_by_name_prefix(entries.drop_last(), name, n);
    } else {
        assert(entries.take(n) =~= entries);
    }
}

/// Finds the entry of the identifier numbered `id`.
pub fn find_by_id<T: View>(entries: &Vec<(Ident, T)>, id: u64) -> (res: Option<&(Ident, T)>)
    ensures
        opt_view(res) == by_id(views(entries@), id),
{
    let mut i: usize = 0;
    while i < entries.len()
        invariant
            i <= entries@.len(),
            by_id(views(entries@).take(i as int), id) is None,
        decreases entries@.len() - i,
    {
        proof {
            let next = views(entries@).take(i + 1);
            assert(next.drop_last() =~= views(entries@).take(i as int));
            assert(next.last() == views(entries@)[i as int]);
        }
        if entries[i].0.id == id {
            proof {
                lemma_by_id_prefix(views(entries@), id, i + 1);
            }
            return Some(&entries[i]);
        }
        i += 1;
    }
    assert(views(entries@).take(i as int) =~= views(entries@));
    None
}

/// Finds the first entry whose key is called `name`.
pub fn find_by_name<'a, T: View>(entries: &'a Vec<(Ident, T)>, name: &String) -> (res: Option<
    &'a (Ident, T),
>)
    ensures
        opt_view(res) == by_name(views(entries@), name@),
{
    let mut i: usize = 0;
    while i < entries.len()
        invariant
            i <= entries@.len(),
            by_name(views(entries@).take(i as int), name@) is None,
        decreases entries@.len() - i,
    {
        proof {
            let next = views(entries@).take(i + 1);
            assert(next.drop_last() =~= views(entries@).take(i as int));
            assert(next.last() == views(entries@)[i as int]);
        }
        if entries[i].0.name == *name {
            proof {
                lemma_by_name_prefix(views(entries@), name@, i + 1);
            }
            return Some(&entries[i]);
        }
        i += 1;
    }
    assert(views(entries@).take(i as int) =~= views(entries@));
    None
}

/// Finds the entry that `ident` means: its own, or else the first of the same name.
pub fn find<'a, T: View>(entries: &'a Vec<(Ident, T)>, ident: &Ident) -> (res: Option<
    &'a (Ident, T),
>)
    ensures
        opt_view(res) == lookup(views(entries@), ident@),
{
    match find_by_id(entries, ident.id) {
        Some(entry) => Some(entry),
        None => find_by_name(entries, &ident.name),
    }
}

/// Puts `value` at `key`.
pub fn put<T: View>(entries: &mut Vec<(Ident, T)>, key: Ident, value: T)
    requires
        distinct_keys(views(old(entries)@)),
    ensures
        views(final(entries)@) == insert(views(old(entries)@), key@, value@),
        distinct_keys(views(final(entries)@)),
{
    proof {
        lemma_insert_distinct(views(entries@), key@, value@);
        lemma_by_id(views(entries@), key.id);
    }
    let mut i: usize = 0;
    while i < entries.len()
        invariant
            i <= entries@.len(),
            entries@ == old(entries)@,
            distinct_keys(views(entries@)),
            forall|j: int| 0 <= j < i ==> (#[trigger] views(entries@)[j]).0.id != key.id,
        decreases entries@.len() - i,
    {
        if entries[i].0.id == key.id {
            let ghost before = views(entries@);
            proof {
                assert(before[i as int].0.id == key.id);
                lemma_by_id(before, key.id);
            }
            entries[i].1 = value;
            proof {
                assert forall|j: int| 0 <= j < before.len() && j != i implies (
                #[trigger] before[j]).0.id != key.id by {}
                assert(views(entries@) =~= insert(before, key@, value@));
            }
            return ;
        }
        i += 1;
    }
    entries.push((key, value));
}

} // verus!
