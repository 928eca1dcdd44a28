//! What holds of every import table, and of inline imports.
use crate::imports::{
    collection_items, content_items, import_table, inline_path, insert_all,
    lemma_insert_all_concat, package_items, packages_items, statement_items, statements_items,
    ImportsView, ItemView,
};
use crate::path_laws::law_joining_keeps_what_follows;
use crate::syntax::{
    Attribute, ContentView, IdentView, ImportItemView, ImportView, OriginView, PathView,
    StatementView,
};
use crate::table::{by_id, by_name, distinct_keys, insert, lemma_by_id, lemma_insert_distinct};
use crate::table_laws::{law_the_extension_counts, law_the_first_name_is_found};
use vstd::prelude::*;

verus! {

proof fn lemma_statements_concat(a: Seq<StatementView>, b: Seq<StatementView>, path: PathView)
    ensures
        statements_items(a + b, path) == statements_items(a, path) + statements_items(b, path),
    decreases b.len(),
{
    if b.len() == 0 {
        assert(a + b =~= a);
        assert(statements_items(a, path) + statements_items(b, path) =~= statements_items(a, path));
    } else {
        assert((a + b).drop_last() =~= a + b.drop_last());
        lemma_statements_concat(a, b.drop_last(), path);
        assert(statements_items(a + b, path) =~= statements_items(a, path) + statements_items(
            b,
            path,
        ));
    }
}

/// An insertion brings in its key, and loses none.
proof fn lemma_insert_finds<V>(entries: Seq<(IdentView, V)>, key: IdentView, value: V, id: u64)
    ensures
        by_id(insert(entries, key, value), id) is Some == (by_id(entries, id) is Some || key.id
            == id),
{
    let res = insert(entries, key, value);
    lemma_by_id(entries, id);
    lemma_by_id(entries, key.id);
    lemma_by_id(res, id);
    if by_id(entries, id) is Some {
        let i = choose|i: int|
            0 <= i < entries.len() && #[trigger] entries[i] == by_id(entries, id)->0;
        assert(res[i].0.id == id);
    }
    if key.id == id {
        if by_id(entries, key.id) is None {
            assert(res[entries.len() as int].0.id == id);
        }
    }
    if by_id(res, id) is Some {
        let i = choose|i: int| 0 <= i < res.len() && #[trigger] res[i] == by_id(res, id)->0;
        if i < entries.len() {
            assert(entries[i].0.id == id);
        }
    }
}

/// What is inserted is found.
proof fn lemma_insert_all_finds<V>(
    entries: Seq<(IdentView, V)>,
    more: Seq<(IdentView, V)>,
    p: int,
)
    requires
        0 <= p < more.len(),
    ensures
        by_id(insert_all(entries, more), more[p].0.id) is Some,
    decreases more.len(),
{
    let before = insert_all(entries, more.drop_last());
    lemma_insert_finds(before, more.last().0, more.last().1, more[p].0.id);
    if p < more.len() - 1 {
        assert(more.drop_last()[p] == more[p]);
        lemma_insert_all_finds(entries, more.drop_last(), p);
    }
}

/// The second of two insertions of the same identifier counts.
proof fn lemma_insert_twice<V>(
    entries: Seq<(IdentView, V)>,
    key: IdentView,
    old_value: V,
    again: IdentView,
    value: V,
)
    requires
        key.id == again.id,
    ensures
        insert(insert(entries, key, old_value), again, value) == insert(entries, key, value),
{
    let once = insert(entries, key, old_value);
    lemma_insert_finds(entries, key, old_value, key.id);
    lemma_by_id(entries, key.id);
    assert(insert(once, again, value) =~= insert(entries, key, value));
}

/// Where an identifier is in a table already, its new value can as well come first.
proof fn lemma_insert_swap<V>(
    entries: Seq<(IdentView, V)>,
    a: IdentView,
    x: V,
    b: IdentView,
    y: V,
)
    requires
        a.id != b.id,
        by_id(entries, a.id) is Some,
    ensures
        insert(insert(entries, a, x), b, y) == insert(insert(entries, b, y), a, x),
{
    lemma_insert_finds(entries, a, x, b.id);
    lemma_insert_finds(entries, b, y, a.id);
    assert(insert(insert(entries, a, x), b, y) =~= insert(insert(entries, b, y), a, x));
}

/// A new value in a list that is inserted is a new value in the result.
proof fn lemma_insert_all_update<V>(
    entries: Seq<(IdentView, V)>,
    more: Seq<(IdentView, V)>,
    p: int,
    key: IdentView,
    value: V,
)
    requires
        distinct_keys(more),
        0 <= p < more.len(),
        more[p].0.id == key.id,
    ensures
        insert_all(entries, more.update(p, (more[p].0, value))) == insert(
            insert_all(entries, more),
            key,
            value,
        ),
    decreases more.len(),
{
    let rest = more.drop_last();
    let changed = more.update(p, (more[p].0, value));
    let (last, w) = more.last();
    let before = insert_all(entries, rest);
    if p == more.len() - 1 {
        assert(changed.drop_last() =~= rest);
        lemma_insert_twice(before, last, w, key, value);
    } else {
        assert(changed.drop_last() =~= rest.update(p, (rest[p].0, value)));
        assert(rest[p] == more[p]);
        assert forall|i: int, j: int| 0 <= i < j < rest.len() implies #[trigger] rest[i].0.id
            != #[trigger] rest[j].0.id by {
            assert(more[i].0.id != more[j].0.id);
        }
        lemma_insert_all_update(entries, rest, p, key, value);
        lemma_insert_all_finds(entries, rest, p);
        assert(more[p].0.id != more[more.len() - 1].0.id);
        lemma_insert_swap(before, key, value, last, w);
    }
}

/// Inserting a table is inserting the list that the table was made from.
proof fn lemma_insert_table<V>(entries: Seq<(IdentView, V)>, more: Seq<(IdentView, V)>)
    ensures
        insert_all(entries, insert_all(Seq::empty(), more)) == insert_all(entries, more),
        distinct_keys(insert_all(Seq::<(IdentView, V)>::empty(), more)),
    decreases more.len(),
{
    if more.len() > 0 {
        let table = insert_all(Seq::<(IdentView, V)>::empty(), more.drop_last());
        let (key, value) = more.last();
        lemma_insert_table(entries, more.drop_last());
        lemma_insert_distinct(table, key, value);
        lemma_by_id(table, key.id);
        let res = insert(table, key, value);
        if by_id(table, key.id) is Some {
            let p = choose|p: int|
                0 <= p < table.len() && #[trigger] table[p] == by_id(table, key.id)->0;
            assert forall|i: int| 0 <= i < table.len() && i != p implies (
            #[trigger] table[i]).0.id != key.id by {
                if i < p {
                    assert(table[i].0.id != table[p].0.id);
                } else {
                    assert(table[p].0.id != table[i].0.id);
                }
            }
            assert(res =~= table.update(p, (table[p].0, value)));
            lemma_insert_all_update(entries, table, p, key, value);
        } else {
            assert(res.drop_last() =~= table);
            assert(res.last() == (key, value));
        }
    }
}

/// The import table of two lists of import statements, one after the other, is the table of
/// the first extended by the table of the second: an identifier that both import gets the
/// item of the second.
pub proof fn law_import_tables_add_up(
    a: Seq<StatementView>,
    b: Seq<StatementView>,
    path: PathView,
)
    ensures
        import_table(a + b, path) == insert_all(import_table(a, path), import_table(b, path)),
{
    lemma_statements_concat(a, b, path);
    lemma_insert_all_concat(
        Seq::empty(),
        statements_items(a, path),
        statements_items(b, path),
    );
    lemma_insert_table(import_table(a, path), statements_items(b, path));
}

proof fn lemma_collection_concat(
    a: Seq<ImportView>,
    b: Seq<ImportView>,
    path: PathView,
    public: bool,
)
    ensures
        collection_items(a + b, path, public) == collection_items(a, path, public)
            + collection_items(b, path, public),
    decreases b.len(),
{
    if b.len() == 0 {
        assert(a + b =~= a);
        assert(collection_items(a, path, public) + collection_items(b, path, public)
            =~= collection_items(a, path, public));
    } else {
        assert((a + b).drop_last() =~= a + b.drop_last());
        lemma_collection_concat(a, b.drop_last(), path, public);
        assert(collection_items(a + b, path, public) =~= collection_items(a, path, public)
            + collection_items(b, path, public));
    }
}

proof fn lemma_packages_concat(a: Seq<ImportView>, b: Seq<ImportView>, public: bool)
    ensures
        packages_items(a + b, public) == packages_items(a, public) + packages_items(b, public),
    decreases b.len(),
{
    if b.len() == 0 {
        assert(a + b =~= a);
        assert(packages_items(a, public) + packages_items(b, public) =~= packages_items(
            a,
            public,
        ));
    } else {
        assert((a + b).drop_last() =~= a + b.drop_last());
        lemma_packages_concat(a, b.drop_last(), public);
        assert(packages_items(a + b, public) =~= packages_items(a, public) + packages_items(
            b,
            public,
        ));
    }
}

/// The items of a single statement, and of two.
proof fn lemma_few_statements(a: StatementView, b: StatementView, path: PathView)
    ensures
        statements_items(seq![a], path) == statement_items(a, path),
        statements_items(seq![a, b], path) == statement_items(a, path) + statement_items(b, path),
{
    let none = Seq::<StatementView>::empty();
    assert(seq![a].drop_last() =~= none);
    assert(statements_items(none, path) + statement_items(a, path) =~= statement_items(a, path));
    assert(statements_items(seq![a], path) == statement_items(a, path));
    assert(seq![a, b].drop_last() =~= seq![a]);
    assert(seq![a, b].last() == b);
}

/// An import of a single item makes a table of one entry. The key is the new name, if there is
/// one, and else the name of the item. The item is looked for under its own name in the
/// module that the path means where it is written, and it is public if the statement has the
/// attribute `@publish`, wherever among its attributes.
pub proof fn law_an_item_is_imported_from_its_path(
    attributes: Seq<Attribute>,
    import_path: PathView,
    item: ImportItemView,
    path: PathView,
)
    ensures
        import_table(
            seq![
                StatementView {
                    attributes,
                    path: Some(import_path),
                    content: ContentView::Item(item),
                },
            ],
            path,
        ) == seq![
            (
                if item.rename is Some {
                    item.rename->0
                } else {
                    item.ident
                },
                ItemView {
                    path: path.join_path(import_path),
                    ident: item.ident,
                    public: exists|i: int|
                        0 <= i < attributes.len() && attributes[i] == Attribute::Publish,
                },
            ),
        ],
{
    let statement = StatementView {
        attributes,
        path: Some(import_path),
        content: ContentView::Item(item),
    };
    lemma_few_statements(statement, statement, path);
    let items = statement_items(statement, path);
    assert(items.drop_last() =~= Seq::empty());
    assert(insert_all(Seq::empty(), items.drop_last()) == Seq::<(IdentView, ItemView)>::empty());
    assert(import_table(seq![statement], path) =~= items);
}

/// A path in front of a member of a collection continues the path in front of the
/// collection: `import P::{q::x};` imports the same as `import P::q::x;`, whatever `x` is.
pub proof fn law_a_path_inside_braces_continues_the_path_before(
    attributes: Seq<Attribute>,
    import_path: PathView,
    inner: Seq<Seq<char>>,
    content: ContentView,
    path: PathView,
)
    ensures
        import_table(
            seq![
                StatementView {
                    attributes,
                    path: Some(import_path),
                    content: ContentView::Collection(seq![ImportView { path: inner, content }]),
                },
            ],
            path,
        ) == import_table(
            seq![
                StatementView {
                    attributes,
                    path: Some(
                        PathView {
                            origin: import_path.origin,
                            components: import_path.components + inner,
                        },
                    ),
                    content,
                },
            ],
            path,
        ),
{
    let members = seq![ImportView { path: inner, content }];
    let a = StatementView {
        attributes,
        path: Some(import_path),
        content: ContentView::Collection(members),
    };
    let longer = PathView {
        origin: import_path.origin,
        components: import_path.components + inner,
    };
    let b = StatementView { attributes, path: Some(longer), content };
    let public = attributes.contains(Attribute::Publish);
    lemma_few_statements(a, b, path);
    lemma_few_statements(b, a, path);
    law_joining_keeps_what_follows(path, import_path, inner);
    assert(path.join_path(longer) == path.join_path(import_path).join(inner));
    assert(members.drop_last() =~= Seq::empty());
    assert(collection_items(Seq::empty(), path.join_path(import_path), public) =~= Seq::empty());
    assert(members.last() == ImportView { path: inner, content });
    let items = content_items(content, path.join_path(longer), public);
    assert(collection_items(members, path.join_path(import_path), public)
        =~= Seq::<(IdentView, ItemView)>::empty() + items);
    assert(statement_items(a, path) =~= statement_items(b, path));
}

/// The members of a collection are imported one after the other, as if each part of the
/// collection stood in a statement of its own. An empty collection imports nothing.
pub proof fn law_collections_can_be_split(
    attributes: Seq<Attribute>,
    import_path: Option<PathView>,
    a: Seq<ImportView>,
    b: Seq<ImportView>,
    path: PathView,
)
    ensures
        import_table(
            seq![
                StatementView {
                    attributes,
                    path: import_path,
                    content: ContentView::Collection(a + b),
                },
            ],
            path,
        ) == import_table(
            seq![
                StatementView {
                    attributes,
                    path: import_path,
                    content: ContentView::Collection(a),
                },
                StatementView {
                    attributes,
                    path: import_path,
                    content: ContentView::Collection(b),
                },
            ],
            path,
        ),
        import_table(
            seq![
                StatementView {
                    attributes,
                    path: import_path,
                    content: ContentView::Collection(Seq::empty()),
                },
            ],
            path,
        ) == Seq::<(IdentView, ItemView)>::empty(),
{
    let public = attributes.contains(Attribute::Publish);
    let both = StatementView {
        attributes,
        path: import_path,
        content: ContentView::Collection(a + b),
    };
    let first = StatementView {
        attributes,
        path: import_path,
        content: ContentView::Collection(a),
    };
    let second = StatementView {
        attributes,
        path: import_path,
        content: ContentView::Collection(b),
    };
    let none = StatementView {
        attributes,
        path: import_path,
        content: ContentView::Collection(Seq::empty()),
    };
    lemma_few_statements(both, both, path);
    lemma_few_statements(first, second, path);
    lemma_few_statements(none, none, path);
    match import_path {
        Some(p) => lemma_collection_concat(a, b, path.join_path(p), public),
        None => lemma_packages_concat(a, b, public),
    }
    assert(statement_items(none, path) =~= Seq::empty());
}

/// Without a path in front of it, the first component of a member of a collection is the name
/// of a package: `import {p::q::x};` imports the same as `import p::q::x;` does outside of
/// packages. A member without any component imports nothing, and neither does an item that
/// stands alone.
pub proof fn law_members_without_a_path_before_name_packages(
    attributes: Seq<Attribute>,
    member: ImportView,
    item: ImportItemView,
    path: PathView,
    outside: PathView,
)
    requires
        !(outside.origin is Package),
    ensures
        member.path.len() > 0 ==> import_table(
            seq![
                StatementView {
                    attributes,
                    path: None,
                    content: ContentView::Collection(seq![member]),
                },
            ],
            path,
        ) == import_table(
            seq![
                StatementView {
                    attributes,
                    path: Some(
                        PathView {
                            origin: OriginView::Package(member.path[0]),
                            components: member.path.skip(1),
                        },
                    ),
                    content: member.content,
                },
            ],
            outside,
        ),
        member.path.len() == 0 ==> import_table(
            seq![
                StatementView {
                    attributes,
                    path: None,
                    content: ContentView::Collection(seq![member]),
                },
            ],
            path,
        ) == Seq::<(IdentView, ItemView)>::empty(),
        import_table(
            seq![
                StatementView { attributes, path: None, content: ContentView::Item(item) },
            ],
            path,
        ) == Seq::<(IdentView, ItemView)>::empty(),
{
    let public = attributes.contains(Attribute::Publish);
    let a = StatementView {
        attributes,
        path: None,
        content: ContentView::Collection(seq![member]),
    };
    let target = PathView {
        origin: OriginView::Package(member.path[0]),
        components: member.path.skip(1),
    };
    let b = StatementView { attributes, path: Some(target), content: member.content };
    let c = StatementView { attributes, path: None, content: ContentView::Item(item) };
    lemma_few_statements(a, a, path);
    lemma_few_statements(b, b, outside);
    lemma_few_statements(c, c, path);
    assert(seq![member].drop_last() =~= Seq::empty());
    assert(packages_items(Seq::empty(), public) =~= Seq::empty());
    assert(seq![member].last() == member);
    assert(packages_items(seq![member], public) =~= package_items(member, public));
    if member.path.len() > 0 {
        assert(member.path.drop_first() =~= member.path.skip(1));
        assert(outside.join_path(target) == target);
        assert(statement_items(a, path) =~= statement_items(b, outside));
    }
}

/// Every entry of an import table has a key of its own.
pub proof fn law_import_tables_have_distinct_keys(statements: Seq<StatementView>, path: PathView)
    ensures
        distinct_keys(import_table(statements, path)),
{
    lemma_insert_table(Seq::empty(), statements_items(statements, path));
}

/// The last import of an identifier counts: in the table of two lists of statements, an
/// identifier that the second list imports has the item from there, and every other one has
/// the item from the first list.
pub proof fn law_the_last_import_counts(
    a: Seq<StatementView>,
    b: Seq<StatementView>,
    path: PathView,
    id: u64,
)
    ensures
        match by_id(import_table(b, path), id) {
            Some((_, item)) => by_id(import_table(a + b, path), id) matches Some((_, i)) && i
                == item,
            None => by_id(import_table(a + b, path), id) == by_id(import_table(a, path), id),
        },
        import_table(Seq::empty(), path) == Seq::<(IdentView, ItemView)>::empty(),
{
    law_import_tables_add_up(a, b, path);
    law_import_tables_have_distinct_keys(b, path);
    law_the_extension_counts(import_table(a, path), import_table(b, path), id);
}

/// An inline path into a package whose name is that of an import means the imported module:
/// its components are those of the path imported from, then the own name of the imported
/// item, then those of the inline path, however many these are. So with `import M::c as foo;`
/// the path of `foo::x` is that of `M::c::x`.
pub proof fn law_inline_paths_continue_imports(
    path: PathView,
    parent_path: PathView,
    imports: ImportsView,
    m: int,
)
    requires
        0 <= m < imports.len(),
        path.origin == OriginView::Package(imports[m].0.name),
        forall|k: int| 0 <= k < m ==> (#[trigger] imports[k]).0.name != imports[m].0.name,
    ensures
        inline_path(path, parent_path, imports).origin == imports[m].1.path.origin,
        inline_path(path, parent_path, imports).components == imports[m].1.path.components + seq![
            imports[m].1.ident.name,
        ] + path.components,
{
    let name = imports[m].0.name;
    law_the_first_name_is_found(imports, name);
    let e = by_name(imports, name)->0;
    let i = choose|i: int|
        0 <= i < imports.len() && #[trigger] imports[i] == e && e.0.name == name && (forall|j: int|
            0 <= j < i ==> (#[trigger] imports[j]).0.name != name);
    if i < m {
        assert(imports[i].0.name != imports[m].0.name);
    } else if m < i {
        assert(imports[m].0.name != name);
    }
    assert(inline_path(path, parent_path, imports).components =~= imports[m].1.path.components
        + seq![imports[m].1.ident.name] + path.components);
}

/// Every other inline path means what it means in an import statement of the module.
pub proof fn law_other_inline_paths_are_joined(
    path: PathView,
    parent_path: PathView,
    imports: ImportsView,
)
    requires
        path.origin matches OriginView::Package(name) ==> forall|k: int|
            0 <= k < imports.len() ==> (#[trigger] imports[k]).0.name != name,
    ensures
        inline_path(path, parent_path, imports) == parent_path.join_path(path),
{
    if path.origin is Package {
        law_the_first_name_is_found(imports, path.origin->Package_0);
    }
}

} // verus!
