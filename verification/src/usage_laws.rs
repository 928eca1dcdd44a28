//! What holds of every usage analysis.
use crate::error::ImportErrorView;
use crate::module::{lemma_decl_index, CodeView};
use crate::syntax::{DeclView, IdentView, TypeView};
use crate::table::{by_id, lemma_by_id, lemma_by_name};
use crate::usage::{
    analyze, analyze_entry, lemma_unmarked, post_order, post_orders, unmarked, walk,
    EntryView, ExtView, Step,
};
use vstd::prelude::*;

verus! {

/// Whether every type expression comes after those that are nested in it.
pub open spec fn nested_first(types: Seq<TypeView>) -> bool {
    forall|k: int, c: int|
        #![trigger types[k].nested[c]]
        0 <= k < types.len() && 0 <= c < types[k].nested.len() ==> types.take(k).contains(
            types[k].nested[c],
        )
}

proof fn lemma_nested_first_concat(a: Seq<TypeView>, b: Seq<TypeView>)
    requires
        nested_first(a),
        nested_first(b),
    ensures
        nested_first(a + b),
{
    let s = a + b;
    assert forall|k: int, c: int|
        #![trigger s[k].nested[c]]
        0 <= k < s.len() && 0 <= c < s[k].nested.len() implies s.take(k).contains(
        s[k].nested[c],
    ) by {
        let x = s[k].nested[c];
        if k < a.len() {
            assert(a[k].nested[c] == x);
            assert(s.take(k) =~= a.take(k));
        } else {
            let l = k - a.len();
            assert(b[l].nested[c] == x);
            assert(b.take(l).contains(x));
            let j = choose|j: int| 0 <= j < b.take(l).len() && b.take(l)[j] == x;
            assert(s.take(k)[a.len() + j] == x);
        }
    }
}

proof fn lemma_post_order(ty: TypeView)
    ensures
        nested_first(post_order(ty)),
        post_order(ty).contains(ty),
    decreases ty, 1nat,
{
    lemma_post_orders(ty.nested);
    let inner = post_orders(ty.nested);
    let s = post_order(ty);
    assert(s == inner.push(ty));
    assert forall|k: int, c: int|
        #![trigger s[k].nested[c]]
        0 <= k < s.len() && 0 <= c < s[k].nested.len() implies s.take(k).contains(
        s[k].nested[c],
    ) by {
        let x = s[k].nested[c];
        if k < inner.len() {
            assert(inner[k].nested[c] == x);
            assert(s.take(k) =~= inner.take(k));
        } else {
            assert(s.take(k) =~= inner);
            assert(inner.contains(ty.nested[c]));
        }
    }
    assert(s[inner.len() as int] == ty);
}

proof fn lemma_post_orders(types: Seq<TypeView>)
    ensures
        nested_first(post_orders(types)),
        forall|c: int|
            0 <= c < types.len() ==> post_orders(types).contains(#[trigger] types[c]),
    decreases types, 0nat,
{
    if types.len() > 0 {
        let a = post_orders(types.drop_last());
        let b = post_order(types.last());
        lemma_post_orders(types.drop_last());
        lemma_post_order(types.last());
        lemma_nested_first_concat(a, b);
        assert forall|c: int| 0 <= c < types.len() implies post_orders(types).contains(
            #[trigger] types[c],
        ) by {
            if c < types.len() - 1 {
                assert(types.drop_last()[c] == types[c]);
                let j = choose|j: int| 0 <= j < a.len() && a[j] == types[c];
                assert((a + b)[j] == types[c]);
            } else {
                let j = choose|j: int| 0 <= j < b.len() && b[j] == types[c];
                assert((a + b)[a.len() + j] == types[c]);
            }
        }
    }
}

/// The type expressions of a declaration are visited so that nested type expressions come
/// before the type expression that contains them, and none of the outermost ones is left
/// out.
pub proof fn law_nested_types_come_first(decl: DeclView)
    ensures
        nested_first(post_orders(decl.types)),
        forall|c: int|
            0 <= c < decl.types.len() ==> post_orders(decl.types).contains(
                #[trigger] decl.types[c],
            ),
{
    lemma_post_orders(decl.types);
}

/// Where a change of type expressions applies to those nested in them as well, the order in
/// which they are visited stays the same.
pub proof fn lemma_mapped_order(ty: TypeView, change: spec_fn(TypeView) -> TypeView)
    requires
        forall|t: TypeView| (#[trigger] change(t)).nested == t.nested.map_values(change),
    ensures
        post_order(change(ty)) == post_order(ty).map_values(change),
    decreases ty, 1nat,
{
    let res = change(ty);
    lemma_mapped_orders(ty.nested, change);
    assert(post_order(ty) == post_orders(ty.nested).push(ty));
    assert(post_order(res) == post_orders(res.nested).push(res));
    assert(post_order(res) =~= post_order(ty).map_values(change));
}

/// Where a change of type expressions applies to those nested in them as well, the order in
/// which they are visited stays the same.
pub proof fn lemma_mapped_orders(types: Seq<TypeView>, change: spec_fn(TypeView) -> TypeView)
    requires
        forall|t: TypeView| (#[trigger] change(t)).nested == t.nested.map_values(change),
    ensures
        post_orders(types.map_values(change)) == post_orders(types).map_values(change),
    decreases types, 0nat,
{
    let res = types.map_values(change);
    if types.len() > 0 {
        lemma_mapped_orders(types.drop_last(), change);
        lemma_mapped_order(types.last(), change);
        assert(res.drop_last() =~= types.drop_last().map_values(change));
        assert(res.last() == change(types.last()));
    }
    assert(post_orders(res) =~= post_orders(types).map_values(change));
}

impl CodeView {
    /// Whether a step has been taken: a declaration it enters is used, an item it refers to
    /// is among `items`. A step that fails cannot be taken.
    pub open spec fn taken(self, used: Set<u64>, items: Seq<ExtView>, step: Step) -> bool {
        match step {
            Step::Skip => true,
            Step::Enter(n) => {
                &&& n < self.source.declarations.len()
                &&& self.source.declarations[n as int].ident() matches Some(ident)
                &&& used.contains(ident.id)
            },
            Step::Refer(item) => items.contains(item),
            Step::Fail(_) => false,
        }
    }

    /// Whether every reference in `types` has been followed.
    pub open spec fn followed(
        self,
        used: Set<u64>,
        items: Seq<ExtView>,
        types: Seq<TypeView>,
    ) -> bool {
        forall|k: int|
            0 <= k < types.len() ==> self.taken(used, items, self.reference(#[trigger] types[k]))
    }

    /// Whether every identifier that is used now and was not used before is declared, and
    /// every reference in its declaration has been followed.
    pub open spec fn newly_followed(
        self,
        before: Set<u64>,
        used: Set<u64>,
        items: Seq<ExtView>,
    ) -> bool {
        forall|id: u64| #[trigger]
            used.contains(id) && !before.contains(id) ==> (by_id(self.idents(), id) matches Some(
                (_, n),
            ) && self.followed(used, items, self.types_of(n)))
    }

    /// Whether an entrypoint has been followed.
    pub open spec fn entry_followed(
        self,
        used: Set<u64>,
        items: Seq<ExtView>,
        entry: EntryView,
    ) -> bool {
        match entry {
            EntryView::Ident(ident) => self.taken(used, items, self.request(ident)),
            EntryView::Decl(n) => self.followed(used, items, self.types_of(n)),
        }
    }
}

impl CodeView {
    /// Whether the declaration that a step enters, if any, exists and is the one that the
    /// index has for what it declares.
    pub open spec fn indexed(self, step: Step) -> bool {
        step matches Step::Enter(n) ==> {
            &&& n < self.source.declarations.len()
            &&& self.source.declarations[n as int].ident() matches Some(ident)
            &&& by_id(self.idents(), ident.id) matches Some((_, m))
            &&& m == n
        }
    }
}

/// References and requests lead to declarations that the index has.
pub proof fn lemma_indexed(code: CodeView)
    requires
        code.source.declarations.len() <= usize::MAX,
    ensures
        forall|ty: TypeView| code.indexed(#[trigger] code.reference(ty)),
        forall|ident: IdentView| code.indexed(#[trigger] code.request(ident)),
{
    lemma_decl_index(code.source.declarations);
    assert forall|ty: TypeView| code.indexed(#[trigger] code.reference(ty)) by {
        lemma_by_id(code.idents(), ty.ident.id);
    }
    assert forall|ident: IdentView| code.indexed(#[trigger] code.request(ident)) by {
        lemma_by_id(code.idents(), ident.id);
        lemma_by_name(code.idents(), ident.name);
        if code.find_decl(ident) is Some {
            let entry = code.find_decl(ident)->0;
            lemma_by_id(code.idents(), entry.0.id);
            let i = choose|i: int|
                0 <= i < code.idents().len() && #[trigger] code.idents()[i] == entry;
            let found = by_id(code.idents(), entry.0.id)->0;
            let j = choose|j: int|
                0 <= j < code.idents().len() && #[trigger] code.idents()[j] == found;
            assert(i == j);
        }
    }
}

/// What has been followed stays followed when more is used and more items are found.
proof fn lemma_followed_more(
    code: CodeView,
    used: Set<u64>,
    items: Seq<ExtView>,
    more_used: Set<u64>,
    more_items: Seq<ExtView>,
    types: Seq<TypeView>,
)
    requires
        code.followed(used, items, types),
        used.subset_of(more_used),
        items.is_prefix_of(more_items),
    ensures
        code.followed(more_used, more_items, types),
{
    assert forall|k: int| 0 <= k < types.len() implies code.taken(
        more_used,
        more_items,
        code.reference(#[trigger] types[k]),
    ) by {
        assert(code.taken(used, items, code.reference(types[k])));
        if code.reference(types[k]) is Refer {
            let item = code.reference(types[k])->Refer_0;
            let j = choose|j: int| 0 <= j < items.len() && items[j] == item;
            assert(more_items[j] == item);
        }
    }
}

/// What a walk through type expressions leads to.
proof fn lemma_walk(code: CodeView, used: Set<u64>, items: Seq<ExtView>, pending: Seq<TypeView>)
    requires
        code.source.declarations.len() <= usize::MAX,
    ensures
        used.subset_of(walk(code, used, items, pending).used),
        walk(code, used, items, pending).outcome matches Ok(found) ==> {
            let after = walk(code, used, items, pending).used;
            &&& items.is_prefix_of(found)
            &&& code.followed(after, found, pending)
            &&& code.newly_followed(used, after, found)
        },
    decreases unmarked(code.source.declarations, used), pending.len(),
{
    if pending.len() > 0 {
        let rest = pending.drop_first();
        let step = code.reference(pending[0]);
        let res = walk(code, used, items, pending);
        lemma_indexed(code);
        match step {
            Step::Skip => {
                lemma_walk(code, used, items, rest);
            },
            Step::Enter(n) => {
                if code.fresh(used, n) {
                    let decl = code.source.declarations[n as int];
                    let id = decl.ident()->0.id;
                    assert(decl.declares(id));
                    lemma_unmarked(code.source.declarations, used, id);
                    let todo = code.types_of(n) + rest;
                    lemma_walk(code, code.mark(used, n), items, todo);
                    if res.outcome is Ok {
                        let found = res.outcome->Ok_0;
                        assert forall|k: int| 0 <= k < rest.len() implies code.taken(
                            res.used,
                            found,
                            code.reference(#[trigger] rest[k]),
                        ) by {
                            assert(todo[code.types_of(n).len() + k] == rest[k]);
                        }
                        assert(code.followed(res.used, found, code.types_of(n))) by {
                            assert forall|k: int| 0 <= k < code.types_of(n).len() implies code.taken(
                                res.used,
                                found,
                                code.reference(#[trigger] code.types_of(n)[k]),
                            ) by {
                                assert(todo[k] == code.types_of(n)[k]);
                            }
                        }
                        assert(code.newly_followed(used, res.used, found));
                    }
                } else {
                    lemma_walk(code, used, items, rest);
                }
            },
            Step::Refer(item) => {
                lemma_walk(code, used, items.push(item), rest);
                if res.outcome is Ok {
                    let found = res.outcome->Ok_0;
                    assert(items.push(item)[items.len() as int] == item);
                    assert(found[items.len() as int] == item);
                    assert(items.is_prefix_of(found));
                }
            },
            Step::Fail(_) => {},
        }
        if res.outcome is Ok {
            let found = res.outcome->Ok_0;
            assert forall|k: int| 0 <= k < pending.len() implies code.taken(
                res.used,
                found,
                code.reference(#[trigger] pending[k]),
            ) by {
                if k > 0 {
                    assert(rest[k - 1] == pending[k]);
                }
            }
        }
    }
}

/// What the analysis of an entrypoint leads to.
proof fn lemma_analyze_entry(
    code: CodeView,
    used: Set<u64>,
    items: Seq<ExtView>,
    entry: EntryView,
)
    requires
        code.source.declarations.len() <= usize::MAX,
    ensures
        used.subset_of(analyze_entry(code, used, items, entry).used),
        analyze_entry(code, used, items, entry).outcome matches Ok(found) ==> {
            let after = analyze_entry(code, used, items, entry).used;
            &&& items.is_prefix_of(found)
            &&& code.entry_followed(after, found, entry)
            &&& code.newly_followed(used, after, found)
        },
{
    lemma_indexed(code);
    match entry {
        EntryView::Decl(n) => {
            lemma_walk(code, used, items, code.types_of(n));
        },
        EntryView::Ident(ident) => {
            match code.request(ident) {
                Step::Enter(n) => {
                    if code.fresh(used, n) {
                        lemma_walk(code, code.mark(used, n), items, code.types_of(n));
                    }
                },
                Step::Refer(item) => {
                    assert(items.push(item)[items.len() as int] == item);
                },
                _ => {},
            }
        },
    }
}

/// What an analysis leads to.
pub proof fn lemma_analyze(
    code: CodeView,
    used: Set<u64>,
    items: Seq<ExtView>,
    entries: Seq<EntryView>,
)
    requires
        code.source.declarations.len() <= usize::MAX,
    ensures
        used.subset_of(analyze(code, used, items, entries).used),
        analyze(code, used, items, entries).outcome matches Ok(found) ==> {
            let after = analyze(code, used, items, entries).used;
            &&& items.is_prefix_of(found)
            &&& forall|k: int|
                0 <= k < entries.len() ==> code.entry_followed(
                    after,
                    found,
                    #[trigger] entries[k],
                )
            &&& code.newly_followed(used, after, found)
        },
    decreases entries.len(),
{
    if entries.len() > 0 {
        let first = analyze_entry(code, used, items, entries[0]);
        let rest = entries.drop_first();
        let res = analyze(code, used, items, entries);
        lemma_analyze_entry(code, used, items, entries[0]);
        if first.outcome is Ok {
            let middle = first.outcome->Ok_0;
            lemma_analyze(code, first.used, middle, rest);
            if res.outcome is Ok {
                let found = res.outcome->Ok_0;
                assert forall|k: int| 0 <= k < entries.len() implies code.entry_followed(
                    res.used,
                    found,
                    #[trigger] entries[k],
                ) by {
                    if k > 0 {
                        assert(rest[k - 1] == entries[k]);
                    } else {
                        match entries[0] {
                            EntryView::Decl(n) => {
                                lemma_followed_more(
                                    code,
                                    first.used,
                                    middle,
                                    res.used,
                                    found,
                                    code.types_of(n),
                                );
                            },
                            EntryView::Ident(ident) => {
                                if code.request(ident) is Refer {
                                    let item = code.request(ident)->Refer_0;
                                    let j = choose|j: int|
                                        0 <= j < middle.len() && middle[j] == item;
                                    assert(found[j] == item);
                                }
                            },
                        }
                    }
                }
                assert forall|id: u64| #[trigger]
                    res.used.contains(id) && !used.contains(id) implies (by_id(
                    code.idents(),
                    id,
                ) matches Some((_, n)) && code.followed(res.used, found, code.types_of(n))) by {
                    if first.used.contains(id) {
                        let n = (by_id(code.idents(), id)->0).1;
                        lemma_followed_more(
                            code,
                            first.used,
                            middle,
                            res.used,
                            found,
                            code.types_of(n),
                        );
                    }
                }
            }
        }
    }
}

/// An analysis that succeeds is complete. What was used stays used. Every entrypoint has
/// been followed: it names a declaration that is used now, or an item of another module
/// that is among the results. The same holds of every reference in a declaration that the
/// analysis marked used. So everything that the entrypoints reach, transitively, is used.
pub proof fn law_usage_is_complete(code: CodeView, used: Set<u64>, entries: Seq<EntryView>)
    requires
        code.source.declarations.len() <= usize::MAX,
        analyze(code, used, Seq::empty(), entries).outcome is Ok,
    ensures
        ({
            let analysis = analyze(code, used, Seq::empty(), entries);
            let items = analysis.outcome->Ok_0;
            &&& used.subset_of(analysis.used)
            &&& forall|k: int|
                0 <= k < entries.len() ==> code.entry_followed(
                    analysis.used,
                    items,
                    #[trigger] entries[k],
                )
            &&& code.newly_followed(used, analysis.used, items)
        }),
{
    lemma_analyze(code, used, Seq::empty(), entries);
}

impl CodeView {
    /// Whether a set of identifiers is closed: with a declared identifier it contains all
    /// those that its declaration refers to.
    pub open spec fn closed(self, set: Set<u64>) -> bool {
        forall|id: u64|
            #![trigger set.contains(id)]
            set.contains(id) ==> (by_id(self.idents(), id) matches Some((_, n))
                ==> self.stays_inside(set, self.types_of(n)))
    }

    /// Whether the declarations that `types` refer to are all in a set.
    pub open spec fn stays_inside(self, set: Set<u64>, types: Seq<TypeView>) -> bool {
        forall|k: int|
            0 <= k < types.len() ==> self.lands_inside(set, self.reference(#[trigger] types[k]))
    }

    /// Whether the declaration that a step enters, if any, is in a set.
    pub open spec fn lands_inside(self, set: Set<u64>, step: Step) -> bool {
        step matches Step::Enter(n) ==> set.contains(
            self.source.declarations[n as int].ident()->0.id,
        )
    }

    /// Whether the declarations that an entrypoint leads to at once are all in a set.
    pub open spec fn entry_inside(self, set: Set<u64>, entry: EntryView) -> bool {
        match entry {
            EntryView::Ident(ident) => self.lands_inside(set, self.request(ident)),
            EntryView::Decl(n) => self.stays_inside(set, self.types_of(n)),
        }
    }
}

proof fn lemma_walk_inside(
    code: CodeView,
    used: Set<u64>,
    items: Seq<ExtView>,
    pending: Seq<TypeView>,
    set: Set<u64>,
)
    requires
        code.source.declarations.len() <= usize::MAX,
        code.closed(set),
        used.subset_of(set),
        code.stays_inside(set, pending),
    ensures
        walk(code, used, items, pending).used.subset_of(set),
    decreases unmarked(code.source.declarations, used), pending.len(),
{
    if pending.len() > 0 {
        let rest = pending.drop_first();
        lemma_indexed(code);
        assert(code.stays_inside(set, rest)) by {
            assert forall|k: int| 0 <= k < rest.len() implies code.lands_inside(
                set,
                code.reference(#[trigger] rest[k]),
            ) by {
                assert(rest[k] == pending[k + 1]);
            }
        }
        match code.reference(pending[0]) {
            Step::Skip => lemma_walk_inside(code, used, items, rest, set),
            Step::Enter(n) => {
                if code.fresh(used, n) {
                    let decl = code.source.declarations[n as int];
                    let id = decl.ident()->0.id;
                    assert(decl.declares(id));
                    lemma_unmarked(code.source.declarations, used, id);
                    assert(code.lands_inside(set, code.reference(pending[0])));
                    assert(set.contains(id));
                    let todo = code.types_of(n) + rest;
                    assert(code.stays_inside(set, todo)) by {
                        assert forall|k: int| 0 <= k < todo.len() implies code.lands_inside(
                            set,
                            code.reference(#[trigger] todo[k]),
                        ) by {
                            if k < code.types_of(n).len() {
                                assert(todo[k] == code.types_of(n)[k]);
                            } else {
                                assert(todo[k] == rest[k - code.types_of(n).len()]);
                            }
                        }
                    }
                    lemma_walk_inside(code, code.mark(used, n), items, todo, set);
                } else {
                    lemma_walk_inside(code, used, items, rest, set);
                }
            },
            Step::Refer(item) => lemma_walk_inside(code, used, items.push(item), rest, set),
            Step::Fail(_) => {},
        }
    }
}

proof fn lemma_analyze_inside(
    code: CodeView,
    used: Set<u64>,
    items: Seq<ExtView>,
    entries: Seq<EntryView>,
    set: Set<u64>,
)
    requires
        code.source.declarations.len() <= usize::MAX,
        code.closed(set),
        used.subset_of(set),
        forall|k: int|
            0 <= k < entries.len() ==> code.entry_inside(set, #[trigger] entries[k]),
    ensures
        analyze(code, used, items, entries).used.subset_of(set),
    decreases entries.len(),
{
    if entries.len() > 0 {
        let first = analyze_entry(code, used, items, entries[0]);
        let rest = entries.drop_first();
        lemma_indexed(code);
        assert(code.entry_inside(set, entries[0]));
        match entries[0] {
            EntryView::Decl(n) => {
                lemma_walk_inside(code, used, items, code.types_of(n), set);
            },
            EntryView::Ident(ident) => {
                if code.request(ident) is Enter {
                    let n = code.request(ident)->Enter_0;
                    let id = code.source.declarations[n as int].ident()->0.id;
                    assert(set.contains(id));
                    if code.fresh(used, n) {
                        lemma_walk_inside(
                            code,
                            code.mark(used, n),
                            items,
                            code.types_of(n),
                            set,
                        );
                    }
                }
            },
        }
        assert forall|k: int| 0 <= k < rest.len() implies code.entry_inside(
            set,
            #[trigger] rest[k],
        ) by {
            assert(rest[k] == entries[k + 1]);
        }
        if first.outcome is Ok {
            lemma_analyze_inside(code, first.used, first.outcome->Ok_0, rest, set);
        }
    }
}

/// An analysis marks nothing that the entrypoints do not reach: whatever closed set contains
/// what was used before and what the entrypoints lead to, it contains all that is used
/// afterwards.
pub proof fn law_usage_is_least(
    code: CodeView,
    used: Set<u64>,
    entries: Seq<EntryView>,
    set: Set<u64>,
)
    requires
        code.source.declarations.len() <= usize::MAX,
        code.closed(set),
        used.subset_of(set),
        forall|k: int|
            0 <= k < entries.len() ==> code.entry_inside(set, #[trigger] entries[k]),
    ensures
        analyze(code, used, Seq::empty(), entries).used.subset_of(set),
{
    lemma_analyze_inside(code, used, Seq::empty(), entries, set);
}

/// Where every reference has been followed, a walk marks nothing and does not fail.
proof fn lemma_walk_again(
    code: CodeView,
    used: Set<u64>,
    known: Seq<ExtView>,
    items: Seq<ExtView>,
    pending: Seq<TypeView>,
)
    requires
        code.followed(used, known, pending),
    ensures
        walk(code, used, items, pending).used == used,
        walk(code, used, items, pending).outcome is Ok,
    decreases pending.len(),
{
    if pending.len() > 0 {
        let rest = pending.drop_first();
        assert(code.taken(used, known, code.reference(pending[0])));
        assert forall|k: int| 0 <= k < rest.len() implies code.taken(
            used,
            known,
            code.reference(#[trigger] rest[k]),
        ) by {
            assert(rest[k] == pending[k + 1]);
        }
        match code.reference(pending[0]) {
            Step::Refer(item) => lemma_walk_again(code, used, known, items.push(item), rest),
            _ => lemma_walk_again(code, used, known, items, rest),
        }
    }
}

proof fn lemma_analyze_again(
    code: CodeView,
    used: Set<u64>,
    known: Seq<ExtView>,
    items: Seq<ExtView>,
    entries: Seq<EntryView>,
)
    requires
        forall|k: int|
            0 <= k < entries.len() ==> code.entry_followed(used, known, #[trigger] entries[k]),
    ensures
        analyze(code, used, items, entries).used == used,
        analyze(code, used, items, entries).outcome is Ok,
    decreases entries.len(),
{
    if entries.len() > 0 {
        let first = analyze_entry(code, used, items, entries[0]);
        let rest = entries.drop_first();
        assert(code.entry_followed(used, known, entries[0]));
        match entries[0] {
            EntryView::Decl(n) => {
                lemma_walk_again(code, used, known, items, code.types_of(n));
            },
            EntryView::Ident(_) => {},
        }
        assert forall|k: int| 0 <= k < rest.len() implies code.entry_followed(
            used,
            known,
            #[trigger] rest[k],
        ) by {
            assert(rest[k] == entries[k + 1]);
        }
        lemma_analyze_again(code, used, known, first.outcome->Ok_0, rest);
    }
}

/// Analyzing the same entrypoints a second time succeeds and marks nothing more.
pub proof fn law_usage_is_idempotent(code: CodeView, used: Set<u64>, entries: Seq<EntryView>)
    requires
        code.source.declarations.len() <= usize::MAX,
        analyze(code, used, Seq::empty(), entries).outcome is Ok,
    ensures
        ({
            let once = analyze(code, used, Seq::empty(), entries);
            let twice = analyze(code, once.used, Seq::empty(), entries);
            twice.used == once.used && twice.outcome is Ok
        }),
{
    let once = analyze(code, used, Seq::empty(), entries);
    lemma_analyze(code, used, Seq::empty(), entries);
    lemma_analyze_again(code, once.used, once.outcome->Ok_0, Seq::empty(), entries);
}

/// A declaration that is used already is skipped: to ask for it again changes nothing and
/// refers to nothing.
pub proof fn law_used_declarations_are_skipped(
    code: CodeView,
    used: Set<u64>,
    ident: IdentView,
    n: usize,
)
    requires
        code.request(ident) == Step::Enter(n),
        n < code.source.declarations.len(),
        code.source.declarations[n as int].ident() matches Some(decl) && used.contains(decl.id),
    ensures
        analyze(code, used, Seq::empty(), seq![EntryView::Ident(ident)]).used == used,
        analyze(code, used, Seq::empty(), seq![EntryView::Ident(ident)]).outcome == Ok::<
            Seq<ExtView>,
            ImportErrorView,
        >(Seq::empty()),
{
    let entries = seq![EntryView::Ident(ident)];
    assert(entries.drop_first() =~= Seq::empty());
    assert(analyze(code, used, Seq::empty(), entries.drop_first()).used == used);
}

/// A walk adds what it finds to the items found before, and does not depend on them.
proof fn lemma_walk_items(
    code: CodeView,
    used: Set<u64>,
    items: Seq<ExtView>,
    pending: Seq<TypeView>,
)
    ensures
        ({
            let alone = walk(code, used, Seq::empty(), pending);
            let res = walk(code, used, items, pending);
            &&& res.used == alone.used
            &&& res.outcome == after_items(items, alone.outcome)
        }),
    decreases unmarked(code.source.declarations, used), pending.len(),
{
    if pending.len() == 0 {
        assert(items + Seq::<ExtView>::empty() =~= items);
    } else {
        let rest = pending.drop_first();
        match code.reference(pending[0]) {
            Step::Skip => lemma_walk_items(code, used, items, rest),
            Step::Enter(n) => {
                if code.fresh(used, n) {
                    let decl = code.source.declarations[n as int];
                    assert(decl.declares(decl.ident()->0.id));
                    lemma_unmarked(code.source.declarations, used, decl.ident()->0.id);
                    lemma_walk_items(code, code.mark(used, n), items, code.types_of(n) + rest);
                } else {
                    lemma_walk_items(code, used, items, rest);
                }
            },
            Step::Refer(item) => {
                let one = Seq::<ExtView>::empty().push(item);
                lemma_walk_items(code, used, items.push(item), rest);
                lemma_walk_items(code, used, one, rest);
                let alone = walk(code, used, Seq::empty(), rest);
                if alone.outcome is Ok {
                    let found = alone.outcome->Ok_0;
                    assert(items.push(item) + found =~= items + (one + found));
                }
            },
            Step::Fail(_) => {},
        }
    }
}

/// What an analysis comes to, where items have been found before.
pub open spec fn after_items(
    items: Seq<ExtView>,
    outcome: Result<Seq<ExtView>, ImportErrorView>,
) -> Result<Seq<ExtView>, ImportErrorView> {
    match outcome {
        Ok(found) => Ok(items + found),
        Err(e) => Err(e),
    }
}

/// An analysis adds what it finds to the items found before, and does not depend on them.
proof fn lemma_analyze_items(
    code: CodeView,
    used: Set<u64>,
    items: Seq<ExtView>,
    entries: Seq<EntryView>,
)
    ensures
        ({
            let alone = analyze(code, used, Seq::empty(), entries);
            let res = analyze(code, used, items, entries);
            &&& res.used == alone.used
            &&& res.outcome == after_items(items, alone.outcome)
        }),
    decreases entries.len(),
{
    if entries.len() == 0 {
        assert(items + Seq::<ExtView>::empty() =~= items);
    } else {
        let rest = entries.drop_first();
        let first = analyze_entry(code, used, items, entries[0]);
        let first_alone = analyze_entry(code, used, Seq::empty(), entries[0]);
        assert(first.used == first_alone.used && first.outcome == after_items(
            items,
            first_alone.outcome,
        )) by {
            match entries[0] {
                EntryView::Decl(n) => lemma_walk_items(code, used, items, code.types_of(n)),
                EntryView::Ident(ident) => {
                    assert(items + Seq::<ExtView>::empty() =~= items);
                    match code.request(ident) {
                        Step::Enter(n) => {
                            lemma_walk_items(code, code.mark(used, n), items, code.types_of(n));
                        },
                        Step::Refer(item) => {
                            assert(items.push(item) =~= items + Seq::<ExtView>::empty().push(item));
                        },
                        _ => {},
                    }
                },
            }
        }
        if first_alone.outcome is Ok {
            let found = first_alone.outcome->Ok_0;
            lemma_analyze_items(code, first.used, items + found, rest);
            lemma_analyze_items(code, first.used, found, rest);
            let alone = analyze(code, first.used, Seq::empty(), rest);
            if alone.outcome is Ok {
                assert(items + found + alone.outcome->Ok_0 =~= items + (found
                    + alone.outcome->Ok_0));
            }
        }
    }
}

/// The entrypoints after others are analyzed in the state that those lead to.
proof fn lemma_analyze_concat(
    code: CodeView,
    used: Set<u64>,
    items: Seq<ExtView>,
    a: Seq<EntryView>,
    b: Seq<EntryView>,
)
    ensures
        ({
            let first = analyze(code, used, items, a);
            analyze(code, used, items, a + b) == match first.outcome {
                Ok(found) => analyze(code, first.used, found, b),
                Err(_) => first,
            }
        }),
    decreases a.len(),
{
    if a.len() == 0 {
        assert(a + b =~= b);
    } else {
        assert((a + b)[0] == a[0]);
        assert((a + b).drop_first() =~= a.drop_first() + b);
        let first = analyze_entry(code, used, items, a[0]);
        if first.outcome is Ok {
            lemma_analyze_concat(code, first.used, first.outcome->Ok_0, a.drop_first(), b);
        }
    }
}

/// Entrypoints are analyzed one after the other: the analysis of two lists is that of the
/// first, and then, with what is used by then, that of the second. What the second refers to
/// comes after what the first refers to, and nothing of the second is looked at if the first
/// fails.
pub proof fn law_analyses_add_up(
    code: CodeView,
    used: Set<u64>,
    a: Seq<EntryView>,
    b: Seq<EntryView>,
)
    ensures
        ({
            let both = analyze(code, used, Seq::empty(), a + b);
            let first = analyze(code, used, Seq::empty(), a);
            match first.outcome {
                Ok(items) => {
                    let second = analyze(code, first.used, Seq::empty(), b);
                    &&& both.used == second.used
                    &&& both.outcome == after_items(items, second.outcome)
                },
                Err(_) => both == first,
            }
        }),
{
    lemma_analyze_concat(code, used, Seq::empty(), a, b);
    let first = analyze(code, used, Seq::empty(), a);
    if first.outcome is Ok {
        lemma_analyze_items(code, first.used, first.outcome->Ok_0, b);
    }
}

} // verus!
