//! What holds of the outcome of every resolution: what is stripped, how it is named.
use crate::assemble::{all_decls, all_directives, dedup, kept_decls};
use crate::mangle::{
    decl_targets, lemma_renamed_id, mangle_targets, mangled, Mangler, RenamesView,
};
use crate::module::ModuleView;
use crate::resolutions::ResolutionsView;
use crate::syntax::{DeclView, DirectiveView, IdentView, KindView, PathView, TypeView};
use crate::usage::post_orders;
use crate::usage_laws::lemma_mapped_orders;
use vstd::prelude::*;

verus! {

/// Stripping leaves the declarations that are used and the `const_assert`s, in their order,
/// and drops all others. Without stripping every declaration is left.
pub proof fn law_stripping_drops_what_is_unused(decls: Seq<DeclView>, used: Set<u64>)
    ensures
        kept_decls(decls, used, true) == decls.filter(|decl: DeclView| decl.is_kept(used)),
        kept_decls(decls, used, false) == decls,
    decreases decls.len(),
{
    reveal(Seq::filter);
    if decls.len() > 0 {
        law_stripping_drops_what_is_unused(decls.drop_last(), used);
        assert(decls.drop_last().push(decls.last()) =~= decls);
    }
}

proof fn lemma_kept_contains(decls: Seq<DeclView>, used: Set<u64>, strip: bool, n: int)
    requires
        0 <= n < decls.len(),
        !strip || decls[n].is_kept(used),
    ensures
        kept_decls(decls, used, strip).contains(decls[n]),
    decreases decls.len(),
{
    let prev = kept_decls(decls.drop_last(), used, strip);
    let res = kept_decls(decls, used, strip);
    if n < decls.len() - 1 {
        lemma_kept_contains(decls.drop_last(), used, strip, n);
        assert(decls.drop_last()[n] == decls[n]);
        let j = choose|j: int| 0 <= j < prev.len() && prev[j] == decls[n];
        assert(res[j] == decls[n]);
    } else {
        assert(res[prev.len() as int] == decls[n]);
    }
}

/// A declaration that survives in its module is in the output.
pub proof fn lemma_all_contains(modules: Seq<ModuleView>, strip: bool, i: int, n: int)
    requires
        0 <= i < modules.len(),
        0 <= n < modules[i].code.source.declarations.len(),
        !strip || modules[i].code.source.declarations[n].is_kept(modules[i].used),
    ensures
        all_decls(modules, strip).contains(modules[i].code.source.declarations[n]),
    decreases modules.len(),
{
    let prev = all_decls(modules.drop_last(), strip);
    let last = kept_decls(
        modules.last().code.source.declarations,
        modules.last().used,
        strip,
    );
    let decl = modules[i].code.source.declarations[n];
    let res = all_decls(modules, strip);
    assert(res == prev + last);
    if i < modules.len() - 1 {
        assert(modules.drop_last()[i] == modules[i]);
        lemma_all_contains(modules.drop_last(), strip, i, n);
        let j = choose|j: int| 0 <= j < prev.len() && prev[j] == decl;
        assert(res[j] == decl);
    } else {
        lemma_kept_contains(modules[i].code.source.declarations, modules[i].used, strip, n);
        let j = choose|j: int| 0 <= j < last.len() && last[j] == decl;
        assert(res[prev.len() + j] == decl);
    }
}

/// Module-scope `const_assert`s are always part of the output, stripped or not.
pub proof fn law_const_asserts_survive(
    resolutions: ResolutionsView,
    strip: bool,
    i: int,
    n: int,
)
    requires
        0 <= i < resolutions.order.len(),
        0 <= n < resolutions.module(resolutions.order[i]).code.source.declarations.len(),
        resolutions.module(
            resolutions.order[i],
        ).code.source.declarations[n].kind is ConstAssert,
    ensures
        resolutions.assembled(strip).declarations.contains(
            resolutions.module(resolutions.order[i]).code.source.declarations[n],
        ),
{
    let modules = resolutions.in_order();
    assert(modules[i] == resolutions.module(resolutions.order[i]));
    lemma_all_contains(modules, strip, i, n);
}

proof fn lemma_dedup(s: Seq<DirectiveView>)
    ensures
        s.len() > 0 ==> dedup(s).len() > 0 && dedup(s).last() == s.last(),
        forall|k: int| 0 < k < dedup(s).len() ==> #[trigger] dedup(s)[k] != dedup(s)[k - 1],
        forall|x: DirectiveView| #[trigger] dedup(s).contains(x) <==> s.contains(x),
    decreases s.len(),
{
    if s.len() > 1 {
        let rest = s.drop_last();
        let prev = dedup(rest);
        let res = dedup(s);
        lemma_dedup(rest);
        assert(rest.last() == s[s.len() - 2]);
        assert forall|x: DirectiveView| #[trigger] res.contains(x) <==> s.contains(x) by {
            if s.contains(x) {
                let j = choose|j: int| 0 <= j < s.len() && s[j] == x;
                if j < rest.len() {
                    assert(rest[j] == x);
                } else {
                    assert(res.last() == x);
                    assert(res[res.len() - 1] == x);
                }
                if rest.contains(x) {
                    assert(prev.contains(x));
                    let k = choose|k: int| 0 <= k < prev.len() && prev[k] == x;
                    assert(res[k] == x);
                }
            }
            if res.contains(x) {
                let k = choose|k: int| 0 <= k < res.len() && res[k] == x;
                if k < prev.len() {
                    assert(prev[k] == x);
                    assert(prev.contains(x));
                    let j = choose|j: int| 0 <= j < rest.len() && rest[j] == x;
                    assert(s[j] == x);
                } else {
                    assert(s[s.len() - 1] == x);
                }
            }
        }
    }
}

/// The output has the directives of all modules, and no directive right after an equal one.
pub proof fn law_directives_are_merged(resolutions: ResolutionsView, strip: bool)
    ensures
        ({
            let directives = resolutions.assembled(strip).directives;
            &&& forall|k: int|
                0 < k < directives.len() ==> #[trigger] directives[k] != directives[k - 1]
            &&& forall|x: DirectiveView| #[trigger]
                directives.contains(x) <==> all_directives(resolutions.in_order()).contains(x)
        }),
{
    lemma_dedup(all_directives(resolutions.in_order()));
}

/// Every directive of every module in the order is in the output.
pub proof fn law_every_directive_is_in_the_output(
    resolutions: ResolutionsView,
    strip: bool,
    i: int,
    m: int,
)
    requires
        0 <= i < resolutions.order.len(),
        0 <= m < resolutions.in_order()[i].code.source.directives.len(),
    ensures
        resolutions.assembled(strip).directives.contains(
            resolutions.in_order()[i].code.source.directives[m],
        ),
{
    let modules = resolutions.in_order();
    law_directives_are_merged(resolutions, strip);
    lemma_all_directives(modules, i, m);
}

proof fn lemma_all_directives(modules: Seq<ModuleView>, i: int, m: int)
    requires
        0 <= i < modules.len(),
        0 <= m < modules[i].code.source.directives.len(),
    ensures
        all_directives(modules).contains(modules[i].code.source.directives[m]),
    decreases modules.len(),
{
    let rest = modules.drop_last();
    let prev = all_directives(rest);
    let directive = modules[i].code.source.directives[m];
    if i < rest.len() {
        assert(rest[i] == modules[i]);
        lemma_all_directives(rest, i, m);
        let k = choose|k: int| 0 <= k < prev.len() && prev[k] == directive;
        assert(all_directives(modules)[k] == directive);
    } else {
        assert(all_directives(modules)[prev.len() + m] == directive);
    }
}

/// Every directive of the output is one of a module in the order.
pub proof fn law_no_directive_is_made_up(resolutions: ResolutionsView, strip: bool, k: int) -> (i:
    int)
    requires
        0 <= k < resolutions.assembled(strip).directives.len(),
    ensures
        0 <= i < resolutions.order.len(),
        resolutions.in_order()[i].code.source.directives.contains(
            resolutions.assembled(strip).directives[k],
        ),
{
    let modules = resolutions.in_order();
    let directive = resolutions.assembled(strip).directives[k];
    law_directives_are_merged(resolutions, strip);
    assert(resolutions.assembled(strip).directives.contains(directive));
    let j = choose|j: int|
        0 <= j < all_directives(modules).len() && all_directives(modules)[j] == directive;
    lemma_module_of_directive(modules, j)
}

proof fn lemma_module_of_directive(modules: Seq<ModuleView>, k: int) -> (i: int)
    requires
        0 <= k < all_directives(modules).len(),
    ensures
        0 <= i < modules.len(),
        modules[i].code.source.directives.contains(all_directives(modules)[k]),
    decreases modules.len(),
{
    let rest = modules.drop_last();
    let prev = all_directives(rest);
    if k < prev.len() {
        let i = lemma_module_of_directive(rest, k);
        assert(rest[i] == modules[i]);
        i
    } else {
        let last = modules.last().code.source.directives;
        assert(last[k - prev.len()] == all_directives(modules)[k]);
        modules.len() - 1
    }
}

/// A directive right after an equal one is dropped, whatever module it is from, and no other
/// directive is.
pub proof fn law_only_repeated_directives_are_dropped(
    directives: Seq<DirectiveView>,
    next: DirectiveView,
)
    ensures
        dedup(Seq::empty()) == Seq::<DirectiveView>::empty(),
        directives.len() > 0 && directives.last() == next ==> dedup(directives.push(next))
            == dedup(directives),
        directives.len() == 0 || directives.last() != next ==> dedup(directives.push(next))
            == dedup(directives).push(next),
{
    let more = directives.push(next);
    assert(more.drop_last() =~= directives);
    if directives.len() > 0 {
        assert(more[more.len() - 2] == directives.last());
    } else {
        assert(dedup(directives).push(next) =~= more);
    }
}

/// A declaration of a module in the order is in the output, unless it is to be stripped: unless
/// stripping is on, it is no `const_assert`, and it declares nothing that is used.
pub proof fn law_declarations_are_in_the_output(
    resolutions: ResolutionsView,
    strip: bool,
    i: int,
    n: int,
)
    requires
        0 <= i < resolutions.order.len(),
        0 <= n < resolutions.in_order()[i].code.source.declarations.len(),
        ({
            let module = resolutions.in_order()[i];
            let kind = module.code.source.declarations[n].kind;
            !strip || kind is ConstAssert || (kind matches KindView::Named(ident)
                && module.used.contains(ident.id))
        }),
    ensures
        resolutions.assembled(strip).declarations.contains(
            resolutions.in_order()[i].code.source.declarations[n],
        ),
{
    lemma_all_contains(resolutions.in_order(), strip, i, n);
}

/// Every declaration of the output is one of a module in the order. If stripping is on, it is a
/// `const_assert` or declares something that is used there.
pub proof fn law_no_declaration_is_made_up(resolutions: ResolutionsView, strip: bool, k: int) -> (
    place: (int, int))
    requires
        0 <= k < resolutions.assembled(strip).declarations.len(),
    ensures
        0 <= place.0 < resolutions.order.len(),
        0 <= place.1 < resolutions.in_order()[place.0].code.source.declarations.len(),
        ({
            let module = resolutions.in_order()[place.0];
            let decl = module.code.source.declarations[place.1];
            &&& resolutions.assembled(strip).declarations[k] == decl
            &&& strip ==> decl.kind is ConstAssert || (decl.kind matches KindView::Named(ident)
                && module.used.contains(ident.id))
        }),
{
    lemma_module_of_decl(resolutions.in_order(), strip, k)
}

proof fn lemma_kept_decl(decls: Seq<DeclView>, used: Set<u64>, strip: bool, k: int) -> (n: int)
    requires
        0 <= k < kept_decls(decls, used, strip).len(),
    ensures
        0 <= n < decls.len(),
        kept_decls(decls, used, strip)[k] == decls[n],
        strip ==> decls[n].is_kept(used),
    decreases decls.len(),
{
    let rest = decls.drop_last();
    if k < kept_decls(rest, used, strip).len() {
        let n = lemma_kept_decl(rest, used, strip, k);
        assert(rest[n] == decls[n]);
        n
    } else {
        decls.len() - 1
    }
}

proof fn lemma_module_of_decl(modules: Seq<ModuleView>, strip: bool, k: int) -> (place: (int, int))
    requires
        0 <= k < all_decls(modules, strip).len(),
    ensures
        0 <= place.0 < modules.len(),
        0 <= place.1 < modules[place.0].code.source.declarations.len(),
        all_decls(modules, strip)[k] == modules[place.0].code.source.declarations[place.1],
        strip ==> modules[place.0].code.source.declarations[place.1].is_kept(
            modules[place.0].used,
        ),
    decreases modules.len(),
{
    let rest = modules.drop_last();
    let prev = all_decls(rest, strip);
    if k < prev.len() {
        let place = lemma_module_of_decl(rest, strip, k);
        assert(rest[place.0] == modules[place.0]);
        place
    } else {
        let last = modules.last();
        let n = lemma_kept_decl(
            last.code.source.declarations,
            last.used,
            strip,
            k - prev.len(),
        );
        (modules.len() - 1, n)
    }
}

/// The output of more modules is that of the first ones followed by that of the others: no
/// declaration is moved, repeated or lost. The output of a single module is what is left of its
/// declarations, in source order. No output has imports.
pub proof fn law_modules_are_put_together_in_order(
    modules: Seq<ModuleView>,
    a: Seq<PathView>,
    b: Seq<PathView>,
    path: PathView,
    strip: bool,
)
    ensures
        (ResolutionsView { modules, order: a + b }).assembled(strip).declarations == (
        ResolutionsView { modules, order: a }).assembled(strip).declarations + (ResolutionsView {
            modules,
            order: b,
        }).assembled(strip).declarations,
        ({
            let single = ResolutionsView { modules, order: seq![path] };
            let module = single.module(path);
            let decls = module.code.source.declarations;
            single.assembled(strip).declarations == if strip {
                decls.filter(
                    |decl: DeclView|
                        decl.kind is ConstAssert || (decl.kind matches KindView::Named(ident)
                            && module.used.contains(ident.id)),
                )
            } else {
                decls
            }
        }),
        (ResolutionsView { modules, order: a }).assembled(strip).imports.len() == 0,
{
    let first = ResolutionsView { modules, order: a };
    let second = ResolutionsView { modules, order: b };
    let both = ResolutionsView { modules, order: a + b };
    assert(both.in_order() =~= first.in_order() + second.in_order());
    lemma_all_decls_concat(first.in_order(), second.in_order(), strip);
    let single = ResolutionsView { modules, order: seq![path] };
    let module = single.module(path);
    let decls = module.code.source.declarations;
    let only = single.in_order();
    assert(only =~= seq![module]);
    assert(only.drop_last() =~= Seq::empty());
    assert(all_decls(only.drop_last(), strip) =~= Seq::empty());
    assert(all_decls(only, strip) =~= kept_decls(decls, module.used, strip));
    law_stripping_drops_what_is_unused(decls, module.used);
    let keeps = |decl: DeclView|
        decl.kind is ConstAssert || (decl.kind matches KindView::Named(ident)
            && module.used.contains(ident.id));
    assert(keeps =~= |decl: DeclView| decl.is_kept(module.used));
}

proof fn lemma_all_decls_concat(a: Seq<ModuleView>, b: Seq<ModuleView>, strip: bool)
    ensures
        all_decls(a + b, strip) == all_decls(a, strip) + all_decls(b, strip),
    decreases b.len(),
{
    if b.len() == 0 {
        assert(a + b =~= a);
        assert(all_decls(a, strip) + all_decls(b, strip) =~= all_decls(a, strip));
    } else {
        lemma_all_decls_concat(a, b.drop_last(), strip);
        assert((a + b).drop_last() =~= a + b.drop_last());
        assert((a + b).last() == b.last());
        assert(all_decls(a + b, strip) =~= all_decls(a, strip) + all_decls(b, strip));
    }
}

/// The directives of the output are those of the modules, one module after the other and each
/// in source order, but for those that are dropped.
pub proof fn law_directives_are_put_together_in_order(
    modules: Seq<ModuleView>,
    order: Seq<PathView>,
    path: PathView,
    strip: bool,
)
    ensures
        (ResolutionsView { modules, order: Seq::empty() }).assembled(strip).directives.len() == 0,
        exists|gathered: Seq<DirectiveView>|
            {
                let single = ResolutionsView { modules, order: seq![path] };
                &&& (ResolutionsView { modules, order }).assembled(strip).directives
                    == #[trigger] dedup(gathered)
                &&& (ResolutionsView { modules, order: order.push(path) }).assembled(
                    strip,
                ).directives == dedup(gathered + single.module(path).code.source.directives)
            },
{
    let before = ResolutionsView { modules, order };
    let after = ResolutionsView { modules, order: order.push(path) };
    let single = ResolutionsView { modules, order: seq![path] };
    let none = ResolutionsView { modules, order: Seq::empty() };
    assert(none.in_order() =~= Seq::empty());
    assert(after.in_order() =~= before.in_order().push(single.module(path)));
    assert(after.in_order().drop_last() =~= before.in_order());
    let gathered = all_directives(before.in_order());
    assert(before.assembled(strip).directives == dedup(gathered));
}

/// Whether every identifier in a module is called what `name` says.
pub open spec fn module_named(module: ModuleView, name: spec_fn(u64) -> Seq<char>) -> bool {
    let decls = module.code.source.declarations;
    let imports = module.code.imports;
    &&& forall|n: int|
        0 <= n < decls.len() ==> ((#[trigger] decls[n]).ident() matches Some(ident) ==> ident.name
            == name(ident.id))
    &&& forall|n: int, k: int|
        0 <= n < decls.len() && 0 <= k < post_orders(decls[n].types).len() ==> (
        #[trigger] post_orders(decls[n].types)[k]).ident.name == name(
            post_orders(decls[n].types)[k].ident.id,
        )
    &&& forall|m: int|
        0 <= m < imports.len() ==> (#[trigger] imports[m]).0.name == name(imports[m].0.id)
            && imports[m].1.ident.name == name(imports[m].1.ident.id)
}

/// Whether every identifier in the modules is called what `name` says.
pub open spec fn named(modules: Seq<ModuleView>, name: spec_fn(u64) -> Seq<char>) -> bool {
    forall|i: int| 0 <= i < modules.len() ==> module_named(#[trigger] modules[i], name)
}

/// Renaming is consistent: where every occurrence of an identifier has the same name, in
/// whatever module, every occurrence has the same name afterwards. References follow the
/// declarations they point at.
pub proof fn law_renaming_is_consistent(
    resolutions: ResolutionsView,
    renames: RenamesView,
    name: spec_fn(u64) -> Seq<char>,
)
    requires
        named(resolutions.modules, name),
    ensures
        named(
            resolutions.renamed(renames).modules,
            |id: u64| (IdentView { id, name: name(id) }).renamed(renames).name,
        ),
{
    let after = resolutions.renamed(renames);
    let new_name = |id: u64| (IdentView { id, name: name(id) }).renamed(renames).name;
    assert forall|ident: IdentView| ident.name == name(ident.id) implies (#[trigger] ident.renamed(
        renames,
    )).name == new_name(ident.id) && ident.renamed(renames).id == ident.id by {
        assert(ident == IdentView { id: ident.id, name: name(ident.id) });
        lemma_renamed_id(ident, renames);
    }
    let rename = |t: TypeView| t.renamed(renames);
    assert forall|t: TypeView| (#[trigger] rename(t)).nested == t.nested.map_values(rename) by {
        assert(rename(t).nested =~= t.nested.map_values(rename));
    }
    assert forall|i: int| 0 <= i < after.modules.len() implies module_named(
        #[trigger] after.modules[i],
        new_name,
    ) by {
        let module = resolutions.modules[i];
        assert(module_named(module, name));
        let decls = module.code.source.declarations;
        let res = after.modules[i].code.source.declarations;
        let imports = module.code.imports;
        let new_imports = after.modules[i].code.imports;
        assert forall|n: int| 0 <= n < res.len() implies ((
        #[trigger] res[n]).ident() matches Some(ident) ==> ident.name == new_name(ident.id)) by {
            assert(res[n] == decls[n].renamed(renames));
            assert(decls[n].ident() matches Some(ident) ==> ident.name == name(ident.id));
        }
        assert forall|n: int, k: int|
            0 <= n < res.len() && 0 <= k < post_orders(res[n].types).len() implies (
        #[trigger] post_orders(res[n].types)[k]).ident.name == new_name(
            post_orders(res[n].types)[k].ident.id,
        ) by {
            lemma_mapped_orders(decls[n].types, rename);
            assert(res[n].types =~= decls[n].types.map_values(rename));
            let ty = post_orders(decls[n].types)[k];
            assert(post_orders(res[n].types)[k] == ty.renamed(renames));
            assert(ty.ident.name == name(ty.ident.id));
        }
        assert forall|m: int| 0 <= m < new_imports.len() implies (
        #[trigger] new_imports[m]).0.name == new_name(new_imports[m].0.id)
            && new_imports[m].1.ident.name == new_name(new_imports[m].1.ident.id) by {
            assert(imports[m].0.name == name(imports[m].0.id));
        }
    }
}

proof fn lemma_not_renamed(ident: IdentView, renames: RenamesView)
    requires
        forall|k: int| 0 <= k < renames.len() ==> (#[trigger] renames[k]).0 != ident.id,
    ensures
        ident.renamed(renames) == ident,
    decreases renames.len(),
{
    if renames.len() > 0 {
        assert(renames[renames.len() - 1].0 != ident.id);
        assert forall|k: int| 0 <= k < renames.drop_last().len() implies (
        #[trigger] renames.drop_last()[k]).0 != ident.id by {
            assert(renames.drop_last()[k] == renames[k]);
        }
        lemma_not_renamed(ident, renames.drop_last());
    }
}

proof fn lemma_decl_targets(decls: Seq<DeclView>, path: PathView, k: int)
    requires
        0 <= k < decl_targets(decls, path).len(),
    ensures
        exists|n: int|
            0 <= n < decls.len() && (#[trigger] decls[n]).declares(
                decl_targets(decls, path)[k].1.id,
            ),
    decreases decls.len(),
{
    let prev = decl_targets(decls.drop_last(), path);
    let id = decl_targets(decls, path)[k].1.id;
    if k < prev.len() {
        lemma_decl_targets(decls.drop_last(), path, k);
        let n = choose|n: int|
            0 <= n < decls.drop_last().len() && (#[trigger] decls.drop_last()[n]).declares(id);
        assert(decls[n].declares(id));
    } else {
        assert(decls[decls.len() - 1].declares(id));
    }
}

proof fn lemma_mangle_targets(modules: Seq<ModuleView>, root_path: PathView, k: int)
    requires
        0 <= k < mangle_targets(modules, root_path, false).len(),
    ensures
        exists|i: int, n: int|
            0 <= i < modules.len() && modules[i].code.path != root_path && 0 <= n
                < modules[i].code.source.declarations.len() && (
            #[trigger] modules[i].code.source.declarations[n]).declares(
                mangle_targets(modules, root_path, false)[k].1.id,
            ),
    decreases modules.len(),
{
    let prev = mangle_targets(modules.drop_last(), root_path, false);
    let id = mangle_targets(modules, root_path, false)[k].1.id;
    if k < prev.len() {
        lemma_mangle_targets(modules.drop_last(), root_path, k);
        let (i, n) = choose|i: int, n: int|
            0 <= i < modules.drop_last().len() && modules.drop_last()[i].code.path != root_path && 0
                <= n < modules.drop_last()[i].code.source.declarations.len() && (
            #[trigger] modules.drop_last()[i].code.source.declarations[n]).declares(id);
        assert(modules[i].code.source.declarations[n].declares(id));
    } else {
        let last = modules.last();
        lemma_decl_targets(last.code.source.declarations, last.code.path, k - prev.len());
        let n = choose|n: int|
            0 <= n < last.code.source.declarations.len() && (
            #[trigger] last.code.source.declarations[n]).declares(id);
        assert(modules[modules.len() - 1].code.source.declarations[n].declares(id));
    }
}

/// Mangling without the root module renames nothing but the declarations of the other
/// modules: an identifier that none of these declares keeps its name. So do the
/// declarations of the root module.
pub proof fn law_mangling_can_spare_the_root<M: Mangler>(
    mangler: &M,
    resolutions: ResolutionsView,
    root_path: PathView,
    renames: RenamesView,
    ident: IdentView,
)
    requires
        mangled(mangler, mangle_targets(resolutions.modules, root_path, false), renames, 0),
        forall|i: int, n: int|
            0 <= i < resolutions.modules.len() && resolutions.modules[i].code.path != root_path
                && 0 <= n < resolutions.modules[i].code.source.declarations.len() ==> !(
            #[trigger] resolutions.modules[i].code.source.declarations[n]).declares(ident.id),
    ensures
        ident.renamed(renames) == ident,
{
    let targets = mangle_targets(resolutions.modules, root_path, false);
    assert forall|k: int| 0 <= k < renames.len() implies (#[trigger] renames[k]).0 != ident.id by {
        assert(targets[k].1.id == renames[0 + k].0);
        lemma_mangle_targets(resolutions.modules, root_path, k);
    }
    lemma_not_renamed(ident, renames);
}

} // verus!
