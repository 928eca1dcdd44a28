//! Assembling the modules of a resolution into one.
use crate::module::{Module, ModuleView};
use crate::path::strings_equal;
use crate::resolutions::{Resolutions, ResolutionsView};
use crate::syntax::{
    Attribute, DeclView, DirectiveKind, DirectiveView, GlobalDeclaration, GlobalDirective,
    ImportStatement, StatementView, TranslationUnit, UnitView,
};
use crate::views::{group_views, views};
use vstd::prelude::*;

verus! {

broadcast use {group_views, vstd::std_specs::hash::group_hash_axioms};

impl DeclView {
    /// Whether the declaration survives stripping: it is a `const_assert`, or it declares a
    /// used identifier.
    pub open spec fn is_kept(self, used: Set<u64>) -> bool {
        self.kind is ConstAssert || (self.ident() matches Some(ident) && used.contains(ident.id))
    }
}

/// The declarations that survive, in source order. Without stripping, all do.
pub open spec fn kept_decls(decls: Seq<DeclView>, used: Set<u64>, strip: bool) -> Seq<DeclView>
    decreases decls.len(),
{
    if decls.len() == 0 {
        Seq::empty()
    } else if !strip || decls.last().is_kept(used) {
        kept_decls(decls.drop_last(), used, strip).push(decls.last())
    } else {
        kept_decls(decls.drop_last(), used, strip)
    }
}

/// The surviving declarations of several modules, one module after the other.
pub open spec fn all_decls(modules: Seq<ModuleView>, strip: bool) -> Seq<DeclView>
    decreases modules.len(),
{
    if modules.len() == 0 {
        Seq::empty()
    } else {
        all_decls(modules.drop_last(), strip) + kept_decls(
            modules.last().code.source.declarations,
            modules.last().used,
            strip,
        )
    }
}

/// The directives of several modules, one module after the other.
pub open spec fn all_directives(modules: Seq<ModuleView>) -> Seq<DirectiveView>
    decreases modules.len(),
{
    if modules.len() == 0 {
        Seq::empty()
    } else {
        all_directives(modules.drop_last()) + modules.last().code.source.directives
    }
}

/// A sequence without the elements that are equal to the one just before them.
pub open spec fn dedup(s: Seq<DirectiveView>) -> Seq<DirectiveView>
    decreases s.len(),
{
    if s.len() <= 1 {
        s
    } else if s[s.len() - 2] == s.last() {
        dedup(s.drop_last())
    } else {
        dedup(s.drop_last()).push(s.last())
    }
}

impl ResolutionsView {
    /// All declarations and directives in a single module.
    pub open spec fn assembled(self, strip: bool) -> UnitView {
        UnitView {
            imports: Seq::empty(),
            directives: dedup(all_directives(self.in_order())),
            declarations: all_decls(self.in_order(), strip),
        }
    }
}

/// Whether two lists of attributes are the same.
fn attributes_equal(a: &Vec<Attribute>, b: &Vec<Attribute>) -> (res: bool)
    ensures
        res == (a@ == b@),
{
    if a.len() != b.len() {
        return false;
    }
    let mut i: usize = 0;
    while i < a.len()
        invariant
            i <= a@.len(),
            a@.len() == b@.len(),
            forall|j: int| 0 <= j < i ==> a@[j] == b@[j],
        decreases a@.len() - i,
    {
        if a[i] != b[i] {
            return false;
        }
        i += 1;
    }
    assert(a@ =~= b@);
    true
}

impl GlobalDirective {
    /// Whether two directives are the same.
    pub fn equals(&self, other: &GlobalDirective) -> (res: bool)
        ensures
            res == (self@ == other@),
    {
        attributes_equal(&self.attributes, &other.attributes) && match (&self.kind, &other.kind) {
            (DirectiveKind::Diagnostic(s, a), DirectiveKind::Diagnostic(t, b)) => *s == *t && *a
                == *b,
            (DirectiveKind::Enable(a), DirectiveKind::Enable(b)) => strings_equal(a, b),
            (DirectiveKind::Requires(a), DirectiveKind::Requires(b)) => strings_equal(a, b),
            _ => false,
        }
    }
}

/// Appends the surviving declarations of a module.
fn extend_decls(
    res: &mut Vec<GlobalDeclaration>,
    module: &Module,
    strip: bool,
)
    ensures
        views(final(res)@) == views(old(res)@) + kept_decls(
            module@.code.source.declarations,
            module@.used,
            strip,
        ),
{
    let ghost before = views(res@);
    let decls = &module.source.global_declarations;
    let ghost used = module@.used;
    let mut i: usize = 0;
    assert(before + kept_decls(views(decls@).take(0), used, strip) =~= before);
    while i < decls.len()
        invariant
            i <= decls@.len(),
            used == module.used_idents@,
            views(res@) == before + kept_decls(views(decls@).take(i as int), used, strip),
        decreases decls@.len() - i,
    {
        let decl = &decls[i];
        proof {
            let next = views(decls@).take(i + 1);
            assert(next.drop_last() =~= views(decls@).take(i as int));
            assert(next.last() == decl@);
        }
        let keep = !strip || decl.is_const_assert() || match decl.ident() {
            Some(ident) => module.used_idents.contains(&ident.id),
            None => false,
        };
        if keep {
            res.push(decl.clone());
            assert(views(res@) =~= before + kept_decls(views(decls@).take(i + 1), used, strip));
        }
        i += 1;
    }
    assert(views(decls@).take(i as int) =~= views(decls@));
}

/// Appends copies of directives.
fn extend_directives(res: &mut Vec<GlobalDirective>, more: &Vec<GlobalDirective>)
    ensures
        views(final(res)@) == views(old(res)@) + views(more@),
{
    let ghost before = views(res@);
    let mut i: usize = 0;
    assert(before + views(more@).take(0) =~= before);
    while i < more.len()
        invariant
            i <= more@.len(),
            views(res@) == before + views(more@).take(i as int),
        decreases more@.len() - i,
    {
        res.push(more[i].clone());
        assert(views(res@) =~= before + views(more@).take(i + 1));
        i += 1;
    }
    assert(views(more@).take(i as int) =~= views(more@));
}

/// Copies directives, except those that are equal to the one just before them.
fn dedup_directives(directives: &Vec<GlobalDirective>) -> (res: Vec<GlobalDirective>)
    ensures
        views(res@) == dedup(views(directives@)),
{
    let mut res: Vec<GlobalDirective> = Vec::new();
    let ghost all = views(directives@);
    let mut i: usize = 0;
    assert(views(res@) =~= dedup(all.take(0)));
    while i < directives.len()
        invariant
            i <= directives@.len(),
            all == views(directives@),
            views(res@) == dedup(all.take(i as int)),
        decreases directives@.len() - i,
    {
        proof {
            let next = all.take(i + 1);
            assert(next.drop_last() =~= all.take(i as int));
            assert(next.last() == directives@[i as int]@);
            if i > 0 {
                assert(next[next.len() - 2] == directives@[i - 1]@);
            } else {
                assert(next =~= all.take(0).push(next.last()));
            }
        }
        if i == 0 || !directives[i].equals(&directives[i - 1]) {
            res.push(directives[i].clone());
        }
        i += 1;
    }
    assert(all.take(i as int) =~= all);
    res
}

impl Resolutions {
    /// Merges all declarations into a single module. If the `strip` flag is set, it will
    /// copy over only used declarations.
    pub fn assemble(&self, strip: bool) -> (res: TranslationUnit)
        requires
            self.wf(),
        ensures
            res@ == self@.assembled(strip),
    {
        let modules = self.modules();
        let ghost all = self@.in_order();
        let mut global_declarations: Vec<GlobalDeclaration> = Vec::new();
        let mut global_directives: Vec<GlobalDirective> = Vec::new();
        let mut i: usize = 0;
        proof {
            assert(views(global_declarations@) =~= all_decls(all.take(0), strip));
            assert(views(global_directives@) =~= all_directives(all.take(0)));
        }
        while i < modules.len()
            invariant
                i <= modules@.len(),
                all == views(modules@),
                views(global_declarations@) == all_decls(all.take(i as int), strip),
                views(global_directives@) == all_directives(all.take(i as int)),
            decreases modules@.len() - i,
        {
            proof {
                let next = all.take(i + 1);
                assert(next.drop_last() =~= all.take(i as int));
                assert(next.last() == modules@[i as int]@);
            }
            extend_decls(&mut global_declarations, modules[i], strip);
            extend_directives(&mut global_directives, &modules[i].source.global_directives);
            i += 1;
        }
        assert(all.take(i as int) =~= all);
        let imports: Vec<ImportStatement> = Vec::new();
        assert(views(imports@) =~= Seq::<StatementView>::empty());
        TranslationUnit {
            imports,
            global_directives: dedup_directives(&global_directives),
            global_declarations,
        }
    }
}

} // verus!
