//! A loaded module: its source and what is known about it.
use crate::imports::{ImportedItem, Imports, ImportsView, ItemView};
use crate::syntax::{DeclView, Ident, IdentView, ModulePath, PathView, TranslationUnit, UnitView};
use crate::table::{
    by_id, distinct_keys, find, insert, lemma_by_id, lemma_insert_distinct, lookup, put,
};
use crate::views::{group_views, opt_view, views};
use std::collections::HashSet;
use vstd::prelude::*;

verus! {

broadcast use group_views;

/// A module that takes part in a resolution.
#[derive(Debug)]
pub struct Module {
    pub source: TranslationUnit,
    pub path: ModulePath,
    /// The declared identifiers, each with the position of its declaration.
    pub idents: Vec<(Ident, usize)>,
    /// The declared identifiers that are used and whose declarations have been analyzed.
    pub used_idents: HashSet<u64>,
    pub imports: Imports,
}

/// What a module says: everything but what is used of it.
pub ghost struct CodeView {
    pub source: UnitView,
    pub path: PathView,
    pub imports: ImportsView,
}

pub ghost struct ModuleView {
    pub code: CodeView,
    pub used: Set<u64>,
}

impl View for Module {
    type V = ModuleView;

    open spec fn view(&self) -> ModuleView {
        ModuleView {
            code: CodeView {
                source: self.source@,
                path: self.path@,
                imports: views(self.imports@),
            },
            used: self.used_idents@,
        }
    }
}

/// The declared identifiers of a list of declarations, each with the position of its
/// (last) declaration.
pub open spec fn decl_index(decls: Seq<DeclView>) -> Seq<(IdentView, usize)>
    decreases decls.len(),
{
    if decls.len() == 0 {
        Seq::empty()
    } else {
        match decls.last().ident() {
            Some(ident) => insert(
                decl_index(decls.drop_last()),
                ident,
                (decls.len() - 1) as usize,
            ),
            None => decl_index(decls.drop_last()),
        }
    }
}

impl CodeView {
    /// The declared identifiers, each with the position of its declaration.
    pub open spec fn idents(self) -> Seq<(IdentView, usize)> {
        decl_index(self.source.declarations)
    }

    /// The declaration that an identifier means in this module.
    pub open spec fn find_decl(self, ident: IdentView) -> Option<(IdentView, usize)> {
        lookup(self.idents(), ident)
    }

    /// The import that an identifier means in this module.
    pub open spec fn find_import(self, ident: IdentView) -> Option<(IdentView, ItemView)> {
        lookup(self.imports, ident)
    }

    /// Whether the identifier numbered `id` is declared in this module.
    pub open spec fn declares(self, id: u64) -> bool {
        by_id(self.idents(), id) is Some
    }
}

impl Module {
    /// The tables agree with the source.
    pub open spec fn wf(self) -> bool {
        &&& views(self.idents@) == self@.code.idents()
        &&& distinct_keys(views(self.imports@))
    }
}

/// Every entry of the index leads to a declaration of its key, no key occurs twice, and
/// every declared identifier has an entry.
pub proof fn lemma_decl_index(decls: Seq<DeclView>)
    requires
        decls.len() <= usize::MAX,
    ensures
        distinct_keys(decl_index(decls)),
        forall|i: int|
            0 <= i < decl_index(decls).len() ==> {
                let (key, n) = #[trigger] decl_index(decls)[i];
                n < decls.len() && decls[n as int].declares(key.id)
            },
        forall|n: int|
            0 <= n < decls.len() && (#[trigger] decls[n]).ident() is Some ==> by_id(
                decl_index(decls),
                decls[n].ident()->0.id,
            ) is Some,
    decreases decls.len(),
{
    if decls.len() > 0 {
        let prev = decl_index(decls.drop_last());
        let res = decl_index(decls);
        lemma_decl_index(decls.drop_last());
        if decls.last().ident() is Some {
            let ident = decls.last().ident()->0;
            lemma_insert_distinct(prev, ident, (decls.len() - 1) as usize);
            lemma_by_id(prev, ident.id);
        }
        assert forall|i: int| 0 <= i < res.len() implies {
            let (key, n) = #[trigger] res[i];
            n < decls.len() && decls[n as int].declares(key.id)
        } by {
            if i < prev.len() {
                let (key, n) = prev[i];
                assert(decls.drop_last()[n as int].declares(key.id));
            }
        }
        assert forall|n: int|
            0 <= n < decls.len() && (#[trigger] decls[n]).ident() is Some implies by_id(
            res,
            decls[n].ident()->0.id,
        ) is Some by {
            let id = decls[n].ident()->0.id;
            lemma_by_id(res, id);
            lemma_by_id(prev, id);
            if n < decls.len() - 1 {
                assert(decls.drop_last()[n] == decls[n]);
                let k = choose|k: int|
                    0 <= k < prev.len() && #[trigger] prev[k] == by_id(prev, id)->0;
                assert(res[k].0.id == id);
            } else {
                if by_id(prev, id) is Some {
                    let k = choose|k: int|
                        0 <= k < prev.len() && #[trigger] prev[k] == by_id(prev, id)->0;
                    assert(res[k].0.id == id);
                } else {
                    assert(res[res.len() - 1].0.id == id);
                }
            }
        }
    }
}

impl Module {
    /// A module with an index of its declarations, of which nothing is used yet.
    pub fn new(source: TranslationUnit, path: ModulePath) -> (res: Self)
        ensures
            res.wf(),
            res@ == (ModuleView {
                code: CodeView { source: source@, path: path@, imports: Seq::empty() },
                used: Set::empty(),
            }),
    {
        let mut idents: Vec<(Ident, usize)> = Vec::new();
        assert(views(idents@) =~= Seq::empty());
        let decls = &source.global_declarations;
        let mut i: usize = 0;
        while i < decls.len()
            invariant
                i <= decls@.len(),
                views(idents@) == decl_index(views(decls@).take(i as int)),
                distinct_keys(views(idents@)),
            decreases decls@.len() - i,
        {
            proof {
                let next = views(decls@).take(i + 1);
                assert(next.drop_last() =~= views(decls@).take(i as int));
                assert(next.last() == decls@[i as int]@);
            }
            if let Some(ident) = decls[i].ident() {
                put(&mut idents, ident.clone(), i);
            }
            i += 1;
        }
        assert(views(decls@).take(i as int) =~= views(decls@));
        let imports: Imports = Vec::new();
        assert(views(imports@) =~= Seq::empty());
        Module { source, path, idents, used_idents: HashSet::new(), imports }
    }

    /// Finds the declaration that `ident` means: its own, or else the first of the same
    /// name. The result is the declared identifier and the position of the declaration.
    pub fn find_decl(&self, ident: &Ident) -> (res: Option<(&Ident, usize)>)
        requires
            self.wf(),
        ensures
            opt_view(res) == self@.code.find_decl(ident@),
    {
        match find(&self.idents, ident) {
            Some(entry) => Some((&entry.0, entry.1)),
            None => None,
        }
    }

    /// Finds the import that `ident` means: its own, or else the first of the same name.
    pub fn find_import(&self, ident: &Ident) -> (res: Option<(&Ident, &ImportedItem)>)
        ensures
            opt_view(res) == self@.code.find_import(ident@),
    {
        match find(&self.imports, ident) {
            Some(entry) => Some((&entry.0, &entry.1)),
            None => None,
        }
    }
}

} // verus!
