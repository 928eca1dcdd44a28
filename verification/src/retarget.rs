//! Retargeting: making used identifiers point at the declarations they mean, in whatever
//! module these are.
use crate::error::{ImportError, ImportErrorView};
use crate::imports::{resolve_inline_path, ImportsView};
use crate::link::lemma_linked_index;
use crate::module::{CodeView, Module, ModuleView};
use crate::resolutions::{
    lemma_position, lemma_position_paths, position, Resolutions, ResolutionsView,
};
use crate::syntax::{
    DeclView, GlobalDeclaration, Ident, IdentView, ModulePath, PathView, TypeExpression, TypeView,
    UnitView,
};
use crate::table::{
    by_id, by_name, distinct_keys, find_by_id, find_by_name, lemma_by_id, lemma_by_name, lookup,
};
use crate::usage::{lemma_post_orders_concat, post_order, post_orders};
use crate::views::{group_views, opt_view, views};
use vstd::prelude::*;

verus! {

broadcast use {group_views, vstd::std_specs::hash::group_hash_axioms};

/// The declaration that `ident` means in the module at `path`, where at most `hops`
/// imports are followed from one module to the next.
pub open spec fn chase(
    modules: Seq<ModuleView>,
    path: PathView,
    ident: IdentView,
    hops: nat,
) -> Option<IdentView>
    decreases hops,
{
    match position(modules, path) {
        None => None,
        Some(i) => match modules[i].code.find_decl(ident) {
            Some((decl, _)) => Some(decl),
            None => match modules[i].code.find_import(ident) {
                None => None,
                Some((_, item)) => if hops == 0 {
                    None
                } else {
                    chase(modules, item.path, item.ident, (hops - 1) as nat)
                },
            },
        },
    }
}

/// The declaration that `ident` means in the module at `path`, if following the imports
/// leads to one.
pub open spec fn external_decl(
    modules: Seq<ModuleView>,
    path: PathView,
    ident: IdentView,
) -> Option<IdentView> {
    if exists|hops: nat| #[trigger] chase(modules, path, ident, hops) is Some {
        let hops = choose|hops: nat| #[trigger] chase(modules, path, ident, hops) is Some;
        chase(modules, path, ident, hops)
    } else {
        None
    }
}

/// A declaration that is found is found again when more imports may be followed.
pub proof fn lemma_chase_more(
    modules: Seq<ModuleView>,
    path: PathView,
    ident: IdentView,
    n: nat,
    m: nat,
)
    requires
        n <= m,
        chase(modules, path, ident, n) is Some,
    ensures
        chase(modules, path, ident, m) == chase(modules, path, ident, n),
    decreases n,
{
    let i = position(modules, path)->0;
    if modules[i].code.find_decl(ident) is None {
        let item = (modules[i].code.find_import(ident)->0).1;
        lemma_chase_more(modules, item.path, item.ident, (n - 1) as nat, (m - 1) as nat);
    }
}

/// A declaration that is found is the one that the identifier means.
pub proof fn lemma_external_decl(
    modules: Seq<ModuleView>,
    path: PathView,
    ident: IdentView,
    n: nat,
)
    requires
        chase(modules, path, ident, n) is Some,
    ensures
        external_decl(modules, path, ident) == chase(modules, path, ident, n),
{
    let hops = choose|hops: nat| #[trigger] chase(modules, path, ident, hops) is Some;
    if hops <= n {
        lemma_chase_more(modules, path, ident, hops, n);
    } else {
        lemma_chase_more(modules, path, ident, n, hops);
    }
}

/// A name in a module.
pub ghost struct Place {
    pub path: PathView,
    pub ident: IdentView,
}

/// The name in another module that stands for a name which is imported and not declared.
spec fn hop(modules: Seq<ModuleView>, place: Place) -> Option<Place> {
    match position(modules, place.path) {
        None => None,
        Some(i) => match modules[i].code.find_decl(place.ident) {
            Some(_) => None,
            None => match modules[i].code.find_import(place.ident) {
                None => None,
                Some((_, item)) => Some(Place { path: item.path, ident: item.ident }),
            },
        },
    }
}

/// Places that lead in a circle lead to no declaration.
proof fn lemma_circle(modules: Seq<ModuleView>, places: Seq<Place>, j: int, k: int, hops: nat)
    requires
        0 <= j <= k < places.len(),
        forall|x: int|
            0 <= x < places.len() - 1 ==> hop(modules, #[trigger] places[x]) == Some(places[x + 1]),
        hop(modules, places.last()) == Some(places[j]),
    ensures
        chase(modules, places[k].path, places[k].ident, hops) is None,
    decreases hops,
{
    assert(hop(modules, places[k]) is Some);
    if hops > 0 {
        if k < places.len() - 1 {
            lemma_circle(modules, places, j, k + 1, (hops - 1) as nat);
        } else {
            lemma_circle(modules, places, j, j, (hops - 1) as nat);
        }
    }
}

/// How many of the imports of the module at position `i` have not been visited.
spec fn unvisited_imports(imports: ImportsView, i: usize, visited: Seq<(usize, u64)>) -> nat
    decreases imports.len(),
{
    if imports.len() == 0 {
        0
    } else {
        unvisited_imports(imports.drop_last(), i, visited) + if visited.contains(
            (i, imports.last().0.id),
        ) {
            0nat
        } else {
            1nat
        }
    }
}

/// How many imports have not been visited.
spec fn unvisited(modules: Seq<ModuleView>, visited: Seq<(usize, u64)>) -> nat
    decreases modules.len(),
{
    if modules.len() == 0 {
        0
    } else {
        unvisited(modules.drop_last(), visited) + unvisited_imports(
            modules.last().code.imports,
            (modules.len() - 1) as usize,
            visited,
        )
    }
}

/// A visit leaves no more imports unvisited, and fewer if it is the first visit of one.
proof fn lemma_visit_imports(
    imports: ImportsView,
    i: usize,
    visited: Seq<(usize, u64)>,
    slot: (usize, u64),
)
    ensures
        unvisited_imports(imports, i, visited.push(slot)) <= unvisited_imports(imports, i, visited),
        !visited.contains(slot) && slot.0 == i && by_id(imports, slot.1) is Some
            ==> unvisited_imports(imports, i, visited.push(slot)) < unvisited_imports(
            imports,
            i,
            visited,
        ),
    decreases imports.len(),
{
    let after = visited.push(slot);
    assert forall|x: (usize, u64)| visited.contains(x) implies after.contains(x) by {
        let k = choose|k: int| 0 <= k < visited.len() && visited[k] == x;
        assert(after[k] == x);
    }
    assert(after[visited.len() as int] == slot);
    if imports.len() > 0 {
        lemma_visit_imports(imports.drop_last(), i, visited, slot);
    }
}

/// A visit leaves no more imports unvisited, and fewer if it is the first visit of one.
proof fn lemma_visit(modules: Seq<ModuleView>, visited: Seq<(usize, u64)>, slot: (usize, u64))
    requires
        modules.len() <= usize::MAX,
    ensures
        unvisited(modules, visited.push(slot)) <= unvisited(modules, visited),
        !visited.contains(slot) && slot.0 < modules.len() && by_id(
            modules[slot.0 as int].code.imports,
            slot.1,
        ) is Some ==> unvisited(modules, visited.push(slot)) < unvisited(modules, visited),
    decreases modules.len(),
{
    if modules.len() > 0 {
        lemma_visit(modules.drop_last(), visited, slot);
        lemma_visit_imports(
            modules.last().code.imports,
            (modules.len() - 1) as usize,
            visited,
            slot,
        );
        if slot.0 < modules.len() - 1 {
            assert(modules.drop_last()[slot.0 as int] == modules[slot.0 as int]);
        }
    }
}

/// The entry that an identifier means is the entry of its key.
proof fn lemma_entry(imports: ImportsView, ident: IdentView)
    requires
        distinct_keys(imports),
    ensures
        lookup(imports, ident) matches Some(e) ==> by_id(imports, e.0.id) == Some(e),
{
    lemma_by_id(imports, ident.id);
    lemma_by_name(imports, ident.name);
    if lookup(imports, ident) is Some {
        let e = lookup(imports, ident)->0;
        lemma_by_id(imports, e.0.id);
        let i = choose|i: int| 0 <= i < imports.len() && #[trigger] imports[i] == e;
        let f = by_id(imports, e.0.id)->0;
        let j = choose|j: int| 0 <= j < imports.len() && #[trigger] imports[j] == f;
        if i < j {
            assert(imports[i].0.id != imports[j].0.id);
        } else if j < i {
            assert(imports[j].0.id != imports[i].0.id);
        }
    }
}

/// Following the places is following the imports from the first one.
proof fn lemma_places(modules: Seq<ModuleView>, places: Seq<Place>, hops: nat)
    requires
        places.len() > 0,
        forall|x: int|
            0 <= x < places.len() - 1 ==> hop(modules, #[trigger] places[x]) == Some(places[x + 1]),
    ensures
        chase(modules, places[0].path, places[0].ident, hops) == if hops < places.len() - 1 {
            None
        } else {
            chase(
                modules,
                places.last().path,
                places.last().ident,
                (hops - (places.len() - 1)) as nat,
            )
        },
    decreases places.len(),
{
    if places.len() > 1 {
        assert(hop(modules, places[0]) == Some(places[1]));
        if hops > 0 {
            let rest = places.drop_first();
            assert forall|x: int| 0 <= x < rest.len() - 1 implies hop(modules, #[trigger] rest[x])
                == Some(rest[x + 1]) by {
                assert(rest[x] == places[x + 1]);
            }
            lemma_places(modules, rest, (hops - 1) as nat);
        }
    }
}

/// A place that is declared ends the search.
proof fn lemma_found(modules: Seq<ModuleView>, places: Seq<Place>)
    requires
        places.len() > 0,
        forall|x: int|
            0 <= x < places.len() - 1 ==> hop(modules, #[trigger] places[x]) == Some(places[x + 1]),
        chase(modules, places.last().path, places.last().ident, 0) is Some,
    ensures
        external_decl(modules, places[0].path, places[0].ident) == chase(
            modules,
            places.last().path,
            places.last().ident,
            0,
        ),
{
    let n = (places.len() - 1) as nat;
    lemma_places(modules, places, n);
    lemma_external_decl(modules, places[0].path, places[0].ident, n);
}

/// A place that is neither declared nor imported ends the search.
proof fn lemma_dead_end(modules: Seq<ModuleView>, places: Seq<Place>)
    requires
        places.len() > 0,
        forall|x: int|
            0 <= x < places.len() - 1 ==> hop(modules, #[trigger] places[x]) == Some(places[x + 1]),
        position(modules, places.last().path) matches Some(i) ==> modules[i].code.find_decl(
            places.last().ident,
        ) is None && modules[i].code.find_import(places.last().ident) is None,
    ensures
        external_decl(modules, places[0].path, places[0].ident) is None,
{
    assert forall|hops: nat| #[trigger]
        chase(modules, places[0].path, places[0].ident, hops) is None by {
        lemma_places(modules, places, hops);
    }
}

/// Places that end in a circle lead to no declaration.
proof fn lemma_circle_start(modules: Seq<ModuleView>, places: Seq<Place>, j: int, hops: nat)
    requires
        0 <= j < places.len(),
        forall|x: int|
            0 <= x < places.len() - 1 ==> hop(modules, #[trigger] places[x]) == Some(places[x + 1]),
        hop(modules, places.last()) == Some(places[j]),
    ensures
        chase(modules, places[0].path, places[0].ident, hops) is None,
{
    lemma_places(modules, places, hops);
    if hops >= places.len() - 1 {
        lemma_circle(
            modules,
            places,
            j,
            places.len() - 1,
            (hops - (places.len() - 1)) as nat,
        );
    }
}

/// Finds the visit of an import.
fn find_visit(visited: &Vec<(usize, u64)>, slot: (usize, u64)) -> (res: Option<usize>)
    ensures
        res matches Some(k) ==> k < visited@.len() && visited@[k as int] == slot,
        res is None ==> !visited@.contains(slot),
{
    let mut k: usize = 0;
    while k < visited.len()
        invariant
            k <= visited@.len(),
            forall|x: int| 0 <= x < k ==> visited@[x] != slot,
        decreases visited@.len() - k,
    {
        if visited[k].0 == slot.0 && visited[k].1 == slot.1 {
            return Some(k);
        }
        k += 1;
    }
    None
}

/// Finds the declaration that `src_id` means in the module at `src_path`. A name that is
/// not declared there can be a re-exported import, which is followed.
pub fn find_ext_ident(
    resolutions: &Resolutions,
    src_path: &ModulePath,
    src_id: &Ident,
) -> (res: Option<Ident>)
    requires
        resolutions.wf(),
    ensures
        opt_view(res) == external_decl(resolutions@.modules, src_path@, src_id@),
{
    let ghost modules = resolutions@.modules;
    let ghost start = Place { path: src_path@, ident: src_id@ };
    let ghost mut places: Seq<Place> = seq![start];
    let mut visited: Vec<(usize, u64)> = Vec::new();
    let mut path: &ModulePath = src_path;
    let mut ident: &Ident = src_id;
    assert(resolutions.modules.len() <= usize::MAX);
    loop
        invariant
            resolutions.wf(),
            modules == resolutions@.modules,
            modules.len() <= usize::MAX,
            start == (Place { path: src_path@, ident: src_id@ }),
            places.len() == visited@.len() + 1,
            places[0] == start,
            places.last() == (Place { path: path@, ident: ident@ }),
            forall|x: int|
                0 <= x < places.len() - 1 ==> hop(modules, #[trigger] places[x]) == Some(
                    places[x + 1],
                ),
            forall|x: int|
                0 <= x < visited@.len() ==> {
                    let slot = #[trigger] visited@[x];
                    position(modules, places[x].path) == Some(slot.0 as int) && (
                    modules[slot.0 as int].code.find_import(places[x].ident) matches Some((
                        key,
                        _,
                    )) && key.id == slot.1)
                },
        decreases unvisited(modules, visited@),
    {
        let n: usize = match resolutions.find(path) {
            Some(n) => n,
            None => {
                proof {
                    lemma_dead_end(modules, places);
                }
                return None;
            },
        };
        proof {
            lemma_position(modules, path@);
        }
        let module = &resolutions.modules[n];
        assert(resolutions.modules@[n as int].wf());
        if let Some((decl, _)) = module.find_decl(ident) {
            proof {
                lemma_found(modules, places);
            }
            return Some(decl.clone());
        }
        match module.find_import(ident) {
            None => {
                proof {
                    lemma_dead_end(modules, places);
                }
                return None;
            },
            Some((key, item)) => {
                let slot = (n, key.id);
                let seen = find_visit(&visited, slot);
                proof {
                    lemma_entry(modules[n as int].code.imports, ident@);
                }
                if let Some(k) = seen {
                    proof {
                        // the same import as at an earlier place: from here on it is a circle
                        let earlier = places[k as int];
                        assert(visited@[k as int] == slot);
                        lemma_entry(modules[n as int].code.imports, earlier.ident);
                        assert(hop(modules, places.last()) == Some(places[k + 1]));
                        assert forall|hops: nat| #[trigger]
                            chase(modules, start.path, start.ident, hops) is None by {
                            lemma_circle_start(modules, places, k + 1, hops);
                        }
                    }
                    return None;
                }
                proof {
                    lemma_visit(modules, visited@, slot);
                    places = places.push(Place { path: item.path@, ident: item.ident@ });
                }
                visited.push(slot);
                path = &item.path;
                ident = &item.ident;
            },
        }
    }
}

impl CodeView {
    /// The identifier that a type expression is to have: that of the declaration it refers
    /// to. `None` if the type expression is not imported and stays as it is.
    pub open spec fn retarget_ident(self, modules: Seq<ModuleView>, ty: TypeView) -> Result<
        Option<IdentView>,
        ImportErrorView,
    > {
        match self.target(ty) {
            None => Ok(None),
            Some((path, ident)) => {
                let decl = if path == self.path {
                    match by_name(self.idents(), ident.name) {
                        Some((decl, _)) => Some(decl),
                        None => None,
                    }
                } else {
                    external_decl(modules, path, ident)
                };
                match decl {
                    Some(decl) => Ok(Some(decl)),
                    None => Err(ImportErrorView::MissingDecl(path, ident.name)),
                }
            },
        }
    }

    /// The first error among type expressions.
    pub open spec fn retarget_error(self, modules: Seq<ModuleView>, types: Seq<TypeView>) -> Option<
        ImportErrorView,
    >
        decreases types.len(),
    {
        if types.len() == 0 {
            None
        } else if self.retarget_error(modules, types.drop_last()) is Some {
            self.retarget_error(modules, types.drop_last())
        } else {
            match self.retarget_ident(modules, types.last()) {
                Ok(_) => None,
                Err(e) => Some(e),
            }
        }
    }
}

impl TypeView {
    /// The type expression in the module `code`, and all that are nested in it, with the
    /// identifiers of the declarations they refer to in place of paths and imported names.
    pub open spec fn retargeted(self, code: CodeView, modules: Seq<ModuleView>) -> TypeView
        decreases self,
    {
        let nested = Seq::new(
            self.nested.len(),
            |i: int|
                if 0 <= i < self.nested.len() {
                    self.nested[i].retargeted(code, modules)
                } else {
                    arbitrary()
                },
        );
        match code.retarget_ident(modules, self) {
            Ok(Some(ident)) => TypeView { path: None, ident, local: self.local, nested },
            _ => TypeView { path: self.path, ident: self.ident, local: self.local, nested },
        }
    }
}

impl DeclView {
    /// Whether the declaration is used: an unnamed one always is.
    pub open spec fn is_used(self, used: Set<u64>) -> bool {
        self.ident() matches Some(ident) ==> used.contains(ident.id)
    }

    /// A declaration of the module `code` with its type expressions retargeted, if it is
    /// used. Other declarations are left alone.
    pub open spec fn retargeted(
        self,
        code: CodeView,
        used: Set<u64>,
        modules: Seq<ModuleView>,
    ) -> DeclView {
        if self.is_used(used) {
            DeclView {
                kind: self.kind,
                types: Seq::new(
                    self.types.len(),
                    |i: int| self.types[i].retargeted(code, modules),
                ),
                node: self.node,
            }
        } else {
            self
        }
    }
}

/// The type expressions of the used declarations, in resolution order.
pub open spec fn used_types(decls: Seq<DeclView>, used: Set<u64>) -> Seq<TypeView>
    decreases decls.len(),
{
    if decls.len() == 0 {
        Seq::empty()
    } else {
        used_types(decls.drop_last(), used) + if decls.last().is_used(used) {
            post_orders(decls.last().types)
        } else {
            Seq::empty()
        }
    }
}

impl ModuleView {
    /// The first error among the used declarations of the module.
    pub open spec fn retarget_error(self, modules: Seq<ModuleView>) -> Option<ImportErrorView> {
        self.code.retarget_error(modules, used_types(self.code.source.declarations, self.used))
    }

    /// The module with its used declarations retargeted.
    pub open spec fn retargeted(self, modules: Seq<ModuleView>) -> ModuleView {
        let decls = self.code.source.declarations;
        ModuleView {
            code: CodeView {
                source: UnitView {
                    imports: self.code.source.imports,
                    directives: self.code.source.directives,
                    declarations: Seq::new(
                        decls.len(),
                        |i: int| decls[i].retargeted(self.code, self.used, modules),
                    ),
                },
                path: self.code.path,
                imports: self.code.imports,
            },
            used: self.used,
        }
    }
}

/// The first error in a list of modules.
pub open spec fn first_retarget_error(
    some: Seq<ModuleView>,
    modules: Seq<ModuleView>,
) -> Option<ImportErrorView>
    decreases some.len(),
{
    if some.len() == 0 {
        None
    } else if first_retarget_error(some.drop_last(), modules) is Some {
        first_retarget_error(some.drop_last(), modules)
    } else {
        some.last().retarget_error(modules)
    }
}

impl ResolutionsView {
    /// The resolutions with every used declaration retargeted, or the first error.
    pub open spec fn retargeted(self) -> Result<ResolutionsView, ImportErrorView> {
        match first_retarget_error(self.modules, self.modules) {
            Some(e) => Err(e),
            None => Ok(
                ResolutionsView {
                    modules: Seq::new(
                        self.modules.len(),
                        |i: int| self.modules[i].retargeted(self.modules),
                    ),
                    order: self.order,
                },
            ),
        }
    }
}

/// The first error of two lists is that of the first one, or else of the second one.
pub proof fn lemma_retarget_error_concat(
    code: CodeView,
    modules: Seq<ModuleView>,
    a: Seq<TypeView>,
    b: Seq<TypeView>,
)
    ensures
        code.retarget_error(modules, a + b) == if code.retarget_error(modules, a) is Some {
            code.retarget_error(modules, a)
        } else {
            code.retarget_error(modules, b)
        },
    decreases b.len(),
{
    if b.len() == 0 {
        assert(a + b =~= a);
    } else {
        assert((a + b).drop_last() =~= a + b.drop_last());
        lemma_retarget_error_concat(code, modules, a, b.drop_last());
    }
}

/// The identifier that a type expression of `module` is to have, if it is imported.
fn retarget_ident(resolutions: &Resolutions, module: &Module, ty: &TypeExpression) -> (res: Result<
    Option<Ident>,
    ImportError,
>)
    requires
        resolutions.wf(),
        module.wf(),
    ensures
        match module@.code.retarget_ident(resolutions@.modules, ty@) {
            Ok(ident) => res matches Ok(r) && opt_view(r) == ident,
            Err(e) => res matches Err(err) && err@ == e,
        },
{
    let (ext_path, ext_id) = if let Some(path) = &ty.path {
        (resolve_inline_path(path, &module.path, &module.imports), &ty.ident)
    } else if let Some(entry) = find_by_id(&module.imports, ty.ident.id) {
        (entry.1.path.clone(), &entry.1.ident)
    } else {
        // points to a local decl, we stop here.
        return Ok(None);
    };
    let decl = if ext_path.equals(&module.path) {
        match find_by_name(&module.idents, &ext_id.name) {
            Some(entry) => Some(entry.0.clone()),
            None => None,
        }
    } else {
        // get the ident of the external declaration pointed to by the type
        find_ext_ident(resolutions, &ext_path, ext_id)
    };
    match decl {
        Some(ident) => Ok(Some(ident)),
        // the imported ident is used, but has no declaration!
        None => Err(ImportError::MissingDecl(ext_path, ext_id.name.clone())),
    }
}

fn retarget_ty(resolutions: &Resolutions, module: &Module, ty: &TypeExpression) -> (res: Result<
    TypeExpression,
    ImportError,
>)
    requires
        resolutions.wf(),
        module.wf(),
    ensures
        match module@.code.retarget_error(resolutions@.modules, post_order(ty@)) {
            Some(e) => res matches Err(err) && err@ == e,
            None => res matches Ok(r) && r@ == ty@.retargeted(module@.code, resolutions@.modules),
        },
    decreases ty,
{
    let ghost code = module@.code;
    let ghost modules = resolutions@.modules;
    assert(views(ty.nested@) =~= ty@.nested);
    proof {
        assert(post_order(ty@).drop_last() =~= post_orders(ty@.nested));
        assert(post_order(ty@).last() == ty@);
    }
    // first the nested type expressions
    let nested = match retarget_types(resolutions, module, &ty.nested) {
        Ok(nested) => nested,
        Err(e) => return Err(e),
    };
    let (path, ident) = match retarget_ident(resolutions, module, ty) {
        Ok(Some(ident)) => (None, ident),
        Ok(None) => {
            let path = match &ty.path {
                Some(path) => Some(path.clone()),
                None => None,
            };
            (path, ty.ident.clone())
        },
        Err(e) => return Err(e),
    };
    let res = TypeExpression { path, ident, local: ty.local, nested };
    assert(res@.nested =~= ty@.retargeted(code, modules).nested) by {
        assert(res@.nested =~= views(res.nested@));
        assert forall|i: int| 0 <= i < ty@.nested.len() implies ty.nested@[i]@
            == #[trigger] ty@.nested[i] by {}
    }
    Ok(res)
}

fn retarget_types(
    resolutions: &Resolutions,
    module: &Module,
    types: &Vec<TypeExpression>,
) -> (res: Result<Vec<TypeExpression>, ImportError>)
    requires
        resolutions.wf(),
        module.wf(),
    ensures
        match module@.code.retarget_error(resolutions@.modules, post_orders(views(types@))) {
            Some(e) => res matches Err(err) && err@ == e,
            None => res matches Ok(r) && views(r@) == Seq::new(
                types@.len(),
                |i: int| types@[i]@.retargeted(module@.code, resolutions@.modules),
            ),
        },
    decreases types,
{
    let ghost code = module@.code;
    let ghost modules = resolutions@.modules;
    let ghost all = views(types@);
    let mut res: Vec<TypeExpression> = Vec::new();
    let mut i: usize = 0;
    while i < types.len()
        invariant
            resolutions.wf(),
            module.wf(),
            code == module@.code,
            modules == resolutions@.modules,
            all == views(types@),
            i <= types@.len(),
            res@.len() == i,
            code.retarget_error(modules, post_orders(all.take(i as int))) is None,
            forall|j: int|
                0 <= j < i ==> (#[trigger] res@[j])@ == types@[j]@.retargeted(code, modules),
        decreases types@.len() - i,
    {
        let ghost next = all.take(i + 1);
        proof {
            assert(next.drop_last() =~= all.take(i as int));
            assert(next.last() == types@[i as int]@);
            assert(post_orders(next) == post_orders(next.drop_last()) + post_order(next.last()));
            lemma_retarget_error_concat(
                code,
                modules,
                post_orders(next.drop_last()),
                post_order(next.last()),
            );
            lemma_post_orders_concat(next, all.skip(i + 1));
            assert(next + all.skip(i + 1) =~= all);
            lemma_retarget_error_concat(
                code,
                modules,
                post_orders(next),
                post_orders(all.skip(i + 1)),
            );
        }
        match retarget_ty(resolutions, module, &types[i]) {
            Ok(ty) => res.push(ty),
            Err(e) => return Err(e),
        }
        i += 1;
    }
    assert(all.take(i as int) =~= all);
    assert(views(res@) =~= Seq::new(
        types@.len(),
        |i: int| types@[i]@.retargeted(code, modules),
    ));
    Ok(res)
}

/// The declarations in which the type expressions of some are replaced.
spec fn replaced(decls: Seq<DeclView>, plan: Seq<Option<Vec<TypeExpression>>>) -> Seq<DeclView> {
    Seq::new(
        decls.len(),
        |i: int|
            match plan[i] {
                Some(types) => DeclView {
                    kind: decls[i].kind,
                    types: views(types@),
                    node: decls[i].node,
                },
                None => decls[i],
            },
    )
}

/// Computes the new type expressions of the used declarations of `module`.
fn plan_module(resolutions: &Resolutions, module: &Module) -> (res: Result<
    Vec<Option<Vec<TypeExpression>>>,
    ImportError,
>)
    requires
        resolutions.wf(),
        module.wf(),
    ensures
        match module@.retarget_error(resolutions@.modules) {
            Some(e) => res matches Err(err) && err@ == e,
            None => res matches Ok(plan) && plan@.len() == module@.code.source.declarations.len()
                && replaced(module@.code.source.declarations, plan@) == module@.retargeted(
                resolutions@.modules,
            ).code.source.declarations,
        },
{
    let ghost code = module@.code;
    let ghost used = module@.used;
    let ghost modules = resolutions@.modules;
    let decls = &module.source.global_declarations;
    let ghost all = views(decls@);
    let mut plan: Vec<Option<Vec<TypeExpression>>> = Vec::new();
    let mut i: usize = 0;
    while i < decls.len()
        invariant
            resolutions.wf(),
            module.wf(),
            code == module@.code,
            used == module@.used,
            modules == resolutions@.modules,
            decls@ == module.source.global_declarations@,
            all == views(decls@),
            i <= decls@.len(),
            plan@.len() == i,
            code.retarget_error(modules, used_types(all.take(i as int), used)) is None,
            forall|j: int|
                0 <= j < i ==> #[trigger] replaced(all.take(i as int), plan@)[j]
                    == all[j].retargeted(code, used, modules),
        decreases decls@.len() - i,
    {
        // we only retarget used declarations. Other declarations are not checked.
        // unused declarations can even contain invalid code.
        let decl = &decls[i];
        let ghost next = all.take(i + 1);
        let ghost before = plan@;
        proof {
            assert(next.drop_last() =~= all.take(i as int));
            assert(next.last() == decl@);
            if decl@.is_used(used) {
                lemma_retarget_error_concat(
                    code,
                    modules,
                    used_types(next.drop_last(), used),
                    post_orders(decl@.types),
                );
            } else {
                assert(used_types(next, used) =~= used_types(next.drop_last(), used));
            }
            lemma_used_types_prefix(all, used, i + 1);
            lemma_retarget_error_concat(
                code,
                modules,
                used_types(next, used),
                used_types(all, used).skip(used_types(next, used).len() as int),
            );
        }
        let is_used = match decl.ident() {
            Some(ident) => module.used_idents.contains(&ident.id),
            None => true,
        };
        if is_used {
            match retarget_types(resolutions, module, &decl.types) {
                Ok(types) => {
                    assert(views(types@) =~= decl@.retargeted(code, used, modules).types);
                    plan.push(Some(types));
                },
                Err(e) => return Err(e),
            }
        } else {
            plan.push(None);
        }
        proof {
            assert forall|j: int| 0 <= j < i + 1 implies #[trigger] replaced(next, plan@)[j]
                == all[j].retargeted(code, used, modules) by {
                if j < i {
                    assert(replaced(all.take(i as int), before)[j] == replaced(next, plan@)[j]);
                }
            }
        }
        i += 1;
    }
    proof {
        assert(all.take(i as int) =~= all);
        assert(replaced(all, plan@) =~= module@.retargeted(modules).code.source.declarations);
    }
    Ok(plan)
}

/// The type expressions of the first declarations come first.
proof fn lemma_used_types_prefix(decls: Seq<DeclView>, used: Set<u64>, n: int)
    requires
        0 <= n <= decls.len(),
    ensures
        used_types(decls.take(n), used).len() <= used_types(decls, used).len(),
        used_types(decls, used) == used_types(decls.take(n), used) + used_types(decls, used).skip(
            used_types(decls.take(n), used).len() as int,
        ),
    decreases decls.len(),
{
    if n == decls.len() {
        assert(decls.take(n) =~= decls);
        assert(used_types(decls, used) =~= used_types(decls, used) + used_types(decls, used).skip(
            used_types(decls, used).len() as int,
        ));
    } else {
        assert(decls.drop_last().take(n) =~= decls.take(n));
        lemma_used_types_prefix(decls.drop_last(), used, n);
        let a = used_types(decls.take(n), used);
        let b = used_types(decls.drop_last(), used);
        let c = used_types(decls, used);
        assert forall|k: int| 0 <= k < a.len() implies a[k] == #[trigger] c[k] by {
            assert(b[k] == a[k]) by {
                assert((a + b.skip(a.len() as int))[k] == a[k]);
            }
            assert(c[k] == b[k]);
        }
        assert(c =~= a + c.skip(a.len() as int));
    }
}

/// Replaces the type expressions of the declarations for which there are new ones.
fn replace_types(decls: &mut Vec<GlobalDeclaration>, plan: Vec<Option<Vec<TypeExpression>>>)
    requires
        plan@.len() == old(decls)@.len(),
    ensures
        views(final(decls)@) == replaced(views(old(decls)@), plan@),
{
    let ghost all = plan@;
    let ghost goal = replaced(views(decls@), plan@);
    let mut plan = plan;
    while plan.len() > 0
        invariant
            plan@.len() <= decls@.len(),
            decls@.len() == old(decls)@.len(),
            decls@.len() == all.len(),
            goal == replaced(views(old(decls)@), all),
            plan@ == all.take(plan@.len() as int),
            forall|j: int|
                0 <= j < plan@.len() ==> #[trigger] decls@[j] == old(decls)@[j],
            forall|j: int|
                plan@.len() <= j < decls@.len() ==> (#[trigger] decls@[j])@ == goal[j],
        decreases plan@.len(),
    {
        let ghost n = plan@.len();
        let i: usize = plan.len() - 1;
        if let Some(entry) = plan.pop() {
            assert(entry == all[i as int]) by {
                assert(all.take(n as int)[i as int] == all[i as int]);
            }
            assert(plan@ =~= all.take(i as int));
            assert(decls@[i as int] == old(decls)@[i as int]);
            if let Some(types) = entry {
                decls[i].types = types;
            }
        }
    }
    assert(views(decls@) =~= goal);
}

/// Retargeting keeps what the modules declare, import and are called.
pub proof fn lemma_retargeted_valid(resolutions: ResolutionsView)
    requires
        resolutions.valid(),
        resolutions.retargeted() is Ok,
    ensures
        resolutions.retargeted()->Ok_0.valid(),
        forall|i: int|
            0 <= i < resolutions.modules.len() ==> (
            #[trigger] resolutions.retargeted()->Ok_0.modules[i]).code.idents()
                == resolutions.modules[i].code.idents(),
{
    let before = resolutions.modules;
    let after = resolutions.retargeted()->Ok_0.modules;
    assert forall|i: int, j: int| 0 <= i < j < after.len() implies #[trigger] after[i].code.path
        != #[trigger] after[j].code.path by {
        assert(before[i].code.path != before[j].code.path);
    }
    assert forall|i: int| 0 <= i < resolutions.order.len() implies position(
        after,
        #[trigger] resolutions.retargeted()->Ok_0.order[i],
    ) is Some by {
        assert(position(before, resolutions.order[i]) is Some);
        lemma_position_paths(before, after, resolutions.order[i]);
    }
    assert forall|i: int| 0 <= i < before.len() implies (#[trigger] after[i]).code.idents()
        == before[i].code.idents() by {
        lemma_linked_index(
            before[i].code.source.declarations,
            after[i].code.source.declarations,
        );
    }
}

impl Resolutions {
    /// Retargets used identifiers to point at the corresponding declaration.
    ///
    /// Fails if a used identifier has no corresponding declaration.
    pub fn retarget(self) -> (res: Result<Resolutions, ImportError>)
        requires
            self.wf(),
        ensures
            match self@.retargeted() {
                Ok(r) => res matches Ok(resolutions) && resolutions@ == r && resolutions.wf(),
                Err(e) => res matches Err(err) && err@ == e,
            },
    {
        let ghost modules = self@.modules;
        let mut plans: Vec<Vec<Option<Vec<TypeExpression>>>> = Vec::new();
        let mut i: usize = 0;
        while i < self.modules.len()
            invariant
                self.wf(),
                modules == self@.modules,
                i <= self.modules@.len(),
                plans@.len() == i,
                first_retarget_error(modules.take(i as int), modules) is None,
                forall|j: int|
                    0 <= j < i ==> {
                        let plan = #[trigger] plans@[j];
                        plan@.len() == modules[j].code.source.declarations.len() && replaced(
                            modules[j].code.source.declarations,
                            plan@,
                        ) == modules[j].retargeted(modules).code.source.declarations
                    },
            decreases self.modules@.len() - i,
        {
            proof {
                let next = modules.take(i + 1);
                assert(next.drop_last() =~= modules.take(i as int));
                assert(next.last() == modules[i as int]);
                assert(self.modules@[i as int].wf());
                lemma_error_prefix(modules, modules, i + 1);
            }
            match plan_module(&self, &self.modules[i]) {
                Ok(plan) => plans.push(plan),
                Err(e) => return Err(e),
            }
            i += 1;
        }
        assert(modules.take(i as int) =~= modules);
        proof {
            lemma_retargeted_valid(self@);
        }
        let ghost goal = self@.retargeted()->Ok_0;
        let ghost all = plans@;
        let ghost start = self;
        let mut res = self;
        while plans.len() > 0
            invariant
                plans@.len() <= res.modules@.len(),
                res.modules@.len() == start.modules@.len(),
                res.modules@.len() == all.len(),
                start.wf(),
                modules == start@.modules,
                goal == start@.retargeted()->Ok_0,
                start@.retargeted() is Ok,
                res.order@ == start.order@,
                plans@ == all.take(plans@.len() as int),
                forall|j: int|
                    0 <= j < all.len() ==> {
                        let plan = #[trigger] all[j];
                        plan@.len() == modules[j].code.source.declarations.len() && replaced(
                            modules[j].code.source.declarations,
                            plan@,
                        ) == modules[j].retargeted(modules).code.source.declarations
                    },
                forall|j: int|
                    0 <= j < plans@.len() ==> #[trigger] res.modules@[j] == start.modules@[j],
                forall|j: int|
                    plans@.len() <= j < res.modules@.len() ==> (#[trigger] res.modules@[j])@
                        == goal.modules[j] && res.modules@[j].idents@ == start.modules@[j].idents@,
            decreases plans@.len(),
        {
            let ghost n = plans@.len();
            let i: usize = plans.len() - 1;
            if let Some(plan) = plans.pop() {
                assert(plan == all[i as int]) by {
                    assert(all.take(n as int)[i as int] == all[i as int]);
                }
                assert(plans@ =~= all.take(i as int));
                assert(res.modules@[i as int] == start.modules@[i as int]);
                assert(modules[i as int] == start.modules@[i as int]@);
                replace_types(&mut res.modules[i].source.global_declarations, plan);
            }
        }
        proof {
            assert(res@.modules =~= goal.modules);
            assert forall|j: int| 0 <= j < res.modules@.len() implies (
            #[trigger] res.modules@[j]).wf() by {
                assert(start.modules@[j].wf());
                assert(res.modules@[j]@ == goal.modules[j]);
            }
        }
        Ok(res)
    }
}

/// The first error of the first modules is the first error of all.
proof fn lemma_error_prefix(some: Seq<ModuleView>, modules: Seq<ModuleView>, n: int)
    requires
        0 <= n <= some.len(),
    ensures
        first_retarget_error(some.take(n), modules) is Some ==> first_retarget_error(some, modules)
            == first_retarget_error(some.take(n), modules),
    decreases some.len(),
{
    if n < some.len() {
        assert(some.drop_last().take(n) =~= some.take(n));
        lemma_error_prefix(some.drop_last(), modules, n);
    } else {
        assert(some.take(n) =~= some);
    }
}

} // verus!
