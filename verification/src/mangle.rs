//! Mangling: giving the declarations of a resolution new names.
use crate::imports::{ImportedItem, Imports, ImportsView, ItemView};
use crate::module::{decl_index, CodeView, Module, ModuleView};
use crate::resolutions::{lemma_position_paths, position, Resolutions, ResolutionsView};
use crate::syntax::{
    clone_strings, Attribute, ContentView, DeclView, DeclarationKind, GlobalDeclaration, Ident,
    IdentView, Import, ImportContent, ImportItem, ImportItemView, ImportStatement, ImportView,
    KindView, ModulePath, PathView, StatementView, TranslationUnit, TypeExpression, TypeView,
    UnitView,
};
use crate::table::{by_id, distinct_keys, insert};
use crate::views::{group_views, views};
use vstd::prelude::*;

verus! {

broadcast use group_views;

/// Chooses the names of declarations. What a mangler answers is up to whoever implements it.
pub trait Mangler {
    /// The new name of the declaration called `item` in the module at `path`.
    fn mangle(&self, path: &ModulePath, item: &str) -> (res: String);
}

/// Identifiers with their new names, in the order of renaming.
pub type Renames = Vec<(u64, String)>;

/// The view of [`Renames`].
pub type RenamesView = Seq<(u64, Seq<char>)>;

impl IdentView {
    /// The identifier after all renamings: the last one that concerns it gives the name.
    pub open spec fn renamed(self, renames: RenamesView) -> IdentView
        decreases renames.len(),
    {
        if renames.len() == 0 {
            self
        } else if renames.last().0 == self.id {
            IdentView { id: self.id, name: renames.last().1 }
        } else {
            self.renamed(renames.drop_last())
        }
    }
}

impl TypeView {
    /// The type expression after all renamings.
    pub open spec fn renamed(self, renames: RenamesView) -> TypeView
        decreases self,
    {
        TypeView {
            path: self.path,
            ident: self.ident.renamed(renames),
            local: self.local,
            nested: Seq::new(
                self.nested.len(),
                |i: int|
                    if 0 <= i < self.nested.len() {
                        self.nested[i].renamed(renames)
                    } else {
                        arbitrary()
                    },
            ),
        }
    }
}

impl KindView {
    /// The kind of a declaration after all renamings.
    pub open spec fn renamed(self, renames: RenamesView) -> KindView {
        match self {
            KindView::Named(ident) => KindView::Named(ident.renamed(renames)),
            _ => self,
        }
    }
}

impl DeclView {
    /// The declaration after all renamings.
    pub open spec fn renamed(self, renames: RenamesView) -> DeclView {
        DeclView {
            kind: self.kind.renamed(renames),
            types: self.types.map_values(|ty: TypeView| ty.renamed(renames)),
            node: self.node,
        }
    }
}

impl ImportItemView {
    /// The item of an import after all renamings.
    pub open spec fn renamed(self, renames: RenamesView) -> ImportItemView {
        ImportItemView {
            ident: self.ident.renamed(renames),
            rename: match self.rename {
                Some(ident) => Some(ident.renamed(renames)),
                None => None,
            },
        }
    }
}

impl ContentView {
    /// The content of an import after all renamings.
    pub open spec fn renamed(self, renames: RenamesView) -> ContentView
        decreases self,
    {
        match self {
            ContentView::Item(item) => ContentView::Item(item.renamed(renames)),
            ContentView::Collection(imports) => ContentView::Collection(
                Seq::new(
                    imports.len(),
                    |i: int|
                        if 0 <= i < imports.len() {
                            imports[i].renamed(renames)
                        } else {
                            arbitrary()
                        },
                ),
            ),
        }
    }
}

impl ImportView {
    /// The import after all renamings.
    pub open spec fn renamed(self, renames: RenamesView) -> ImportView
        decreases self,
    {
        ImportView { path: self.path, content: self.content.renamed(renames) }
    }
}

impl StatementView {
    /// The import statement after all renamings.
    pub open spec fn renamed(self, renames: RenamesView) -> StatementView {
        StatementView {
            attributes: self.attributes,
            path: self.path,
            content: self.content.renamed(renames),
        }
    }
}

impl UnitView {
    /// The syntax tree after all renamings.
    pub open spec fn renamed(self, renames: RenamesView) -> UnitView {
        UnitView {
            imports: self.imports.map_values(|s: StatementView| s.renamed(renames)),
            directives: self.directives,
            declarations: self.declarations.map_values(|decl: DeclView| decl.renamed(renames)),
        }
    }
}

impl ItemView {
    /// The imported item after all renamings.
    pub open spec fn renamed(self, renames: RenamesView) -> ItemView {
        ItemView { path: self.path, ident: self.ident.renamed(renames), public: self.public }
    }
}

/// A table of imports after all renamings.
pub open spec fn renamed_imports(imports: ImportsView, renames: RenamesView) -> ImportsView {
    imports.map_values(
        |entry: (IdentView, ItemView)| (entry.0.renamed(renames), entry.1.renamed(renames)),
    )
}

/// An index of declarations after all renamings.
pub open spec fn renamed_idents(
    idents: Seq<(IdentView, usize)>,
    renames: RenamesView,
) -> Seq<(IdentView, usize)> {
    idents.map_values(|entry: (IdentView, usize)| (entry.0.renamed(renames), entry.1))
}

impl ModuleView {
    /// The module after all renamings.
    pub open spec fn renamed(self, renames: RenamesView) -> ModuleView {
        ModuleView {
            code: CodeView {
                source: self.code.source.renamed(renames),
                path: self.code.path,
                imports: renamed_imports(self.code.imports, renames),
            },
            used: self.used,
        }
    }
}

impl ResolutionsView {
    /// The resolutions after all renamings: every occurrence of a renamed identifier, in
    /// whatever module, has the new name.
    pub open spec fn renamed(self, renames: RenamesView) -> ResolutionsView {
        ResolutionsView {
            modules: self.modules.map_values(|module: ModuleView| module.renamed(renames)),
            order: self.order,
        }
    }
}

/// The declared identifiers of the module at `path`, in source order.
pub open spec fn decl_targets(decls: Seq<DeclView>, path: PathView) -> Seq<(PathView, IdentView)>
    decreases decls.len(),
{
    if decls.len() == 0 {
        Seq::empty()
    } else {
        match decls.last().ident() {
            Some(ident) => decl_targets(decls.drop_last(), path).push((path, ident)),
            None => decl_targets(decls.drop_last(), path),
        }
    }
}

/// The declared identifiers of modules, with or without those of the root module.
pub open spec fn mangle_targets(
    modules: Seq<ModuleView>,
    root_path: PathView,
    mangle_root: bool,
) -> Seq<(PathView, IdentView)>
    decreases modules.len(),
{
    if modules.len() == 0 {
        Seq::empty()
    } else {
        mangle_targets(modules.drop_last(), root_path, mangle_root) + if mangle_root
            || modules.last().code.path != root_path {
            decl_targets(modules.last().code.source.declarations, modules.last().code.path)
        } else {
            Seq::empty()
        }
    }
}

/// Whether the mangler can have answered `new_name` for `name` in the module at `path`.
pub open spec fn may_mangle<M: Mangler>(
    mangler: &M,
    path: PathView,
    name: Seq<char>,
    new_name: Seq<char>,
) -> bool {
    exists|p: ModulePath, item: &str, res: String|
        {
            &&& #[trigger] call_ensures(M::mangle, (mangler, &p, item), res)
            &&& p@ == path
            &&& item@ == name
            &&& res@ == new_name
        }
}

/// Whether `renames`, from position `base` on, gives every target in turn the name that the
/// mangler answers for the name it has by then.
pub open spec fn mangled<M: Mangler>(
    mangler: &M,
    targets: Seq<(PathView, IdentView)>,
    renames: RenamesView,
    base: int,
) -> bool {
    &&& 0 <= base
    &&& renames.len() == base + targets.len()
    &&& forall|k: int|
        #![trigger targets[k]]
        0 <= k < targets.len() ==> {
            let (path, ident) = targets[k];
            let (id, new_name) = renames[base + k];
            id == ident.id && may_mangle(
                mangler,
                path,
                ident.renamed(renames.take(base + k)).name,
                new_name,
            )
        }
}

impl Ident {
    /// The identifier after all renamings.
    pub fn renamed(&self, renames: &Renames) -> (res: Ident)
        ensures
            res@ == self@.renamed(views(renames@)),
    {
        let ghost all = views(renames@);
        let mut i: usize = renames.len();
        assert(all.take(i as int) =~= all);
        while i > 0
            invariant
                i <= renames@.len(),
                all == views(renames@),
                self@.renamed(all) == self@.renamed(all.take(i as int)),
            decreases i,
        {
            i -= 1;
            proof {
                let some = all.take(i + 1);
                assert(some.drop_last() =~= all.take(i as int));
                assert(some.last() == all[i as int]);
            }
            if renames[i].0 == self.id {
                return Ident { id: self.id, name: renames[i].1.clone() };
            }
        }
        self.clone()
    }
}

/// Asks the mangler for new names of the declarations of a module, and appends them to
/// `renames`.
pub fn ask_names<M: Mangler>(
    wgsl: &TranslationUnit,
    path: &ModulePath,
    mangler: &M,
    renames: &mut Renames,
)
    ensures
        views(old(renames)@).is_prefix_of(views(final(renames)@)),
        mangled(
            mangler,
            decl_targets(wgsl@.declarations, path@),
            views(final(renames)@),
            old(renames)@.len() as int,
        ),
{
    let ghost before = views(renames@);
    let ghost base = renames@.len() as int;
    let decls = &wgsl.global_declarations;
    let mut i: usize = 0;
    assert(views(decls@).take(0) =~= Seq::empty());
    while i < decls.len()
        invariant
            i <= decls@.len(),
            base == before.len(),
            before.is_prefix_of(views(renames@)),
            mangled(
                mangler,
                decl_targets(views(decls@).take(i as int), path@),
                views(renames@),
                base,
            ),
        decreases decls@.len() - i,
    {
        let ghost targets = decl_targets(views(decls@).take(i as int), path@);
        let ghost so_far = views(renames@);
        proof {
            let next = views(decls@).take(i + 1);
            assert(next.drop_last() =~= views(decls@).take(i as int));
            assert(next.last() == decls@[i as int]@);
        }
        if let Some(ident) = decls[i].ident() {
            let name = ident.renamed(renames).name;
            let new_name = mangler.mangle(path, name.as_str());
            renames.push((ident.id, new_name));
            proof {
                let all = views(renames@);
                assert(all =~= so_far.push((ident.id, new_name@)));
                assert(all.take(so_far.len() as int) =~= so_far);
                let more = targets.push((path@, ident@));
                assert forall|k: int|
                    #![trigger more[k]]
                    0 <= k < more.len() implies {
                    let (p, x) = more[k];
                    let (id, new_name) = all[base + k];
                    id == x.id && may_mangle(
                        mangler,
                        p,
                        x.renamed(all.take(base + k)).name,
                        new_name,
                    )
                } by {
                    if k < targets.len() {
                        assert(targets[k] == more[k]);
                        assert(all.take(base + k) =~= so_far.take(base + k));
                    }
                }
                assert(before.is_prefix_of(all));
            }
        }
        i += 1;
    }
    assert(views(decls@).take(i as int) =~= views(decls@));
}

/// Renaming leaves identities alone.
pub proof fn lemma_renamed_id(ident: IdentView, renames: RenamesView)
    ensures
        ident.renamed(renames).id == ident.id,
    decreases renames.len(),
{
    if renames.len() > 0 {
        lemma_renamed_id(ident, renames.drop_last());
    }
}

/// An entry is found by identity after renaming if it was found before.
proof fn lemma_renamed_by_id(idents: Seq<(IdentView, usize)>, renames: RenamesView, id: u64)
    ensures
        by_id(renamed_idents(idents, renames), id) is Some == by_id(idents, id) is Some,
    decreases idents.len(),
{
    let after = renamed_idents(idents, renames);
    if idents.len() > 0 {
        assert(after.drop_last() =~= renamed_idents(idents.drop_last(), renames));
        lemma_renamed_by_id(idents.drop_last(), renames, id);
        lemma_renamed_id(idents.last().0, renames);
    }
}

/// Indexing the renamed declarations gives the renamed index.
pub proof fn lemma_renamed_index(decls: Seq<DeclView>, renames: RenamesView)
    ensures
        decl_index(decls.map_values(|decl: DeclView| decl.renamed(renames))) == renamed_idents(
            decl_index(decls),
            renames,
        ),
    decreases decls.len(),
{
    let after = decls.map_values(|decl: DeclView| decl.renamed(renames));
    if decls.len() == 0 {
        assert(renamed_idents(decl_index(decls), renames) =~= Seq::empty());
    } else {
        let rest = decls.drop_last();
        assert(after.drop_last() =~= rest.map_values(|decl: DeclView| decl.renamed(renames)));
        lemma_renamed_index(rest, renames);
        assert(after.last() == decls.last().renamed(renames));
        if decls.last().ident() is Some {
            let ident = decls.last().ident()->0;
            let n = (decls.len() - 1) as usize;
            let index = decl_index(rest);
            let changed = renamed_idents(index, renames);
            lemma_renamed_id(ident, renames);
            lemma_renamed_by_id(index, renames, ident.id);
            assert forall|i: int| 0 <= i < index.len() implies (#[trigger] changed[i]).0.id
                == index[i].0.id by {
                lemma_renamed_id(index[i].0, renames);
            }
            assert(insert(changed, ident.renamed(renames), n) =~= renamed_idents(
                insert(index, ident, n),
                renames,
            ));
        }
    }
}

/// Renaming keeps the keys of a table distinct.
proof fn lemma_renamed_distinct(imports: ImportsView, renames: RenamesView)
    requires
        distinct_keys(imports),
    ensures
        distinct_keys(renamed_imports(imports, renames)),
{
    let after = renamed_imports(imports, renames);
    assert forall|i: int, j: int| 0 <= i < j < after.len() implies #[trigger] after[i].0.id
        != #[trigger] after[j].0.id by {
        lemma_renamed_id(imports[i].0, renames);
        lemma_renamed_id(imports[j].0, renames);
        assert(imports[i].0.id != imports[j].0.id);
    }
}

fn rename_type(ty: &TypeExpression, renames: &Renames) -> (res: TypeExpression)
    ensures
        res@ == ty@.renamed(views(renames@)),
    decreases ty,
{
    let mut nested: Vec<TypeExpression> = Vec::new();
    let mut i: usize = 0;
    while i < ty.nested.len()
        invariant
            i <= ty.nested@.len(),
            nested@.len() == i,
            forall|j: int|
                0 <= j < i ==> (#[trigger] nested@[j])@ == ty.nested@[j]@.renamed(views(renames@)),
        decreases ty.nested@.len() - i,
    {
        nested.push(rename_type(&ty.nested[i], renames));
        i += 1;
    }
    let path = match &ty.path {
        Some(path) => Some(path.clone()),
        None => None,
    };
    let res = TypeExpression { path, ident: ty.ident.renamed(renames), local: ty.local, nested };
    assert(res@.nested =~= ty@.renamed(views(renames@)).nested);
    res
}

fn rename_decl(decl: &GlobalDeclaration, renames: &Renames) -> (res: GlobalDeclaration)
    ensures
        res@ == decl@.renamed(views(renames@)),
{
    let mut types: Vec<TypeExpression> = Vec::new();
    let mut i: usize = 0;
    while i < decl.types.len()
        invariant
            i <= decl.types@.len(),
            types@.len() == i,
            forall|j: int|
                0 <= j < i ==> (#[trigger] types@[j])@ == decl.types@[j]@.renamed(views(renames@)),
        decreases decl.types@.len() - i,
    {
        types.push(rename_type(&decl.types[i], renames));
        i += 1;
    }
    assert(views(types@) =~= decl@.renamed(views(renames@)).types);
    let kind = match &decl.kind {
        DeclarationKind::Void => DeclarationKind::Void,
        DeclarationKind::Named(ident) => DeclarationKind::Named(ident.renamed(renames)),
        DeclarationKind::ConstAssert => DeclarationKind::ConstAssert,
    };
    GlobalDeclaration { kind, types, node: decl.node }
}

fn rename_content(content: &ImportContent, renames: &Renames) -> (res: ImportContent)
    ensures
        res@ == content@.renamed(views(renames@)),
    decreases content,
{
    match content {
        ImportContent::Item(item) => {
            let rename = match &item.rename {
                Some(ident) => Some(ident.renamed(renames)),
                None => None,
            };
            ImportContent::Item(ImportItem { ident: item.ident.renamed(renames), rename })
        },
        ImportContent::Collection(imports) => {
            let mut res: Vec<Import> = Vec::new();
            let mut i: usize = 0;
            while i < imports.len()
                invariant
                    i <= imports@.len(),
                    content == &ImportContent::Collection(*imports),
                    res@.len() == i,
                    forall|j: int|
                        0 <= j < i ==> (#[trigger] res@[j])@ == imports@[j]@.renamed(
                            views(renames@),
                        ),
                decreases imports@.len() - i,
            {
                proof {
                    assert(decreases_to!(content => content->Collection_0));
                    assert(decreases_to!(imports => imports@));
                    assert(decreases_to!(imports@ => imports@[i as int]));
                    assert(decreases_to!(imports@[i as int] => imports@[i as int].content));
                }
                let path = clone_strings(&imports[i].path);
                let inner = rename_content(&imports[i].content, renames);
                res.push(Import { path, content: inner });
                i += 1;
            }
            let res = ImportContent::Collection(res);
            assert(res@->Collection_0 =~= content@.renamed(views(renames@))->Collection_0);
            res
        },
    }
}

fn rename_statement(statement: &ImportStatement, renames: &Renames) -> (res: ImportStatement)
    ensures
        res@ == statement@.renamed(views(renames@)),
{
    let mut attributes: Vec<Attribute> = Vec::new();
    let mut i: usize = 0;
    while i < statement.attributes.len()
        invariant
            i <= statement.attributes@.len(),
            attributes@ == statement.attributes@.take(i as int),
        decreases statement.attributes@.len() - i,
    {
        attributes.push(statement.attributes[i]);
        assert(attributes@ =~= statement.attributes@.take(i + 1));
        i += 1;
    }
    assert(statement.attributes@.take(i as int) =~= statement.attributes@);
    let path = match &statement.path {
        Some(path) => Some(path.clone()),
        None => None,
    };
    ImportStatement { attributes, path, content: rename_content(&statement.content, renames) }
}

impl TranslationUnit {
    /// Renames every occurrence of the renamed identifiers in a syntax tree.
    pub fn rename(&mut self, renames: &Renames)
        ensures
            final(self)@ == old(self)@.renamed(views(renames@)),
    {
        let ghost names = views(renames@);
        let ghost before = self@;
        let mut decls: Vec<GlobalDeclaration> = Vec::new();
        let mut i: usize = 0;
        while i < self.global_declarations.len()
            invariant
                names == views(renames@),
                i <= self.global_declarations@.len(),
                decls@.len() == i,
                forall|j: int|
                    0 <= j < i ==> (#[trigger] decls@[j])@
                        == self.global_declarations@[j]@.renamed(names),
            decreases self.global_declarations@.len() - i,
        {
            decls.push(rename_decl(&self.global_declarations[i], renames));
            i += 1;
        }
        assert(views(decls@) =~= before.renamed(names).declarations);
        let mut statements: Vec<ImportStatement> = Vec::new();
        let mut i: usize = 0;
        while i < self.imports.len()
            invariant
                names == views(renames@),
                i <= self.imports@.len(),
                statements@.len() == i,
                forall|j: int|
                    0 <= j < i ==> (#[trigger] statements@[j])@
                        == self.imports@[j]@.renamed(names),
            decreases self.imports@.len() - i,
        {
            statements.push(rename_statement(&self.imports[i], renames));
            i += 1;
        }
        assert(views(statements@) =~= before.renamed(names).imports);
        self.global_declarations = decls;
        self.imports = statements;
    }
}

/// Renames every occurrence of the renamed identifiers in a module.
fn rename_module(module: &mut Module, renames: &Renames)
    requires
        old(module).wf(),
    ensures
        final(module).wf(),
        final(module)@ == old(module)@.renamed(views(renames@)),
{
    let ghost names = views(renames@);
    let ghost before = module@;
    proof {
        lemma_renamed_index(before.code.source.declarations, names);
        lemma_renamed_distinct(before.code.imports, names);
    }
    let mut idents: Vec<(Ident, usize)> = Vec::new();
    let mut i: usize = 0;
    while i < module.idents.len()
        invariant
            names == views(renames@),
            i <= module.idents@.len(),
            idents@.len() == i,
            forall|j: int|
                0 <= j < i ==> (#[trigger] idents@[j])@ == (
                    module.idents@[j].0@.renamed(names),
                    module.idents@[j].1,
                ),
        decreases module.idents@.len() - i,
    {
        idents.push((module.idents[i].0.renamed(renames), module.idents[i].1));
        i += 1;
    }
    assert(views(idents@) =~= renamed_idents(views(module.idents@), names));
    let mut imports: Imports = Vec::new();
    let mut i: usize = 0;
    while i < module.imports.len()
        invariant
            names == views(renames@),
            i <= module.imports@.len(),
            imports@.len() == i,
            forall|j: int|
                0 <= j < i ==> (#[trigger] imports@[j])@ == (
                    module.imports@[j].0@.renamed(names),
                    module.imports@[j].1@.renamed(names),
                ),
        decreases module.imports@.len() - i,
    {
        let entry = &module.imports[i];
        imports.push(
            (
                entry.0.renamed(renames),
                ImportedItem {
                    path: entry.1.path.clone(),
                    ident: entry.1.ident.renamed(renames),
                    public: entry.1.public,
                },
            ),
        );
        i += 1;
    }
    assert(views(imports@) =~= renamed_imports(before.code.imports, names));
    module.source.rename(renames);
    module.idents = idents;
    module.imports = imports;
}

/// Mangles the declarations of a syntax tree, that of the module at `path`. References in
/// the tree follow the declarations.
pub fn mangle_decls<M: Mangler>(wgsl: &mut TranslationUnit, path: &ModulePath, mangler: &M)
    ensures
        exists|renames: RenamesView| #[trigger]
            mangled(mangler, decl_targets(old(wgsl)@.declarations, path@), renames, 0)
                && final(wgsl)@ == old(wgsl)@.renamed(renames),
{
    let mut renames: Renames = Vec::new();
    ask_names(wgsl, path, mangler, &mut renames);
    wgsl.rename(&renames);
}

/// Renaming keeps the resolutions valid.
pub proof fn lemma_renamed_valid(resolutions: ResolutionsView, renames: RenamesView)
    requires
        resolutions.valid(),
    ensures
        resolutions.renamed(renames).valid(),
{
    let before = resolutions.modules;
    let after = resolutions.renamed(renames).modules;
    assert forall|i: int, j: int| 0 <= i < j < after.len() implies #[trigger] after[i].code.path
        != #[trigger] after[j].code.path by {
        assert(before[i].code.path != before[j].code.path);
    }
    assert forall|i: int| 0 <= i < resolutions.order.len() implies position(
        after,
        #[trigger] resolutions.renamed(renames).order[i],
    ) is Some by {
        assert(position(before, resolutions.order[i]) is Some);
        lemma_position_paths(before, after, resolutions.order[i]);
    }
}

impl Resolutions {
    /// Renames every occurrence of the renamed identifiers in all modules.
    pub fn rename(&mut self, renames: &Renames)
        requires
            old(self).wf(),
        ensures
            final(self).wf(),
            final(self)@ == old(self)@.renamed(views(renames@)),
    {
        let ghost names = views(renames@);
        let ghost before = *self;
        let mut i: usize = 0;
        while i < self.modules.len()
            invariant
                i <= self.modules@.len(),
                names == views(renames@),
                before.wf(),
                self.modules@.len() == before.modules@.len(),
                self.order@ == before.order@,
                forall|j: int|
                    0 <= j < i ==> (#[trigger] self.modules@[j])@ == before.modules@[j]@.renamed(
                        names,
                    ) && self.modules@[j].wf(),
                forall|j: int|
                    i <= j < self.modules@.len() ==> #[trigger] self.modules@[j]
                        == before.modules@[j],
            decreases self.modules@.len() - i,
        {
            assert(self.modules@[i as int] == before.modules@[i as int]);
            assert(before.modules@[i as int].wf());
            rename_module(&mut self.modules[i], renames);
            i += 1;
        }
        proof {
            assert(self@.modules =~= before@.renamed(names).modules);
            lemma_renamed_valid(before@, names);
        }
    }

    /// Mangles all declarations in all modules. Should be called after
    /// [`Self::retarget`]. The declarations of the root module keep their names unless
    /// `mangle_root` is set.
    pub fn mangle<M: Mangler>(&mut self, mangler: &M, mangle_root: bool)
        requires
            old(self).wf(),
            old(self).order@.len() > 0,
        ensures
            final(self).wf(),
            exists|renames: RenamesView| #[trigger]
                mangled(
                    mangler,
                    mangle_targets(old(self)@.modules, old(self)@.order[0], mangle_root),
                    renames,
                    0,
                ) && final(self)@ == old(self)@.renamed(renames),
    {
        let ghost modules = self@.modules;
        let ghost root = self@.order[0];
        let root_path = self.root_path().clone();
        let mut renames: Renames = Vec::new();
        let mut i: usize = 0;
        proof {
            assert(views(renames@) =~= Seq::empty());
            assert(modules.take(0) =~= Seq::empty());
        }
        while i < self.modules.len()
            invariant
                i <= self.modules@.len(),
                modules == self@.modules,
                self@ == old(self)@,
                self.wf(),
                root == root_path@,
                mangled(
                    mangler,
                    mangle_targets(modules.take(i as int), root, mangle_root),
                    views(renames@),
                    0,
                ),
            decreases self.modules@.len() - i,
        {
            let ghost targets = mangle_targets(modules.take(i as int), root, mangle_root);
            let ghost so_far = views(renames@);
            proof {
                let next = modules.take(i + 1);
                assert(next.drop_last() =~= modules.take(i as int));
                assert(next.last() == self.modules@[i as int]@);
            }
            let module = &self.modules[i];
            if mangle_root || !module.path.equals(&root_path) {
                ask_names(&module.source, &module.path, mangler, &mut renames);
                proof {
                    lemma_mangled_concat(
                        mangler,
                        targets,
                        decl_targets(module@.code.source.declarations, module@.code.path),
                        so_far,
                        views(renames@),
                    );
                }
            } else {
                assert(targets + Seq::<(PathView, IdentView)>::empty() =~= targets);
            }
            i += 1;
        }
        assert(modules.take(i as int) =~= modules);
        self.rename(&renames);
    }
}

/// Renamings one after the other rename all their targets.
proof fn lemma_mangled_concat<M: Mangler>(
    mangler: &M,
    a: Seq<(PathView, IdentView)>,
    b: Seq<(PathView, IdentView)>,
    first: RenamesView,
    all: RenamesView,
)
    requires
        mangled(mangler, a, first, 0),
        first.is_prefix_of(all),
        mangled(mangler, b, all, first.len() as int),
    ensures
        mangled(mangler, a + b, all, 0),
{
    let targets = a + b;
    assert forall|k: int|
        #![trigger targets[k]]
        0 <= k < targets.len() implies {
        let (path, ident) = targets[k];
        let (id, new_name) = all[0 + k];
        id == ident.id && may_mangle(
            mangler,
            path,
            ident.renamed(all.take(0 + k)).name,
            new_name,
        )
    } by {
        if k < a.len() {
            assert(a[k] == targets[k]);
            assert(all.take(0 + k) =~= first.take(0 + k));
            assert(first[0 + k] == all[0 + k]);
        } else {
            assert(b[k - a.len()] == targets[k]);
        }
    }
}

} // verus!
