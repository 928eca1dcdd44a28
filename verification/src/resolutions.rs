//! The modules of a resolution, in the order in which they were loaded.
use crate::module::{CodeView, Module, ModuleView};
use crate::syntax::{ModulePath, PathView, TranslationUnit};
use crate::views::{group_views, views};
use vstd::prelude::*;

verus! {

broadcast use group_views;

/// Loaded modules, at most one at each path, and the order of their loading.
#[derive(Debug)]
pub struct Resolutions {
    pub modules: Vec<Module>,
    pub order: Vec<ModulePath>,
}

pub ghost struct ResolutionsView {
    pub modules: Seq<ModuleView>,
    pub order: Seq<PathView>,
}

impl View for Resolutions {
    type V = ResolutionsView;

    open spec fn view(&self) -> ResolutionsView {
        ResolutionsView { modules: views(self.modules@), order: views(self.order@) }
    }
}

/// The position of the first module at `path`.
pub open spec fn position(modules: Seq<ModuleView>, path: PathView) -> Option<int>
    decreases modules.len(),
{
    if modules.len() == 0 {
        None
    } else if position(modules.drop_last(), path) is Some {
        position(modules.drop_last(), path)
    } else if modules.last().code.path == path {
        Some(modules.len() - 1)
    } else {
        None
    }
}

/// No two modules are at the same path.
pub open spec fn distinct_paths(modules: Seq<ModuleView>) -> bool {
    forall|i: int, j: int|
        0 <= i < j < modules.len() ==> #[trigger] modules[i].code.path
            != #[trigger] modules[j].code.path
}

impl ResolutionsView {
    /// Every path has one module, and every path in the order has a module.
    pub open spec fn valid(self) -> bool {
        &&& distinct_paths(self.modules)
        &&& forall|i: int|
            0 <= i < self.order.len() ==> position(self.modules, #[trigger] self.order[i]) is Some
    }

    /// The resolutions after another module is loaded.
    pub open spec fn push(self, module: ModuleView) -> ResolutionsView {
        ResolutionsView {
            modules: match position(self.modules, module.code.path) {
                Some(i) => self.modules.update(i, module),
                None => self.modules.push(module),
            },
            order: self.order.push(module.code.path),
        }
    }

    /// The module at a path that has one.
    pub open spec fn module(self, path: PathView) -> ModuleView {
        self.modules[position(self.modules, path)->0]
    }

    /// The modules in the order of their loading.
    pub open spec fn in_order(self) -> Seq<ModuleView> {
        Seq::new(self.order.len(), |i: int| self.module(self.order[i]))
    }
}

impl Resolutions {
    /// The resolutions are valid, and so is every module.
    pub open spec fn wf(self) -> bool {
        &&& self@.valid()
        &&& forall|i: int| 0 <= i < self.modules@.len() ==> (#[trigger] self.modules@[i]).wf()
    }
}

/// A position that is found is that of a module at the path; when none is found there is
/// no such module.
pub proof fn lemma_position(modules: Seq<ModuleView>, path: PathView)
    ensures
        position(modules, path) matches Some(i) ==> 0 <= i < modules.len()
            && modules[i].code.path == path,
        position(modules, path) is None ==> forall|i: int|
            0 <= i < modules.len() ==> (#[trigger] modules[i]).code.path != path,
    decreases modules.len(),
{
    if modules.len() > 0 {
        lemma_position(modules.drop_last(), path);
        assert forall|i: int|
            position(modules, path) is None && 0 <= i < modules.len() implies (
        #[trigger] modules[i]).code.path != path by {
            if i < modules.len() - 1 {
                assert(modules.drop_last()[i] == modules[i]);
            }
        }
        if position(modules.drop_last(), path) is Some {
            assert(modules.drop_last()[position(modules.drop_last(), path)->0]
                == modules[position(modules.drop_last(), path)->0]);
        }
    }
}

/// Positions depend on the paths of the modules alone.
pub proof fn lemma_position_paths(a: Seq<ModuleView>, b: Seq<ModuleView>, path: PathView)
    requires
        a.len() == b.len(),
        forall|i: int| 0 <= i < a.len() ==> (#[trigger] a[i]).code.path == b[i].code.path,
    ensures
        position(a, path) == position(b, path),
    decreases a.len(),
{
    if a.len() > 0 {
        assert forall|i: int| 0 <= i < a.drop_last().len() implies (
        #[trigger] a.drop_last()[i]).code.path == b.drop_last()[i].code.path by {
            assert(a[i].code.path == b[i].code.path);
        }
        lemma_position_paths(a.drop_last(), b.drop_last(), path);
        assert(a[a.len() - 1].code.path == b[a.len() - 1].code.path);
    }
}

/// Loading a module keeps the resolutions valid, and leaves the other modules where they
/// are.
pub proof fn lemma_push(resolutions: ResolutionsView, module: ModuleView)
    requires
        resolutions.valid(),
    ensures
        resolutions.push(module).valid(),
        resolutions.push(module).module(module.code.path) == module,
        position(resolutions.push(module).modules, module.code.path) == match position(
            resolutions.modules,
            module.code.path,
        ) {
            Some(i) => Some(i),
            None => Some(resolutions.modules.len() as int),
        },
        forall|path: PathView|
            path != module.code.path ==> #[trigger] position(
                resolutions.push(module).modules,
                path,
            ) == position(resolutions.modules, path),
{
    let old_modules = resolutions.modules;
    let res = resolutions.push(module);
    let new_modules = res.modules;
    lemma_position(old_modules, module.code.path);
    assert(distinct_paths(new_modules)) by {
        assert forall|i: int, j: int| 0 <= i < j < new_modules.len() implies
            #[trigger] new_modules[i].code.path != #[trigger] new_modules[j].code.path by {
            if j < old_modules.len() {
                assert(old_modules[i].code.path != old_modules[j].code.path);
            } else {
                assert(old_modules[i].code.path != module.code.path);
            }
        }
    }
    assert forall|path: PathView| path != module.code.path implies #[trigger] position(
        new_modules,
        path,
    ) == position(old_modules, path) by {
        if position(old_modules, module.code.path) is Some {
            lemma_position_paths(old_modules, new_modules, path);
        } else {
            assert(new_modules.drop_last() =~= old_modules);
        }
    }
    if position(old_modules, module.code.path) is Some {
        lemma_position_paths(old_modules, new_modules, module.code.path);
    } else {
        assert(new_modules.drop_last() =~= old_modules);
    }
    assert forall|i: int| 0 <= i < res.order.len() implies position(
        res.modules,
        #[trigger] res.order[i],
    ) is Some by {
        if i < resolutions.order.len() {
            assert(position(old_modules, resolutions.order[i]) is Some);
        }
    }
}

impl Resolutions {
    /// The resolutions of a single module, which is the root.
    pub fn new(source: TranslationUnit, path: ModulePath) -> (res: Self)
        ensures
            res.wf(),
            res@ == (ResolutionsView {
                modules: seq![
                    ModuleView {
                        code: CodeView { source: source@, path: path@, imports: Seq::empty() },
                        used: Set::empty(),
                    },
                ],
                order: seq![path@],
            }),
    {
        let mut resolutions = Self::new_uninit();
        resolutions.push_module(Module::new(source, path));
        assert(resolutions@.modules =~= seq![
            ModuleView {
                code: CodeView { source: source@, path: path@, imports: Seq::empty() },
                used: Set::empty(),
            },
        ]);
        assert(resolutions@.order =~= seq![path@]);
        resolutions
    }

    /// Resolutions without any module: the next thing to do is to push the root.
    pub fn new_uninit() -> (res: Self)
        ensures
            res.wf(),
            res@ == (ResolutionsView { modules: Seq::empty(), order: Seq::empty() }),
    {
        let res = Resolutions { modules: Vec::new(), order: Vec::new() };
        assert(res@.modules =~= Seq::empty());
        assert(res@.order =~= Seq::empty());
        res
    }

    /// Finds the position of the module at `path`.
    pub fn find(&self, path: &ModulePath) -> (res: Option<usize>)
        ensures
            res matches Some(i) ==> position(self@.modules, path@) == Some(i as int),
            res is None ==> position(self@.modules, path@) is None,
    {
        let mut i: usize = 0;
        while i < self.modules.len()
            invariant
                i <= self.modules@.len(),
                position(self@.modules.take(i as int), path@) is None,
            decreases self.modules@.len() - i,
        {
            proof {
                let next = self@.modules.take(i + 1);
                assert(next.drop_last() =~= self@.modules.take(i as int));
                assert(next.last() == self.modules@[i as int]@);
            }
            if self.modules[i].path.equals(path) {
                proof {
                    lemma_position_prefix(self@.modules, path@, i + 1);
                }
                return Some(i);
            }
            i += 1;
        }
        assert(self@.modules.take(i as int) =~= self@.modules);
        None
    }

    /// The root module.
    pub fn root_module(&self) -> (res: &Module)
        requires
            self.wf(),
            self.order@.len() > 0,
        ensures
            res@ == self@.module(self@.order[0]),
            res.wf(),
    {
        proof {
            lemma_position(self@.modules, self@.order[0]);
        }
        match self.find(self.root_path()) {
            Some(i) => &self.modules[i],
            None => {
                assert(position(self@.modules, self@.order[0]) is Some);
                &self.modules[0]
            },
        }
    }

    /// The path of the root module.
    pub fn root_path(&self) -> (res: &ModulePath)
        requires
            self.order@.len() > 0,
        ensures
            res@ == self@.order[0],
    {
        &self.order[0]
    }

    /// The modules in the order of their loading.
    pub fn modules(&self) -> (res: Vec<&Module>)
        requires
            self.wf(),
        ensures
            views(res@) == self@.in_order(),
            forall|i: int| 0 <= i < res@.len() ==> (#[trigger] res@[i]).wf(),
    {
        let mut res: Vec<&Module> = Vec::new();
        let mut i: usize = 0;
        while i < self.order.len()
            invariant
                self.wf(),
                i <= self.order@.len(),
                views(res@) == self@.in_order().take(i as int),
                forall|j: int| 0 <= j < res@.len() ==> (#[trigger] res@[j]).wf(),
            decreases self.order@.len() - i,
        {
            proof {
                assert(position(self@.modules, self@.order[i as int]) is Some);
                lemma_position(self@.modules, self@.order[i as int]);
            }
            if let Some(n) = self.find(&self.order[i]) {
                res.push(&self.modules[n]);
                assert(self@.in_order().take(i + 1) =~= self@.in_order().take(i as int).push(
                    self.modules@[n as int]@,
                ));
            }
            i += 1;
        }
        assert(self@.in_order().take(i as int) =~= self@.in_order());
        res
    }

    /// Loads a module. A module that was at the same path before is replaced. The result
    /// is the position of the module.
    pub fn push_module(&mut self, module: Module) -> (res: usize)
        requires
            old(self).wf(),
            module.wf(),
        ensures
            final(self).wf(),
            final(self)@ == old(self)@.push(module@),
            res < final(self).modules@.len(),
            position(final(self)@.modules, module@.code.path) == Some(res as int),
    {
        proof {
            lemma_push(self@, module@);
            lemma_position(self@.modules, module@.code.path);
        }
        let path = module.path.clone();
        let ghost before = *self;
        let at = self.find(&path);
        let res: usize = match at {
            Some(i) => {
                self.modules[i] = module;
                i
            },
            None => {
                self.modules.push(module);
                self.modules.len() - 1
            },
        };
        self.order.push(path);
        proof {
            assert(self@.modules =~= before@.push(module@).modules);
            assert forall|i: int| 0 <= i < self.modules@.len() implies (
            #[trigger] self.modules@[i]).wf() by {
                if i != res {
                    assert(self.modules@[i] == before.modules@[i]);
                }
            }
        }
        res
    }

    /// The paths of the modules in the order of their loading.
    pub fn into_module_order(self) -> (res: Vec<ModulePath>)
        ensures
            views(res@) == self@.order,
    {
        self.order
    }
}

/// A search through the first modules finds the first match there is.
proof fn lemma_position_prefix(modules: Seq<ModuleView>, path: PathView, n: int)
    requires
        0 <= n <= modules.len(),
        position(modules.take(n), path) is Some,
    ensures
        position(modules, path) == position(modules.take(n), path),
    decreases modules.len(),
{
    if n < modules.len() {
        assert(modules.drop_last().take(n) =~= modules.take(n));
        lemma_position_prefix(modules.drop_last(), path, n);
    } else {
        assert(modules.take(n) =~= modules);
    }
}

} // verus!
