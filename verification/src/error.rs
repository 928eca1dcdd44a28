//! What can go wrong when imports are resolved, and in which module it went wrong.
use crate::syntax::{ModulePath, PathView};
use crate::views::opt_view;
use vstd::prelude::*;
use vstd::std_specs::convert::FromSpecImpl;
use vstd::string::StringExecFns;

verus! {

/// A module, with the name under which it is shown to a reader.
#[derive(Clone, Debug, PartialEq, Eq)]
pub struct Location {
    pub path: ModulePath,
    pub display_name: Option<String>,
}

pub ghost struct LocationView {
    pub path: PathView,
    pub display_name: Option<Seq<char>>,
}

impl View for Location {
    type V = LocationView;

    open spec fn view(&self) -> LocationView {
        LocationView { path: self.path@, display_name: opt_view(self.display_name) }
    }
}

/// A resolver's account of why it has no source for a module.
///
/// `location` is the module in which it found the fault, if it knows one.
#[derive(Clone, Debug, PartialEq, Eq)]
pub struct ResolveError {
    pub message: String,
    pub location: Option<Location>,
}

pub ghost struct ResolveErrorView {
    pub message: Seq<char>,
    pub location: Option<LocationView>,
}

impl View for ResolveError {
    type V = ResolveErrorView;

    open spec fn view(&self) -> ResolveErrorView {
        ResolveErrorView { message: self.message@, location: opt_view(self.location) }
    }
}

/// Error produced during import resolution.
#[derive(Clone, Debug, PartialEq, Eq)]
pub enum ImportError {
    /// A name is declared twice.
    DuplicateSymbol(String),
    /// A module has no source.
    ResolveError(ResolveError),
    /// The module has no declaration of that name.
    MissingDecl(ModulePath, String),
    /// The import of that name in the module is not `@publish`, but another module tried
    /// to import it.
    Private(String, ModulePath),
}

pub ghost enum ImportErrorView {
    DuplicateSymbol(Seq<char>),
    ResolveError(ResolveErrorView),
    MissingDecl(PathView, Seq<char>),
    Private(Seq<char>, PathView),
}

impl View for ImportError {
    type V = ImportErrorView;

    open spec fn view(&self) -> ImportErrorView {
        match self {
            ImportError::DuplicateSymbol(name) => ImportErrorView::DuplicateSymbol(name@),
            ImportError::ResolveError(e) => ImportErrorView::ResolveError(e@),
            ImportError::MissingDecl(path, name) => ImportErrorView::MissingDecl(path@, name@),
            ImportError::Private(name, path) => ImportErrorView::Private(name@, path@),
        }
    }
}

impl ImportErrorView {
    /// The error in words.
    pub open spec fn message(self) -> Seq<char> {
        match self {
            ImportErrorView::DuplicateSymbol(name) => "duplicate declaration of `"@ + name + "`"@,
            ImportErrorView::ResolveError(e) => e.message,
            ImportErrorView::MissingDecl(path, name) => "module `"@ + path.text()
                + "` has no declaration `"@ + name + "`"@,
            ImportErrorView::Private(name, path) => "import of `"@ + name + "` in module `"@
                + path.text()
                + "` is not `@publish`, but another module tried to import it"@,
        }
    }
}

impl ImportError {
    /// The error in words.
    pub fn message(&self) -> (res: String)
        requires
            self@ matches ImportErrorView::MissingDecl(path, _) ==> path.is_printable(),
            self@ matches ImportErrorView::Private(_, path) ==> path.is_printable(),
        ensures
            res@ == self@.message(),
    {
        match self {
            ImportError::DuplicateSymbol(name) => {
                let mut res = String::from_str("duplicate declaration of `");
                res.append(name.as_str());
                res.append("`");
                res
            },
            ImportError::ResolveError(e) => e.message.clone(),
            ImportError::MissingDecl(path, name) => {
                let mut res = String::from_str("module `");
                res.append(path.text().as_str());
                res.append("` has no declaration `");
                res.append(name.as_str());
                res.append("`");
                res
            },
            ImportError::Private(name, path) => {
                let mut res = String::from_str("import of `");
                res.append(name.as_str());
                res.append("` in module `");
                res.append(path.text().as_str());
                res.append("` is not `@publish`, but another module tried to import it");
                res
            },
        }
    }
}

impl From<ResolveError> for ImportError {
    fn from(e: ResolveError) -> (res: ImportError) {
        ImportError::ResolveError(e)
    }
}

impl FromSpecImpl<ResolveError> for ImportError {
    open spec fn obeys_from_spec() -> bool {
        true
    }

    open spec fn from_spec(e: ResolveError) -> ImportError {
        ImportError::ResolveError(e)
    }
}

/// Why a resolution failed.
#[derive(Clone, Debug, PartialEq, Eq)]
pub enum Cause {
    /// A reference could not be resolved.
    Import(ImportError),
    /// The resolver has no source for a module.
    Resolve(ResolveError),
    /// The number of references that may be followed is used up.
    StepLimit,
}

pub ghost enum CauseView {
    Import(ImportErrorView),
    Resolve(ResolveErrorView),
    StepLimit,
}

impl View for Cause {
    type V = CauseView;

    open spec fn view(&self) -> CauseView {
        match self {
            Cause::Import(e) => CauseView::Import(e@),
            Cause::Resolve(e) => CauseView::Resolve(e@),
            Cause::StepLimit => CauseView::StepLimit,
        }
    }
}

/// The error of a resolution, with the module that it is blamed on.
#[derive(Clone, Debug, PartialEq, Eq)]
pub struct Error {
    pub cause: Cause,
    pub location: Option<Location>,
}

pub ghost struct ErrorView {
    pub cause: CauseView,
    pub location: Option<LocationView>,
}

impl View for Error {
    type V = ErrorView;

    open spec fn view(&self) -> ErrorView {
        ErrorView { cause: self.cause@, location: opt_view(self.location) }
    }
}

impl ErrorView {
    /// The error blamed on the module at `location`, unless it is blamed on one already.
    pub open spec fn located(self, location: LocationView) -> ErrorView {
        if self.location is Some {
            self
        } else {
            ErrorView { cause: self.cause, location: Some(location) }
        }
    }

    /// The error of a failed reference, blamed on no module.
    pub open spec fn import(e: ImportErrorView) -> ErrorView {
        ErrorView { cause: CauseView::Import(e), location: None }
    }

    /// The error of a resolver, blamed on the module that the resolver names.
    pub open spec fn resolve(e: ResolveErrorView) -> ErrorView {
        ErrorView {
            cause: CauseView::Resolve(
                ResolveErrorView { message: e.message, location: None },
            ),
            location: e.location,
        }
    }
}

impl Error {
    /// The error of a failed reference, blamed on no module.
    pub fn import(e: ImportError) -> (res: Error)
        ensures
            res@ == ErrorView::import(e@),
    {
        Error { cause: Cause::Import(e), location: None }
    }

    /// The error of a resolver, blamed on the module that the resolver names.
    pub fn resolve(e: ResolveError) -> (res: Error)
        ensures
            res@ == ErrorView::resolve(e@),
    {
        Error {
            cause: Cause::Resolve(ResolveError { message: e.message, location: None }),
            location: e.location,
        }
    }

    /// Blames the error on a module, unless it is blamed on one already.
    pub fn with_module_path(self, path: ModulePath, display_name: Option<String>) -> (res: Error)
        ensures
            res@ == self@.located(
                LocationView { path: path@, display_name: opt_view(display_name) },
            ),
    {
        if self.location.is_some() {
            self
        } else {
            Error { cause: self.cause, location: Some(Location { path, display_name }) }
        }
    }
}

} // verus!
