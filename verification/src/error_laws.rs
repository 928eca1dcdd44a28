//! What holds of every error, and of every result of a resolution.
use crate::error::{
    CauseView, Error, ErrorView, ImportErrorView, LocationView, ResolveErrorView,
};
use crate::load::{blamed, reports, LoadOutcome, Resolver};
use crate::resolutions::Resolutions;
use crate::resolve::resolves;
use crate::syntax::{ModulePath, PathView};
use crate::views::opt_view;
use vstd::prelude::*;

verus! {

/// The first module that an error is blamed on is the one that it stays blamed on. Blaming does
/// not change what went wrong.
pub proof fn law_the_first_blame_stays(error: ErrorView, a: LocationView, b: LocationView)
    ensures
        error.located(a).cause == error.cause,
        error.location is None ==> error.located(a).location == Some(a),
        error.location is Some ==> error.located(a).location == error.location,
        error.located(a).located(b) == error.located(a),
{
}

/// The error of a failed reference keeps what failed, and is blamed on no module. The error of
/// a resolver keeps the message, and is blamed on the module that the resolver names, if it
/// names one.
pub proof fn law_errors_keep_their_cause(
    e: ImportErrorView,
    r: ResolveErrorView,
    location: LocationView,
)
    ensures
        ErrorView::import(e).cause == CauseView::Import(e),
        ErrorView::import(e).located(location).location == Some(location),
        ErrorView::resolve(r).cause matches CauseView::Resolve(kept) && kept.message == r.message,
        ErrorView::resolve(r).located(location).location == match r.location {
            Some(named) => Some(named),
            None => Some(location),
        },
{
}

/// Whether `part` stands in `text`, from position `i` on.
pub open spec fn stands_at(text: Seq<char>, part: Seq<char>, i: int) -> bool {
    0 <= i <= i + part.len() <= text.len() && text.subrange(i, i + part.len()) == part
}

/// Messages name the culprit: the name of an error and its path, as it is written, stand in the
/// message. The message of a resolver is its own.
pub proof fn law_messages_name_the_culprit(
    name: Seq<char>,
    path: PathView,
    e: ResolveErrorView,
)
    ensures
        exists|i: int| #[trigger]
            stands_at(ImportErrorView::DuplicateSymbol(name).message(), name, i),
        exists|i: int| #[trigger]
            stands_at(ImportErrorView::MissingDecl(path, name).message(), name, i),
        exists|i: int| #[trigger]
            stands_at(ImportErrorView::MissingDecl(path, name).message(), path.text(), i),
        exists|i: int| #[trigger]
            stands_at(ImportErrorView::Private(name, path).message(), name, i),
        exists|i: int| #[trigger]
            stands_at(ImportErrorView::Private(name, path).message(), path.text(), i),
        ImportErrorView::ResolveError(e).message() == e.message,
{
    let a = "duplicate declaration of `"@;
    let b = "`"@;
    lemma_stands(a, name, b);
    assert(ImportErrorView::DuplicateSymbol(name).message() == a + name + b);
    let c = "module `"@;
    let d = "` has no declaration `"@;
    lemma_stands(c + path.text() + d, name, b);
    lemma_stands(c, path.text(), d + name + b);
    assert(ImportErrorView::MissingDecl(path, name).message() == c + path.text() + d + name + b);
    assert(c + path.text() + d + name + b =~= c + path.text() + (d + name + b));
    let f = "import of `"@;
    let g = "` in module `"@;
    let h = "` is not `@publish`, but another module tried to import it"@;
    lemma_stands(f, name, g + path.text() + h);
    lemma_stands(f + name + g, path.text(), h);
    assert(ImportErrorView::Private(name, path).message() == f + name + g + path.text() + h);
    assert(f + name + g + path.text() + h =~= f + name + (g + path.text() + h));
}

proof fn lemma_stands(before: Seq<char>, part: Seq<char>, after: Seq<char>)
    ensures
        stands_at(before + part + after, part, before.len() as int),
{
    let text = before + part + after;
    assert(text.subrange(before.len() as int, (before.len() + part.len()) as int) =~= part);
}

/// Whether a result is the error `e`, blamed on the module at `path` under a name that the
/// resolver has for that module. An error that is blamed on a module already stays as it is.
pub open spec fn fails_with<R: Resolver>(
    resolver: &R,
    res: Result<Resolutions, Error>,
    e: ErrorView,
    path: PathView,
) -> bool {
    &&& res matches Err(err)
    &&& err@.cause == e.cause
    &&& match e.location {
        Some(location) => err@.location == Some(location),
        None => err@.location matches Some(location) && location.path == path && exists|
            p: ModulePath,
            name: Option<String>,
        |
            {
                &&& #[trigger] call_ensures(R::display_name, (resolver, &p), name)
                &&& p@ == path
                &&& location.display_name == opt_view(name)
            },
    }
}

proof fn lemma_fails_with<R: Resolver>(
    resolver: &R,
    res: Result<Resolutions, Error>,
    e: ErrorView,
    path: PathView,
)
    requires
        res matches Err(err) && blamed(resolver, err@, e, path),
    ensures
        fails_with(resolver, res, e, path),
{
    let err = res->Err_0;
    let (p, name) = choose|p: ModulePath, name: Option<String>|
        {
            &&& #[trigger] call_ensures(R::display_name, (resolver, &p), name)
            &&& p@ == path
            &&& err@ == e.located(LocationView { path, display_name: opt_view(name) })
        };
    assert(call_ensures(R::display_name, (resolver, &p), name));
}

/// The result of a loading is the loaded modules if it is done, and an error if it failed or
/// gave up: what went wrong, and the module to blame.
pub proof fn law_loading_reports_its_outcome<R: Resolver>(
    resolver: &R,
    outcome: LoadOutcome,
    res: Result<Resolutions, Error>,
)
    requires
        reports(resolver, outcome, res),
    ensures
        match outcome {
            LoadOutcome::Done(loaded) => res matches Ok(r) && r@ == loaded,
            LoadOutcome::Failed(e, path) => fails_with(resolver, res, e, path),
            LoadOutcome::StepLimit => res matches Err(err) && err@.cause is StepLimit
                && err@.location is None,
            LoadOutcome::Mismatch => false,
        },
{
    if let LoadOutcome::Failed(e, path) = outcome {
        lemma_fails_with(resolver, res, e, path);
    }
}

/// The result of a resolution is what is loaded, retargeted, if loading is done and every used
/// identifier has its declaration. It is the error of retargeting if one has not, and the error
/// of loading if that failed or gave up.
pub proof fn law_resolving_reports_its_outcome<R: Resolver>(
    resolver: &R,
    outcome: LoadOutcome,
    res: Result<Resolutions, Error>,
)
    requires
        resolves(resolver, outcome, res),
    ensures
        match outcome {
            LoadOutcome::Done(loaded) => match loaded.retargeted() {
                Ok(resolutions) => res matches Ok(r) && r@ == resolutions,
                Err(e) => res matches Err(err) && err@.cause == CauseView::Import(e),
            },
            LoadOutcome::Failed(e, path) => fails_with(resolver, res, e, path),
            LoadOutcome::StepLimit => res matches Err(err) && err@.cause is StepLimit,
            LoadOutcome::Mismatch => false,
        },
        res matches Ok(r) ==> outcome is Done && r@.modules.len()
            == outcome->Done_0.modules.len() && r@.order == outcome->Done_0.order,
{
    if let LoadOutcome::Failed(e, path) = outcome {
        lemma_fails_with(resolver, res, e, path);
    }
}

} // verus!
