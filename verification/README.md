# wesl_import

Import resolution for [WESL](https://wesl-lang.dev) modules, verified with Verus.

Starting at a root module, the library loads every module that is used, makes the
identifiers that are used point at the declarations they mean, and merges all modules into
one. Modules come from a `Resolver`, new names from a `Mangler`; both are traits for callers
to implement.

* `src/` is the library. Its functions have contracts, and what holds of a resolution as a
  whole is proved in the `*_laws` modules. The methods of the two traits have none: what
  they answer is up to whoever implements them.
* `app/` runs the library on the syntax trees of `wgsl_parse`.
* `tests/` runs the library on small modules.

Two functions rest on an outside crate: joining module paths and printing them is left to
`wgsl_parse`. Their contracts are in `src/path.rs`.
