# static_render

Planning and bookkeeping for statically rendered routes, verified with Verus.

- `src/path.rs`: route paths parsed into fixed, parameter (`:name`) and
  wildcard (`*name`) segments; recording parameter values; expanding a path
  into every concrete path; parents of a path.
- `src/params.rs`: `StaticParamsMap`, parameter values kept in a
  `linear_map::LinearMap`.
- `src/routes.rs`: `StaticMode`, and the plan of which concrete paths are
  rendered up front, with values gathered from a route and the paths above it.
- `src/files.rs`: the names of the files that hold rendered pages.
- `src/response.rs`: the answer to a request, from the outcome of reading a
  rendered page.
- `app/lib.rs`: rendering with Leptos, reading and writing files, and the
  type-keyed `StaticRenderContext`.
