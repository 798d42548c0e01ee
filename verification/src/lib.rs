//! Route planning for statically rendered pages: parsing route paths into
//! segments, gathering parameter values from a route and the paths above
//! it, expanding them into concrete paths, naming the files that hold the
//! rendered pages, and turning the outcome of reading such a file into a
//! response.

pub mod files;
pub mod params;
pub mod path;
pub mod response;
pub mod routes;

pub use files::{
    is_static_file_name, not_found_path, static_file_name, static_file_path, trim_start_slashes,
    SiteOptions,
};
pub use params::StaticParamsMap;
pub use path::{ResolvedStaticPath, StaticPath};
pub use response::{
    incremental_static_route, not_found_page, not_found_page_response, upfront_route_response,
    upfront_static_route, ReadFailure, StaticResponse, StaticStatusCode,
};
pub use routes::{lookup_data, plan_static_routes, resolve_route, StaticMode, StaticRoute};
