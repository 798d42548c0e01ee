use static_render::{
    incremental_static_route, is_static_file_name, lookup_data, not_found_page,
    not_found_page_response, not_found_path, plan_static_routes, resolve_route, static_file_name,
    static_file_path, trim_start_slashes, upfront_route_response, upfront_static_route,
    ReadFailure, ResolvedStaticPath, SiteOptions, StaticMode, StaticParamsMap, StaticPath,
    StaticResponse, StaticRoute, StaticStatusCode,
};

fn strings(items: &[&str]) -> Vec<String> {
    items.iter().map(|s| s.to_string()).collect()
}

fn texts(paths: &[ResolvedStaticPath]) -> Vec<String> {
    paths.iter().map(|p| p.0.clone()).collect()
}

fn assert_page(
    r: &StaticResponse,
    body: &str,
    status: StaticStatusCode,
    content_type: Option<&str>,
) {
    match r {
        StaticResponse::ReturnResponse { body: b, status: s, content_type: c } => {
            assert_eq!(b, body);
            assert_eq!(*s, status);
            assert_eq!(*c, content_type);
        }
        other => panic!("unexpected response {:?}", other),
    }
}

#[test]
fn params_insert_then_get() {
    let mut m = StaticParamsMap::new();
    assert!(m.get("id").is_none());
    m.insert("id", strings(&["1", "2"]));
    assert_eq!(m.get("id"), Some(&strings(&["1", "2"])));
    assert!(m.get("other").is_none());
}

#[test]
fn params_insert_replaces_and_keeps_others() {
    let mut m = StaticParamsMap::default();
    m.insert("a", strings(&["x"]));
    m.insert("b", strings(&["y"]));
    m.insert("a", strings(&["z", "w"]));
    assert_eq!(m.get("a"), Some(&strings(&["z", "w"])));
    assert_eq!(m.get("b"), Some(&strings(&["y"])));
    assert_eq!(m.0.len(), 2);
    assert_eq!(m.len(), 2);
}

#[test]
fn params_same_key_twice_holds_one_entry() {
    let mut m = StaticParamsMap::new();
    assert_eq!(m.len(), 0);
    m.insert("id", strings(&["1", "2"]));
    m.insert("id", strings(&["3"]));
    assert_eq!(m.get("id"), Some(&strings(&["3"])));
    assert!(m.get("slug").is_none());
    assert_eq!(m.len(), 1);
}

#[test]
fn appending_a_fixed_segment_appends_to_every_path() {
    let mut m = StaticParamsMap::new();
    m.insert("id", strings(&["1", "2"]));
    let mut short = StaticPath::new("/posts/:id");
    let mut long = StaticPath::new("/posts/:id/edit");
    short.add_params(&m);
    long.add_params(&m);
    let expected: Vec<String> = texts(&short.into_paths()).iter().map(|r| format!("{}/edit", r)).collect();
    assert_eq!(texts(&long.into_paths()), expected);
}

#[test]
fn path_keeps_its_text() {
    let p = StaticPath::new("/posts/:id");
    assert_eq!(p.path(), "/posts/:id");
}

#[test]
fn static_path_resolves_to_itself() {
    let p = StaticPath::new("/about/team");
    assert_eq!(texts(&p.into_paths()), strings(&["/about/team"]));
}

#[test]
fn empty_and_repeated_slashes_are_dropped() {
    let p = StaticPath::new("a//b/");
    assert_eq!(texts(&p.into_paths()), strings(&["/a/b"]));
    let root = StaticPath::new("/");
    assert_eq!(texts(&root.into_paths()), strings(&[""]));
    let empty = StaticPath::new("");
    assert_eq!(texts(&empty.into_paths()), strings(&[""]));
}

#[test]
fn parameters_without_values_resolve_to_empty_text() {
    let p = StaticPath::new("/posts/:id/*rest");
    assert_eq!(texts(&p.into_paths()), strings(&["/posts//"]));
}

#[test]
fn parameters_expand_in_order() {
    let mut p = StaticPath::new("/posts/:id/*rest");
    let mut m = StaticParamsMap::new();
    m.insert("id", strings(&["1", "2"]));
    m.insert("rest", strings(&["a", "b/c"]));
    m.insert("unused", strings(&["u"]));
    p.add_params(&m);
    assert_eq!(
        texts(&p.into_paths()),
        strings(&["/posts/1/a", "/posts/1/b/c", "/posts/2/a", "/posts/2/b/c"])
    );
}

#[test]
fn parameter_with_no_values_gives_no_path() {
    let mut p = StaticPath::new("/posts/:id");
    let mut m = StaticParamsMap::new();
    m.insert("id", Vec::new());
    p.add_params(&m);
    assert!(p.into_paths().is_empty());
}

#[test]
fn later_params_override_earlier_ones() {
    let mut p = StaticPath::new("/:lang/:page");
    let mut first = StaticParamsMap::new();
    first.insert("lang", strings(&["en"]));
    first.insert("page", strings(&["a"]));
    let mut second = StaticParamsMap::new();
    second.insert("page", strings(&["b", "c"]));
    p.add_params(&first);
    p.add_params(&second);
    assert_eq!(texts(&p.into_paths()), strings(&["/en/b", "/en/c"]));
}

#[test]
fn adding_params_twice_changes_nothing() {
    let mut m = StaticParamsMap::new();
    m.insert("id", strings(&["7"]));
    let mut once = StaticPath::new("/x/:id");
    once.add_params(&m);
    let mut twice = StaticPath::new("/x/:id");
    twice.add_params(&m);
    twice.add_params(&m);
    assert_eq!(texts(&once.into_paths()), texts(&twice.into_paths()));
}

#[test]
fn parent_cuts_at_the_last_slash() {
    let p = StaticPath::new("/a/b/c");
    let parent = p.parent().unwrap();
    assert_eq!(parent.path(), "/a/b");
    assert_eq!(texts(&parent.into_paths()), strings(&["/a/b"]));
    let top = StaticPath::new("/a").parent().unwrap();
    assert_eq!(top.path(), "");
    assert!(top.parent().is_none());
}

#[test]
fn paths_without_parent() {
    assert!(StaticPath::new("/").parent().is_none());
    assert!(StaticPath::new("").parent().is_none());
    assert!(StaticPath::new("plain").parent().is_none());
}

#[test]
fn parents_nearest_first() {
    let p = StaticPath::new("/a/b/c");
    let parents: Vec<String> = p.parents().iter().map(|q| q.path().to_string()).collect();
    assert_eq!(parents, strings(&["/a/b", "/a", ""]));
    assert!(StaticPath::new("/").parents().is_empty());
}

#[test]
fn trailing_slash_parent() {
    let p = StaticPath::new("/a/");
    assert_eq!(p.parent().unwrap().path(), "/a");
}

fn table(entries: Vec<(&str, StaticParamsMap)>) -> Vec<(String, StaticParamsMap)> {
    entries.into_iter().map(|(k, v)| (k.to_string(), v)).collect()
}

#[test]
fn lookup_finds_the_last_entry() {
    let mut a = StaticParamsMap::new();
    a.insert("x", strings(&["1"]));
    let mut b = StaticParamsMap::new();
    b.insert("x", strings(&["2"]));
    let t = table(vec![("/k", a), ("/other", StaticParamsMap::new()), ("/k", b)]);
    assert_eq!(lookup_data(&t, "/k").unwrap().get("x"), Some(&strings(&["2"])));
    assert!(lookup_data(&t, "/missing").is_none());
}

#[test]
fn route_draws_on_its_ancestors() {
    let mut blog = StaticParamsMap::new();
    blog.insert("lang", strings(&["en", "fr"]));
    blog.insert("id", strings(&["0"]));
    let mut own = StaticParamsMap::new();
    own.insert("id", strings(&["1", "2"]));
    let t = table(vec![("/:lang", blog), ("/:lang/posts/:id", own)]);
    let paths = resolve_route("/:lang/posts/:id", &t);
    assert_eq!(
        texts(&paths),
        strings(&["/en/posts/1", "/en/posts/2", "/fr/posts/1", "/fr/posts/2"])
    );
}

#[test]
fn route_without_data() {
    let paths = resolve_route("/docs/:page", &Vec::new());
    assert_eq!(texts(&paths), strings(&["/docs/"]));
}

#[test]
fn plan_takes_upfront_routes_only() {
    let mut data = StaticParamsMap::new();
    data.insert("id", strings(&["a", "b"]));
    let t = table(vec![("/items/:id", data)]);
    let routes = vec![
        StaticRoute { path: "/".to_string(), mode: Some(StaticMode::Upfront) },
        StaticRoute { path: "/live".to_string(), mode: None },
        StaticRoute { path: "/later/:x".to_string(), mode: Some(StaticMode::Incremental) },
        StaticRoute { path: "/items/:id".to_string(), mode: Some(StaticMode::Upfront) },
    ];
    let plan = plan_static_routes(&routes, &t);
    assert_eq!(texts(&plan), strings(&["", "/items/a", "/items/b"]));
}

#[test]
fn static_mode_defaults_to_upfront() {
    assert_eq!(StaticMode::default(), StaticMode::Upfront);
    assert!(StaticMode::Upfront < StaticMode::Incremental);
}

#[test]
fn upfront_route_answers() {
    let ok = upfront_static_route(Ok("<p>hi</p>".to_string()));
    assert_page(&ok, "<p>hi</p>", StaticStatusCode::OK, Some("text/html"));
    let missing = upfront_static_route(Err(std::io::Error::from(std::io::ErrorKind::NotFound)));
    assert!(matches!(missing, StaticResponse::RenderNotFound));
    let broken =
        upfront_static_route(Err(std::io::Error::from(std::io::ErrorKind::PermissionDenied)));
    assert_page(&broken, "Internal Server Error", StaticStatusCode::InternalServerError, None);
}

#[test]
fn upfront_route_answers_by_failure() {
    assert!(matches!(
        upfront_route_response(Err(ReadFailure::NotFound)),
        StaticResponse::RenderNotFound
    ));
    assert_page(
        &upfront_route_response(Err(ReadFailure::Other)),
        "Internal Server Error",
        StaticStatusCode::InternalServerError,
        None,
    );
    assert_page(
        &upfront_route_response(Ok("body".to_string())),
        "body",
        StaticStatusCode::OK,
        Some("text/html"),
    );
}

#[test]
fn not_found_page_answers() {
    let ok = not_found_page(Ok("<p>gone</p>".to_string()));
    assert_page(&ok, "<p>gone</p>", StaticStatusCode::NotFound, Some("text/html"));
    let missing = not_found_page(Err(std::io::Error::from(std::io::ErrorKind::NotFound)));
    assert_page(&missing, "Not Found", StaticStatusCode::OK, None);
    let denied = not_found_page(Err(std::io::Error::from(std::io::ErrorKind::PermissionDenied)));
    assert_page(&denied, "Internal Server Error", StaticStatusCode::InternalServerError, None);
    let broken = not_found_page(Err(std::io::Error::new(std::io::ErrorKind::Other, "disk")));
    assert_page(&broken, "Internal Server Error", StaticStatusCode::InternalServerError, None);
    assert_page(
        &not_found_page_response(Err(ReadFailure::NotFound)),
        "Not Found",
        StaticStatusCode::OK,
        None,
    );
}

#[test]
fn incremental_route_answers() {
    let ok = incremental_static_route(Ok("page".to_string()));
    assert_page(&ok, "page", StaticStatusCode::OK, Some("text/html"));
    let missing = incremental_static_route(Err(std::io::Error::from(std::io::ErrorKind::NotFound)));
    assert!(matches!(missing, StaticResponse::RenderDynamic));
    let broken =
        incremental_static_route(Err(std::io::Error::from(std::io::ErrorKind::PermissionDenied)));
    assert!(matches!(broken, StaticResponse::RenderDynamic));
}

fn options() -> SiteOptions {
    SiteOptions { site_root: "target/site".to_string(), not_found_path: "/404".to_string() }
}

#[test]
fn file_paths() {
    assert_eq!(static_file_path(&options(), "/blog/1"), "target/site/blog/1.static.html");
    assert_eq!(not_found_path(&options()), "target/site/404.static.html");
}

#[test]
fn file_names() {
    assert_eq!(trim_start_slashes("//a/b"), "a/b");
    assert_eq!(trim_start_slashes("a"), "a");
    assert_eq!(trim_start_slashes("///"), "");
    assert_eq!(static_file_name("/blog/1"), "blog/1.static.html");
    assert_eq!(static_file_name(""), ".static.html");
    let resolved = ResolvedStaticPath("/docs/intro".to_string());
    assert_eq!(resolved.static_file_name(), "docs/intro.static.html");
    assert_eq!(resolved.url(), "http://leptos/docs/intro");
    assert_eq!(resolved.to_string(), "/docs/intro");
}

#[test]
fn purge_recognises_page_files() {
    assert!(is_static_file_name("index.static.html"));
    assert!(is_static_file_name(".static.html"));
    assert!(!is_static_file_name("index.html"));
    assert!(!is_static_file_name("static.html"));
    assert!(!is_static_file_name(""));
    assert!(is_static_file_name(&static_file_name("/any/path")));
}
