use crate::params::{no_params, StaticParamsMap};
use crate::path::{
    SegmentView,
    all_static, is_plain_path, lemma_plain_path_resolves_to_itself,
    lemma_static_path_resolves_to_itself, static_join, ancestor_paths, expand_paths, param_names, path_segments, ResolvedStaticPath, StaticPath,
    StaticPathView,
};
use vstd::prelude::*;

verus! {

/// The mode to use when rendering the route statically.
/// On mode `Upfront`, the route will be built with the server is started using the provided static
/// data. On mode `Incremental`, the route will be built on the first request to it and then cached
/// and returned statically for subsequent requests.
#[derive(Copy, Clone, Debug, PartialEq, Eq, Structural, Hash, PartialOrd, Ord)]
pub enum StaticMode {
    Upfront,
    Incremental,
}

impl Default for StaticMode {
    fn default() -> (mode: Self)
        ensures
            mode == StaticMode::Upfront,
    {
        StaticMode::Upfront
    }
}

/// A route of the application: its path, and how it is rendered statically,
/// if at all.
pub struct StaticRoute {
    pub path: String,
    pub mode: Option<StaticMode>,
}

/// The parameter values that were gathered under each route path, in the
/// order in which they were gathered.
pub open spec fn table_view(table: Seq<(String, StaticParamsMap)>) -> Seq<
    (Seq<char>, Map<Seq<char>, Seq<Seq<char>>>),
> {
    table.map_values(|e: (String, StaticParamsMap)| (e.0@, e.1@))
}

/// The routes by their paths and modes.
pub open spec fn routes_view(routes: Seq<StaticRoute>) -> Seq<(Seq<char>, Option<StaticMode>)> {
    routes.map_values(|r: StaticRoute| (r.path@, r.mode))
}

/// The parameter values gathered last under `key`, if any were.
pub open spec fn data_for(
    table: Seq<(Seq<char>, Map<Seq<char>, Seq<Seq<char>>>)>,
    key: Seq<char>,
) -> Option<Map<Seq<char>, Seq<Seq<char>>>>
    decreases table.len(),
{
    if table.len() == 0 {
        None
    } else if table.last().0 == key {
        Some(table.last().1)
    } else {
        data_for(table.drop_last(), key)
    }
}

/// The paths whose gathered values a route draws on: the outermost path
/// above it first, the route's own path last.
pub open spec fn data_keys(s: Seq<char>) -> Seq<Seq<char>> {
    ancestor_paths(s).reverse().push(s)
}

/// The values for the parameters named in `names`, taken from the data
/// under each of `keys` in turn, later keys overriding earlier ones.
pub open spec fn gather_params(
    names: Set<Seq<char>>,
    keys: Seq<Seq<char>>,
    table: Seq<(Seq<char>, Map<Seq<char>, Seq<Seq<char>>>)>,
) -> Map<Seq<char>, Seq<Seq<char>>>
    decreases keys.len(),
{
    if keys.len() == 0 {
        no_params()
    } else {
        let acc = gather_params(names, keys.drop_last(), table);
        match data_for(table, keys.last()) {
            Some(m) => acc.union_prefer_right(m.restrict(names)),
            None => acc,
        }
    }
}

/// The concrete paths that the route at `s` is rendered for.
pub open spec fn route_paths(
    s: Seq<char>,
    table: Seq<(Seq<char>, Map<Seq<char>, Seq<Seq<char>>>)>,
) -> Seq<Seq<char>> {
    let segs = path_segments(s);
    expand_paths(segs, gather_params(param_names(segs), data_keys(s), table))
}

/// The concrete paths of every route rendered up front, route by route.
pub open spec fn planned_paths(
    routes: Seq<(Seq<char>, Option<StaticMode>)>,
    table: Seq<(Seq<char>, Map<Seq<char>, Seq<Seq<char>>>)>,
) -> Seq<Seq<char>>
    decreases routes.len(),
{
    if routes.len() == 0 {
        seq![]
    } else {
        planned_paths(routes.drop_last(), table) + if routes.last().1 == Some(StaticMode::Upfront) {
            route_paths(routes.last().0, table)
        } else {
            seq![]
        }
    }
}

/// The parameter values gathered last under `key`.
pub fn lookup_data<'t>(table: &'t Vec<(String, StaticParamsMap)>, key: &str) -> (found: Option<
    &'t StaticParamsMap,
>)
    ensures
        match data_for(table_view(table@), key@) {
            Some(m) => found matches Some(d) && d@ == m,
            None => found is None,
        },
{
    let ghost t = table_view(table@);
    let wanted = String::from_str(key);
    let mut k = table.len();
    proof {
        assert(t.take(k as int) =~= t);
    }
    while k > 0
        invariant
            k <= table.len(),
            t == table_view(table@),
            wanted@ == key@,
            data_for(t, key@) == data_for(t.take(k as int), key@),
        decreases k,
    {
        let ghost prefix = t.take(k as int);
        proof {
            assert(prefix.drop_last() =~= t.take(k - 1));
            assert(prefix.last() == (table@[k - 1].0@, table@[k - 1].1@));
        }
        if table[k - 1].0 == wanted {
            return Some(&table[k - 1].1);
        }
        k -= 1;
    }
    proof {
        assert(t.take(0).len() == 0);
    }
    None
}

/// The concrete paths that the route at `path` is rendered for: the route's
/// parameters take their values from the data gathered under each path
/// above it, outermost first, and then under its own path.
pub fn resolve_route(path: &str, table: &Vec<(String, StaticParamsMap)>) -> (paths: Vec<
    ResolvedStaticPath,
>)
    ensures
        paths.deep_view() == route_paths(path@, table_view(table@)),
{
    let ghost t = table_view(table@);
    let ghost segs = path_segments(path@);
    let ghost names = param_names(segs);
    let ghost chain = ancestor_paths(path@);
    let ghost keys = data_keys(path@);
    let mut target = StaticPath::new(path);
    let parents = target.parents();
    let n = parents.len();
    let mut k = n;
    proof {
        assert(keys.take(0) =~= Seq::<Seq<char>>::empty());
    }
    while k > 0
        invariant
            k <= n,
            n == parents@.len(),
            n == chain.len(),
            chain == ancestor_paths(path@),
            keys == data_keys(path@),
            t == table_view(table@),
            forall|j: int|
                0 <= j < parents@.len() ==> #[trigger] parents@[j]@ == crate::path::fresh_path_view(
                    chain[j],
                ),
            target@ == (StaticPathView {
                path: path@,
                segments: segs,
                params: gather_params(names, keys.take(n - k), t),
            }),
            segs == path_segments(path@),
            names == param_names(segs),
        decreases k,
    {
        k -= 1;
        let key = parents[k].path();
        proof {
            let taken = keys.take(n - k);
            assert(taken.drop_last() =~= keys.take(n - k - 1));
            assert(taken.last() == chain[k as int]);
        }
        match lookup_data(table, key) {
            Some(data) => target.add_params(data),
            None => {},
        }
    }
    let own = target.path();
    match lookup_data(table, own) {
        Some(data) => target.add_params(data),
        None => {},
    }
    proof {
        assert(keys.take(n as int) =~= chain.reverse());
        assert(keys =~= keys.take(n as int).push(path@));
        assert(keys.drop_last() =~= keys.take(n as int));
    }
    target.into_paths()
}

/// The concrete paths of every route that is rendered up front, route by
/// route, each resolved with the gathered parameter values.
pub fn plan_static_routes(routes: &Vec<StaticRoute>, table: &Vec<(String, StaticParamsMap)>) -> (paths:
    Vec<ResolvedStaticPath>)
    ensures
        paths.deep_view() == planned_paths(routes_view(routes@), table_view(table@)),
{
    let ghost rs = routes_view(routes@);
    let ghost t = table_view(table@);
    let mut paths: Vec<ResolvedStaticPath> = Vec::new();
    let mut i: usize = 0;
    proof {
        assert(rs.take(0) =~= Seq::<(Seq<char>, Option<StaticMode>)>::empty());
        assert(paths.deep_view() =~= Seq::<Seq<char>>::empty());
    }
    while i < routes.len()
        invariant
            i <= routes.len(),
            rs == routes_view(routes@),
            t == table_view(table@),
            paths.deep_view() == planned_paths(rs.take(i as int), t),
        decreases routes.len() - i,
    {
        let route = &routes[i];
        let ghost before = paths.deep_view();
        proof {
            assert(rs.take(i + 1).drop_last() =~= rs.take(i as int));
            assert(rs.take(i + 1).last() == (route.path@, route.mode));
        }
        match route.mode {
            Some(StaticMode::Upfront) => {
                let mut more = resolve_route(route.path.as_str(), table);
                let ghost added = more.deep_view();
                paths.append(&mut more);
                proof {
                    assert(paths.deep_view() =~= before + added);
                }
            },
            _ => {
                proof {
                    assert(before + Seq::<Seq<char>>::empty() =~= before);
                }
            },
        }
        i += 1;
    }
    proof {
        assert(rs.take(routes.len() as int) =~= rs);
    }
    paths
}

/// For a parameter that a route names, the values given under the route's
/// own path are the ones that it is rendered with, whatever the paths above
/// it were given.
pub proof fn lemma_own_data_wins(
    s: Seq<char>,
    table: Seq<(Seq<char>, Map<Seq<char>, Seq<Seq<char>>>)>,
    name: Seq<char>,
)
    requires
        data_for(table, s) is Some,
        data_for(table, s)->0.contains_key(name),
        param_names(path_segments(s)).contains(name),
    ensures
        gather_params(param_names(path_segments(s)), data_keys(s), table).contains_key(name),
        gather_params(param_names(path_segments(s)), data_keys(s), table)[name] == data_for(
            table,
            s,
        )->0[name],
{
    let keys = data_keys(s);
    assert(keys.last() == s);
}

/// A route without parameters or wildcards is rendered for exactly one
/// path, its fixed segments each after a slash, whatever values were
/// gathered.
pub proof fn lemma_plain_route_single_path(
    s: Seq<char>,
    table: Seq<(Seq<char>, Map<Seq<char>, Seq<Seq<char>>>)>,
)
    requires
        all_static(path_segments(s)),
    ensures
        route_paths(s, table) == seq![static_join(path_segments(s))],
{
    let segs = path_segments(s);
    lemma_static_path_resolves_to_itself(
        segs,
        gather_params(param_names(segs), data_keys(s), table),
    );
}

/// A route whose path is written plainly is rendered for exactly that path,
/// whatever values were gathered.
pub proof fn lemma_plain_route_renders_itself(
    s: Seq<char>,
    table: Seq<(Seq<char>, Map<Seq<char>, Seq<Seq<char>>>)>,
)
    requires
        is_plain_path(s),
    ensures
        route_paths(s, table) == seq![s],
{
    let segs = path_segments(s);
    lemma_plain_path_resolves_to_itself(
        s,
        gather_params(param_names(segs), data_keys(s), table),
    );
}


/// Whether the data under `key` gives values for `n`.
pub open spec fn gives(
    table: Seq<(Seq<char>, Map<Seq<char>, Seq<Seq<char>>>)>,
    key: Seq<char>,
    n: Seq<char>,
) -> bool {
    data_for(table, key) matches Some(m) && m.contains_key(n)
}

proof fn lemma_gather_last_giver(
    names: Set<Seq<char>>,
    keys: Seq<Seq<char>>,
    table: Seq<(Seq<char>, Map<Seq<char>, Seq<Seq<char>>>)>,
    idx: int,
    n: Seq<char>,
)
    requires
        names.contains(n),
        0 <= idx < keys.len(),
        gives(table, keys[idx], n),
        forall|j: int| idx < j < keys.len() ==> !gives(table, #[trigger] keys[j], n),
    ensures
        gather_params(names, keys, table).contains_key(n),
        gather_params(names, keys, table)[n] == data_for(table, keys[idx])->0[n],
    decreases keys.len(),
{
    let init = keys.drop_last();
    if idx < keys.len() - 1 {
        assert forall|j: int| idx < j < init.len() implies !gives(table, #[trigger] init[j], n) by {
            assert(init[j] == keys[j]);
            assert(!gives(table, keys[j], n));
        }
        assert(init[idx] == keys[idx]);
        lemma_gather_last_giver(names, init, table, idx, n);
        assert(!gives(table, keys[keys.len() - 1], n));
        assert(keys.last() == keys[keys.len() - 1]);
    }
}

/// Every path above a route is consulted, outermost first, and then the
/// route's own path: where the nearest of these whose data gives values for
/// a parameter or wildcard `n` of the route is the `k`-th path above it, the
/// route is resolved with exactly those values for `n`.
pub proof fn lemma_ancestor_data_is_consulted(
    s: Seq<char>,
    table: Seq<(Seq<char>, Map<Seq<char>, Seq<Seq<char>>>)>,
    n: Seq<char>,
    k: int,
)
    requires
        0 <= k < ancestor_paths(s).len(),
        gives(table, ancestor_paths(s)[k], n),
        forall|j: int| 0 <= j < k ==> !gives(table, #[trigger] ancestor_paths(s)[j], n),
        !gives(table, s, n),
        exists|i: int|
            0 <= i < path_segments(s).len() && (path_segments(s)[i] == SegmentView::Param(n)
                || path_segments(s)[i] == SegmentView::Wildcard(n)),
    ensures
        exists|p: Map<Seq<char>, Seq<Seq<char>>>|
            route_paths(s, table) == expand_paths(path_segments(s), p) && p.contains_key(n)
                && p[n] == data_for(table, ancestor_paths(s)[k])->0[n],
{
    let segs = path_segments(s);
    let names = param_names(segs);
    let i = choose|i: int|
        0 <= i < segs.len() && (segs[i] == SegmentView::Param(n) || segs[i] == SegmentView::Wildcard(n));
    assert(crate::path::param_name(segs[i]) == Some(n));
    assert(names.contains(n));
    let a = ancestor_paths(s);
    let keys = data_keys(s);
    let idx = a.len() - 1 - k;
    assert(keys[idx] == a.reverse()[idx]);
    assert(keys[idx] == a[k]);
    assert forall|j: int| idx < j < keys.len() implies !gives(table, #[trigger] keys[j], n) by {
        if j < a.len() {
            assert(keys[j] == a.reverse()[j]);
            assert(keys[j] == a[a.len() - 1 - j]);
            let jj = a.len() - 1 - j;
            assert(!gives(table, a[jj], n));
        } else {
            assert(keys[j] == s);
        }
    }
    lemma_gather_last_giver(names, keys, table, idx, n);
    let p = gather_params(names, keys, table);
    assert(route_paths(s, table) == expand_paths(segs, p));
}

/// The data under a route's own path wins: where it gives values for a
/// parameter or wildcard `n` of the route, the route is resolved with
/// exactly those values for `n`, whatever the paths above it were given.
pub proof fn lemma_own_data_resolves(
    s: Seq<char>,
    table: Seq<(Seq<char>, Map<Seq<char>, Seq<Seq<char>>>)>,
    n: Seq<char>,
)
    requires
        gives(table, s, n),
        exists|i: int|
            0 <= i < path_segments(s).len() && (path_segments(s)[i] == SegmentView::Param(n)
                || path_segments(s)[i] == SegmentView::Wildcard(n)),
    ensures
        exists|p: Map<Seq<char>, Seq<Seq<char>>>|
            route_paths(s, table) == expand_paths(path_segments(s), p) && p.contains_key(n)
                && p[n] == data_for(table, s)->0[n],
{
    let segs = path_segments(s);
    let names = param_names(segs);
    let i = choose|i: int|
        0 <= i < segs.len() && (segs[i] == SegmentView::Param(n) || segs[i] == SegmentView::Wildcard(n));
    assert(crate::path::param_name(segs[i]) == Some(n));
    assert(names.contains(n));
    let keys = data_keys(s);
    assert(keys[keys.len() - 1] == s);
    lemma_gather_last_giver(names, keys, table, keys.len() - 1, n);
    let p = gather_params(names, keys, table);
    assert(route_paths(s, table) == expand_paths(segs, p));
}

/// Only routes rendered up front are planned: adding a route leaves the
/// plan as it was unless its mode is `Upfront`, in which case its resolved
/// paths come after those planned before.
pub proof fn lemma_plan_takes_upfront_only(
    routes: Seq<(Seq<char>, Option<StaticMode>)>,
    route: (Seq<char>, Option<StaticMode>),
    table: Seq<(Seq<char>, Map<Seq<char>, Seq<Seq<char>>>)>,
)
    ensures
        route.1 != Some(StaticMode::Upfront) ==> planned_paths(routes.push(route), table)
            == planned_paths(routes, table),
        route.1 == Some(StaticMode::Upfront) ==> planned_paths(routes.push(route), table)
            == planned_paths(routes, table) + route_paths(route.0, table),
        planned_paths(seq![], table) == Seq::<Seq<char>>::empty(),
{
    let more = routes.push(route);
    assert(more.drop_last() =~= routes);
    assert(more.last() == route);
    if route.1 != Some(StaticMode::Upfront) {
        assert(planned_paths(routes, table) + Seq::<Seq<char>>::empty() =~= planned_paths(
            routes,
            table,
        ));
    }
}

} // verus!
