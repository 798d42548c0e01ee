use crate::params::{
    clone_values, linear_map_entries, linear_map_get, linear_map_insert, linear_map_new,
    no_params, StaticParamsMap,
};
use linear_map::LinearMap;
use vstd::prelude::*;

verus! {

/// A segment of a route path, by its characters: a fixed piece of text, a
/// named parameter (written `:name`), or a named wildcard (written `*name`).
pub enum SegmentView {
    Static(Seq<char>),
    Param(Seq<char>),
    Wildcard(Seq<char>),
}

/// The pieces of `s` between slashes, empty ones included, as `split('/')`
/// cuts them: a string without a slash is one piece.
pub open spec fn split_slash(s: Seq<char>) -> Seq<Seq<char>>
    decreases s.len(),
{
    if s.len() == 0 {
        seq![Seq::<char>::empty()]
    } else {
        let prev = split_slash(s.drop_last());
        if s.last() == '/' {
            prev.push(Seq::<char>::empty())
        } else {
            prev.update(prev.len() - 1, prev.last().push(s.last()))
        }
    }
}

/// What a non-empty piece of a path stands for: a parameter where it starts
/// with `:`, a wildcard where it starts with `*`, fixed text otherwise.
pub open spec fn classify(piece: Seq<char>) -> SegmentView {
    if piece.len() > 0 && piece[0] == ':' {
        SegmentView::Param(piece.drop_first())
    } else if piece.len() > 0 && piece[0] == '*' {
        SegmentView::Wildcard(piece.drop_first())
    } else {
        SegmentView::Static(piece)
    }
}

/// The non-empty pieces, in order, each classified.
pub open spec fn classify_pieces(pieces: Seq<Seq<char>>) -> Seq<SegmentView>
    decreases pieces.len(),
{
    if pieces.len() == 0 {
        seq![]
    } else {
        let rest = classify_pieces(pieces.drop_last());
        if pieces.last().len() > 0 {
            rest.push(classify(pieces.last()))
        } else {
            rest
        }
    }
}

/// The segments of a route path.
pub open spec fn path_segments(s: Seq<char>) -> Seq<SegmentView> {
    classify_pieces(split_slash(s))
}

/// A route path together with the parameter values gathered for it.
pub struct StaticPathView {
    pub path: Seq<char>,
    pub segments: Seq<SegmentView>,
    pub params: Map<Seq<char>, Seq<Seq<char>>>,
}

/// A route path as parsed, with no parameter values yet.
pub open spec fn fresh_path_view(s: Seq<char>) -> StaticPathView {
    StaticPathView { path: s, segments: path_segments(s), params: no_params() }
}

/// The name of a parameter or wildcard segment.
pub open spec fn param_name(seg: SegmentView) -> Option<Seq<char>> {
    match seg {
        SegmentView::Static(_) => None,
        SegmentView::Param(n) => Some(n),
        SegmentView::Wildcard(n) => Some(n),
    }
}

/// The names of the parameters and wildcards among `segs`.
pub open spec fn param_names(segs: Seq<SegmentView>) -> Set<Seq<char>> {
    Set::new(|n: Seq<char>| exists|i: int| 0 <= i < segs.len() && param_name(segs[i]) == Some(n))
}

/// The path after the values of `given` for its parameters and wildcards
/// were recorded, over whatever it held for them before.
pub open spec fn with_params(p: StaticPathView, given: Map<Seq<char>, Seq<Seq<char>>>) -> StaticPathView {
    StaticPathView {
        path: p.path,
        segments: p.segments,
        params: p.params.union_prefer_right(given.restrict(param_names(p.segments))),
    }
}

/// Splitting always yields at least one piece.
pub proof fn lemma_split_slash_nonempty(s: Seq<char>)
    ensures
        split_slash(s).len() >= 1,
    decreases s.len(),
{
    if s.len() > 0 {
        lemma_split_slash_nonempty(s.drop_last());
    }
}


/// Taking one more segment adds its name, if it has one, to the names.
pub proof fn lemma_param_names_step(segs: Seq<SegmentView>, i: int)
    requires
        0 <= i < segs.len(),
    ensures
        param_names(segs.take(i + 1)) == (match param_name(segs[i]) {
            Some(n) => param_names(segs.take(i)).insert(n),
            None => param_names(segs.take(i)),
        }),
{
    let a = segs.take(i + 1);
    let b = segs.take(i);
    match param_name(segs[i]) {
        Some(n) => {
            assert(param_name(a[i]) == Some(n));
            assert forall|m: Seq<char>| param_names(a).contains(m) implies param_names(b).insert(n).contains(m) by {
                let j = choose|j: int| 0 <= j < a.len() && param_name(a[j]) == Some(m);
                if j < i {
                    assert(param_name(b[j]) == Some(m));
                }
            }
            assert forall|m: Seq<char>| param_names(b).insert(n).contains(m) implies param_names(a).contains(m) by {
                if m != n {
                    let j = choose|j: int| 0 <= j < b.len() && param_name(b[j]) == Some(m);
                    assert(param_name(a[j]) == Some(m));
                }
            }
            assert(param_names(a) =~= param_names(b).insert(n));
        },
        None => {
            assert forall|m: Seq<char>| param_names(a).contains(m) implies param_names(b).contains(m) by {
                let j = choose|j: int| 0 <= j < a.len() && param_name(a[j]) == Some(m);
                assert(j != i);
                assert(param_name(b[j]) == Some(m));
            }
            assert forall|m: Seq<char>| param_names(b).contains(m) implies param_names(a).contains(m) by {
                let j = choose|j: int| 0 <= j < b.len() && param_name(b[j]) == Some(m);
                assert(param_name(a[j]) == Some(m));
            }
            assert(param_names(a) =~= param_names(b));
        },
    }
}


/// `prefix`, a slash, then `part`.
pub open spec fn join_part(prefix: Seq<char>, part: Seq<char>) -> Seq<char> {
    prefix + seq!['/'] + part
}

/// `prefix` joined with each of `parts`, in order.
pub open spec fn joined_parts(prefix: Seq<char>, parts: Seq<Seq<char>>) -> Seq<Seq<char>>
    decreases parts.len(),
{
    if parts.len() == 0 {
        seq![]
    } else {
        joined_parts(prefix, parts.drop_last()).push(join_part(prefix, parts.last()))
    }
}

/// Each of `paths` joined with each of `parts`: the paths in order, and for
/// each path the parts in order.
pub open spec fn extend_each(paths: Seq<Seq<char>>, parts: Seq<Seq<char>>) -> Seq<Seq<char>>
    decreases paths.len(),
{
    if paths.len() == 0 {
        seq![]
    } else {
        extend_each(paths.drop_last(), parts) + joined_parts(paths.last(), parts)
    }
}

/// What a segment contributes to a resolved path: its text where it is
/// fixed; the recorded values of its name where there are any; otherwise the
/// empty text.
pub open spec fn segment_values(
    seg: SegmentView,
    params: Map<Seq<char>, Seq<Seq<char>>>,
) -> Seq<Seq<char>> {
    match seg {
        SegmentView::Static(t) => seq![t],
        SegmentView::Param(n) => if params.contains_key(n) {
            params[n]
        } else {
            seq![Seq::<char>::empty()]
        },
        SegmentView::Wildcard(n) => if params.contains_key(n) {
            params[n]
        } else {
            seq![Seq::<char>::empty()]
        },
    }
}

/// Every concrete path that `segs` stands for under `params`: one path per
/// choice of a value for each segment, earlier segments varying slowest.
pub open spec fn expand_paths(
    segs: Seq<SegmentView>,
    params: Map<Seq<char>, Seq<Seq<char>>>,
) -> Seq<Seq<char>>
    decreases segs.len(),
{
    if segs.len() == 0 {
        seq![Seq::<char>::empty()]
    } else {
        extend_each(expand_paths(segs.drop_last(), params), segment_values(segs.last(), params))
    }
}

/// A concrete path that a page is rendered for.
pub struct ResolvedStaticPath(pub String);

impl View for ResolvedStaticPath {
    type V = Seq<char>;

    open spec fn view(&self) -> Seq<char> {
        self.0@
    }
}

impl DeepView for ResolvedStaticPath {
    type V = Seq<char>;

    open spec fn deep_view(&self) -> Seq<char> {
        self.0@
    }
}

/// `prefix`, a slash, then `part`.
fn join_path(prefix: &String, part: &String) -> (joined: String)
    ensures
        joined@ == join_part(prefix@, part@),
{
    let mut joined = prefix.clone();
    let slash = "/";
    proof {
        reveal_strlit("/");
    }
    joined.append(slash);
    joined.append(part.as_str());
    joined
}

/// Each of `paths` joined with each of `parts`.
fn extend_all(paths: &Vec<String>, parts: &Vec<String>) -> (out: Vec<String>)
    ensures
        out.deep_view() == extend_each(paths.deep_view(), parts.deep_view()),
{
    let ghost ps = paths.deep_view();
    let ghost qs = parts.deep_view();
    let mut out: Vec<String> = Vec::new();
    let mut i: usize = 0;
    proof {
        assert(ps.take(0) =~= Seq::<Seq<char>>::empty());
        assert(out.deep_view() =~= Seq::<Seq<char>>::empty());
    }
    while i < paths.len()
        invariant
            ps == paths.deep_view(),
            qs == parts.deep_view(),
            i <= paths.len(),
            out.deep_view() == extend_each(ps.take(i as int), qs),
        decreases paths.len() - i,
    {
        let mut j: usize = 0;
        proof {
            assert(qs.take(0) =~= Seq::<Seq<char>>::empty());
            assert(out.deep_view() =~= extend_each(ps.take(i as int), qs) + joined_parts(
                ps[i as int],
                qs.take(0),
            ));
        }
        while j < parts.len()
            invariant
                ps == paths.deep_view(),
                qs == parts.deep_view(),
                i < paths.len(),
                j <= parts.len(),
                out.deep_view() == extend_each(ps.take(i as int), qs) + joined_parts(
                    ps[i as int],
                    qs.take(j as int),
                ),
            decreases parts.len() - j,
        {
            let joined = join_path(&paths[i], &parts[j]);
            let ghost before = out.deep_view();
            out.push(joined);
            proof {
                assert(qs.take(j + 1).drop_last() =~= qs.take(j as int));
                assert(out.deep_view() =~= before.push(joined@));
            }
            j += 1;
        }
        proof {
            assert(qs.take(parts.len() as int) =~= qs);
            assert(ps.take(i + 1).drop_last() =~= ps.take(i as int));
        }
        i += 1;
    }
    proof {
        assert(ps.take(paths.len() as int) =~= ps);
    }
    out
}


/// The position of the last slash in `s`, if any.
pub open spec fn last_slash(s: Seq<char>) -> Option<int>
    decreases s.len(),
{
    if s.len() == 0 {
        None
    } else if s.last() == '/' {
        Some(s.len() - 1)
    } else {
        last_slash(s.drop_last())
    }
}

/// The path one level up: what comes before the last slash. The empty path,
/// `/`, and a path without a slash have none.
pub open spec fn parent_path(s: Seq<char>) -> Option<Seq<char>> {
    if s.len() == 0 || s == seq!['/'] {
        None
    } else {
        match last_slash(s) {
            Some(i) => Some(s.take(i)),
            None => None,
        }
    }
}

/// The last slash is a slash, and none comes after it.
pub proof fn lemma_last_slash(s: Seq<char>)
    ensures
        match last_slash(s) {
            Some(i) => 0 <= i < s.len() && s[i] == '/' && forall|j: int|
                i < j < s.len() ==> s[j] != '/',
            None => forall|j: int| 0 <= j < s.len() ==> s[j] != '/',
        },
    decreases s.len(),
{
    if s.len() > 0 {
        let d = s.drop_last();
        lemma_last_slash(d);
        assert forall|j: int| 0 <= j < d.len() implies d[j] == s[j] by {}
        if s.last() != '/' {
            assert(s[s.len() - 1] != '/');
        }
    }
}

/// A parent is a proper beginning of its path.
pub proof fn lemma_parent_shorter(s: Seq<char>)
    ensures
        parent_path(s) matches Some(q) ==> q.len() < s.len() && q == s.take(q.len() as int),
{
    lemma_last_slash(s);
}

/// The chain of paths above `s`: its parent, the parent's parent, and so on
/// until a path that has none.
pub open spec fn ancestor_paths(s: Seq<char>) -> Seq<Seq<char>>
    decreases s.len(),
{
    match parent_path(s) {
        Some(q) => {
            proof {
                lemma_parent_shorter(s);
            }
            seq![q] + ancestor_paths(q)
        },
        None => seq![],
    }
}

#[derive(Debug, Clone, Copy)]
enum StaticPathSegment<'a> {
    Static(&'a str),
    Param(&'a str),
    Wildcard(&'a str),
}

impl<'a> StaticPathSegment<'a> {
    spec fn view_of(self) -> SegmentView {
        match self {
            StaticPathSegment::Static(s) => SegmentView::Static(s@),
            StaticPathSegment::Param(s) => SegmentView::Param(s@),
            StaticPathSegment::Wildcard(s) => SegmentView::Wildcard(s@),
        }
    }
}

spec fn segments_view<'a>(segs: Seq<StaticPathSegment<'a>>) -> Seq<SegmentView> {
    segs.map_values(|s: StaticPathSegment<'a>| s.view_of())
}

/// The segment that a non-empty piece of a path stands for.
fn classify_piece<'a>(piece: &'a str) -> (seg: StaticPathSegment<'a>)
    requires
        piece@.len() > 0,
    ensures
        seg.view_of() == classify(piece@),
{
    let len = piece.unicode_len();
    let first = piece.get_char(0);
    if first == ':' {
        let name = piece.substring_char(1, len);
        assert(name@ =~= piece@.drop_first());
        StaticPathSegment::Param(name)
    } else if first == '*' {
        let name = piece.substring_char(1, len);
        assert(name@ =~= piece@.drop_first());
        StaticPathSegment::Wildcard(name)
    } else {
        StaticPathSegment::Static(piece)
    }
}

/// A route path, parsed into segments, with the values gathered for its
/// parameters.
#[derive(Debug)]
pub struct StaticPath<'a> {
    path: &'a str,
    segments: Vec<StaticPathSegment<'a>>,
    params: LinearMap<String, Vec<String>>,
}

impl<'a> View for StaticPath<'a> {
    type V = StaticPathView;

    closed spec fn view(&self) -> StaticPathView {
        StaticPathView {
            path: self.path@,
            segments: segments_view(self.segments@),
            params: linear_map_entries(self.params),
        }
    }
}

impl<'a> StaticPath<'a> {
    /// Parse `path` into its segments: the non-empty pieces between slashes,
    /// each a parameter, a wildcard or fixed text.
    pub fn new(path: &'a str) -> (p: StaticPath<'a>)
        ensures
            p@ == fresh_path_view(path@),
    {
        let n = path.unicode_len();
        let mut segments: Vec<StaticPathSegment<'a>> = Vec::new();
        let mut start: usize = 0;
        let mut i: usize = 0;
        proof {
            assert(path@.take(0) =~= Seq::<char>::empty());
        }
        while i < n
            invariant
                n == path@.len(),
                start <= i <= n,
                split_slash(path@.take(i as int)).len() >= 1,
                split_slash(path@.take(i as int)).last() == path@.subrange(start as int, i as int),
                segments_view(segments@) == classify_pieces(
                    split_slash(path@.take(i as int)).drop_last(),
                ),
            decreases n - i,
        {
            let c = path.get_char(i);
            let ghost before = path@.take(i as int);
            let ghost after = path@.take(i + 1);
            proof {
                assert(after.drop_last() =~= before);
                assert(after.last() == c);
                lemma_split_slash_nonempty(before);
            }
            if c == '/' {
                proof {
                    let sb = split_slash(before);
                    assert(split_slash(after).drop_last() =~= sb);
                    assert(sb.drop_last().push(sb.last()) =~= sb);
                }
                if start < i {
                    let piece = path.substring_char(start, i);
                    let seg = classify_piece(piece);
                    let ghost prev_segs = segments@;
                    segments.push(seg);
                    proof {
                        assert(segments_view(segments@) =~= segments_view(prev_segs).push(
                            seg.view_of(),
                        ));
                    }
                }
                start = i + 1;
            } else {
                proof {
                    let sb = split_slash(before);
                    assert(split_slash(after).drop_last() =~= sb.drop_last());
                    assert(path@.subrange(start as int, i + 1) =~= path@.subrange(start as int, i as int).push(c));
                }
            }
            i += 1;
        }
        proof {
            assert(path@.take(n as int) =~= path@);
        }
        if start < n {
            let piece = path.substring_char(start, n);
            let seg = classify_piece(piece);
            let ghost prev_segs = segments@;
            segments.push(seg);
            proof {
                assert(segments_view(segments@) =~= segments_view(prev_segs).push(seg.view_of()));
            }
        }
        StaticPath { path, segments, params: linear_map_new() }
    }

    /// Record the values that `params` holds for this path's parameters and
    /// wildcards, over any recorded before.
    pub fn add_params(&mut self, params: &StaticParamsMap)
        ensures
            final(self)@ == with_params(old(self)@, params@),
    {
        let n = self.segments.len();
        let mut i: usize = 0;
        while i < n
            invariant
                n == self.segments@.len(),
                i <= n,
                self.path == old(self).path,
                self.segments == old(self).segments,
                linear_map_entries(self.params) == linear_map_entries(
                    old(self).params,
                ).union_prefer_right(params@.restrict(param_names(old(self)@.segments.take(i as int)))),
            decreases n - i,
        {
            let seg = self.segments[i];
            let ghost segs = old(self)@.segments;
            let ghost before = linear_map_entries(self.params);
            proof {
                assert(segs[i as int] == seg.view_of());
                lemma_param_names_step(segs, i as int);
            }
            let name: Option<&'a str> = match seg {
                StaticPathSegment::Static(_) => None,
                StaticPathSegment::Param(n) => Some(n),
                StaticPathSegment::Wildcard(n) => Some(n),
            };
            match name {
                Some(name) => {
                    match params.get(name) {
                        Some(values) => {
                            let copy = clone_values(values);
                            let _ = linear_map_insert(&mut self.params, String::from_str(name), copy);
                        },
                        None => {},
                    }
                },
                None => {},
            }
            proof {
                let base = linear_map_entries(old(self).params);
                let names0 = param_names(segs.take(i as int));
                let names1 = param_names(segs.take(i + 1));
                assert(linear_map_entries(self.params) =~= base.union_prefer_right(
                    params@.restrict(names1),
                ));
            }
            i += 1;
        }
        proof {
            assert(old(self)@.segments.take(n as int) =~= old(self)@.segments);
        }
    }

    /// Every concrete path that this path stands for with the values
    /// recorded for its parameters and wildcards.
    pub fn into_paths(self) -> (paths: Vec<ResolvedStaticPath>)
        ensures
            paths.deep_view() == expand_paths(self@.segments, self@.params),
    {
        let ghost segs = self@.segments;
        let ghost params = self@.params;
        let mut paths: Vec<String> = Vec::new();
        paths.push(String::new());
        let mut empty: Vec<String> = Vec::new();
        empty.push(String::new());
        let n = self.segments.len();
        let mut i: usize = 0;
        proof {
            assert(segs.take(0) =~= Seq::<SegmentView>::empty());
            assert(paths.deep_view() =~= seq![Seq::<char>::empty()]);
        }
        while i < n
            invariant
                n == self.segments@.len(),
                segs == self@.segments,
                params == self@.params,
                empty.deep_view() == seq![Seq::<char>::empty()],
                i <= n,
                paths.deep_view() == expand_paths(segs.take(i as int), params),
            decreases n - i,
        {
            let seg = self.segments[i];
            let mut fixed: Vec<String> = Vec::new();
            let parts: &Vec<String> = match seg {
                StaticPathSegment::Static(t) => {
                    fixed.push(String::from_str(t));
                    proof {
                        assert(fixed.deep_view() =~= seq![t@]);
                    }
                    &fixed
                },
                StaticPathSegment::Param(name) => match linear_map_get(&self.params, name) {
                    Some(values) => values,
                    None => &empty,
                },
                StaticPathSegment::Wildcard(name) => match linear_map_get(&self.params, name) {
                    Some(values) => values,
                    None => &empty,
                },
            };
            proof {
                assert(segs[i as int] == seg.view_of());
                assert(parts.deep_view() == segment_values(segs[i as int], params));
                assert(segs.take(i + 1).drop_last() =~= segs.take(i as int));
            }
            paths = extend_all(&paths, parts);
            i += 1;
        }
        proof {
            assert(segs.take(n as int) =~= segs);
        }
        let mut resolved: Vec<ResolvedStaticPath> = Vec::new();
        let mut k: usize = 0;
        while k < paths.len()
            invariant
                k <= paths.len(),
                resolved@.len() == k,
                forall|j: int| 0 <= j < k ==> #[trigger] resolved@[j]@ == paths@[j]@,
            decreases paths.len() - k,
        {
            resolved.push(ResolvedStaticPath(paths[k].clone()));
            k += 1;
        }
        proof {
            assert forall|j: int| 0 <= j < resolved@.len() implies resolved.deep_view()[j]
                == paths.deep_view()[j] by {
                assert(resolved@[j]@ == paths@[j]@);
            }
            assert(resolved.deep_view() =~= paths.deep_view());
        }
        resolved
    }

    /// The path one level up, parsed afresh.
    pub fn parent(&self) -> (parent: Option<StaticPath<'a>>)
        ensures
            match parent_path(self@.path) {
                Some(q) => parent matches Some(p) && p@ == fresh_path_view(q),
                None => parent is None,
            },
    {
        let ghost s = self.path@;
        let n = self.path.unicode_len();
        if n == 0 {
            return None;
        }
        if n == 1 && self.path.get_char(0) == '/' {
            proof {
                assert(s =~= seq!['/']);
            }
            return None;
        }
        proof {
            if s == seq!['/'] {
                assert(s[0] == '/');
            }
            lemma_last_slash(s);
        }
        let mut k = n;
        while k > 0
            invariant
                s == self.path@,
                n == s.len(),
                n > 0,
                s != seq!['/'],
                k <= n,
                forall|j: int| k <= j < n ==> s[j] != '/',
            decreases k,
        {
            if self.path.get_char(k - 1) == '/' {
                let above = self.path.substring_char(0, k - 1);
                proof {
                    lemma_last_slash(s);
                    assert(last_slash(s) == Some((k - 1) as int));
                    assert(above@ =~= s.take(k - 1));
                }
                return Some(StaticPath::new(above));
            }
            k -= 1;
        }
        proof {
            lemma_last_slash(s);
        }
        None
    }

    /// Every path above this one, nearest first.
    pub fn parents(&self) -> (parents: Vec<StaticPath<'a>>)
        ensures
            parents@.len() == ancestor_paths(self@.path).len(),
            forall|k: int|
                0 <= k < parents@.len() ==> #[trigger] parents@[k]@ == fresh_path_view(
                    ancestor_paths(self@.path)[k],
                ),
    {
        let ghost chain = ancestor_paths(self@.path);
        let mut parents: Vec<StaticPath<'a>> = Vec::new();
        let mut parent = self.parent();
        while parent.is_some()
            invariant
                chain == ancestor_paths(self@.path),
                parents@.len() <= chain.len(),
                forall|k: int|
                    0 <= k < parents@.len() ==> #[trigger] parents@[k]@ == fresh_path_view(
                        chain[k],
                    ),
                match parent {
                    Some(p) => parents@.len() < chain.len() && p@ == fresh_path_view(
                        chain[parents@.len() as int],
                    ) && ancestor_paths(p@.path) == chain.skip(parents@.len() as int + 1),
                    None => parents@.len() == chain.len(),
                },
            decreases chain.len() - parents@.len(),
        {
            let p = parent.unwrap();
            let ghost m = parents@.len();
            parent = p.parent();
            proof {
                let rest = chain.skip(m as int + 1);
                assert(rest == ancestor_paths(p@.path));
                match parent_path(p@.path) {
                    Some(q) => {
                        assert(rest == seq![q] + ancestor_paths(q));
                        assert(rest[0] == q);
                        assert(rest.skip(1) =~= ancestor_paths(q));
                        assert(rest.skip(1) =~= chain.skip(m as int + 2));
                    },
                    None => {
                        assert(rest.len() == 0);
                    },
                }
            }
            parents.push(p);
        }
        parents
    }

    /// The route path as given.
    pub fn path(&self) -> (path: &'a str)
        ensures
            path@ == self@.path,
    {
        self.path
    }
}

} // verus!

verus! {

/// The product of the number of values of each segment: how many concrete
/// paths the segments stand for.
pub open spec fn path_count(segs: Seq<SegmentView>, params: Map<Seq<char>, Seq<Seq<char>>>) -> nat
    decreases segs.len(),
{
    if segs.len() == 0 {
        1
    } else {
        path_count(segs.drop_last(), params) * segment_values(segs.last(), params).len()
    }
}

proof fn lemma_joined_parts_len(prefix: Seq<char>, parts: Seq<Seq<char>>)
    ensures
        joined_parts(prefix, parts).len() == parts.len(),
    decreases parts.len(),
{
    if parts.len() > 0 {
        lemma_joined_parts_len(prefix, parts.drop_last());
    }
}

proof fn lemma_extend_each_len(paths: Seq<Seq<char>>, parts: Seq<Seq<char>>)
    ensures
        extend_each(paths, parts).len() == paths.len() * parts.len(),
    decreases paths.len(),
{
    if paths.len() > 0 {
        lemma_extend_each_len(paths.drop_last(), parts);
        lemma_joined_parts_len(paths.last(), parts);
        let n = paths.len() as int;
        let m = parts.len() as int;
        assert((n - 1) * m + m == n * m) by (nonlinear_arith);
    }
}

/// A path resolves to as many concrete paths as the product, over its
/// segments, of the number of values each stands for: one for fixed text,
/// one for a parameter without values, and as many as were recorded
/// otherwise.
pub proof fn lemma_path_count(segs: Seq<SegmentView>, params: Map<Seq<char>, Seq<Seq<char>>>)
    ensures
        expand_paths(segs, params).len() == path_count(segs, params),
    decreases segs.len(),
{
    if segs.len() > 0 {
        lemma_path_count(segs.drop_last(), params);
        lemma_extend_each_len(
            expand_paths(segs.drop_last(), params),
            segment_values(segs.last(), params),
        );
    }
}

/// Whether every segment is fixed text.
pub open spec fn all_static(segs: Seq<SegmentView>) -> bool {
    forall|i: int| 0 <= i < segs.len() ==> segs[i] is Static
}

/// The fixed texts of the segments, each after a slash.
pub open spec fn static_join(segs: Seq<SegmentView>) -> Seq<char>
    decreases segs.len(),
{
    if segs.len() == 0 {
        Seq::<char>::empty()
    } else {
        let t = match segs.last() {
            SegmentView::Static(t) => t,
            SegmentView::Param(n) => n,
            SegmentView::Wildcard(n) => n,
        };
        join_part(static_join(segs.drop_last()), t)
    }
}

/// A path made only of fixed text resolves, whatever the recorded values,
/// to exactly one path: its segments, each after a slash.
pub proof fn lemma_static_path_resolves_to_itself(
    segs: Seq<SegmentView>,
    params: Map<Seq<char>, Seq<Seq<char>>>,
)
    requires
        all_static(segs),
    ensures
        expand_paths(segs, params) == seq![static_join(segs)],
    decreases segs.len(),
{
    if segs.len() > 0 {
        let init = segs.drop_last();
        assert(all_static(init)) by {
            assert forall|i: int| 0 <= i < init.len() implies init[i] is Static by {
                assert(init[i] == segs[i]);
            }
        }
        lemma_static_path_resolves_to_itself(init, params);
        let prev = seq![static_join(init)];
        assert(segs.last() == segs[segs.len() - 1]);
        let t = segs.last()->Static_0;
        assert(segment_values(segs.last(), params) == seq![t]);
        let x = static_join(init);
        let none = Seq::<Seq<char>>::empty();
        assert(prev.drop_last() =~= none);
        assert(seq![t].drop_last() =~= none);
        assert(joined_parts(x, none) == none);
        assert(extend_each(none, seq![t]) == none);
        assert(joined_parts(x, seq![t]) == none.push(join_part(x, t)));
        assert(joined_parts(x, seq![t]) =~= seq![join_part(x, t)]);
        assert(prev.last() == x);
        assert(extend_each(prev, seq![t]) == none + joined_parts(x, seq![t]));
        assert(static_join(segs) == join_part(x, t));
        assert(extend_each(prev, seq![t]) =~= seq![static_join(segs)]);
    }
}


/// Whether `s` is a path written plainly: empty, or starting with a slash,
/// not ending with one, with no two slashes in a row and no piece that
/// starts with `:` or `*`.
pub open spec fn is_plain_path(s: Seq<char>) -> bool {
    s.len() == 0 || {
        &&& s[0] == '/'
        &&& s.last() != '/'
        &&& forall|i: int|
            0 <= i < s.len() - 1 && #[trigger] s[i] == '/' ==> s[i + 1] != '/' && s[i + 1] != ':'
                && s[i + 1] != '*'
    }
}

proof fn lemma_plain_prefix(s: Seq<char>, k: int)
    requires
        is_plain_path(s),
        1 <= k <= s.len(),
    ensures
        ({
            let p = s.take(k);
            let pieces = split_slash(p);
            let done = classify_pieces(pieces.drop_last());
            let last = pieces.last();
            &&& pieces.len() >= 1
            &&& all_static(done)
            &&& if p.last() == '/' {
                last.len() == 0 && static_join(done) + seq!['/'] == p
            } else {
                last.len() > 0 && last[0] != ':' && last[0] != '*' && static_join(done) + seq!['/']
                    + last == p
            }
        }),
    decreases k,
{
    let p = s.take(k);
    lemma_split_slash_nonempty(p);
    if k == 1 {
        let e = Seq::<char>::empty();
        assert(p =~= seq!['/']);
        assert(p.drop_last() =~= e);
        assert(split_slash(e) == seq![e]);
        assert(split_slash(p) == seq![e].push(e));
        assert(split_slash(p).drop_last() =~= seq![e]);
        let one = seq![e];
        assert(one.drop_last() =~= Seq::<Seq<char>>::empty());
        assert(classify_pieces(one) == classify_pieces(one.drop_last()));
        assert(classify_pieces(one) =~= Seq::<SegmentView>::empty());
        assert(static_join(Seq::<SegmentView>::empty()) + seq!['/'] =~= p);
    } else {
        lemma_plain_prefix(s, k - 1);
        let q = s.take(k - 1);
        assert(p.drop_last() =~= q);
        assert(p.last() == s[k - 1]);
        assert(q.last() == s[k - 2]);
        lemma_split_slash_nonempty(q);
        let qp = split_slash(q);
        let qdone = classify_pieces(qp.drop_last());
        let qlast = qp.last();
        let pp = split_slash(p);
        let c = s[k - 1];
        if c == '/' {
            assert(s[k - 2] == '/' ==> s[k - 1] != '/');
            assert(q.last() != '/');
            assert(pp == qp.push(Seq::<char>::empty()));
            assert(pp.drop_last() =~= qp);
            assert(qp.drop_last().push(qp.last()) =~= qp);
            assert(classify_pieces(qp) == qdone.push(classify(qlast)));
            assert(classify(qlast) == SegmentView::Static(qlast));
            let done = qdone.push(SegmentView::Static(qlast));
            assert(done.drop_last() =~= qdone);
            assert(static_join(done) == join_part(static_join(qdone), qlast));
            assert(all_static(done)) by {
                assert forall|i: int| 0 <= i < done.len() implies done[i] is Static by {
                    if i < qdone.len() {
                        assert(done[i] == qdone[i]);
                    }
                }
            }
            assert(static_join(done) + seq!['/'] =~= p);
        } else {
            assert(pp == qp.update(qp.len() - 1, qlast.push(c)));
            assert(pp.drop_last() =~= qp.drop_last());
            assert(pp.last() == qlast.push(c));
            if q.last() == '/' {
                assert(s[k - 2] == '/');
                assert(c != ':' && c != '*');
                assert(qlast.push(c)[0] == c);
            } else {
                assert(qlast.push(c)[0] == qlast[0]);
            }
            assert(static_join(qdone) + seq!['/'] + qlast.push(c) =~= p);
        }
    }
}

/// A path written plainly is parsed into fixed segments only, and resolves,
/// whatever the recorded values, to exactly itself.
pub proof fn lemma_plain_path_resolves_to_itself(
    s: Seq<char>,
    params: Map<Seq<char>, Seq<Seq<char>>>,
)
    requires
        is_plain_path(s),
    ensures
        all_static(path_segments(s)),
        static_join(path_segments(s)) == s,
        expand_paths(path_segments(s), params) == seq![s],
{
    let segs = path_segments(s);
    if s.len() == 0 {
        let e = Seq::<char>::empty();
        assert(s =~= e);
        assert(split_slash(e) == seq![e]);
        assert(seq![e].drop_last() =~= Seq::<Seq<char>>::empty());
        assert(segs =~= Seq::<SegmentView>::empty());
    } else {
        lemma_plain_prefix(s, s.len() as int);
        assert(s.take(s.len() as int) =~= s);
        let pieces = split_slash(s);
        let done = classify_pieces(pieces.drop_last());
        let last = pieces.last();
        assert(segs == done.push(classify(last)));
        assert(classify(last) == SegmentView::Static(last));
        assert(segs.drop_last() =~= done);
        assert(all_static(segs)) by {
            assert forall|i: int| 0 <= i < segs.len() implies segs[i] is Static by {
                if i < done.len() {
                    assert(segs[i] == done[i]);
                }
            }
        }
        assert(static_join(segs) =~= s);
    }
    lemma_static_path_resolves_to_itself(segs, params);
}

/// Each of `paths`, followed by a slash and `t`.
pub open spec fn append_to_each(paths: Seq<Seq<char>>, t: Seq<char>) -> Seq<Seq<char>>
    decreases paths.len(),
{
    if paths.len() == 0 {
        seq![]
    } else {
        append_to_each(paths.drop_last(), t).push(join_part(paths.last(), t))
    }
}

proof fn lemma_extend_each_single(paths: Seq<Seq<char>>, t: Seq<char>)
    ensures
        extend_each(paths, seq![t]) == append_to_each(paths, t),
    decreases paths.len(),
{
    if paths.len() > 0 {
        lemma_extend_each_single(paths.drop_last(), t);
        let x = paths.last();
        let none = Seq::<Seq<char>>::empty();
        assert(seq![t].drop_last() =~= none);
        assert(joined_parts(x, none) == none);
        assert(joined_parts(x, seq![t]) == none.push(join_part(x, t)));
        assert(joined_parts(x, seq![t]) =~= seq![join_part(x, t)]);
        assert(extend_each(paths, seq![t]) =~= append_to_each(paths, t));
    }
}

proof fn lemma_split_append(p: Seq<char>, s: Seq<char>, k: int)
    requires
        0 <= k <= s.len(),
        !s.contains('/'),
    ensures
        split_slash(p + seq!['/'] + s.take(k)) == split_slash(p).push(s.take(k)),
    decreases k,
{
    let x = p + seq!['/'] + s.take(k);
    if k == 0 {
        assert(x.drop_last() =~= p);
        assert(x.last() == '/');
        assert(s.take(0) =~= Seq::<char>::empty());
    } else {
        lemma_split_append(p, s, k - 1);
        let y = p + seq!['/'] + s.take(k - 1);
        assert(x.drop_last() =~= y);
        assert(x.last() == s[k - 1]);
        assert(s[k - 1] != '/');
        let prev = split_slash(p).push(s.take(k - 1));
        assert(split_slash(x) == prev.update(prev.len() - 1, prev.last().push(s[k - 1])));
        assert(s.take(k - 1).push(s[k - 1]) =~= s.take(k));
        assert(split_slash(x) =~= split_slash(p).push(s.take(k)));
    }
}

/// Whether `s` can be a segment of fixed text: not empty, without a slash,
/// and starting with neither `:` nor `*`.
pub open spec fn is_fixed_piece(s: Seq<char>) -> bool {
    s.len() > 0 && !s.contains('/') && s[0] != ':' && s[0] != '*'
}

/// Writing a slash and a piece of fixed text after a path adds one fixed
/// segment after its segments.
pub proof fn lemma_path_segments_append(p: Seq<char>, s: Seq<char>)
    requires
        is_fixed_piece(s),
    ensures
        path_segments(p + seq!['/'] + s) == path_segments(p).push(SegmentView::Static(s)),
{
    lemma_split_append(p, s, s.len() as int);
    assert(s.take(s.len() as int) =~= s);
    let pieces = split_slash(p).push(s);
    assert(pieces.drop_last() =~= split_slash(p));
    assert(classify(s) == SegmentView::Static(s));
}

/// Appending a slash and a piece of fixed text to a route path names no new
/// parameter, so the same values are recorded for both paths; and it
/// appends the slash and the piece to every path that the route resolves to,
/// in the same order.
pub proof fn lemma_append_static_segment(
    p: Seq<char>,
    s: Seq<char>,
    a: StaticPathView,
    b: StaticPathView,
    given: Map<Seq<char>, Seq<Seq<char>>>,
)
    requires
        is_fixed_piece(s),
        a.segments == path_segments(p),
        b.segments == path_segments(p + seq!['/'] + s),
        a.params == b.params,
    ensures
        with_params(a, given).params == with_params(b, given).params,
        expand_paths(b.segments, b.params) == append_to_each(expand_paths(a.segments, a.params), s),
{
    lemma_path_segments_append(p, s);
    let segs = a.segments;
    let more = segs.push(SegmentView::Static(s));
    assert(more.drop_last() =~= segs);
    assert(param_names(more) =~= param_names(segs)) by {
        assert forall|n: Seq<char>| param_names(more).contains(n) implies param_names(segs).contains(n) by {
            let j = choose|j: int| 0 <= j < more.len() && param_name(more[j]) == Some(n);
            assert(j < segs.len());
            assert(param_name(segs[j]) == Some(n));
        }
        assert forall|n: Seq<char>| param_names(segs).contains(n) implies param_names(more).contains(n) by {
            let j = choose|j: int| 0 <= j < segs.len() && param_name(segs[j]) == Some(n);
            assert(param_name(more[j]) == Some(n));
        }
    }
    assert(segment_values(more.last(), b.params) == seq![s]);
    lemma_extend_each_single(expand_paths(segs, b.params), s);
}

/// Recording the same values twice records nothing more than once.
pub proof fn lemma_add_params_idempotent(p: StaticPathView, given: Map<Seq<char>, Seq<Seq<char>>>)
    ensures
        with_params(with_params(p, given), given) == with_params(p, given),
{
    let once = with_params(p, given);
    assert(with_params(once, given).params =~= once.params);
}

/// Only the names of the path's own parameters and wildcards are ever
/// recorded, and each with the value given for it.
pub proof fn lemma_add_params_records_own_names(
    p: StaticPathView,
    given: Map<Seq<char>, Seq<Seq<char>>>,
    name: Seq<char>,
)
    requires
        with_params(p, given).params.contains_key(name),
        !p.params.contains_key(name),
    ensures
        param_names(p.segments).contains(name),
        given.contains_key(name),
        with_params(p, given).params[name] == given[name],
{
}

proof fn lemma_split_slash_pieces(s: Seq<char>)
    ensures
        split_slash(s).len() >= 1,
        forall|i: int, j: int|
            0 <= i < split_slash(s).len() && 0 <= j < split_slash(s)[i].len() ==> split_slash(
                s,
            )[i][j] != '/',
    decreases s.len(),
{
    if s.len() > 0 {
        lemma_split_slash_pieces(s.drop_last());
        let prev = split_slash(s.drop_last());
        if s.last() != '/' {
            let sp = split_slash(s);
            assert forall|i: int, j: int|
                0 <= i < sp.len() && 0 <= j < sp[i].len() implies sp[i][j] != '/' by {
                if i == prev.len() - 1 {
                    assert(sp[i] == prev.last().push(s.last()));
                    if j < prev.last().len() {
                        assert(sp[i][j] == prev[i][j]);
                    }
                } else {
                    assert(sp[i] == prev[i]);
                }
            }
        } else {
            let sp = split_slash(s);
            assert forall|i: int, j: int|
                0 <= i < sp.len() && 0 <= j < sp[i].len() implies sp[i][j] != '/' by {
                if i < prev.len() {
                    assert(sp[i] == prev[i]);
                }
            }
        }
    }
}

/// Whether a segment is well made: fixed text is never empty, and no name
/// or text holds a slash.
pub open spec fn well_made(seg: SegmentView) -> bool {
    match seg {
        SegmentView::Static(t) => t.len() > 0 && !t.contains('/'),
        SegmentView::Param(n) => !n.contains('/'),
        SegmentView::Wildcard(n) => !n.contains('/'),
    }
}

proof fn lemma_classify_pieces_well_made(pieces: Seq<Seq<char>>)
    requires
        forall|i: int, j: int|
            0 <= i < pieces.len() && 0 <= j < pieces[i].len() ==> pieces[i][j] != '/',
    ensures
        forall|k: int|
            0 <= k < classify_pieces(pieces).len() ==> well_made(
                #[trigger] classify_pieces(pieces)[k],
            ),
    decreases pieces.len(),
{
    if pieces.len() > 0 {
        let init = pieces.drop_last();
        assert forall|i: int, j: int|
            0 <= i < init.len() && 0 <= j < init[i].len() implies init[i][j] != '/' by {
            assert(init[i] == pieces[i]);
        }
        lemma_classify_pieces_well_made(init);
        let last = pieces.last();
        if last.len() > 0 {
            assert(!last.contains('/')) by {
                assert forall|j: int| 0 <= j < last.len() implies last[j] != '/' by {
                    assert(last[j] == pieces[pieces.len() - 1][j]);
                }
            }
            assert(!last.drop_first().contains('/')) by {
                assert forall|j: int| 0 <= j < last.drop_first().len() implies last.drop_first()[j]
                    != '/' by {
                    assert(last.drop_first()[j] == last[j + 1]);
                }
            }
            assert(well_made(classify(last)));
            let rest = classify_pieces(init);
            assert forall|k: int|
                0 <= k < classify_pieces(pieces).len() implies well_made(
                #[trigger] classify_pieces(pieces)[k],
            ) by {
                if k < rest.len() {
                    assert(classify_pieces(pieces)[k] == rest[k]);
                }
            }
        } else {
            assert(classify_pieces(pieces) == classify_pieces(init));
        }
    }
}

/// Parsing never yields an empty piece of fixed text, and no segment holds a
/// slash.
pub proof fn lemma_segments_well_made(s: Seq<char>)
    ensures
        forall|k: int|
            0 <= k < path_segments(s).len() ==> well_made(#[trigger] path_segments(s)[k]),
{
    lemma_split_slash_pieces(s);
    lemma_classify_pieces_well_made(split_slash(s));
}

/// Every path above a path is a proper beginning of it; each is the parent
/// of the one before, the first is the parent of the path itself, and the
/// last has no parent.
pub proof fn lemma_ancestors_are_prefixes(s: Seq<char>)
    ensures
        forall|k: int|
            0 <= k < ancestor_paths(s).len() ==> {
                let a = #[trigger] ancestor_paths(s)[k];
                a.len() < s.len() && a == s.take(a.len() as int)
            },
        ancestor_paths(s).len() > 0 ==> parent_path(s) == Some(ancestor_paths(s)[0]),
        forall|k: int|
            0 <= k < ancestor_paths(s).len() - 1 ==> parent_path(#[trigger] ancestor_paths(s)[k])
                == Some(ancestor_paths(s)[k + 1]),
        ancestor_paths(s).len() > 0 ==> parent_path(ancestor_paths(s).last()) is None,
        ancestor_paths(s).len() == 0 ==> parent_path(s) is None,
    decreases s.len(),
{
    lemma_parent_shorter(s);
    match parent_path(s) {
        Some(q) => {
            lemma_ancestors_are_prefixes(q);
            let a = ancestor_paths(s);
            let b = ancestor_paths(q);
            assert(a == seq![q] + b);
            assert forall|k: int| 0 <= k < a.len() implies {
                let x = #[trigger] a[k];
                x.len() < s.len() && x == s.take(x.len() as int)
            } by {
                if k > 0 {
                    let x = a[k];
                    assert(x == b[k - 1]);
                    assert(x.len() < q.len() && x == q.take(x.len() as int));
                    assert(x =~= s.take(x.len() as int));
                }
            }
            assert forall|k: int| 0 <= k < a.len() - 1 implies parent_path(#[trigger] a[k]) == Some(
                a[k + 1],
            ) by {
                if k == 0 {
                    assert(a[1] == b[0]);
                } else {
                    assert(a[k] == b[k - 1]);
                    assert(a[k + 1] == b[k]);
                }
            }
            if b.len() > 0 {
                assert(a.last() == b.last());
            }
        },
        None => {},
    }
}

} // verus!

verus! {

proof fn lemma_joined_parts_index(prefix: Seq<char>, parts: Seq<Seq<char>>, j: int)
    requires
        0 <= j < parts.len(),
    ensures
        joined_parts(prefix, parts).len() == parts.len(),
        joined_parts(prefix, parts)[j] == join_part(prefix, parts[j]),
    decreases parts.len(),
{
    lemma_joined_parts_len(prefix, parts);
    if j < parts.len() - 1 {
        lemma_joined_parts_index(prefix, parts.drop_last(), j);
    }
}

proof fn lemma_extend_each_index(paths: Seq<Seq<char>>, parts: Seq<Seq<char>>, i: int, j: int)
    requires
        0 <= i < paths.len(),
        0 <= j < parts.len(),
    ensures
        extend_each(paths, parts).len() == paths.len() * parts.len(),
        0 <= i * parts.len() + j < paths.len() * parts.len(),
        extend_each(paths, parts)[i * parts.len() + j] == join_part(paths[i], parts[j]),
    decreases paths.len(),
{
    let m = parts.len() as int;
    let n = paths.len() as int;
    lemma_extend_each_len(paths, parts);
    lemma_extend_each_len(paths.drop_last(), parts);
    lemma_joined_parts_index(paths.last(), parts, j);
    assert(0 <= i * m + j < n * m) by (nonlinear_arith)
        requires
            0 <= i < n,
            0 <= j < m,
    ;
    assert((n - 1) * m == n * m - m) by (nonlinear_arith);
    if i < n - 1 {
        lemma_extend_each_index(paths.drop_last(), parts, i, j);
        assert(i * m + j < (n - 1) * m) by (nonlinear_arith)
            requires
                0 <= i < n - 1,
                0 <= j < m,
        ;
    } else {
        assert(i * m == (n - 1) * m);
    }
}

/// A parameter or wildcard segment whose name has recorded values `vs`
/// multiplies the paths before it by `vs`: each earlier path, in order, is
/// followed by a slash and each of `vs` in order, and nothing else.
pub proof fn lemma_param_segment_expands_to_values(
    segs: Seq<SegmentView>,
    params: Map<Seq<char>, Seq<Seq<char>>>,
    n: Seq<char>,
    wildcard: bool,
    i: int,
    j: int,
)
    requires
        params.contains_key(n),
        0 <= i < expand_paths(segs, params).len(),
        0 <= j < params[n].len(),
    ensures
        ({
            let seg = if wildcard {
                SegmentView::Wildcard(n)
            } else {
                SegmentView::Param(n)
            };
            let before = expand_paths(segs, params);
            let after = expand_paths(segs.push(seg), params);
            let vs = params[n];
            &&& after.len() == before.len() * vs.len()
            &&& 0 <= i * vs.len() + j < after.len()
            &&& after[i * vs.len() + j] == before[i] + seq!['/'] + vs[j]
        }),
{
    let seg = if wildcard {
        SegmentView::Wildcard(n)
    } else {
        SegmentView::Param(n)
    };
    let more = segs.push(seg);
    assert(more.drop_last() =~= segs);
    assert(more.last() == seg);
    assert(segment_values(seg, params) == params[n]);
    lemma_extend_each_index(expand_paths(segs, params), params[n], i, j);
}

/// A parameter or wildcard segment whose name has no recorded value adds a
/// slash and nothing more to each path before it.
pub proof fn lemma_param_segment_without_values(
    segs: Seq<SegmentView>,
    params: Map<Seq<char>, Seq<Seq<char>>>,
    n: Seq<char>,
    wildcard: bool,
)
    requires
        !params.contains_key(n),
    ensures
        expand_paths(
            segs.push(
                if wildcard {
                    SegmentView::Wildcard(n)
                } else {
                    SegmentView::Param(n)
                },
            ),
            params,
        ) == append_to_each(expand_paths(segs, params), Seq::<char>::empty()),
{
    let seg = if wildcard {
        SegmentView::Wildcard(n)
    } else {
        SegmentView::Param(n)
    };
    let more = segs.push(seg);
    assert(more.drop_last() =~= segs);
    assert(segment_values(seg, params) == seq![Seq::<char>::empty()]);
    lemma_extend_each_single(expand_paths(segs, params), Seq::<char>::empty());
}

/// Recording values sets every parameter or wildcard of the path, wherever
/// it stands, that `given` holds to exactly the given values, and leaves
/// every name that no segment of the path carries as it was.
pub proof fn lemma_add_params_sets_every_named_param(
    p: StaticPathView,
    given: Map<Seq<char>, Seq<Seq<char>>>,
    n: Seq<char>,
)
    ensures
        (exists|i: int|
            0 <= i < p.segments.len() && (p.segments[i] == SegmentView::Param(n)
                || p.segments[i] == SegmentView::Wildcard(n))) && given.contains_key(n) ==> {
            &&& with_params(p, given).params.contains_key(n)
            &&& with_params(p, given).params[n] == given[n]
        },
        (forall|i: int|
            0 <= i < p.segments.len() ==> p.segments[i] != SegmentView::Param(n)
                && p.segments[i] != SegmentView::Wildcard(n)) ==> {
            &&& with_params(p, given).params.contains_key(n) == p.params.contains_key(n)
            &&& p.params.contains_key(n) ==> with_params(p, given).params[n] == p.params[n]
        },
        with_params(p, given).path == p.path,
        with_params(p, given).segments == p.segments,
{
    if exists|i: int|
        0 <= i < p.segments.len() && (p.segments[i] == SegmentView::Param(n)
            || p.segments[i] == SegmentView::Wildcard(n)) {
        let i = choose|i: int|
            0 <= i < p.segments.len() && (p.segments[i] == SegmentView::Param(n)
                || p.segments[i] == SegmentView::Wildcard(n));
        assert(param_name(p.segments[i]) == Some(n));
        assert(param_names(p.segments).contains(n));
    }
    if forall|i: int|
        0 <= i < p.segments.len() ==> p.segments[i] != SegmentView::Param(n)
            && p.segments[i] != SegmentView::Wildcard(n) {
        if param_names(p.segments).contains(n) {
            let i = choose|i: int| 0 <= i < p.segments.len() && param_name(p.segments[i]) == Some(n);
            assert(p.segments[i] != SegmentView::Param(n));
            assert(p.segments[i] != SegmentView::Wildcard(n));
        }
    }
}


proof fn lemma_split_no_slash(s: Seq<char>, k: int)
    requires
        0 <= k <= s.len(),
        !s.contains('/'),
    ensures
        split_slash(s.take(k)) == seq![s.take(k)],
    decreases k,
{
    if k == 0 {
        assert(s.take(0) =~= Seq::<char>::empty());
    } else {
        lemma_split_no_slash(s, k - 1);
        let x = s.take(k);
        assert(x.drop_last() =~= s.take(k - 1));
        assert(x.last() == s[k - 1]);
        assert(s[k - 1] != '/');
        let prev = seq![s.take(k - 1)];
        assert(split_slash(x) == prev.update(prev.len() - 1, prev.last().push(s[k - 1])));
        assert(s.take(k - 1).push(s[k - 1]) =~= x);
        assert(split_slash(x) =~= seq![x]);
    }
}

/// A path with no slash at all is one segment: a parameter where it starts
/// with `:`, a wildcard where it starts with `*`, fixed text otherwise; and a
/// slash at the end of a path adds no segment.
pub proof fn lemma_single_piece_parses(name: Seq<char>, p: Seq<char>)
    requires
        !name.contains('/'),
    ensures
        path_segments(seq![':'] + name) == seq![SegmentView::Param(name)],
        path_segments(seq!['*'] + name) == seq![SegmentView::Wildcard(name)],
        name.len() > 0 && name[0] != ':' && name[0] != '*' ==> path_segments(name) == seq![
            SegmentView::Static(name),
        ],
        path_segments(p + seq!['/']) == path_segments(p),
{
    let a = seq![':'] + name;
    let b = seq!['*'] + name;
    assert(!a.contains('/')) by {
        assert forall|j: int| 0 <= j < a.len() implies a[j] != '/' by {
            if j > 0 {
                assert(a[j] == name[j - 1]);
            }
        }
    }
    assert(!b.contains('/')) by {
        assert forall|j: int| 0 <= j < b.len() implies b[j] != '/' by {
            if j > 0 {
                assert(b[j] == name[j - 1]);
            }
        }
    }
    lemma_split_no_slash(a, a.len() as int);
    lemma_split_no_slash(b, b.len() as int);
    lemma_split_no_slash(name, name.len() as int);
    assert(a.take(a.len() as int) =~= a);
    assert(b.take(b.len() as int) =~= b);
    assert(name.take(name.len() as int) =~= name);
    let none = Seq::<Seq<char>>::empty();
    assert(seq![a].drop_last() =~= none);
    assert(seq![b].drop_last() =~= none);
    assert(seq![name].drop_last() =~= none);
    assert(a.drop_first() =~= name);
    assert(b.drop_first() =~= name);
    assert(classify_pieces(none) == Seq::<SegmentView>::empty());
    assert(a[0] == ':');
    assert(b[0] == '*');
    assert(classify(a) == SegmentView::Param(name));
    assert(classify(b) == SegmentView::Wildcard(name));
    assert(classify_pieces(seq![a]) == Seq::<SegmentView>::empty().push(classify(a)));
    assert(classify_pieces(seq![a]) =~= seq![SegmentView::Param(name)]);
    assert(classify_pieces(seq![b]) == Seq::<SegmentView>::empty().push(classify(b)));
    assert(classify_pieces(seq![b]) =~= seq![SegmentView::Wildcard(name)]);
    if name.len() > 0 && name[0] != ':' && name[0] != '*' {
        assert(classify(name) == SegmentView::Static(name));
        assert(classify_pieces(seq![name]) == Seq::<SegmentView>::empty().push(classify(name)));
        assert(classify_pieces(seq![name]) =~= seq![SegmentView::Static(name)]);
    }
    let q = p + seq!['/'];
    assert(q.drop_last() =~= p);
    assert(q.last() == '/');
    let sp = split_slash(q);
    assert(sp == split_slash(p).push(Seq::<char>::empty()));
    assert(sp.drop_last() =~= split_slash(p));
}

/// A piece written `:name` after a slash parses to a parameter named by the
/// rest of the piece, and one written `*name` to a wildcard, whatever the
/// length of the name.
pub proof fn lemma_marked_piece_parses(p: Seq<char>, name: Seq<char>)
    requires
        !name.contains('/'),
    ensures
        path_segments(p + seq!['/'] + (seq![':'] + name)) == path_segments(p).push(
            SegmentView::Param(name),
        ),
        path_segments(p + seq!['/'] + (seq!['*'] + name)) == path_segments(p).push(
            SegmentView::Wildcard(name),
        ),
{
    let a = seq![':'] + name;
    let b = seq!['*'] + name;
    assert(!a.contains('/')) by {
        assert forall|j: int| 0 <= j < a.len() implies a[j] != '/' by {
            if j > 0 {
                assert(a[j] == name[j - 1]);
            }
        }
    }
    assert(!b.contains('/')) by {
        assert forall|j: int| 0 <= j < b.len() implies b[j] != '/' by {
            if j > 0 {
                assert(b[j] == name[j - 1]);
            }
        }
    }
    lemma_split_append(p, a, a.len() as int);
    lemma_split_append(p, b, b.len() as int);
    assert(a.take(a.len() as int) =~= a);
    assert(b.take(b.len() as int) =~= b);
    assert(split_slash(p).push(a).drop_last() =~= split_slash(p));
    assert(split_slash(p).push(b).drop_last() =~= split_slash(p));
    assert(a.drop_first() =~= name);
    assert(b.drop_first() =~= name);
    assert(classify(a) == SegmentView::Param(name));
    assert(classify(b) == SegmentView::Wildcard(name));
}

} // verus!
