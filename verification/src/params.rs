use linear_map::LinearMap;
use vstd::prelude::*;

verus! {

/// `linear_map::LinearMap`, held opaque; what it holds is told by
/// `linear_map_entries`.
#[verifier::external_type_specification]
#[verifier::external_body]
#[verifier::reject_recursive_types(K)]
#[verifier::reject_recursive_types(V)]
pub struct ExLinearMap<K, V>(LinearMap<K, V>);

/// What a `LinearMap` from names to lists of values holds: each key, by its
/// characters, mapped to the characters of each of its values, in order.
pub uninterp spec fn linear_map_entries(m: LinearMap<String, Vec<String>>) -> Map<
    Seq<char>,
    Seq<Seq<char>>,
>;

/// The map with no entry.
pub open spec fn no_params() -> Map<Seq<char>, Seq<Seq<char>>> {
    Map::empty()
}

/// `LinearMap::new`: the map that it returns holds no entry.
#[verifier::external_body]
pub(crate) fn linear_map_new() -> (m: LinearMap<String, Vec<String>>)
    ensures
        linear_map_entries(m) == no_params(),
{
    LinearMap::new()
}

/// `LinearMap::insert`: afterwards `key` maps to `value` and every other
/// entry is as it was; the value that `key` held before, if any, is
/// returned. The map held finitely many entries (they are kept in a `Vec`).
#[verifier::external_body]
pub(crate) fn linear_map_insert(
    m: &mut LinearMap<String, Vec<String>>,
    key: String,
    value: Vec<String>,
) -> (previous: Option<Vec<String>>)
    ensures
        linear_map_entries(*final(m)) == linear_map_entries(*old(m)).insert(
            key@,
            value.deep_view(),
        ),
        linear_map_entries(*old(m)).dom().finite(),
        match previous {
            Some(p) => linear_map_entries(*old(m)).contains_key(key@) && p.deep_view()
                == linear_map_entries(*old(m))[key@],
            None => !linear_map_entries(*old(m)).contains_key(key@),
        },
{
    m.insert(key, value)
}

/// `LinearMap::len`: the number of entries, each key being held once.
#[verifier::external_body]
pub(crate) fn linear_map_len(m: &LinearMap<String, Vec<String>>) -> (count: usize)
    ensures
        count == linear_map_entries(*m).len(),
{
    m.len()
}

/// `LinearMap::get`: the value held under a key equal to `key`, or `None`
/// where no key is equal to it.
#[verifier::external_body]
pub(crate) fn linear_map_get<'m>(m: &'m LinearMap<String, Vec<String>>, key: &str) -> (found:
    Option<&'m Vec<String>>)
    ensures
        match found {
            Some(v) => linear_map_entries(*m).contains_key(key@) && v.deep_view()
                == linear_map_entries(*m)[key@],
            None => !linear_map_entries(*m).contains_key(key@),
        },
{
    m.get(key)
}

/// A copy of a list of strings, value for value.
pub(crate) fn clone_values(values: &Vec<String>) -> (copy: Vec<String>)
    ensures
        copy.deep_view() == values.deep_view(),
{
    let mut copy: Vec<String> = Vec::new();
    let mut i: usize = 0;
    while i < values.len()
        invariant
            i <= values.len(),
            copy@.len() == i,
            forall|j: int| 0 <= j < i ==> #[trigger] copy@[j]@ == values@[j]@,
        decreases values.len() - i,
    {
        let item = values[i].clone();
        copy.push(item);
        i += 1;
    }
    assert(copy.deep_view() =~= values.deep_view());
    copy
}

/// The values of the parameters of a route: each parameter's name mapped to
/// the list of values that the route is to be rendered with.
#[derive(Debug)]
pub struct StaticParamsMap(pub LinearMap<String, Vec<String>>);

impl View for StaticParamsMap {
    type V = Map<Seq<char>, Seq<Seq<char>>>;

    open spec fn view(&self) -> Map<Seq<char>, Seq<Seq<char>>> {
        linear_map_entries(self.0)
    }
}

impl StaticParamsMap {
    /// Create a new empty `StaticParamsMap`.
    pub fn new() -> (m: Self)
        ensures
            m@ == no_params(),
    {
        StaticParamsMap(linear_map_new())
    }

    /// Insert a value into the map.
    pub fn insert(&mut self, key: &str, value: Vec<String>)
        ensures
            final(self)@ == old(self)@.insert(key@, value.deep_view()),
            final(self)@.len() == old(self)@.len() + if old(self)@.contains_key(key@) {
                0int
            } else {
                1int
            },
    {
        let k = String::from_str(key);
        let _ = linear_map_insert(&mut self.0, k, value);
        proof {
            lemma_params_insert_count(old(self)@, key@, value.deep_view());
        }
    }

    /// The number of keys that the map holds.
    pub fn len(&self) -> (n: usize)
        ensures
            n == self@.len(),
    {
        linear_map_len(&self.0)
    }

    /// Get a value from the map.
    pub fn get(&self, key: &str) -> (found: Option<&Vec<String>>)
        ensures
            match found {
                Some(v) => self@.contains_key(key@) && v.deep_view() == self@[key@],
                None => !self@.contains_key(key@),
            },
    {
        linear_map_get(&self.0, key)
    }
}

impl Default for StaticParamsMap {
    fn default() -> (m: Self)
        ensures
            m@ == no_params(),
    {
        StaticParamsMap::new()
    }
}

/// A value read back under a key is the one last inserted under it, and an
/// insertion under one key leaves every other key as it was.
pub proof fn lemma_params_read_after_write(
    before: Map<Seq<char>, Seq<Seq<char>>>,
    key: Seq<char>,
    value: Seq<Seq<char>>,
    other: Seq<char>,
)
    requires
        other != key,
    ensures
        before.insert(key, value).contains_key(key),
        before.insert(key, value)[key] == value,
        before.insert(key, value).contains_key(other) == before.contains_key(other),
        before.contains_key(other) ==> before.insert(key, value)[other] == before[other],
{
}

/// An insertion adds an entry only under a key that was not held; under a
/// held key it replaces the value and the number of entries stays the same.
pub proof fn lemma_params_insert_count(
    before: Map<Seq<char>, Seq<Seq<char>>>,
    key: Seq<char>,
    value: Seq<Seq<char>>,
)
    requires
        before.dom().finite(),
    ensures
        before.insert(key, value).dom().finite(),
        before.insert(key, value).len() == before.len() + if before.contains_key(key) {
            0int
        } else {
            1int
        },
{
    assert(before.insert(key, value).dom() == before.dom().insert(key));
    if before.contains_key(key) {
        assert(before.dom().insert(key) =~= before.dom());
    }
}

} // verus!
