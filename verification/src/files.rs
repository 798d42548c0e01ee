use crate::path::ResolvedStaticPath;
use vstd::prelude::*;

verus! {

/// Where the site's files live, and the route path of its not-found page.
pub struct SiteOptions {
    pub site_root: String,
    pub not_found_path: String,
}

/// The ending of the name of every file that holds a rendered page.
pub open spec fn static_suffix() -> Seq<char> {
    ".static.html"@
}

/// `s` without the slashes that it starts with.
pub open spec fn trim_leading_slashes(s: Seq<char>) -> Seq<char>
    decreases s.len(),
{
    if s.len() > 0 && s[0] == '/' {
        trim_leading_slashes(s.drop_first())
    } else {
        s
    }
}

/// Whether `s` ends with `suffix`.
pub open spec fn ends_with(s: Seq<char>, suffix: Seq<char>) -> bool {
    s.len() >= suffix.len() && s.subrange(s.len() - suffix.len(), s.len() as int) == suffix
}

/// The file under the site's root that holds the page rendered for `path`.
pub fn static_file_path(options: &SiteOptions, path: &str) -> (file: String)
    ensures
        file@ == options.site_root@ + path@ + static_suffix(),
{
    let mut file = options.site_root.clone();
    file.append(path);
    file.append(".static.html");
    file
}

/// The file under the site's root that holds the rendered not-found page.
pub fn not_found_path(options: &SiteOptions) -> (file: String)
    ensures
        file@ == options.site_root@ + options.not_found_path@ + static_suffix(),
{
    static_file_path(options, options.not_found_path.as_str())
}

/// `s` without the slashes that it starts with.
pub fn trim_start_slashes(s: &str) -> (t: &str)
    ensures
        t@ == trim_leading_slashes(s@),
{
    let n = s.unicode_len();
    let mut i: usize = 0;
    proof {
        assert(s@.skip(0) =~= s@);
    }
    while i < n && s.get_char(i) == '/'
        invariant
            n == s@.len(),
            i <= n,
            trim_leading_slashes(s@) == trim_leading_slashes(s@.skip(i as int)),
        decreases n - i,
    {
        proof {
            assert(s@.skip(i as int).drop_first() =~= s@.skip(i + 1));
        }
        i += 1;
    }
    let t = s.substring_char(i, n);
    proof {
        assert(t@ =~= s@.skip(i as int));
    }
    t
}

/// The name, relative to the site's root, of the file that holds the page
/// rendered for `path`.
pub fn static_file_name(path: &str) -> (name: String)
    ensures
        name@ == trim_leading_slashes(path@) + static_suffix(),
{
    let mut name = String::from_str(trim_start_slashes(path));
    name.append(".static.html");
    name
}

/// Whether a file of this name holds a rendered page.
pub fn is_static_file_name(name: &str) -> (b: bool)
    ensures
        b == ends_with(name@, static_suffix()),
{
    let suffix = ".static.html";
    proof {
        reveal_strlit(".static.html");
    }
    let n = name.unicode_len();
    let m = suffix.unicode_len();
    if n < m {
        return false;
    }
    let mut j: usize = 0;
    while j < m
        invariant
            n == name@.len(),
            m == suffix@.len(),
            m <= n,
            suffix@ == static_suffix(),
            j <= m,
            forall|k: int| 0 <= k < j ==> name@[n - m + k] == suffix@[k],
        decreases m - j,
    {
        if name.get_char(n - m + j) != suffix.get_char(j) {
            proof {
                let tail = name@.subrange(n - m, n as int);
                assert(tail[j as int] != suffix@[j as int]);
            }
            return false;
        }
        j += 1;
    }
    proof {
        assert(name@.subrange(n - m, n as int) =~= suffix@);
    }
    true
}

/// Every file that a page is written to, and the file looked up for a
/// route, is one that the purge of rendered files removes.
pub proof fn lemma_page_files_are_purged(root: Seq<char>, path: Seq<char>)
    ensures
        ends_with(trim_leading_slashes(path) + static_suffix(), static_suffix()),
        ends_with(root + path + static_suffix(), static_suffix()),
{
    let a = trim_leading_slashes(path) + static_suffix();
    let b = root + path + static_suffix();
    assert(a.subrange(a.len() - static_suffix().len(), a.len() as int) =~= static_suffix());
    assert(b.subrange(b.len() - static_suffix().len(), b.len() as int) =~= static_suffix());
}

impl ResolvedStaticPath {
    /// The address that the page for this path is rendered at.
    pub fn url(&self) -> (url: String)
        ensures
            url@ == "http://leptos"@ + self@,
    {
        let mut url = String::from_str("http://leptos");
        url.append(self.0.as_str());
        url
    }

    /// The name, relative to the site's root, of the file that holds the
    /// page rendered for this path.
    pub fn static_file_name(&self) -> (name: String)
        ensures
            name@ == trim_leading_slashes(self@) + static_suffix(),
    {
        static_file_name(self.0.as_str())
    }

    /// The path as text.
    pub fn to_string(&self) -> (text: String)
        ensures
            text@ == self@,
    {
        self.0.clone()
    }
}

} // verus!
