//! The proxy-facing pieces around the cache engine: the cacheability
//! filter, request sanitization, and the response summary the proxy
//! serializes back to its client.
//!
//! The HTTP layer itself — server, client, headers — is an external
//! collaborator; these functions work on the plain values it extracts:
//! the downstream URI path, a content type, header names.

use vstd::prelude::*;
use vstd::string::StrSliceExecFns;
use vstd::string::StringExecFns;

verus! {

/// The index of the last occurrence of `c` in `s`, or `-1` if there is
/// none.
pub open spec fn last_index_of(s: Seq<char>, c: char) -> int
    decreases s.len(),
{
    if s.len() == 0 {
        -1
    } else if s.last() == c {
        s.len() - 1
    } else {
        last_index_of(s.drop_last(), c)
    }
}

/// What follows the last occurrence of `c` in `s`: the whole of `s` when
/// `c` does not occur.
pub open spec fn suffix_after_last(s: Seq<char>, c: char) -> Seq<char> {
    s.subrange(last_index_of(s, c) + 1, s.len() as int)
}

/// The extension of the file a URI path names: what follows the last dot
/// of the last path segment.  A path without a dot in its last segment
/// yields the whole segment, and a trailing slash yields the empty
/// extension; neither matches a sensibly configured extension list, so
/// both fall through to the content-type check.
pub open spec fn ext_of(path: Seq<char>) -> Seq<char> {
    suffix_after_last(suffix_after_last(path, '/'), '.')
}

/// What the proxy reports about one proxied request: whether the body was
/// cached, and for how long it will be kept, in milliseconds (negative
/// when it was not cached).
#[derive(Clone, Copy, Debug, PartialEq, Eq, Structural)]
pub struct Response {
    pub cached: bool,
    pub ttl: i64,
}

/// Whether some string of `ss` reads `t`.
pub open spec fn contains_string(ss: Seq<String>, t: Seq<char>) -> bool {
    exists|i: int| 0 <= i < ss.len() && ss[i]@ == t
}

/// The cacheability filter: a response body is worth caching when the
/// downstream file's extension is one of the configured extensions, or,
/// failing that, when the response's content type is one of the
/// configured content types.
pub struct Filter {
    /// File extensions considered cacheable.
    pub exts: Vec<String>,
    /// Content-type header values considered cacheable.
    pub headers: Vec<String>,
}

impl Filter {
    /// Builds a filter from the configured extensions and content types.
    pub fn new(exts: Vec<String>, headers: Vec<String>) -> (r: Filter)
        ensures
            r.exts@ == exts@,
            r.headers@ == headers@,
    {
        Filter { exts, headers }
    }

    /// Whether `ctype` is one of the configured content types.
    pub fn valid_ctype(&self, ctype: &String) -> (r: bool)
        ensures
            r == contains_string(self.headers@, ctype@),
    {
        let n = self.headers.len();
        let mut i: usize = 0;
        while i < n
            invariant
                i <= n,
                n == self.headers@.len(),
                forall|j: int| 0 <= j < i ==> self.headers@[j]@ != ctype@,
            decreases n - i,
        {
            if self.headers[i].eq(ctype) {
                return true;
            }
            i = i + 1;
        }
        false
    }

    /// Whether `ext` is one of the configured extensions.
    pub fn valid_ext(&self, ext: &String) -> (r: bool)
        ensures
            r == contains_string(self.exts@, ext@),
    {
        let n = self.exts.len();
        let mut i: usize = 0;
        while i < n
            invariant
                i <= n,
                n == self.exts@.len(),
                forall|j: int| 0 <= j < i ==> self.exts@[j]@ != ext@,
            decreases n - i,
        {
            if self.exts[i].eq(ext) {
                return true;
            }
            i = i + 1;
        }
        false
    }

    /// Decides whether a downstream response is worth caching: first by
    /// the extension of the file the URI path names, then — when the
    /// extension does not match — by the response's content type, when
    /// one is present.  Failure to find a meaningful extension merely
    /// falls through to the content-type check.
    pub fn is_cacheable(&self, path: &String, ctype: Option<&String>) -> (r: bool)
        ensures
            r == (contains_string(self.exts@, ext_of(path@)) || (match ctype {
                Some(c) => contains_string(self.headers@, c@),
                None => false,
            })),
    {
        let ext = extension_of(path);
        if self.valid_ext(&ext) {
            return true;
        }
        match ctype {
            Some(c) => self.valid_ctype(c),
            None => false,
        }
    }
}

proof fn lemma_last_index_of_bounds(s: Seq<char>, c: char)
    ensures
        -1 <= last_index_of(s, c) < s.len(),
    decreases s.len(),
{
    if s.len() > 0 && s.last() != c {
        lemma_last_index_of_bounds(s.drop_last(), c);
    }
}

/// Extracts the extension of the file `path` names, as [`ext_of`]
/// describes it.
fn extension_of(path: &String) -> (r: String)
    ensures
        r@ == ext_of(path@),
{
    let s = path.as_str();
    let n = s.unicode_len();
    let mut k: usize = 0;
    let mut start: usize = 0;
    while k < n
        invariant
            k <= n,
            n == path@.len(),
            s@ == path@,
            start == last_index_of(path@.take(k as int), '/') + 1,
            start <= k,
        decreases n - k,
    {
        proof {
            lemma_last_index_of_bounds(path@.take(k as int), '/');
            assert(path@.take(k + 1).drop_last() =~= path@.take(k as int));
            assert(path@.take(k + 1).last() == path@[k as int]);
        }
        if s.get_char(k) == '/' {
            start = k + 1;
        }
        k = k + 1;
    }
    proof {
        assert(path@.take(n as int) =~= path@);
    }
    let mut est: usize = start;
    k = start;
    while k < n
        invariant
            start <= est <= k,
            k <= n,
            start <= k,
            n == path@.len(),
            s@ == path@,
            est - start == last_index_of(path@.subrange(start as int, k as int), '.') + 1,
        decreases n - k,
    {
        proof {
            lemma_last_index_of_bounds(path@.subrange(start as int, k as int), '.');
            assert(path@.subrange(start as int, k + 1).drop_last() =~= path@.subrange(
                start as int,
                k as int,
            ));
            assert(path@.subrange(start as int, k + 1).last() == path@[k as int]);
        }
        if s.get_char(k) == '.' {
            est = k + 1;
        }
        k = k + 1;
    }
    proof {
        lemma_last_index_of_bounds(path@.subrange(start as int, n as int), '.');
        assert(path@.subrange(start as int, n as int).subrange(
            (est - start) as int,
            (n - start) as int,
        ) =~= path@.subrange(est as int, n as int));
    }
    s.substring_char(est, n).to_owned()
}

/// What remains of a header-name list once every occurrence of `bad` is
/// removed, in order.
pub open spec fn drop_header(s: Seq<String>, bad: Seq<char>) -> Seq<String>
    decreases s.len(),
{
    if s.len() == 0 {
        Seq::<String>::empty()
    } else {
        let rest = drop_header(s.drop_last(), bad);
        if s.last()@ == bad {
            rest
        } else {
            rest.push(s.last())
        }
    }
}

/// Sanitizes a request for the downstream client by dropping the
/// hop-by-hop "Proxy-connection" header from its header names; all other
/// headers pass through unchanged, in order.
pub fn sanitize_request(names: Vec<String>) -> (r: Vec<String>)
    ensures
        r@ == drop_header(names@, "Proxy-connection"@),
{
    let bad: String = String::from_str("Proxy-connection");
    let n = names.len();
    let mut r: Vec<String> = Vec::new();
    let mut i: usize = 0;
    while i < n
        invariant
            i <= n,
            n == names@.len(),
            bad@ == "Proxy-connection"@,
            r@ == drop_header(names@.take(i as int), "Proxy-connection"@),
        decreases n - i,
    {
        proof {
            assert(names@.take(i + 1).drop_last() =~= names@.take(i as int));
            assert(names@.take(i + 1).last() == names@[i as int]);
        }
        if !names[i].eq(&bad) {
            r.push(names[i].clone());
        }
        i = i + 1;
    }
    proof {
        assert(names@.take(n as int) =~= names@);
    }
    r
}

} // verus!
