//! Normalising the feed address that a request names.

use vstd::prelude::*;
use vstd::string::*;

verus! {

/// The text `http://`.
pub open spec fn http_scheme() -> Seq<char> {
    seq!['h', 't', 't', 'p', ':', '/', '/']
}

/// The text `https://`.
pub open spec fn https_scheme() -> Seq<char> {
    seq!['h', 't', 't', 'p', 's', ':', '/', '/']
}

/// `url` without its leading `/` characters.
pub open spec fn strip_slashes(url: Seq<char>) -> Seq<char>
    decreases url.len(),
{
    if url.len() > 0 && url[0] == '/' {
        strip_slashes(url.drop_first())
    } else {
        url
    }
}

/// Whether `url` starts with one of the two web schemes.
pub open spec fn has_scheme(url: Seq<char>) -> bool {
    http_scheme().is_prefix_of(url) || https_scheme().is_prefix_of(url)
}

/// The address that [`add_http_prefix`] makes of `url`: leading slashes
/// dropped, and `http://` put in front unless a web scheme is already there.
pub open spec fn with_http_prefix(url: Seq<char>) -> Seq<char> {
    let rest = strip_slashes(url);
    if has_scheme(rest) {
        rest
    } else {
        http_scheme() + rest
    }
}

/// Dropping `n` leading slashes one by one is what `strip_slashes` does.
proof fn lemma_strip_slashes_skip(url: Seq<char>, n: int)
    requires
        0 <= n <= url.len(),
        forall|i: int| 0 <= i < n ==> url[i] == '/',
    ensures
        strip_slashes(url) == strip_slashes(url.skip(n)),
    decreases n,
{
    if n > 0 {
        assert(url.drop_first().skip(n - 1) =~= url.skip(n));
        lemma_strip_slashes_skip(url.drop_first(), n - 1);
    } else {
        assert(url.skip(0) =~= url);
    }
}

/// An address that has its scheme is left as it is: giving the scheme twice
/// changes nothing.
pub proof fn lemma_prefix_is_stable(url: Seq<char>)
    ensures
        has_scheme(with_http_prefix(url)),
        with_http_prefix(with_http_prefix(url)) == with_http_prefix(url),
{
    let rest = strip_slashes(url);
    let res = with_http_prefix(url);
    if !has_scheme(rest) {
        assert(res.subrange(0, http_scheme().len() as int) =~= http_scheme());
    }
    assert(res[0] == 'h');
}

/// Whether `text` begins with `prefix`.
pub fn starts_with(text: &str, prefix: &str) -> (res: bool)
    ensures
        res == prefix@.is_prefix_of(text@),
{
    let n: usize = prefix.unicode_len();
    let m: usize = text.unicode_len();
    if m < n {
        return false;
    }
    let mut i: usize = 0;
    while i < n
        invariant
            i <= n <= m,
            n == prefix@.len(),
            m == text@.len(),
            forall|j: int| 0 <= j < i ==> prefix@[j] == text@[j],
        decreases n - i,
    {
        if prefix.get_char(i) != text.get_char(i) {
            return false;
        }
        i += 1;
    }
    assert(prefix@ =~= text@.subrange(0, n as int));
    true
}

/// Makes a fetchable address of the path that a request names.
#[must_use]
pub fn add_http_prefix(url: &str) -> (res: String)
    ensures
        res@ == with_http_prefix(url@),
{
    let n: usize = url.unicode_len();
    let mut i: usize = 0;
    while i < n && url.get_char(i) == '/'
        invariant
            i <= n,
            n == url@.len(),
            forall|j: int| 0 <= j < i ==> url@[j] == '/',
        decreases n - i,
    {
        i += 1;
    }
    let rest = url.substring_char(i, n);
    proof {
        lemma_strip_slashes_skip(url@, i as int);
        assert(url@.skip(i as int) =~= url@.subrange(i as int, n as int));
        reveal_strlit("http://");
        reveal_strlit("https://");
        assert("http://"@ =~= http_scheme());
        assert("https://"@ =~= https_scheme());
    }
    if starts_with(rest, "http://") || starts_with(rest, "https://") {
        rest.to_owned()
    } else {
        String::from_str("http://").concat(rest)
    }
}

} // verus!
