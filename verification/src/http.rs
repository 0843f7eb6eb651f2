//! Small helpers for talking to the store's HTTP API: filter-literal
//! escaping and the host of a page URL.

use vstd::prelude::*;

use crate::model::opt_view;
use crate::text::{chars_of, string_of};

verus! {

/// How one character is written inside a filter string literal: a
/// backslash or a single quote gets a backslash in front.
pub open spec fn escape_char(c: char) -> Seq<char> {
    if c == '\\' {
        seq!['\\', '\\']
    } else if c == '\'' {
        seq!['\\', '\'']
    } else {
        seq![c]
    }
}

/// `s` with every character escaped (see [`escape_char`]).
pub open spec fn escaped(s: Seq<char>) -> Seq<char>
    decreases s.len(),
{
    if s.len() == 0 {
        seq![]
    } else {
        escaped(s.drop_last()) + escape_char(s.last())
    }
}

/// Escapes a value for use inside a filter string literal: single quotes
/// and backslashes are backslash-escaped, or the filter parses wrong.
pub fn escape_filter(value: &str) -> (r: String)
    ensures
        r@ == escaped(value@),
{
    let cs = chars_of(value);
    let mut out: Vec<char> = Vec::new();
    for k in 0..cs.len()
        invariant
            out@ == escaped(cs@.take(k as int)),
    {
        let c = cs[k];
        assert(cs@.take(k + 1).drop_last() =~= cs@.take(k as int));
        assert(cs@.take(k + 1).last() == c);
        if c == '\\' || c == '\'' {
            out.push('\\');
        }
        out.push(c);
        assert(out@ =~= escaped(cs@.take(k + 1)));
    }
    assert(cs@.take(cs.len() as int) =~= cs@);
    string_of(&out)
}

/// The host that `url::Url::parse` finds in `url`; `None` when the text
/// does not parse as a URL or the URL has no host.
pub uninterp spec fn url_host(url: Seq<char>) -> Option<Seq<char>>;

/// Trusted: `url::Url::parse` followed by `Url::host_str`. The contract only
/// names the result, a function of `url` alone.
#[verifier::external_body]
pub(crate) fn parsed_host(url: &str) -> (r: Option<String>)
    ensures
        opt_view(r) == url_host(url@),
{
    url::Url::parse(url).ok().and_then(|u| u.host_str().map(str::to_owned))
}

/// The host of `url`, or the empty string when it has none.
pub fn host_of(url: &str) -> (r: String)
    ensures
        r@ == match url_host(url@) {
            Some(h) => h,
            None => seq![],
        },
{
    match parsed_host(url) {
        Some(h) => h,
        None => string_of(&Vec::new()),
    }
}

} // verus!
