//! Where captures are written: one folder per site host under the base
//! directory, one timestamped file per capture.

use vstd::prelude::*;

use crate::http::{parsed_host, url_host};
use crate::text::{chars_of, string_of};
use crate::time::decimal;

verus! {

/// `base` joined with the relative path `name`, as `Path::join` does on
/// Unix: `name` alone when `base` is empty, otherwise separated by one `/`
/// unless `base` already ends with one.
pub open spec fn path_join(base: Seq<char>, name: Seq<char>) -> Seq<char> {
    if base.len() == 0 {
        name
    } else if base.last() == '/' {
        base + name
    } else {
        base + seq!['/'] + name
    }
}

/// The folder a capture of `url` goes to: `base` joined with the URL's
/// host, or `base` itself when the URL has no host.
pub open spec fn capture_dir_of(base: Seq<char>, url: Seq<char>) -> Seq<char> {
    match url_host(url) {
        Some(h) => path_join(base, h),
        None => base,
    }
}

/// Appends the characters of `s`.
fn push_str(out: &mut Vec<char>, s: &[char])
    ensures
        final(out)@ == old(out)@ + s@,
{
    let ghost o = out@;
    for k in 0..s.len()
        invariant
            out@ == o + s@.take(k as int),
    {
        out.push(s[k]);
        assert(out@ =~= o + s@.take(k + 1));
    }
    assert(s@.take(s.len() as int) =~= s@);
}

/// `base` joined with `name` (see [`path_join`]).
fn join(base: &[char], name: &[char]) -> (r: Vec<char>)
    ensures
        r@ == path_join(base@, name@),
{
    let mut out: Vec<char> = Vec::new();
    push_str(&mut out, base);
    if base.len() > 0 && base[base.len() - 1] != '/' {
        out.push('/');
    }
    push_str(&mut out, name);
    assert(out@ =~= path_join(base@, name@));
    out
}

/// The folder a capture of `url` goes to (see [`capture_dir_of`]).
pub fn capture_dir(base: &str, url: &str) -> (r: String)
    ensures
        r@ == capture_dir_of(base@, url@),
{
    let b = chars_of(base);
    match parsed_host(url) {
        Some(h) => string_of(&join(&b, &chars_of(h.as_str()))),
        None => string_of(&b),
    }
}

/// The file a capture of `url` taken at Unix time `now` is written to:
/// `capture-<now>.json` in the capture folder.
pub fn capture_file(base: &str, url: &str, now: u64) -> (r: String)
    ensures
        r@ == path_join(capture_dir_of(base@, url@), "capture-"@ + decimal(now as nat) + ".json"@),
{
    let dir = chars_of(capture_dir(base, url).as_str());
    let mut name = chars_of("capture-");
    let mut digits: Vec<char> = Vec::new();
    crate::time::push_decimal(&mut digits, now);
    push_str(&mut name, &digits);
    push_str(&mut name, &chars_of(".json"));
    string_of(&join(&dir, &name))
}

} // verus!
