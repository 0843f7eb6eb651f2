//! The single-instance lock of the browser session: what the PID file
//! holds and which process may be replaced.

use vstd::prelude::*;

use crate::dom::has_sub;
use crate::names::vec_eq;
use crate::numbers::{parse_u32, parse_unsigned};
use crate::text::{chars_of, trim, trim_chars};
use crate::time::decimal;

verus! {

/// The single-instance lock held by the browser session: the PID file and
/// the process id written to it.
pub struct InstanceGuard {
    path: String,
    pid: u32,
}

impl InstanceGuard {
    /// The lock recorded as `pid` in the file at `path`.
    pub fn new(path: String, pid: u32) -> (r: Self)
        ensures
            r.path_view() == path@,
            r.pid_view() == pid,
    {
        InstanceGuard { path, pid }
    }

    pub closed spec fn path_view(&self) -> Seq<char> {
        self.path@
    }

    pub closed spec fn pid_view(&self) -> u32 {
        self.pid
    }

    /// The PID written to the lock file.
    pub fn pid(&self) -> (r: u32)
        ensures
            r == self.pid_view(),
    {
        self.pid
    }

    /// The path of the lock file.
    pub fn path(&self) -> (r: &str)
        ensures
            r@ == self.path_view(),
    {
        self.path.as_str()
    }

    /// Whether the lock file, holding `contents`, still belongs to this
    /// guard: its trimmed text is our PID in decimal. Only then may the file
    /// be removed on release, since a newer instance may have taken over.
    pub fn owns(&self, contents: &str) -> (r: bool)
        ensures
            r == (trim(contents@) == decimal(self.pid_view() as nat)),
    {
        let t = trim_chars(&chars_of(contents));
        let mut digits: Vec<char> = Vec::new();
        crate::time::push_decimal(&mut digits, self.pid as u64);
        assert(digits@ =~= decimal(self.pid as nat));
        vec_eq(&t, &digits)
    }
}

/// The PID recorded in a lock file's `contents`: its trimmed text read as a
/// `u32`.
pub fn parse_pid(contents: &str) -> (r: Option<u32>)
    ensures
        match r {
            Some(p) => parse_unsigned(trim(contents@), u32::MAX as nat) == Some(p as nat),
            None => parse_unsigned(trim(contents@), u32::MAX as nat).is_none(),
        },
{
    let t = trim_chars(&chars_of(contents));
    let s = crate::text::string_of(&t);
    parse_u32(s.as_str())
}

/// Whether a process command name (as `ps -o comm=` reports it, trimmed)
/// is this program: `pricehunter` itself, a name containing
/// `price_hunter`, or one ending in `pricehunter`.
pub open spec fn is_own_command(comm: Seq<char>) -> bool {
    comm == "pricehunter"@ || has_sub(comm, "price_hunter"@) || (comm.len() >= "pricehunter"@.len()
        && comm.skip(comm.len() - "pricehunter"@.len()) == "pricehunter"@)
}

/// Whether the process named `comm` is this program (guards against killing
/// an unrelated process that reused the PID).
#[verifier::loop_isolation(false)]
pub fn is_pricehunter(comm: &str) -> (r: bool)
    ensures
        r == is_own_command(comm@),
{
    let c = chars_of(comm);
    let name = chars_of("pricehunter");
    if vec_eq(&c, &name) {
        return true;
    }
    let under = chars_of("price_hunter");
    if crate::prices::find_first(&c, &under).is_some() {
        return true;
    }
    if c.len() < name.len() {
        return false;
    }
    let off = c.len() - name.len();
    for k in 0..name.len()
        invariant
            off + name@.len() == c@.len(),
            forall|j: int| 0 <= j < k ==> c@[off + j] == name@[j],
    {
        if c[off + k] != name[k] {
            assert(c@.skip(off as int)[k as int] != name@[k as int]);
            return false;
        }
    }
    assert(c@.skip(off as int) =~= name@);
    true
}

} // verus!
