//! The command line stored in the `Run` registry key that starts the program
//! at login.

use vstd::prelude::*;

verus! {

/// The path of the running program wrapped in double quotes, so that paths
/// holding spaces survive a round trip through the `Run` registry key, and
/// NUL-terminated, as UTF-16.
pub fn quote_wide_path(path: &[u16]) -> (out: Vec<u16>)
    requires
        path.len() + 3 <= usize::MAX,
    ensures
        out@ == seq![0x22u16] + path@ + seq![0x22u16, 0u16],
{
    let mut out: Vec<u16> = Vec::new();
    out.push(0x22);
    let mut i: usize = 0;
    while i < path.len()
        invariant
            i <= path.len(),
            out@ == seq![0x22u16] + path@.take(i as int),
        decreases path.len() - i,
    {
        out.push(path[i]);
        i = i + 1;
        assert(out@ =~= seq![0x22u16] + path@.take(i as int));
    }
    out.push(0x22);
    out.push(0);
    assert(path@.take(path.len() as int) =~= path@);
    assert(out@ =~= seq![0x22u16] + path@ + seq![0x22u16, 0u16]);
    out
}

} // verus!
