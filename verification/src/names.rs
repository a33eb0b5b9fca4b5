//! Names of the files that games are stored in.

use vstd::prelude::*;
use crate::sgf::chars_of;

verus! {

/// Whether a text ends with another.
pub open spec fn ends_with(name: Seq<char>, suffix: Seq<char>) -> bool {
    suffix.len() <= name.len() && name.subrange(name.len() - suffix.len(), name.len() as int) == suffix
}

/// A name with the suffix that files of its kind carry: the name itself
/// where it ends with the suffix, else the name followed by the suffix.
pub open spec fn suffixed(name: Seq<char>, suffix: Seq<char>) -> Seq<char> {
    if ends_with(name, suffix) {
        name
    } else {
        name + suffix
    }
}

/// The name under which a file is stored: the given name where it ends
/// with the suffix, else the given name followed by the suffix.
pub fn with_suffix(name: &str, suffix: &str) -> (out: String)
    ensures
        out@ == suffixed(name@, suffix@),
{
    let a = chars_of(name);
    let b = chars_of(suffix);
    let mut ends = a.len() >= b.len();
    if ends {
        let offset = a.len() - b.len();
        let mut k: usize = 0;
        while k < b.len()
            invariant
                k <= b.len(),
                offset + b.len() == a.len(),
                ends == (forall|w: int| 0 <= w < k ==> a@[offset + w] == b@[w]),
            decreases b.len() - k,
        {
            if a[offset + k] != b[k] {
                ends = false;
            }
            k += 1;
        }
        proof {
            let tail = a@.subrange(a.len() - b.len(), a.len() as int);
            if ends {
                assert(tail =~= b@);
            } else {
                let w = choose|w: int| 0 <= w < b.len() && a@[offset + w] != b@[w];
                assert(tail[w] != b@[w]);
            }
        }
    }
    let mut out = String::from_str(name);
    if !ends {
        out.append(suffix);
    }
    out
}

} // verus!
