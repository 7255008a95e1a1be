//! Small enumerations shared by the tools.

use vstd::prelude::*;

verus! {

/// Supported instruments.
#[derive(Debug, Copy, Clone, PartialEq, Eq, Structural)]
pub enum Camera {
    Asi174MM,
    Undefined,
}

#[derive(Debug, Copy, Clone, PartialEq, Eq, Structural)]
pub enum CalFileType {
    FlatField,
    InpaintMask,
    Mask,
}

/// The body observed.
#[derive(Debug, Copy, Clone, PartialEq, Eq, Structural)]
pub enum Target {
    Sun,
    Moon,
}

/// What Unicode upper-casing makes of a string.
pub uninterp spec fn upper_of(s: Seq<char>) -> Seq<char>;

/// Relies on `str::to_uppercase`: the upper case of each character, which
/// depends on the characters alone.
#[verifier::external_body]
fn uppercase(s: &str) -> (r: String)
    ensures
        r@ == upper_of(s@),
{
    s.to_uppercase()
}

/// The target that an upper-case name names.
pub open spec fn target_named(u: Seq<char>) -> Option<Target> {
    if u == "MOON"@ {
        Some(Target::Moon)
    } else if u == "SUN"@ {
        Some(Target::Sun)
    } else {
        None
    }
}

fn same_text(a: &str, b: &str) -> (r: bool)
    ensures
        r == (a@ == b@),
{
    let n = a.unicode_len();
    if n != b.unicode_len() {
        return false;
    }
    let mut i: usize = 0;
    while i < n
        invariant
            n == a@.len(),
            n == b@.len(),
            i <= n,
            forall|k: int| 0 <= k < i ==> a@[k] == b@[k],
        decreases n - i,
    {
        if a.get_char(i) != b.get_char(i) {
            return false;
        }
        i += 1;
    }
    assert(a@ =~= b@);
    true
}

impl Target {
    /// The target whose name, already in upper case, is `u`.
    pub fn from_upper(u: &str) -> (r: Option<Target>)
        ensures
            r == target_named(u@),
    {
        proof {
            reveal_strlit("MOON");
            reveal_strlit("SUN");
        }
        if same_text(u, "MOON") {
            Some(Target::Moon)
        } else if same_text(u, "SUN") {
            Some(Target::Sun)
        } else {
            None
        }
    }

    /// The target named by `s` in any case: "Sun" or "Moon".
    pub fn from(s: &str) -> (r: Option<Target>)
        ensures
            r == target_named(upper_of(s@)),
    {
        let u = uppercase(s);
        Target::from_upper(u.as_str())
    }
}

} // verus!
