use vstd::prelude::*;

verus! {

/// The format of one progress line: a bare marker, the path of the item
/// just processed, or the raw event record.
#[derive(Debug, Clone, Copy, PartialEq, Eq, Structural)]
pub enum ProgressFormat {
    Dot,
    Path,
    Raw,
}

/// The scalar value of a character with an ASCII upper-case letter folded
/// to lower case; every other character keeps its value.
pub open spec fn lower_scalar(u: int) -> int {
    if 65 <= u <= 90 {
        u + 32
    } else {
        u
    }
}

/// Whether two character sequences are equal once ASCII upper-case
/// letters in the first are folded to lower case.
pub open spec fn ci_matches(s: Seq<char>, t: Seq<char>) -> bool {
    s.len() == t.len() && (forall|i: int|
        0 <= i < s.len() ==> lower_scalar(#[trigger] s[i] as u32 as int) == t[i] as u32 as int)
}

/// The format named by a selector string, compared without regard to
/// ASCII case; anything unrecognized falls back to the bare marker.
pub open spec fn format_of(s: Seq<char>) -> ProgressFormat {
    if ci_matches(s, "path"@) {
        ProgressFormat::Path
    } else if ci_matches(s, "raw"@) {
        ProgressFormat::Raw
    } else {
        ProgressFormat::Dot
    }
}

/// Whether `s`, folded to ASCII lower case, equals the selector `lit`.
fn matches_lower(s: &str, lit: &str) -> (r: bool)
    ensures
        r == ci_matches(s@, lit@),
{
    let n = s.unicode_len();
    let m = lit.unicode_len();
    if n != m {
        return false;
    }
    let mut i: usize = 0;
    while i < n
        invariant
            i <= n,
            n == s@.len(),
            n == lit@.len(),
            forall|j: int|
                0 <= j < i ==> lower_scalar(#[trigger] s@[j] as u32 as int) == lit@[j] as u32
                    as int,
        decreases n - i,
    {
        let mut u = s.get_char(i) as u32;
        if 65 <= u && u <= 90 {
            u = u + 32;
        }
        let d = lit.get_char(i) as u32;
        if u != d {
            return false;
        }
        i = i + 1;
    }
    true
}

impl From<String> for ProgressFormat {
    /// Parses a progress-format selector, without regard to ASCII case;
    /// anything unrecognized falls back to the bare marker.
    fn from(val: String) -> (r: ProgressFormat) {
        if matches_lower(val.as_str(), "path") {
            ProgressFormat::Path
        } else if matches_lower(val.as_str(), "raw") {
            ProgressFormat::Raw
        } else {
            ProgressFormat::Dot
        }
    }
}

impl vstd::std_specs::convert::FromSpecImpl<String> for ProgressFormat {
    open spec fn obeys_from_spec() -> bool {
        true
    }

    open spec fn from_spec(val: String) -> ProgressFormat {
        format_of(val@)
    }
}

} // verus!
