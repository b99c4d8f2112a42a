//! Choice of the output path and truecolor detection.
//!
//! The requested [`Mode`] is resolved once, at start, to the [`OutputMode`]
//! actually used: `Auto` assumes an image-capable terminal and picks the
//! image path; the cell path is chosen explicitly. The cell path writes
//! truecolor and only warns when `COLORTERM` does not announce it.
use vstd::prelude::*;
use crate::cli::Mode;

verus! {

/// The output path in use.
#[derive(Debug, Clone, Copy, PartialEq, Eq, Structural)]
pub enum OutputMode {
    /// The Kitty graphics protocol path.
    Image,
    /// The ANSI cell path.
    Cell,
}

/// Resolves the requested mode: `Auto` and `Image` give the image path,
/// `Cell` the cell path.
pub fn resolve_mode(requested: Mode) -> (m: OutputMode)
    ensures
        m == (if requested == Mode::Cell {
            OutputMode::Cell
        } else {
            OutputMode::Image
        }),
{
    match requested {
        Mode::Auto | Mode::Image => OutputMode::Image,
        Mode::Cell => OutputMode::Cell,
    }
}

/// `needle` occurs in `hay` at position `i`.
pub open spec fn occurs_at(hay: Seq<char>, needle: Seq<char>, i: int) -> bool {
    0 <= i && i + needle.len() <= hay.len() && hay.subrange(i, i + needle.len()) == needle
}

/// `needle` occurs somewhere in `hay`.
pub open spec fn contains_seq(hay: Seq<char>, needle: Seq<char>) -> bool {
    exists|i: int| occurs_at(hay, needle, i)
}

/// Whether `needle` occurs in `hay`.
pub fn str_contains(hay: &str, needle: &str) -> (r: bool)
    ensures
        r == contains_seq(hay@, needle@),
{
    let n = hay.unicode_len();
    let m = needle.unicode_len();
    if m > n {
        proof {
            assert forall|i: int| !occurs_at(hay@, needle@, i) by {}
        }
        return false;
    }
    let mut i: usize = 0;
    while i <= n - m
        invariant
            n == hay@.len(),
            m == needle@.len(),
            m <= n,
            i <= n - m + 1,
            forall|k: int| 0 <= k < i ==> !occurs_at(hay@, needle@, k),
        decreases n - m + 1 - i,
    {
        let mut j: usize = 0;
        let mut same = true;
        while j < m
            invariant
                n == hay@.len(),
                m == needle@.len(),
                i + m <= n,
                j <= m,
                same <==> (forall|t: int| 0 <= t < j ==> hay@[i + t] == needle@[t]),
            decreases m - j,
        {
            if hay.get_char(i + j) != needle.get_char(j) {
                same = false;
            }
            j = j + 1;
        }
        if same {
            proof {
                assert(hay@.subrange(i as int, i + m) =~= needle@);
                assert(occurs_at(hay@, needle@, i as int));
            }
            return true;
        }
        proof {
            let t = choose|t: int| 0 <= t < m && hay@[i + t] != needle@[t];
            assert(hay@.subrange(i as int, i + m)[t] != needle@[t]);
        }
        i = i + 1;
    }
    proof {
        assert forall|k: int| !occurs_at(hay@, needle@, k) by {
            if 0 <= k < i {
            }
        }
    }
    false
}

/// Whether a `COLORTERM` value announces truecolor: it contains `truecolor`
/// or `24bit`; an unset variable does not.
pub fn truecolor_from_env(colorterm: Option<&str>) -> (r: bool)
    ensures
        r == match colorterm {
            Some(v) => contains_seq(v@, "truecolor"@) || contains_seq(v@, "24bit"@),
            None => false,
        },
{
    match colorterm {
        Some(v) => str_contains(v, "truecolor") || str_contains(v, "24bit"),
        None => false,
    }
}

/// The truecolor warning is due only on the cell path without truecolor.
pub fn should_warn_truecolor(output: OutputMode, truecolor: bool) -> (r: bool)
    ensures
        r == (output == OutputMode::Cell && !truecolor),
{
    match output {
        OutputMode::Cell => !truecolor,
        OutputMode::Image => false,
    }
}

} // verus!
