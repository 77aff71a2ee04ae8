//! Run configuration: the report mode and the scan options.

use vstd::prelude::*;

verus! {

/// Which magnitude the report sorts, prunes and displays.
#[derive(Clone, Copy, PartialEq, Eq, Structural, Debug)]
pub enum Mode {
    /// Sum of logical file sizes, in bytes.
    ApparentSize,
    /// Allocated storage: 512-byte allocation units, displayed as bytes.
    Size,
    /// Count of regular files.
    Files,
}

/// What `Mode::from_str` returns for a given character sequence.
pub open spec fn mode_of_str(s: Seq<char>) -> Result<Mode, ()> {
    if s == "apparent-size"@ {
        Ok(Mode::ApparentSize)
    } else if s == "size"@ {
        Ok(Mode::Size)
    } else if s == "files"@ {
        Ok(Mode::Files)
    } else {
        Err(())
    }
}

/// Exec string equality over views.
fn str_eq(a: &str, b: &str) -> (r: bool)
    ensures
        r == (a@ == b@),
{
    let x = a.to_owned();
    let y = b.to_owned();
    x == y
}

impl Mode {
    /// Parse a mode name; exactly "apparent-size", "size" and "files" are accepted.
    pub fn from_str(src: &str) -> (r: Result<Mode, ()>)
        ensures
            r == mode_of_str(src@),
    {
        if str_eq(src, "apparent-size") {
            Ok(Mode::ApparentSize)
        } else if str_eq(src, "size") {
            Ok(Mode::Size)
        } else if str_eq(src, "files") {
            Ok(Mode::Files)
        } else {
            Err(())
        }
    }
}

/// The cutoff fraction, as an exact ratio `num / den`.
///
/// A subtree is pruned when its metric is strictly below
/// `root total * num / den`.
#[derive(Clone, Copy)]
pub struct Cutoff {
    pub num: u64,
    pub den: u64,
}

impl Cutoff {
    pub open spec fn wf(self) -> bool {
        self.den > 0
    }

    /// The default cutoff fraction, 0.003.
    pub fn default_fraction() -> (c: Cutoff)
        ensures
            c.wf(),
            c.num == 3,
            c.den == 1000,
    {
        Cutoff { num: 3, den: 1000 }
    }
}

/// Everything a run is configured by.
pub struct Options {
    pub mode: Mode,
    pub cutoff: Cutoff,
    /// Refuse to cross filesystem-device boundaries.
    pub xdev: bool,
    pub paths: Vec<String>,
}

} // verus!
