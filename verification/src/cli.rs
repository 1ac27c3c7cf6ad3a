//! Decisions of the command line that do not touch the file system.
use vstd::prelude::*;

verus! {

/// Output formats.
#[derive(Debug, Clone, Copy, PartialEq, Eq)]
pub enum Format {
    Html,
    Pdf,
    Pptx,
}

pub open spec fn spec_extension(f: Format) -> Seq<char> {
    match f {
        Format::Html => "html"@,
        Format::Pdf => "pdf"@,
        Format::Pptx => "pptx"@,
    }
}

impl Format {
    /// The file extension of the format.
    pub fn extension(&self) -> (r: &'static str)
        ensures
            r@ == spec_extension(*self),
    {
        match self {
            Format::Html => "html",
            Format::Pdf => "pdf",
            Format::Pptx => "pptx",
        }
    }
}

/// Splits `n` alternating arguments `IN1 OUT1 IN2 OUT2 ...` into index
/// pairs; `None` when `n` is odd.
pub fn argument_pairs(n: usize) -> (res: Option<Vec<(usize, usize)>>)
    ensures
        match res {
            Some(v) => n % 2 == 0 && v@.len() == n / 2 && forall|k: int|
                0 <= k < v@.len() ==> #[trigger] v@[k] == ((2 * k) as usize, (2 * k + 1) as usize),
            None => n % 2 == 1,
        },
{
    if n % 2 != 0 {
        return None;
    }
    let mut v: Vec<(usize, usize)> = Vec::new();
    let mut i: usize = 0;
    while i < n / 2
        invariant
            n % 2 == 0,
            i <= n / 2,
            v@.len() == i,
            forall|k: int| 0 <= k < i ==> #[trigger] v@[k] == ((2 * k) as usize, (2 * k + 1) as usize),
        decreases n / 2 - i,
    {
        v.push((2 * i, 2 * i + 1));
        i += 1;
    }
    Some(v)
}

} // verus!
