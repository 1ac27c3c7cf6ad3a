//! Which loaded font families stand for the generic names (`sans-serif`,
//! `serif`, `monospace`) that SVG pictures ask for.
use vstd::prelude::*;

use crate::text::{chars_of, string_of};

verus! {

/// What is known of a loaded font face: its family names, in order, and
/// whether it is monospaced.
#[derive(Debug)]
pub struct Face {
    pub families: Vec<String>,
    pub monospaced: bool,
}

/// The first family name of a face, else `dflt`.
pub open spec fn family_or(f: Face, dflt: Seq<char>) -> Seq<char> {
    if f.families@.len() > 0 {
        f.families@[0]@
    } else {
        dflt
    }
}

/// The family for `sans-serif` and `serif`: the first family of the first
/// face, else "DejaVu Sans".
pub open spec fn spec_body_family(faces: Seq<Face>) -> Seq<char> {
    if faces.len() > 0 {
        family_or(faces[0], "DejaVu Sans"@)
    } else {
        "DejaVu Sans"@
    }
}

/// Index of the first monospaced face at or after `i`.
pub open spec fn first_monospaced_from(faces: Seq<Face>, i: int) -> Option<int>
    decreases faces.len() - i,
{
    if i < 0 || i >= faces.len() {
        None
    } else if faces[i].monospaced {
        Some(i)
    } else {
        first_monospaced_from(faces, i + 1)
    }
}

/// The family for `monospace`: the first family of the first monospaced
/// face, else "DejaVu Sans Mono".
pub open spec fn spec_code_family(faces: Seq<Face>) -> Seq<char> {
    match first_monospaced_from(faces, 0) {
        Some(i) => family_or(faces[i], "DejaVu Sans Mono"@),
        None => "DejaVu Sans Mono"@,
    }
}

fn family_or_exec(f: &Face, dflt: &str) -> (r: String)
    ensures
        r@ == family_or(*f, dflt@),
{
    if f.families.len() > 0 {
        f.families[0].clone()
    } else {
        string_of(chars_of(dflt).as_slice())
    }
}

/// The families that stand for `sans-serif` (also used for `serif`) and
/// for `monospace`, chosen among the loaded faces in load order.
pub fn generic_families(faces: &[Face]) -> (r: (String, String))
    ensures
        r.0@ == spec_body_family(faces@),
        r.1@ == spec_code_family(faces@),
{
    let body = if faces.len() > 0 {
        family_or_exec(&faces[0], "DejaVu Sans")
    } else {
        string_of(chars_of("DejaVu Sans").as_slice())
    };
    let mut i: usize = 0;
    while i < faces.len() && !faces[i].monospaced
        invariant
            i <= faces@.len(),
            first_monospaced_from(faces@, i as int) == first_monospaced_from(faces@, 0),
        decreases faces@.len() - i,
    {
        i += 1;
    }
    let code = if i < faces.len() {
        family_or_exec(&faces[i], "DejaVu Sans Mono")
    } else {
        string_of(chars_of("DejaVu Sans Mono").as_slice())
    };
    (body, code)
}

} // verus!
