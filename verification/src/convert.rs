//! Image conversion is delegated to ImageMagick, which converts by the destination's own
//! extension and strips every profile and comment in the same pass; this builds its argv.
use vstd::prelude::*;

verus! {

/// The command that converts.
pub const MAGICK: &'static str = "magick";

/// The views of a list of strings.
pub open spec fn views(v: Seq<String>) -> Seq<Seq<char>> {
    v.map_values(|s: String| s@)
}

/// The argv that converts `input` to `dest`: magick, the input, `-strip` only when asked for,
/// and the destination, whose extension magick reads the format from, so no format flag is given.
pub fn argv(input: &str, dest: &str, strip: bool) -> (r: Vec<String>)
    ensures
        views(r@) == seq![MAGICK@, input@] + (if strip {
            seq!["-strip"@]
        } else {
            seq![]
        }) + seq![dest@],
{
    let mut a: Vec<String> = Vec::new();
    a.push(MAGICK.to_owned());
    a.push(input.to_owned());
    if strip {
        a.push("-strip".to_owned());
    }
    a.push(dest.to_owned());
    assert(views(a@) =~= seq![MAGICK@, input@] + (if strip {
        seq!["-strip"@]
    } else {
        seq![]
    }) + seq![dest@]);
    a
}

} // verus!
