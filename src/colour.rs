use vstd::prelude::*;

verus! {

/// A pixel colour as red, green and blue bytes.
pub type Rgb = [u8; 3];

pub const BLACK: Rgb = [0, 0, 0];

/// Whether two colours are the same, channel by channel.
pub fn same_colour(a: &Rgb, b: &Rgb) -> (r: bool)
    ensures
        r == (a@ == b@),
{
    let r = a[0] == b[0] && a[1] == b[1] && a[2] == b[2];
    proof {
        if r {
            assert(a@ =~= b@);
        }
    }
    r
}

} // verus!
