use vstd::prelude::*;

verus! {

/// The value fits in an `i64`.
pub open spec fn fits_i64(v: int) -> bool {
    i64::MIN <= v <= i64::MAX
}

/// Integer division as Rust computes it: the quotient rounded toward zero.
pub open spec fn quotient_toward_zero(x: int, d: int) -> int {
    let q = if x < 0 {
        -x
    } else {
        x
    } / if d < 0 {
        -d
    } else {
        d
    };
    if (x < 0) != (d < 0) {
        -q
    } else {
        q
    }
}

} // verus!
