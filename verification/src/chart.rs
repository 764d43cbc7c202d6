//! The arithmetic of a depth chart: how long the bar of a level is and how
//! wide the column of volumes.

use vstd::prelude::*;
use crate::types::Volume;

verus! {

/// The width of a full bar, in characters.
pub const BAR_WIDTH: usize = 60;

/// The length of the bar for `volume` where `max_volume` fills `width`:
/// `width * volume / max_volume`, rounded up.
pub open spec fn bar_len(volume: nat, max_volume: nat, width: nat) -> nat
    recommends
        max_volume > 0,
{
    ((width * volume + max_volume - 1) / max_volume as int) as nat
}

/// The number of digits of `n` in decimal.
pub open spec fn decimal_digits(n: nat) -> nat
    decreases n,
{
    if n < 10 {
        1
    } else {
        1 + decimal_digits(n / 10)
    }
}

/// No bar is longer than the full width.
pub proof fn lemma_bar_fits(volume: nat, max_volume: nat, width: nat)
    requires
        0 < max_volume,
        volume <= max_volume,
    ensures
        bar_len(volume, max_volume, width) <= width,
        volume == max_volume ==> bar_len(volume, max_volume, width) == width,
        volume > 0 && width > 0 ==> bar_len(volume, max_volume, width) > 0,
{
    assert(width * volume <= width * max_volume) by (nonlinear_arith)
        requires
            volume <= max_volume,
    ;
    assert((width * volume + max_volume - 1) / max_volume as int <= width) by (nonlinear_arith)
        requires
            width * volume <= width * max_volume,
            0 < max_volume,
    ;
    if volume == max_volume {
        assert((width * max_volume + max_volume - 1) / max_volume as int == width)
            by (nonlinear_arith)
            requires
                0 < max_volume,
        ;
    }
    if volume > 0 && width > 0 {
        assert(width * volume >= 1) by (nonlinear_arith)
            requires
                volume > 0,
                width > 0,
        ;
        assert((width * volume + max_volume - 1) / max_volume as int >= 1) by (nonlinear_arith)
            requires
                width * volume >= 1,
                0 < max_volume,
        ;
    }
}

/// The length of the bar that stands for `volume` in a chart whose longest
/// bar, that of `max_volume`, is `width` long.
pub fn bar_length(volume: Volume, max_volume: Volume, width: usize) -> (len: usize)
    requires
        0 < max_volume.0,
        volume.0 <= max_volume.0,
    ensures
        len == bar_len(volume.0 as nat, max_volume.0 as nat, width as nat),
        len <= width,
{
    proof {
        lemma_bar_fits(volume.0 as nat, max_volume.0 as nat, width as nat);
        assert(width * volume.0 <= usize::MAX * usize::MAX) by (nonlinear_arith)
            requires
                width <= usize::MAX,
                volume.0 <= usize::MAX,
        ;
    }
    let scaled: u128 = width as u128 * volume.0 as u128;
    let len: u128 = (scaled + (max_volume.0 as u128 - 1)) / max_volume.0 as u128;
    len as usize
}

/// The width of the column that holds the volumes of a chart: the digits of
/// the greatest volume and three more.
pub fn volume_column_width(max_volume: Volume) -> (width: usize)
    ensures
        width == decimal_digits(max_volume.0 as nat) + 3,
{
    let mut rest: usize = max_volume.0;
    let mut digits: usize = 1;
    while rest >= 10
        invariant
            digits >= 1,
            digits - 1 + rest <= max_volume.0,
            digits == 1 || digits + 8 <= max_volume.0,
            digits + decimal_digits(rest as nat) == 1 + decimal_digits(max_volume.0 as nat),
        decreases rest,
    {
        rest = rest / 10;
        digits += 1;
    }
    digits + 3
}

} // verus!
