//! Sizing policy: the minimal unsigned integer widths sufficient to hold a
//! board's group indices, symbol values, progress counters and occupancy
//! bit-sets, as a pure function of the order.

use vstd::prelude::*;
use vstd::arithmetic::power2::{lemma2_to64, pow2};
use crate::board::{area_of, side_of};

verus! {

/// Widths, in bits, of the unsigned integers a board of one order needs.
pub struct Widths {
    /// Holds any group index (row, column or block), a value below `L`.
    pub index_bits: u16,
    /// Holds any cell symbol, a value up to `L`.
    pub symbol_bits: u16,
    /// Holds any progress or position counter, a value up to `A`.
    pub counter_bits: u16,
    /// Holds one occupancy bit-set of `L` bits.
    pub mask_bits: u16,
}

/// Smallest machine width whose unsigned range holds the value `v`, for
/// values up to the largest supported board's area.
pub open spec fn width_for_value(v: nat) -> nat {
    if v < 256 {
        8
    } else if v < 65536 {
        16
    } else {
        32
    }
}

/// Smallest machine width of at least `b` bits.
pub open spec fn width_for_bits(b: nat) -> nat {
    if b <= 8 {
        8
    } else if b <= 16 {
        16
    } else if b <= 32 {
        32
    } else if b <= 64 {
        64
    } else if b <= 128 {
        128
    } else {
        256
    }
}

pub open spec fn index_bits_of(o: nat) -> nat {
    width_for_value(if side_of(o) == 0 {
        0
    } else {
        (side_of(o) - 1) as nat
    })
}

pub open spec fn symbol_bits_of(o: nat) -> nat {
    width_for_value(side_of(o))
}

pub open spec fn counter_bits_of(o: nat) -> nat {
    width_for_value(area_of(o))
}

pub open spec fn mask_bits_of(o: nat) -> nat {
    width_for_bits(side_of(o))
}

/// The chosen widths hold the values they are for, and the next narrower
/// machine width would not.
pub proof fn lemma_widths_sufficient(o: nat)
    requires
        o <= 16,
    ensures
        side_of(o) < pow2(symbol_bits_of(o)),
        symbol_bits_of(o) > 8 ==> pow2((symbol_bits_of(o) / 2) as nat) <= side_of(o),
        area_of(o) < pow2(counter_bits_of(o)),
        counter_bits_of(o) > 8 ==> pow2((counter_bits_of(o) / 2) as nat) <= area_of(o),
        side_of(o) <= mask_bits_of(o),
        mask_bits_of(o) > 8 ==> mask_bits_of(o) / 2 < side_of(o),
{
    lemma2_to64();
    assert(side_of(o) <= 256 && area_of(o) <= 65536) by (nonlinear_arith)
        requires o <= 16, side_of(o) == o * o, area_of(o) == side_of(o) * side_of(o);
}

/// The orders the generator engine supports are exactly those whose
/// occupancy bit-set fits one 64-bit word under this policy.
pub proof fn lemma_supported_orders_fit_word(o: nat)
    ensures
        o <= 8 <==> mask_bits_of(o) <= 64,
{
    if o <= 8 {
        assert(side_of(o) <= 64) by (nonlinear_arith)
            requires o <= 8, side_of(o) == o * o;
    } else {
        assert(side_of(o) > 64) by (nonlinear_arith)
            requires o >= 9, side_of(o) == o * o;
    }
}

/// The minimal widths for a board of the given order.
pub fn min_widths(order: usize) -> (w: Widths)
    requires
        order <= 16,
    ensures
        w.index_bits == index_bits_of(order as nat),
        w.symbol_bits == symbol_bits_of(order as nat),
        w.counter_bits == counter_bits_of(order as nat),
        w.mask_bits == mask_bits_of(order as nat),
{
    proof {
        assert(order * order <= 256 && (order * order) * (order * order) <= 65536)
            by (nonlinear_arith)
            requires order <= 16;
    }
    let side = order * order;
    let area = side * side;
    let index_max = if side == 0 {
        0
    } else {
        side - 1
    };
    Widths {
        index_bits: if index_max < 256 {
            8
        } else {
            16
        },
        symbol_bits: if side < 256 {
            8
        } else {
            16
        },
        counter_bits: if area < 256 {
            8
        } else if area < 65536 {
            16
        } else {
            32
        },
        mask_bits: if side <= 8 {
            8
        } else if side <= 16 {
            16
        } else if side <= 32 {
            32
        } else if side <= 64 {
            64
        } else if side <= 128 {
            128
        } else {
            256
        },
    }
}

} // verus!
