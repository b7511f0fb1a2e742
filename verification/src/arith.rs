use vstd::prelude::*;
use vstd::arithmetic::div_mod::{
    lemma_add_mod_noop, lemma_add_mod_noop_right, lemma_mod_mod, lemma_mod_sub_multiples_vanish,
    lemma_small_mod, lemma_sub_mod_noop, lemma_sub_mod_noop_right,
};

verus! {

/// The width of one tape cell, as a modulus.
pub open spec fn cell_modulus() -> int {
    256
}

/// Reduction of an unbounded integer into one cell: the mathematical value of
/// every wrapping cell operation.
pub open spec fn wrap8(x: int) -> u8 {
    (x % 256) as u8
}

/// Wrapping cell addition agrees with `wrap8` over the unbounded sum.
pub proof fn lemma_wrap8_add(x: u8, c: int)
    requires
        c >= 0,
    ensures
        wrap8(x + c) == if x + (c % 256) > 255 {
            (x + (c % 256) - 256) as u8
        } else {
            (x + (c % 256)) as u8
        },
{
    lemma_small_mod(x as nat, 256);
    lemma_add_mod_noop(x as int, c, 256);
    let s = x + (c % 256);
    if s > 255 {
        lemma_mod_sub_multiples_vanish(s, 256);
        lemma_small_mod((s - 256) as nat, 256);
    } else {
        lemma_small_mod(s as nat, 256);
    }
}

/// Wrapping cell subtraction agrees with `wrap8` over the unbounded difference.
pub proof fn lemma_wrap8_sub(x: u8, c: int)
    requires
        c >= 0,
    ensures
        wrap8(x - c) == if x - (c % 256) < 0 {
            (x - (c % 256) + 256) as u8
        } else {
            (x - (c % 256)) as u8
        },
{
    lemma_small_mod(x as nat, 256);
    lemma_sub_mod_noop(x as int, c, 256);
    let s = x - (c % 256);
    if s < 0 {
        lemma_mod_sub_multiples_vanish(s + 256, 256);
        lemma_small_mod((s + 256) as nat, 256);
    } else {
        lemma_small_mod(s as nat, 256);
    }
}

/// Wrapping a value into a cell first and then adding a further delta gives
/// the same cell as adding everything before wrapping once.
pub proof fn lemma_wrap8_absorb(x: int, b: int)
    ensures
        wrap8(wrap8(x) + b) == wrap8(x + b),
{
    lemma_add_mod_noop_right(b, x, 256);
}

/// Reducing a nonnegative delta modulo the machine-word range first does not
/// change its effect on a cell: the cell width divides the word range.
pub proof fn lemma_wrap8_scale(x: u8, y: int)
    requires
        y >= 0,
    ensures
        wrap8(x + (y % 0x1_0000_0000)) == wrap8(x + y),
        wrap8(x - (y % 0x1_0000_0000)) == wrap8(x - y),
{
    lemma_mod_mod(y, 256, 0x100_0000);
    assert(256 * 0x100_0000 == 0x1_0000_0000);
    lemma_add_mod_noop_right(x as int, y % 0x1_0000_0000, 256);
    lemma_add_mod_noop_right(x as int, y, 256);
    lemma_sub_mod_noop_right(x as int, y % 0x1_0000_0000, 256);
    lemma_sub_mod_noop_right(x as int, y, 256);
}

} // verus!
