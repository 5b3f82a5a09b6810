//! Arithmetic of packed queue positions.
//!
//! A position is one machine word holding a lap and an index:
//! `index = pos & (span - 1)` and `lap = pos & !(span - 1)`, where the lap
//! span `span` is a power of two larger than the number of slots. Only
//! indices below the number of slots are used: when the index would reach
//! it, the position jumps to the start of the next lap, which wraps round the
//! word.
use vstd::prelude::*;

verus! {

use vstd::arithmetic::power2::{
    pow2,
    lemma_pow2_pos,
    lemma_pow2_adds,
    lemma_pow2_strictly_increases,
    lemma2_to64,
};
use vstd::bits::{low_bits_mask, lemma_usize_low_bits_mask_is_mod};
use vstd::arithmetic::div_mod::{lemma_fundamental_div_mod, lemma_mod_multiples_vanish, lemma_small_mod};

/// The number of distinct words: position arithmetic is taken modulo this.
pub open spec fn word() -> int {
    usize::MAX as int + 1
}

/// The index part of a position.
pub open spec fn index_of(pos: int, span: int) -> int {
    pos % span
}

/// The lap part of a position.
pub open spec fn lap_of(pos: int, span: int) -> int {
    pos - pos % span
}

/// The lap that follows `lap`, wrapping round the word.
pub open spec fn next_lap(lap: int, span: int) -> int {
    if lap + span == word() {
        0
    } else {
        lap + span
    }
}

/// The position that follows `pos` in a ring of `cap` slots.
pub open spec fn next_pos(pos: int, cap: int, span: int) -> int {
    if index_of(pos, span) + 1 < cap {
        pos + 1
    } else {
        next_lap(lap_of(pos, span), span)
    }
}

/// `span` is the power of two `2^bits`, and smaller than the word.
pub open spec fn valid_span(span: int, bits: nat) -> bool {
    span == pow2(bits) && bits < usize::BITS
}

/// A lap value: a multiple of the span that leaves room for one more lap
/// below the word.
pub open spec fn is_lap(lap: int, span: int) -> bool {
    0 <= lap && lap % span == 0 && lap + span <= word()
}

pub proof fn lemma_span(span: int, bits: nat)
    requires
        valid_span(span, bits),
    ensures
        1 <= span,
        2 * span <= word(),
        word() % span == 0,
{
    lemma_pow2_pos(bits);
    lemma2_to64();
    let rest = (usize::BITS - bits) as nat;
    lemma_pow2_adds(bits, rest);
    assert(pow2(usize::BITS as nat) == word());
    assert(word() == span * pow2(rest));
    lemma_pow2_strictly_increases(0, rest);
    assert(pow2(rest) >= 2);
    assert(2 * span <= word()) by (nonlinear_arith)
        requires
            word() == span * pow2(rest),
            pow2(rest) >= 2,
            span >= 1,
    ;
    lemma_mod_multiples_vanish(pow2(rest) as int, 0, span);
    assert(word() % span == (span * pow2(rest) + 0) % span);
}

/// Splitting a word into its lap and index.
pub proof fn lemma_split_word(pos: int, span: int, bits: nat)
    requires
        valid_span(span, bits),
        0 <= pos < word(),
    ensures
        is_lap(lap_of(pos, span), span),
        0 <= index_of(pos, span) < span,
        pos == lap_of(pos, span) + index_of(pos, span),
{
    lemma_span(span, bits);
    lemma_fundamental_div_mod(pos, span);
    lemma_fundamental_div_mod(word(), span);
    let q = pos / span;
    let m = word() / span;
    assert(lap_of(pos, span) == span * q);
    assert(word() == span * m);
    assert(q >= 0) by (nonlinear_arith)
        requires
            pos >= 0,
            span >= 1,
            q == pos / span,
    ;
    assert(q < m) by (nonlinear_arith)
        requires
            span * q <= pos,
            pos < word(),
            word() == span * m,
            span >= 1,
    ;
    assert(span * q + span <= word()) by (nonlinear_arith)
        requires
            q + 1 <= m,
            word() == span * m,
            span >= 1,
    ;
    lemma_mod_multiples_vanish(q, 0, span);
    assert(lap_of(pos, span) >= 0) by (nonlinear_arith)
        requires
            q >= 0,
            span >= 1,
            lap_of(pos, span) == span * q,
    ;
}

/// A lap and an index in range make a position that splits back into them.
pub proof fn lemma_join(lap: int, i: int, span: int, bits: nat)
    requires
        valid_span(span, bits),
        is_lap(lap, span),
        0 <= i < span,
    ensures
        0 <= lap + i < word(),
        index_of(lap + i, span) == i,
        lap_of(lap + i, span) == lap,
{
    lemma_span(span, bits);
    lemma_fundamental_div_mod(lap, span);
    let q = lap / span;
    assert(lap == span * q);
    lemma_mod_multiples_vanish(q, i, span);
    lemma_small_mod(i as nat, span as nat);
    assert((lap + i) % span == i);
}

/// The lap after a lap is a lap again, and a different one.
pub proof fn lemma_next_lap(lap: int, span: int, bits: nat)
    requires
        valid_span(span, bits),
        is_lap(lap, span),
    ensures
        is_lap(next_lap(lap, span), span),
        next_lap(lap, span) != lap,
{
    lemma_span(span, bits);
    if lap + span != word() {
        lemma_fundamental_div_mod(lap, span);
        let q = lap / span;
        lemma_mod_multiples_vanish(q + 1, 0, span);
        assert(span * (q + 1) == lap + span) by (nonlinear_arith)
            requires
                lap == span * q,
        ;
        assert((lap + span) % span == 0);
        lemma_split_word(lap + span, span, bits);
        assert(lap_of(lap + span, span) == lap + span);
    }
}

/// What wrapping addition of one span does to a position.
pub proof fn lemma_add_span(pos: int, span: int, bits: nat)
    requires
        valid_span(span, bits),
        0 <= pos < word(),
    ensures
        (if pos + span > usize::MAX { pos + span - word() } else { pos + span }) == next_lap(
            lap_of(pos, span),
            span,
        ) + index_of(pos, span),
{
    lemma_split_word(pos, span, bits);
    lemma_next_lap(lap_of(pos, span), span, bits);
}

/// The bit masks that decode a position compute its index and its lap.
pub proof fn lemma_masks(pos: usize, span: usize, bits: nat)
    requires
        valid_span(span as int, bits),
    ensures
        pos & ((span - 1) as usize) == index_of(pos as int, span as int),
        pos & !((span - 1) as usize) == lap_of(pos as int, span as int),
{
    lemma_span(span as int, bits);
    lemma_usize_low_bits_mask_is_mod(pos, bits);
    assert(low_bits_mask(bits) == span - 1);
    let m = (span - 1) as usize;
    assert(pos & !m == pos - (pos & m)) by (bit_vector);
}

} // verus!
