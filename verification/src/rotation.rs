//! Rotating a sequence by a fixed number of places, and rotating it back.

use vstd::arithmetic::div_mod::{
    lemma_add_mod_noop, lemma_add_mod_noop_right, lemma_fundamental_div_mod, lemma_mod_bound,
    lemma_mod_multiples_vanish, lemma_mod_self_0, lemma_small_mod,
};
use vstd::prelude::*;

verus! {

/// The number of places by which the chunks are rotated.
pub const ROT: usize = 7;

/// The `count` elements that are read from `items` repeated without end,
/// beginning at position `start`. Nothing can be read from no items.
pub open spec fn cycle_window<A>(items: Seq<A>, start: nat, count: nat) -> Seq<A> {
    if items.len() == 0 {
        Seq::empty()
    } else {
        Seq::new(count, |i: int| items[(start + i) % (items.len() as int)])
    }
}

/// `items` rotated left by `shift` places: the element at position `i` of the
/// result is the one at position `(i + shift) mod n` of `items`.
pub open spec fn rotate_left<A>(items: Seq<A>, shift: nat) -> Seq<A> {
    cycle_window(items, shift, items.len())
}

/// The left shift that undoes a left shift by `shift` on `len` elements. The
/// shift is reduced modulo `len` before it is subtracted, so that fewer
/// elements than `shift` are no special case.
pub open spec fn inverse_shift(len: nat, shift: nat) -> nat {
    if len == 0 {
        0
    } else {
        ((len - shift % len) % (len as int)) as nat
    }
}

/// `items` rotated right by `shift` places.
pub open spec fn rotate_right<A>(items: Seq<A>, shift: nat) -> Seq<A> {
    rotate_left(items, inverse_shift(items.len(), shift))
}

/// With more elements than `shift` the inverse shift is the plain
/// difference; with exactly `shift` elements, or with no shift, it is none.
pub proof fn lemma_inverse_shift_plain(len: nat, shift: nat)
    requires
        shift <= len,
    ensures
        0 < shift < len ==> inverse_shift(len, shift) == len - shift,
        shift == len ==> inverse_shift(len, shift) == 0,
        shift == 0 ==> inverse_shift(len, shift) == 0,
{
    if len > 0 {
        lemma_mod_self_0(len as int);
        if shift == len {
        } else if shift == 0 {
            lemma_small_mod(0, len);
        } else {
            lemma_small_mod(shift, len);
            lemma_small_mod((len - shift) as nat, len);
        }
    }
}

/// Adding a multiple of `len` to a position moves it nowhere.
proof fn lemma_whole_turns(position: int, len: int, turns: int)
    requires
        0 <= position < len,
    ensures
        (position + len * turns) % len == position,
{
    lemma_mod_multiples_vanish(turns, position, len);
    lemma_small_mod(position as nat, len as nat);
}

/// Going `shift` places forward from where the inverse shift leads ends at
/// the starting position, and the other way round.
pub proof fn lemma_shift_there_and_back(position: int, len: nat, shift: nat)
    requires
        0 <= position < len,
    ensures
        0 <= (position + shift) % (len as int) < len,
        0 <= (position + inverse_shift(len, shift)) % (len as int) < len,
        ((position + inverse_shift(len, shift)) % (len as int) + shift) % (len as int) == position,
        ((position + shift) % (len as int) + inverse_shift(len, shift)) % (len as int) == position,
{
    let n = len as int;
    let forth = shift as int;
    let back = inverse_shift(len, shift) as int;
    let reduced = forth % n;
    lemma_mod_bound(forth, n);
    lemma_mod_bound(position + forth, n);
    lemma_mod_bound(position + back, n);
    lemma_fundamental_div_mod(forth, n);
    let turns = if reduced == 0 {
        lemma_mod_self_0(n);
        forth / n
    } else {
        lemma_small_mod((n - reduced) as nat, len);
        forth / n + 1
    };
    assert(back + forth == n * turns) by (nonlinear_arith)
        requires
            forth == n * (forth / n) + reduced,
            reduced == 0 ==> back == 0 && turns == forth / n,
            reduced != 0 ==> back == n - reduced && turns == forth / n + 1,
    ;
    lemma_whole_turns(position, n, turns);
    assert((position + back + forth) % n == position);
    lemma_add_mod_noop(position + back, forth, n);
    lemma_add_mod_noop_right((position + back) % n, forth, n);
    lemma_add_mod_noop(position + forth, back, n);
    lemma_add_mod_noop_right((position + forth) % n, back, n);
}

/// Rotating right undoes rotating left by the same number of places, for
/// every number of elements.
pub proof fn lemma_rotate_right_undoes_left<A>(items: Seq<A>, shift: nat)
    ensures
        rotate_right(rotate_left(items, shift), shift) == items,
{
    let len = items.len();
    let turned = rotate_left(items, shift);
    if len > 0 {
        assert forall|i: int| 0 <= i < len implies rotate_right(turned, shift)[i] == items[i] by {
            lemma_shift_there_and_back(i, len, shift);
        }
    }
    assert(rotate_right(turned, shift) =~= items);
}

/// Rotating left undoes rotating right by the same number of places, for
/// every number of elements.
pub proof fn lemma_rotate_left_undoes_right<A>(items: Seq<A>, shift: nat)
    ensures
        rotate_left(rotate_right(items, shift), shift) == items,
{
    let len = items.len();
    let turned = rotate_right(items, shift);
    if len > 0 {
        assert forall|i: int| 0 <= i < len implies rotate_left(turned, shift)[i] == items[i] by {
            lemma_shift_there_and_back(i, len, shift);
        }
    }
    assert(rotate_left(turned, shift) =~= items);
}

/// Finds, among `len` items, the position of element `i` of the window that
/// begins at `start`. Neither sum nor difference leaves the range of `usize`.
pub fn cycle_index(start: usize, i: usize, len: usize) -> (index: usize)
    requires
        len > 0,
    ensures
        index == (start + i) % (len as int),
        index < len,
{
    let from = start % len;
    let step = i % len;
    proof {
        lemma_add_mod_noop(start as int, i as int, len as int);
        if from + step >= len {
            lemma_whole_turns(from + step - len, len as int, 1);
        } else {
            lemma_small_mod((from + step) as nat, len as nat);
        }
    }
    if from >= len - step {
        from - (len - step)
    } else {
        from + step
    }
}

/// Computes the left shift that undoes a left shift by `shift` on `len`
/// elements.
pub fn inverse_shift_of(len: usize, shift: usize) -> (back: usize)
    ensures
        back == inverse_shift(len as nat, shift as nat),
{
    if len == 0 {
        0
    } else {
        (len - shift % len) % len
    }
}

} // verus!
