//! The weight algebra: the ordered, summable quantity paths are measured in.

use vstd::prelude::*;

verus! {

/// The quantity a path is measured in.
///
/// A weight type carries a total preorder `sle`, an addition `s_add`, an
/// additive identity `s_zero` and a maximal, absorbing class of "infinite"
/// values recognized by `s_is_inf`, with `s_inf` a canonical member. The
/// proof obligations pin down the algebra that Dijkstra's greedy strategy
/// needs: the order is total, addition never decreases either operand (so
/// every weight is non-negative), addition is monotone, and infinity sits
/// strictly above every finite value.
///
/// The order is a preorder, not an order: a type may have several
/// representations of the same logical value (for instance several infinite
/// values), which compare both ways without being equal.
pub trait Weight: Sized {
    /// The order on weights: `self` is at most `other`.
    spec fn sle(self, other: Self) -> bool;

    /// The sum of two weights.
    spec fn s_add(self, other: Self) -> Self;

    /// The additive identity, the measure of an empty path.
    spec fn s_zero() -> Self;

    /// The canonical unreachable sentinel.
    spec fn s_inf() -> Self;

    /// Whether a weight is infinite.
    spec fn s_is_inf(self) -> bool;

    /// The order is reflexive.
    proof fn law_refl(a: Self)
        ensures
            a.sle(a),
    ;

    /// The order is transitive.
    proof fn law_trans(a: Self, b: Self, c: Self)
        requires
            a.sle(b),
            b.sle(c),
        ensures
            a.sle(c),
    ;

    /// Any two weights are comparable.
    proof fn law_total(a: Self, b: Self)
        ensures
            a.sle(b) || b.sle(a),
    ;

    /// A sum is at least its left operand.
    proof fn law_add_le_left(a: Self, b: Self)
        ensures
            a.sle(a.s_add(b)),
    ;

    /// A sum is at least its right operand.
    proof fn law_add_le_right(a: Self, b: Self)
        ensures
            b.sle(a.s_add(b)),
    ;

    /// Addition is monotone in its left operand.
    proof fn law_add_mono(a: Self, b: Self, c: Self)
        requires
            a.sle(b),
        ensures
            a.s_add(c).sle(b.s_add(c)),
    ;

    /// Zero is the additive identity, up to the order.
    proof fn law_zero_identity(a: Self)
        ensures
            Self::s_zero().s_add(a).sle(a),
            a.sle(Self::s_zero().s_add(a)),
            a.s_add(Self::s_zero()).sle(a),
            a.sle(a.s_add(Self::s_zero())),
    ;

    /// Zero is the least weight: all weights are non-negative.
    proof fn law_zero_min(a: Self)
        ensures
            Self::s_zero().sle(a),
    ;

    /// An infinite weight dominates every weight.
    proof fn law_inf_max(a: Self, b: Self)
        requires
            b.s_is_inf(),
        ensures
            a.sle(b),
    ;

    /// An infinite weight is strictly above every finite weight.
    proof fn law_inf_strict(a: Self, b: Self)
        requires
            a.s_is_inf(),
            !b.s_is_inf(),
        ensures
            !a.sle(b),
    ;

    /// Zero is finite.
    proof fn law_zero_finite()
        ensures
            !Self::s_zero().s_is_inf(),
    ;

    /// The canonical infinity is infinite.
    proof fn law_inf_is_inf()
        ensures
            Self::s_inf().s_is_inf(),
    ;

    /// Computes the sum of two weights.
    fn add(&self, other: &Self) -> (r: Self)
        ensures
            r == self.s_add(*other),
    ;

    /// Returns the additive identity.
    fn zero() -> (r: Self)
        ensures
            r == Self::s_zero(),
    ;

    /// Returns the canonical unreachable sentinel.
    fn infinity() -> (r: Self)
        ensures
            r == Self::s_inf(),
    ;

    /// Decides whether this weight is infinite.
    fn is_infinity(&self) -> (r: bool)
        ensures
            r == self.s_is_inf(),
    ;

    /// Decides the order: whether `self` is at most `other`.
    fn le(&self, other: &Self) -> (r: bool)
        ensures
            r == self.sle(*other),
    ;

    /// Returns a copy of this weight.
    fn dup(&self) -> (r: Self)
        ensures
            r == *self,
    ;
}

/// The total weight of a sequence of edge weights: the weights summed onto
/// `Weight::s_zero`, left to right.
pub open spec fn fold_weights<W: Weight>(ws: Seq<W>) -> W
    decreases ws.len(),
{
    if ws.len() == 0 {
        W::s_zero()
    } else {
        fold_weights(ws.drop_last()).s_add(ws.last())
    }
}

/// Every summed weight sequence weighs at least zero: path weights are
/// non-negative.
pub proof fn lemma_zero_le_fold<W: Weight>(ws: Seq<W>)
    ensures
        W::s_zero().sle(fold_weights(ws)),
    decreases ws.len(),
{
    if ws.len() == 0 {
        W::law_refl(W::s_zero());
    } else {
        lemma_zero_le_fold::<W>(ws.drop_last());
        W::law_add_le_left(fold_weights(ws.drop_last()), ws.last());
        W::law_trans(
            W::s_zero(),
            fold_weights(ws.drop_last()),
            fold_weights(ws),
        );
    }
}

} // verus!
