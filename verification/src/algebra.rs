//! The algebra that the commitment schemes rest on: a commutative group on which
//! the scalar field acts. The schemes are stated over any such structure; the
//! curve is one instance.

use crate::field::scalar_order;
use vstd::arithmetic::div_mod::lemma_add_mod_noop;
use vstd::arithmetic::div_mod::lemma_mod_bound;
use vstd::arithmetic::div_mod::lemma_mul_mod_noop_left;
use vstd::arithmetic::div_mod::lemma_mul_mod_noop_right;
use vstd::arithmetic::div_mod::lemma_small_mod;
use vstd::arithmetic::power::lemma_pow_positive;
use vstd::arithmetic::power::lemma0_pow;
use vstd::arithmetic::power::lemma_pow0;
use vstd::arithmetic::power::pow;
use vstd::prelude::*;

verus! {

/// The sum of `values[i] * weights[i]` over the integers.
pub open spec fn dot(values: Seq<nat>, weights: Seq<nat>) -> nat
    recommends
        weights.len() == values.len(),
    decreases values.len(),
{
    if values.len() == 0 {
        0
    } else {
        dot(values.drop_last(), weights.drop_last()) + values.last() * weights.last()
    }
}

/// The powers `x^0, x^step, x^(2 step), ..` of `x`, `count` of them, over the
/// integers.
pub open spec fn powers(x: nat, step: nat, count: nat) -> Seq<nat> {
    Seq::new(count, |i: int| pow(x as int, (i * step) as nat) as nat)
}

/// Every entry reduced into the scalar field.
pub open spec fn reduced(values: Seq<nat>) -> Seq<nat> {
    Seq::new(values.len(), |i: int| values[i] % scalar_order())
}

/// Every entry multiplied by `k` in the scalar field.
pub open spec fn scaled(values: Seq<nat>, k: nat) -> Seq<nat> {
    Seq::new(values.len(), |i: int| (values[i] * k) % scalar_order())
}

/// The entries of two sequences added in the scalar field.
pub open spec fn summed(left: Seq<nat>, right: Seq<nat>) -> Seq<nat>
    recommends
        right.len() == left.len(),
{
    Seq::new(left.len(), |i: int| (left[i] + right[i]) % scalar_order())
}

/// Every entry is below the order of the scalar field.
pub open spec fn all_reduced(values: Seq<nat>) -> bool {
    forall|i: int| 0 <= i < values.len() ==> #[trigger] values[i] < scalar_order()
}

/// A carrier `P` with a zero, an addition and a multiplication by scalars.
/// Purely a specification device: it names operations, it does not run them.
#[verifier::reject_recursive_types(P)]
pub ghost struct Module<P> {
    /// Which values of `P` are elements.
    pub member: spec_fn(P) -> bool,
    /// The neutral element.
    pub zero: P,
    /// The group operation.
    pub add: spec_fn(P, P) -> P,
    /// Multiplication of an element by a scalar below `scalar_order()`.
    pub scale: spec_fn(P, nat) -> P,
}

/// A power of a natural number is not negative.
pub proof fn lemma_pow_nat(x: nat, e: nat)
    ensures
        pow(x as int, e) >= 0,
{
    if x > 0 {
        lemma_pow_positive(x as int, e);
    } else if e > 0 {
        lemma0_pow(e);
    } else {
        lemma_pow0(x as int);
    }
}

/// One more term of a dot product.
pub proof fn lemma_dot_step(values: Seq<nat>, weights: Seq<nat>, i: int)
    requires
        0 <= i < values.len(),
        i < weights.len(),
    ensures
        dot(values.take(i + 1), weights.take(i + 1)) == dot(values.take(i), weights.take(i))
            + values[i] * weights[i],
{
    assert(values.take(i + 1).drop_last() =~= values.take(i));
    assert(weights.take(i + 1).drop_last() =~= weights.take(i));
}

/// Adding one term to a running sum in the scalar field gives the reduced sum
/// of the integers.
pub proof fn lemma_reduced_step(total: nat, value: nat, weight: nat)
    ensures
        ((total % scalar_order()) + (value * (weight % scalar_order())) % scalar_order())
            % scalar_order() == (total + value * weight) % scalar_order(),
{
    let q = scalar_order() as int;
    crate::field::lemma_order_positive();
    lemma_mul_mod_noop_right(value as int, weight as int, q);
    lemma_add_mod_noop(total as int, (value * weight) as int, q);
}

/// Reducing the weights first does not change a dot product in the scalar
/// field.
pub proof fn lemma_dot_reduced(values: Seq<nat>, weights: Seq<nat>)
    requires
        weights.len() == values.len(),
    ensures
        dot(values, reduced(weights)) % scalar_order() == dot(values, weights) % scalar_order(),
    decreases values.len(),
{
    if values.len() > 0 {
        let q = scalar_order() as int;
        crate::field::lemma_order_positive();
        assert(reduced(weights).drop_last() =~= reduced(weights.drop_last()));
        lemma_dot_reduced(values.drop_last(), weights.drop_last());
        let before = dot(values.drop_last(), weights.drop_last());
        let before_reduced = dot(values.drop_last(), reduced(weights.drop_last()));
        let v = values.last();
        let w = weights.last();
        assert(reduced(weights).last() == w % scalar_order());
        lemma_mul_mod_noop_right(v as int, w as int, q);
        lemma_add_mod_noop(before as int, (v * w) as int, q);
        lemma_add_mod_noop(before_reduced as int, (v * (w % scalar_order())) as int, q);
    }
}

/// Reducing the values first does not change a dot product in the scalar
/// field.
pub proof fn lemma_dot_values_reduced(values: Seq<nat>, weights: Seq<nat>)
    requires
        weights.len() == values.len(),
    ensures
        dot(reduced(values), weights) % scalar_order() == dot(values, weights) % scalar_order(),
    decreases values.len(),
{
    if values.len() > 0 {
        let q = scalar_order() as int;
        crate::field::lemma_order_positive();
        assert(reduced(values).drop_last() =~= reduced(values.drop_last()));
        lemma_dot_values_reduced(values.drop_last(), weights.drop_last());
        let before = dot(values.drop_last(), weights.drop_last());
        let before_reduced = dot(reduced(values.drop_last()), weights.drop_last());
        let v = values.last();
        let w = weights.last();
        assert(reduced(values).last() == v % scalar_order());
        lemma_mul_mod_noop_left(v as int, w as int, q);
        lemma_add_mod_noop(before as int, (v * w) as int, q);
        lemma_add_mod_noop(before_reduced as int, ((v % scalar_order()) * w) as int, q);
    }
}

/// The dot product of a sum of values is the sum of the dot products.
pub proof fn lemma_dot_added(left: Seq<nat>, right: Seq<nat>, weights: Seq<nat>)
    requires
        right.len() == left.len(),
        weights.len() == left.len(),
    ensures
        dot(Seq::new(left.len(), |j: int| left[j] + right[j]), weights) == dot(left, weights)
            + dot(right, weights),
    decreases left.len(),
{
    if left.len() > 0 {
        let both = Seq::new(left.len(), |j: int| left[j] + right[j]);
        let front = Seq::new(left.drop_last().len(), |j: int| left.drop_last()[j]
            + right.drop_last()[j]);
        assert(both.drop_last() =~= front);
        lemma_dot_added(left.drop_last(), right.drop_last(), weights.drop_last());
        let w = weights.last();
        assert((left.last() + right.last()) * w == left.last() * w + right.last() * w)
            by (nonlinear_arith);
    }
}

/// A dot product with one value changed: what the change adds on one side, it
/// adds on the other.
pub proof fn lemma_dot_changed(values: Seq<nat>, weights: Seq<nat>, i: int, changed: nat)
    requires
        weights.len() == values.len(),
        0 <= i < values.len(),
    ensures
        dot(values.update(i, changed), weights) + values[i] * weights[i] == dot(values, weights)
            + changed * weights[i],
    decreases values.len(),
{
    let last = values.len() - 1;
    let other = values.update(i, changed);
    if i == last {
        assert(other.drop_last() =~= values.drop_last());
    } else {
        assert(other.drop_last() =~= values.drop_last().update(i, changed));
        lemma_dot_changed(values.drop_last(), weights.drop_last(), i, changed);
    }
}

/// A changed value shows in the reduced dot product, unless the change times
/// its weight is a multiple of the order.
pub proof fn lemma_dot_changed_shows(values: Seq<nat>, weights: Seq<nat>, i: int, changed: nat)
    requires
        weights.len() == values.len(),
        0 <= i < values.len(),
        (changed * weights[i]) % scalar_order() != (values[i] * weights[i]) % scalar_order(),
    ensures
        dot(values.update(i, changed), weights) % scalar_order() != dot(values, weights)
            % scalar_order(),
{
    let q = scalar_order() as int;
    crate::field::lemma_order_positive();
    let before = dot(values, weights) as int;
    let after = dot(values.update(i, changed), weights) as int;
    let old_term = (values[i] * weights[i]) as int;
    let new_term = (changed * weights[i]) as int;
    lemma_dot_changed(values, weights, i, changed);
    if after % q == before % q {
        // after + old_term == before + new_term, so the two terms are congruent
        lemma_add_mod_noop(after, old_term, q);
        lemma_add_mod_noop(before, new_term, q);
        lemma_add_mod_noop(before, old_term, q);
        vstd::arithmetic::div_mod::lemma_sub_mod_noop(before + new_term, before, q);
        vstd::arithmetic::div_mod::lemma_sub_mod_noop(before + old_term, before, q);
        assert((before + new_term) % q == (before + old_term) % q);
        assert(new_term % q == old_term % q);
    }
}

impl<P> Module<P> {
    /// One more term of a linear combination.
    pub proof fn lemma_combine_step(self, points: Seq<P>, weights: Seq<nat>, i: int)
        requires
            0 <= i < points.len(),
            i < weights.len(),
        ensures
            self.combine(points.take(i + 1), weights.take(i + 1)) == (self.add)(
                self.combine(points.take(i), weights.take(i)),
                (self.scale)(points[i], weights[i]),
            ),
    {
        assert(points.take(i + 1).drop_last() =~= points.take(i));
        assert(weights.take(i + 1).drop_last() =~= weights.take(i));
    }

    /// Every entry of `points` is an element.
    pub open spec fn members(self, points: Seq<P>) -> bool {
        forall|i: int| 0 <= i < points.len() ==> (self.member)(#[trigger] points[i])
    }

    /// The linear combination `sum of weights[i] * points[i]`, taken from the
    /// left, over the first `points.len()` weights.
    pub open spec fn combine(self, points: Seq<P>, weights: Seq<nat>) -> P
        recommends
            weights.len() == points.len(),
        decreases points.len(),
    {
        if points.len() == 0 {
            self.zero
        } else {
            (self.add)(
                self.combine(points.drop_last(), weights.drop_last()),
                (self.scale)(points.last(), weights.last()),
            )
        }
    }

    /// The elements are closed under the operations.
    pub open spec fn closed(self) -> bool {
        &&& (self.member)(self.zero)
        &&& forall|a: P, b: P|
            (self.member)(a) && (self.member)(b) ==> (self.member)(#[trigger] (self.add)(a, b))
        &&& forall|a: P, k: nat|
            (self.member)(a) && k < scalar_order() ==> (self.member)(
                #[trigger] (self.scale)(a, k),
            )
    }

    /// The addition is commutative and associative, with `zero` neutral.
    pub open spec fn additive(self) -> bool {
        &&& forall|a: P| (self.member)(a) ==> #[trigger] (self.add)(self.zero, a) == a
        &&& forall|a: P, b: P|
            (self.member)(a) && (self.member)(b) ==> #[trigger] (self.add)(a, b) == (self.add)(
                b,
                a,
            )
        &&& forall|a: P, b: P, c: P|
            #![trigger (self.add)((self.add)(a, b), c)]
            #![trigger (self.add)(a, (self.add)(b, c))]
            (self.member)(a) && (self.member)(b) && (self.member)(c) ==> (self.add)(
                (self.add)(a, b),
                c,
            ) == (self.add)(a, (self.add)(b, c))
    }

    /// The scalars act linearly: multiplication distributes over both
    /// additions, follows the product of the field, and sends the zero scalar
    /// and the zero element to `zero`.
    pub open spec fn linear(self) -> bool {
        &&& forall|a: P, j: nat, k: nat|
            (self.member)(a) && j < scalar_order() && k < scalar_order() ==> #[trigger] (self.add)(
                (self.scale)(a, j),
                (self.scale)(a, k),
            ) == (self.scale)(a, (j + k) % scalar_order())
        &&& forall|a: P, b: P, k: nat|
            (self.member)(a) && (self.member)(b) && k < scalar_order() ==> #[trigger] (self.scale)(
                (self.add)(a, b),
                k,
            ) == (self.add)((self.scale)(a, k), (self.scale)(b, k))
        &&& forall|a: P, j: nat, k: nat|
            (self.member)(a) && j < scalar_order() && k < scalar_order() ==> #[trigger] (self.scale)(
                (self.scale)(a, j),
                k,
            ) == (self.scale)(a, (j * k) % scalar_order())
        &&& forall|a: P| (self.member)(a) ==> #[trigger] (self.scale)(a, 0) == self.zero
        &&& forall|k: nat| k < scalar_order() ==> #[trigger] (self.scale)(self.zero, k) == self.zero
    }

    /// The structure is a module over the scalar field.
    pub open spec fn lawful(self) -> bool {
        &&& self.closed()
        &&& self.additive()
        &&& self.linear()
    }

    /// A linear combination of elements is an element.
    pub proof fn lemma_combine_member(self, points: Seq<P>, weights: Seq<nat>)
        requires
            self.closed(),
            self.members(points),
            all_reduced(weights),
            weights.len() == points.len(),
        ensures
            (self.member)(self.combine(points, weights)),
        decreases points.len(),
    {
        if points.len() > 0 {
            self.lemma_combine_member(points.drop_last(), weights.drop_last());
            assert((self.member)(points[points.len() - 1]));
            assert(weights[weights.len() - 1] < scalar_order());
            assert((self.member)((self.scale)(points.last(), weights.last())));
        }
    }

    /// Two sums of two terms each add up termwise.
    pub proof fn lemma_add_interchange(self, a: P, s: P, b: P, t: P)
        requires
            self.lawful(),
            (self.member)(a),
            (self.member)(s),
            (self.member)(b),
            (self.member)(t),
        ensures
            (self.add)((self.add)(a, s), (self.add)(b, t)) == (self.add)(
                (self.add)(a, b),
                (self.add)(s, t),
            ),
    {
        let op = self.add;
        let bt = op(b, t);
        let sb = op(s, b);
        let bs = op(b, s);
        let st = op(s, t);
        assert(op(op(a, s), bt) == op(a, op(s, bt)));
        assert(op(s, bt) == op(sb, t)) by {
            assert(op(op(s, b), t) == op(s, op(b, t)));
        }
        assert(sb == bs);
        assert(op(bs, t) == op(b, st)) by {
            assert(op(op(b, s), t) == op(b, op(s, t)));
        }
        assert(op(a, op(b, st)) == op(op(a, b), st)) by {
            assert(op(op(a, b), st) == op(a, op(b, st)));
        }
    }

    /// A linear combination with zero weights is `zero`.
    pub proof fn lemma_combine_zeros(self, points: Seq<P>, weights: Seq<nat>)
        requires
            self.lawful(),
            self.members(points),
            weights.len() == points.len(),
            forall|j: int| 0 <= j < weights.len() ==> weights[j] == 0,
        ensures
            self.combine(points, weights) == self.zero,
        decreases points.len(),
    {
        if points.len() > 0 {
            self.lemma_combine_zeros(points.drop_last(), weights.drop_last());
            assert((self.member)(points[points.len() - 1]));
            assert(weights[weights.len() - 1] == 0);
            assert((self.scale)(points.last(), 0) == self.zero);
            assert((self.add)(self.zero, self.zero) == self.zero);
        }
    }

    /// Multiplying a linear combination by a scalar multiplies its weights.
    pub proof fn lemma_combine_scaled(self, points: Seq<P>, weights: Seq<nat>, k: nat)
        requires
            self.lawful(),
            self.members(points),
            all_reduced(weights),
            weights.len() == points.len(),
            k < scalar_order(),
        ensures
            (self.scale)(self.combine(points, weights), k) == self.combine(
                points,
                scaled(weights, k),
            ),
        decreases points.len(),
    {
        if points.len() == 0 {
            assert((self.scale)(self.zero, k) == self.zero);
        } else {
            let front = points.drop_last();
            let front_weights = weights.drop_last();
            let p = points.last();
            let w = weights.last();
            self.lemma_combine_scaled(front, front_weights, k);
            self.lemma_combine_member(front, front_weights);
            assert((self.member)(points[points.len() - 1]));
            assert(weights[weights.len() - 1] < scalar_order());
            assert(scaled(weights, k).drop_last() =~= scaled(front_weights, k));
            assert(scaled(weights, k).last() == (w * k) % scalar_order());
            let c = self.combine(front, front_weights);
            let s = (self.scale)(p, w);
            assert((self.member)(s));
            assert((self.scale)((self.add)(c, s), k) == (self.add)(
                (self.scale)(c, k),
                (self.scale)(s, k),
            ));
            assert((self.scale)((self.scale)(p, w), k) == (self.scale)(
                p,
                (w * k) % scalar_order(),
            ));
        }
    }

    /// Adding two linear combinations of the same elements adds their weights.
    pub proof fn lemma_combine_added(self, points: Seq<P>, left: Seq<nat>, right: Seq<nat>)
        requires
            self.lawful(),
            self.members(points),
            all_reduced(left),
            all_reduced(right),
            left.len() == points.len(),
            right.len() == points.len(),
        ensures
            (self.add)(self.combine(points, left), self.combine(points, right)) == self.combine(
                points,
                summed(left, right),
            ),
        decreases points.len(),
    {
        if points.len() == 0 {
            assert((self.add)(self.zero, self.zero) == self.zero);
        } else {
            let front = points.drop_last();
            let p = points.last();
            let u = left.last();
            let v = right.last();
            self.lemma_combine_added(front, left.drop_last(), right.drop_last());
            self.lemma_combine_member(front, left.drop_last());
            self.lemma_combine_member(front, right.drop_last());
            assert((self.member)(points[points.len() - 1]));
            assert(left[left.len() - 1] < scalar_order());
            assert(right[right.len() - 1] < scalar_order());
            assert(summed(left, right).drop_last() =~= summed(left.drop_last(), right.drop_last()));
            assert(summed(left, right).last() == (u + v) % scalar_order());
            let a = self.combine(front, left.drop_last());
            let b = self.combine(front, right.drop_last());
            let s = (self.scale)(p, u);
            let t = (self.scale)(p, v);
            assert((self.member)(s));
            assert((self.member)(t));
            self.lemma_add_interchange(a, s, b, t);
            assert((self.add)((self.scale)(p, u), (self.scale)(p, v)) == (self.scale)(
                p,
                (u + v) % scalar_order(),
            ));
        }
    }

    /// What a blinded commitment to `row` becomes when it is multiplied by `k`
    /// and added to a blinded commitment to `total`: the blinded commitment to
    /// the sum of `total` and `k` times `row`.
    pub proof fn lemma_blinded_step(
        self,
        points: Seq<P>,
        h: P,
        total: Seq<nat>,
        total_blind: nat,
        row: Seq<nat>,
        blind: nat,
        k: nat,
    )
        requires
            self.lawful(),
            self.members(points),
            (self.member)(h),
            all_reduced(total),
            all_reduced(row),
            total.len() == points.len(),
            row.len() == points.len(),
            total_blind < scalar_order(),
            blind < scalar_order(),
            k < scalar_order(),
        ensures
            (self.add)(
                (self.add)(self.combine(points, total), (self.scale)(h, total_blind)),
                (self.scale)((self.add)(self.combine(points, row), (self.scale)(h, blind)), k),
            ) == (self.add)(
                self.combine(points, summed(total, scaled(row, k))),
                (self.scale)(h, (total_blind + (blind * k) % scalar_order()) % scalar_order()),
            ),
    {
        crate::field::lemma_order_positive();
        let q = scalar_order();
        let c = self.combine(points, row);
        let hb = (self.scale)(h, blind);
        self.lemma_combine_member(points, row);
        self.lemma_combine_member(points, total);
        assert((self.member)(hb));
        assert((self.scale)((self.add)(c, hb), k) == (self.add)(
            (self.scale)(c, k),
            (self.scale)(hb, k),
        ));
        self.lemma_combine_scaled(points, row, k);
        assert((self.scale)((self.scale)(h, blind), k) == (self.scale)(h, (blind * k) % q));
        let bk = (blind * k) % q;
        assert(bk < q) by {
            vstd::arithmetic::div_mod::lemma_mod_bound((blind * k) as int, q as int);
        }
        assert(all_reduced(scaled(row, k))) by {
            assert forall|j: int| 0 <= j < row.len() implies #[trigger] scaled(row, k)[j] < q by {
                vstd::arithmetic::div_mod::lemma_mod_bound((row[j] * k) as int, q as int);
            }
        }
        let a = self.combine(points, total);
        let s = (self.scale)(h, total_blind);
        let b = self.combine(points, scaled(row, k));
        let t = (self.scale)(h, bk);
        self.lemma_combine_member(points, scaled(row, k));
        assert((self.member)(s));
        assert((self.member)(t));
        self.lemma_add_interchange(a, s, b, t);
        self.lemma_combine_added(points, total, scaled(row, k));
        assert((self.add)((self.scale)(h, total_blind), (self.scale)(h, bk)) == (self.scale)(
            h,
            (total_blind + bk) % q,
        ));
    }

    /// A module of prime order: beyond the laws, the scalar 1 leaves every
    /// element as it is, and a scalar other than zero sends no element but
    /// `zero` to `zero`.
    #[verifier::opaque]
    pub open spec fn prime_order(self) -> bool {
        &&& self.lawful()
        &&& forall|a: P| (self.member)(a) ==> #[trigger] (self.scale)(a, 1) == a
        &&& forall|a: P, k: nat|
            (self.member)(a) && 0 < k < scalar_order() && #[trigger] (self.scale)(a, k)
                == self.zero ==> a == self.zero
    }

    /// A module of prime order is closed under its operations.
    pub proof fn lemma_prime_order_closed(self)
        requires
            self.prime_order(),
        ensures
            self.closed(),
    {
        reveal(Module::prime_order);
    }

    /// The laws of addition, for given elements.
    pub proof fn lemma_addition(self, a: P, b: P, c: P)
        requires
            self.prime_order(),
            (self.member)(a),
            (self.member)(b),
            (self.member)(c),
        ensures
            (self.add)(self.zero, a) == a,
            (self.add)(a, self.zero) == a,
            (self.add)(a, b) == (self.add)(b, a),
            (self.add)((self.add)(a, b), c) == (self.add)(a, (self.add)(b, c)),
    {
        reveal(Module::prime_order);
        assert((self.add)(a, self.zero) == (self.add)(self.zero, a));
    }

    /// The laws of the multiplication by scalars, for given elements and
    /// scalars.
    pub proof fn lemma_scaling(self, a: P, b: P, j: nat, k: nat)
        requires
            self.prime_order(),
            (self.member)(a),
            (self.member)(b),
            j < scalar_order(),
            k < scalar_order(),
        ensures
            (self.add)((self.scale)(a, j), (self.scale)(a, k)) == (self.scale)(
                a,
                (j + k) % scalar_order(),
            ),
            (self.scale)((self.add)(a, b), k) == (self.add)((self.scale)(a, k), (self.scale)(b, k)),
            (self.scale)((self.scale)(a, j), k) == (self.scale)(a, (j * k) % scalar_order()),
            (self.scale)(a, 0) == self.zero,
            (self.scale)(a, 1) == a,
            k != 0 && (self.scale)(a, k) == self.zero ==> a == self.zero,
    {
        reveal(Module::prime_order);
    }

    /// The element that adds up to `zero` with `a`.
    pub open spec fn negative(self, a: P) -> P {
        (self.scale)(a, (scalar_order() - 1) as nat)
    }

    /// Every element has a negative.
    pub proof fn lemma_negative(self, a: P)
        requires
            self.prime_order(),
            (self.member)(a),
        ensures
            (self.member)(self.negative(a)),
            (self.add)(a, self.negative(a)) == self.zero,
    {
        let q = scalar_order();
        crate::field::lemma_order_positive();
        let top = (q - 1) as nat;
        vstd::arithmetic::div_mod::lemma_mod_self_0(q as int);
        assert((1 + top) % q == 0);
        self.lemma_prime_order_closed();
        self.lemma_scaling(a, a, 1, top);
    }

    /// A common summand on the right can be dropped.
    pub proof fn lemma_cancel_right(self, a: P, b: P, c: P)
        requires
            self.prime_order(),
            (self.member)(a),
            (self.member)(b),
            (self.member)(c),
            (self.add)(a, c) == (self.add)(b, c),
        ensures
            a == b,
    {
        let n = self.negative(c);
        self.lemma_negative(c);
        self.lemma_addition(a, c, n);
        self.lemma_addition(b, c, n);
    }

    /// A common summand on the left can be dropped.
    pub proof fn lemma_cancel_left(self, a: P, b: P, c: P)
        requires
            self.prime_order(),
            (self.member)(a),
            (self.member)(b),
            (self.member)(c),
            (self.add)(c, a) == (self.add)(c, b),
        ensures
            a == b,
    {
        self.lemma_addition(c, a, a);
        self.lemma_addition(c, b, b);
        self.lemma_cancel_right(a, b, c);
    }

    /// An element other than `zero` tells the scalars apart.
    pub proof fn lemma_scalar_injective(self, g: P, j: nat, k: nat)
        requires
            self.prime_order(),
            (self.member)(g),
            g != self.zero,
            j < scalar_order(),
            k < scalar_order(),
            (self.scale)(g, j) == (self.scale)(g, k),
        ensures
            j == k,
    {
        let q = scalar_order();
        crate::field::lemma_order_positive();
        if j != k {
            let back = ((q - k) % (q as int)) as nat;
            lemma_mod_bound(q - k, q as int);
            vstd::arithmetic::div_mod::lemma_mod_self_0(q as int);
            if k == 0 {
                assert(back == 0);
                lemma_small_mod(j, q);
            } else {
                lemma_small_mod((q - k) as nat, q);
                assert(back == q - k);
                if j > k {
                    vstd::arithmetic::div_mod::lemma_mod_add_multiples_vanish(j - k, q as int);
                    lemma_small_mod((j - k) as nat, q);
                } else {
                    lemma_small_mod((j + q - k) as nat, q);
                }
            }
            let d = (j + back) % q;
            assert(d != 0);
            lemma_small_mod(0, q);
            assert(k + back == 0 || k + back == q);
            assert((k + back) % q == 0);
            lemma_mod_bound((j + back) as int, q as int);
            self.lemma_scaling(g, g, j, back);
            self.lemma_scaling(g, g, k, back);
            self.lemma_scaling(g, g, 0, d);
        }
    }

    /// A scalar other than zero tells the elements apart.
    pub proof fn lemma_point_injective(self, a: P, b: P, k: nat)
        requires
            self.prime_order(),
            (self.member)(a),
            (self.member)(b),
            0 < k < scalar_order(),
            (self.scale)(a, k) == (self.scale)(b, k),
        ensures
            a == b,
    {
        let q = scalar_order();
        let top = (q - 1) as nat;
        let nb = self.negative(b);
        self.lemma_prime_order_closed();
        self.lemma_negative(b);
        let s = (self.add)(a, nb);
        let ak = (self.scale)(a, k);
        self.lemma_negative(ak);
        // (a - b) k = a k - b k = zero
        self.lemma_scaling(a, nb, 0, k);
        self.lemma_scaling(b, b, top, k);
        self.lemma_scaling(b, b, k, top);
        assert(top * k == k * top) by (nonlinear_arith);
        assert((self.scale)(s, k) == self.zero);
        self.lemma_scaling(s, s, 0, k);
        assert(s == self.zero);
        // a = a + (-b + b) = (a - b) + b = b
        self.lemma_addition(a, nb, b);
        self.lemma_addition(nb, b, b);
        self.lemma_addition(b, nb, b);
    }

    /// If two linear combinations that differ in one term alone are equal, so
    /// are the two terms.
    pub proof fn lemma_combine_differs_at(
        self,
        points: Seq<P>,
        weights: Seq<nat>,
        other_points: Seq<P>,
        other_weights: Seq<nat>,
        i: int,
    )
        requires
            self.prime_order(),
            self.members(points),
            self.members(other_points),
            all_reduced(weights),
            all_reduced(other_weights),
            weights.len() == points.len(),
            other_points.len() == points.len(),
            other_weights.len() == points.len(),
            0 <= i < points.len(),
            forall|k: int|
                0 <= k < points.len() && k != i ==> #[trigger] other_points[k] == points[k],
            forall|k: int|
                0 <= k < points.len() && k != i ==> #[trigger] other_weights[k] == weights[k],
            self.combine(other_points, other_weights) == self.combine(points, weights),
        ensures
            (self.scale)(other_points[i], other_weights[i]) == (self.scale)(points[i], weights[i]),
        decreases points.len(),
    {
        let last = points.len() - 1;
        let front = self.combine(points.drop_last(), weights.drop_last());
        let other_front = self.combine(other_points.drop_last(), other_weights.drop_last());
        let term = (self.scale)(points.last(), weights.last());
        let other_term = (self.scale)(other_points.last(), other_weights.last());
        self.lemma_prime_order_closed();
        assert((self.member)(points[last]));
        assert((self.member)(other_points[last]));
        assert(weights[last] < scalar_order());
        assert(other_weights[last] < scalar_order());
        assert((self.member)(term));
        assert((self.member)(other_term));
        assert(self.members(points.drop_last()));
        assert(self.members(other_points.drop_last()));
        self.lemma_combine_member(points.drop_last(), weights.drop_last());
        self.lemma_combine_member(other_points.drop_last(), other_weights.drop_last());
        if i == last {
            assert(other_points.drop_last() =~= points.drop_last());
            assert(other_weights.drop_last() =~= weights.drop_last());
            self.lemma_cancel_left(other_term, term, front);
        } else {
            assert(other_points[last] == points[last]);
            assert(other_weights[last] == weights[last]);
            self.lemma_cancel_right(other_front, front, term);
            self.lemma_combine_differs_at(
                points.drop_last(),
                weights.drop_last(),
                other_points.drop_last(),
                other_weights.drop_last(),
                i,
            );
        }
    }
}

/// The scalar field acting on itself: the smallest structure that the laws
/// hold in.
pub open spec fn field_module() -> Module<nat> {
    Module {
        member: |a: nat| a < scalar_order(),
        zero: 0,
        add: |a: nat, b: nat| (a + b) % scalar_order(),
        scale: |a: nat, k: nat| (a * k) % scalar_order(),
    }
}

/// The laws can be met: the scalar field is a module over itself.
pub proof fn lemma_field_module_lawful()
    ensures
        field_module().lawful(),
{
    let m = field_module();
    let q = scalar_order();
    let qi = q as int;
    crate::field::lemma_order_positive();
    assert(m.closed()) by {
        assert forall|a: nat, b: nat| (m.member)(a) && (m.member)(b) implies (m.member)(
            #[trigger] (m.add)(a, b),
        ) by {
            lemma_mod_bound((a + b) as int, qi);
        }
        assert forall|a: nat, k: nat| (m.member)(a) && k < q implies (m.member)(
            #[trigger] (m.scale)(a, k),
        ) by {
            lemma_mod_bound((a * k) as int, qi);
        }
    }
    assert(m.additive()) by {
        assert forall|a: nat| (m.member)(a) implies #[trigger] (m.add)(m.zero, a) == a by {
            lemma_small_mod(a, q);
        }
        assert forall|a: nat, b: nat, c: nat|
            #![trigger (m.add)((m.add)(a, b), c)]
            #![trigger (m.add)(a, (m.add)(b, c))]
            (m.member)(a) && (m.member)(b) && (m.member)(c) implies (m.add)((m.add)(a, b), c)
            == (m.add)(a, (m.add)(b, c)) by {
            lemma_add_mod_noop((a + b) as int, c as int, qi);
            lemma_add_mod_noop(a as int, (b + c) as int, qi);
            lemma_small_mod(a, q);
            lemma_small_mod(c, q);
        }
    }
    assert(m.linear()) by {
        assert forall|a: nat, j: nat, k: nat| (m.member)(a) && j < q && k < q implies #[trigger] (
        m.add)((m.scale)(a, j), (m.scale)(a, k)) == (m.scale)(a, (j + k) % q) by {
            lemma_add_mod_noop((a * j) as int, (a * k) as int, qi);
            lemma_mul_mod_noop_right(a as int, (j + k) as int, qi);
            assert(a * j + a * k == a * (j + k)) by (nonlinear_arith);
        }
        assert forall|a: nat, b: nat, k: nat|
            (m.member)(a) && (m.member)(b) && k < q implies #[trigger] (m.scale)(
            (m.add)(a, b),
            k,
        ) == (m.add)((m.scale)(a, k), (m.scale)(b, k)) by {
            lemma_mul_mod_noop_left((a + b) as int, k as int, qi);
            lemma_add_mod_noop((a * k) as int, (b * k) as int, qi);
            assert((a + b) * k == a * k + b * k) by (nonlinear_arith);
        }
        assert forall|a: nat, j: nat, k: nat| (m.member)(a) && j < q && k < q implies #[trigger] (
        m.scale)((m.scale)(a, j), k) == (m.scale)(a, (j * k) % q) by {
            lemma_mul_mod_noop_left((a * j) as int, k as int, qi);
            lemma_mul_mod_noop_right(a as int, (j * k) as int, qi);
            assert((a * j) * k == a * (j * k)) by (nonlinear_arith);
        }
        assert forall|a: nat| (m.member)(a) implies #[trigger] (m.scale)(a, 0) == m.zero by {
            assert(a * 0 == 0) by (nonlinear_arith);
            lemma_small_mod(0, q);
        }
        assert forall|k: nat| k < q implies #[trigger] (m.scale)(m.zero, k) == m.zero by {
            assert(0 * k == 0) by (nonlinear_arith);
            lemma_small_mod(0, q);
        }
    }
}

} // verus!
