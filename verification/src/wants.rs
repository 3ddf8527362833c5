//! Filling a want from amounts that have their prices.

use vstd::prelude::*;

verus! {

/// What amounts come to in all.
pub open spec fn offered(a: Seq<(int, int)>) -> int
    decreases a.len(),
{
    if a.len() == 0 {
        0
    } else {
        a.first().1 + offered(a.drop_first())
    }
}

/// How much of a want amounts fill: all of it, or all that there is.
pub open spec fn filled_of_want(a: Seq<(int, int)>, want: int) -> int {
    if want < offered(a) {
        want
    } else {
        offered(a)
    }
}

/// What a want costs that takes the amounts from the front.
pub open spec fn cost_of_want(a: Seq<(int, int)>, want: int) -> int
    decreases a.len(),
{
    if a.len() == 0 || want <= 0 {
        0
    } else if want <= a.first().1 {
        a.first().0 * want
    } else {
        a.first().0 * a.first().1 + cost_of_want(a.drop_first(), want - a.first().1)
    }
}

/// Whether every amount is something.
pub open spec fn all_offer(a: Seq<(int, int)>) -> bool {
    forall|i: int| 0 <= i < a.len() ==> (#[trigger] a[i]).1 > 0
}

/// Whether every price lies between two others.
pub open spec fn prices_within(a: Seq<(int, int)>, low: int, high: int) -> bool {
    forall|i: int| 0 <= i < a.len() ==> low <= (#[trigger] a[i]).0 <= high
}

/// Whether no price is below one before it.
pub open spec fn prices_rise(a: Seq<(int, int)>) -> bool {
    forall|i: int, j: int| 0 <= i < j < a.len() ==> (#[trigger] a[i]).0 <= (#[trigger] a[j]).0
}

/// Whether no price is above one before it.
pub open spec fn prices_fall(a: Seq<(int, int)>) -> bool {
    forall|i: int, j: int| 0 <= i < j < a.len() ==> (#[trigger] a[i]).0 >= (#[trigger] a[j]).0
}

/// What the amounts behind the first have of the whole list.
pub proof fn lemma_amounts_rest(a: Seq<(int, int)>)
    requires
        a.len() > 0,
        all_offer(a),
    ensures
        all_offer(a.drop_first()),
        a.first().1 > 0,
        prices_rise(a) ==> prices_rise(a.drop_first()),
        forall|low: int, high: int| #[trigger]
            prices_within(a, low, high) ==> prices_within(a.drop_first(), low, high) && low
                <= a.first().0 <= high,
        offered(a.drop_first()) >= 0,
    decreases a.len(),
{
    let rest = a.drop_first();
    assert(a.first() == a[0]);
    assert forall|i: int| 0 <= i < rest.len() implies (#[trigger] rest[i]).1 > 0 by {
        assert(rest[i] == a[i + 1]);
    }
    if prices_rise(a) {
        assert forall|i: int, j: int| 0 <= i < j < rest.len() implies (#[trigger] rest[i]).0 <= (
        #[trigger] rest[j]).0 by {
            assert(rest[i] == a[i + 1] && rest[j] == a[j + 1]);
        }
    }
    assert forall|low: int, high: int| #[trigger] prices_within(a, low, high) implies prices_within(
        rest,
        low,
        high,
    ) && low <= a.first().0 <= high by {
        assert forall|i: int| 0 <= i < rest.len() implies low <= (#[trigger] rest[i]).0 <= high by {
            assert(rest[i] == a[i + 1]);
        }
    }
    if rest.len() > 0 {
        lemma_amounts_rest(rest);
    }
}

/// The cost of a want lies between what it would cost at the lowest and at the highest price.
pub proof fn lemma_cost_within(a: Seq<(int, int)>, want: int, low: int, high: int)
    requires
        all_offer(a),
        prices_within(a, low, high),
        want >= 0,
    ensures
        low * filled_of_want(a, want) <= cost_of_want(a, want) <= high * filled_of_want(a, want),
        filled_of_want(a, want) >= 0,
    decreases a.len(),
{
    if a.len() == 0 || want == 0 {
        if a.len() > 0 {
            lemma_amounts_rest(a);
        }
        assert(filled_of_want(a, want) == 0);
        assert(low * 0 == 0 && high * 0 == 0);
    } else {
        lemma_amounts_rest(a);
        let (p, q) = a.first();
        let f = if want <= q { want } else { q };
        assert(low * f <= p * f <= high * f) by (nonlinear_arith)
            requires
                low <= p <= high,
                f >= 0,
        ;
        if want > q {
            let rest = a.drop_first();
            lemma_cost_within(rest, want - q, low, high);
            let g = filled_of_want(rest, want - q);
            assert(filled_of_want(a, want) == q + g);
            assert(low * (q + g) == low * q + low * g) by (nonlinear_arith);
            assert(high * (q + g) == high * q + high * g) by (nonlinear_arith);
        } else {
            assert(filled_of_want(a, want) == want);
        }
    }
}

/// A larger want costs at least the lowest price more for each unit that it is filled more.
pub proof fn lemma_cost_of_more(a: Seq<(int, int)>, less: int, more: int, low: int, high: int)
    requires
        all_offer(a),
        prices_within(a, low, high),
        0 <= less <= more,
    ensures
        filled_of_want(a, less) <= filled_of_want(a, more),
        cost_of_want(a, more) - cost_of_want(a, less) >= low * (filled_of_want(a, more)
            - filled_of_want(a, less)),
    decreases a.len(),
{
    if a.len() > 0 {
        lemma_amounts_rest(a);
        let (p, q) = a.first();
        let rest = a.drop_first();
        let (f1, f2) = (filled_of_want(a, less), filled_of_want(a, more));
        if more <= q {
            assert(p * more - p * less >= low * (more - less)) by (nonlinear_arith)
                requires
                    low <= p,
                    less <= more,
            ;
            assert(p * 0 == 0);
        } else if less <= q {
            lemma_cost_within(rest, more - q, low, high);
            let g = filled_of_want(rest, more - q);
            assert(f2 == q + g && f1 == less);
            assert(p * q - p * less >= low * (q - less)) by (nonlinear_arith)
                requires
                    low <= p,
                    less <= q,
            ;
            assert(low * (q + g - less) == low * (q - less) + low * g) by (nonlinear_arith);
            assert(p * 0 == 0);
        } else {
            lemma_cost_of_more(rest, less - q, more - q, low, high);
            lemma_cost_within(rest, less - q, low, high);
        }
    } else {
        assert(low * 0 == 0);
    }
}

proof fn lemma_expand(a: int, b: int, c: int, d: int)
    ensures
        (a + b) * (c + d) == a * c + a * d + b * c + b * d,
{
    assert((a + b) * (c + d) == a * (c + d) + b * (c + d)) by (nonlinear_arith);
    assert(a * (c + d) == a * c + a * d) by (nonlinear_arith);
    assert(b * (c + d) == b * c + b * d) by (nonlinear_arith);
}

/// Where prices rise, a larger want is no cheaper on average.
pub proof fn lemma_average_rises(a: Seq<(int, int)>, less: int, more: int, high: int)
    requires
        all_offer(a),
        prices_rise(a),
        a.len() > 0 ==> prices_within(a, a.first().0, high),
        0 < less <= more,
    ensures
        cost_of_want(a, less) * filled_of_want(a, more) <= cost_of_want(a, more) * filled_of_want(
            a,
            less,
        ),
    decreases a.len(),
{
    if a.len() > 0 {
        lemma_amounts_rest(a);
        let (p, q) = a.first();
        let rest = a.drop_first();
        let (f1, f2) = (filled_of_want(a, less), filled_of_want(a, more));
        let (c1, c2) = (cost_of_want(a, less), cost_of_want(a, more));
        lemma_cost_within(a, more, p, high);
        if less <= q {
            assert(f1 == less && c1 == p * less);
            assert((p * less) * f2 <= c2 * less) by (nonlinear_arith)
                requires
                    p * f2 <= c2,
                    less > 0,
            ;
        } else {
            assert(prices_within(rest, p, high));
            if rest.len() > 0 {
                assert(rest.first() == a[1]);
                assert forall|i: int| 0 <= i < rest.len() implies rest.first().0 <= (
                #[trigger] rest[i]).0 <= high by {
                    assert(rest[i] == a[i + 1]);
                    if i > 0 {
                        assert(a[1].0 <= a[i + 1].0);
                    }
                }
            }
            lemma_average_rises(rest, less - q, more - q, high);
            lemma_cost_of_more(rest, less - q, more - q, p, high);
            lemma_cost_within(rest, less - q, p, high);
            let (g1, g2) = (filled_of_want(rest, less - q), filled_of_want(rest, more - q));
            let (d1, d2) = (cost_of_want(rest, less - q), cost_of_want(rest, more - q));
            assert(f1 == q + g1 && f2 == q + g2);
            let spare = (d2 - d1) - p * (g2 - g1);
            assert(q * spare >= 0) by (nonlinear_arith)
                requires
                    spare >= 0,
                    q > 0,
            ;
            let k = p * q;
            lemma_expand(k, d2, q, g1);
            lemma_expand(k, d1, q, g2);
            let h = g2 - g1;
            assert(q * (p * h) == k * h) by (nonlinear_arith)
                requires
                    k == p * q,
            ;
            assert(k * h == k * g2 - k * g1) by (nonlinear_arith)
                requires
                    h == g2 - g1,
            ;
            let e = p * h;
            assert(q * (d2 - d1 - e) == q * d2 - q * d1 - q * e) by (nonlinear_arith);
            assert(q * d2 == d2 * q && q * d1 == d1 * q) by (nonlinear_arith);
        }
    } else {
        assert(cost_of_want(a, less) == 0);
        assert(0 * filled_of_want(a, more) == 0);
        assert(cost_of_want(a, more) == 0);
        assert(0 * filled_of_want(a, less) == 0);
    }
}

/// The same quantities at the opposite prices.
spec fn mirrored(a: Seq<(int, int)>) -> Seq<(int, int)> {
    a.map_values(|x: (int, int)| (-x.0, x.1))
}

proof fn lemma_mirrored(a: Seq<(int, int)>, want: int)
    ensures
        offered(mirrored(a)) == offered(a),
        cost_of_want(mirrored(a), want) == -cost_of_want(a, want),
    decreases a.len(),
{
    if a.len() > 0 {
        let (p, q) = a.first();
        assert(mirrored(a).drop_first() =~= mirrored(a.drop_first()));
        lemma_mirrored(a.drop_first(), want - q);
        assert((-p) * want == -(p * want)) by (nonlinear_arith);
        assert((-p) * q == -(p * q)) by (nonlinear_arith);
    }
}

/// Where prices fall, a larger want brings no more on average.
pub proof fn lemma_average_falls(a: Seq<(int, int)>, less: int, more: int, low: int)
    requires
        all_offer(a),
        prices_fall(a),
        a.len() > 0 ==> prices_within(a, low, a.first().0),
        0 < less <= more,
    ensures
        cost_of_want(a, less) * filled_of_want(a, more) >= cost_of_want(a, more) * filled_of_want(
            a,
            less,
        ),
{
    let m = mirrored(a);
    lemma_mirrored_order(a, low);
    lemma_average_rises(m, less, more, -low);
    lemma_mirrored(a, less);
    lemma_mirrored(a, more);
    let (c1, c2) = (cost_of_want(a, less), cost_of_want(a, more));
    let (f1, f2) = (filled_of_want(a, less), filled_of_want(a, more));
    assert(c1 * f2 >= c2 * f1) by (nonlinear_arith)
        requires
            (-c1) * f2 <= (-c2) * f1,
    ;
}

/// Prices that are ordered lie between the first and some other.
pub proof fn lemma_bounds(a: Seq<(int, int)>) -> (bounds: (int, int))
    requires
        a.len() > 0,
    ensures
        prices_within(a, bounds.0, bounds.1),
        prices_rise(a) ==> bounds.0 == a.first().0,
        prices_fall(a) ==> bounds.1 == a.first().0,
{
    let last = a.last().0;
    if prices_rise(a) && prices_fall(a) {
        assert forall|i: int| 0 <= i < a.len() implies a.first().0 <= (#[trigger] a[i]).0
            <= a.first().0 by {
            if i > 0 {
                assert(a[0].0 <= a[i].0);
                assert(a[0].0 >= a[i].0);
            }
        }
        (a.first().0, a.first().0)
    } else if prices_rise(a) {
        assert forall|i: int| 0 <= i < a.len() implies a.first().0 <= (#[trigger] a[i]).0
            <= last by {
            if i > 0 {
                assert(a[0].0 <= a[i].0);
            }
            if i < a.len() - 1 {
                assert(a[i].0 <= a[a.len() - 1].0);
            }
        }
        (a.first().0, last)
    } else if prices_fall(a) {
        assert forall|i: int| 0 <= i < a.len() implies last <= (#[trigger] a[i]).0
            <= a.first().0 by {
            if i > 0 {
                assert(a[0].0 >= a[i].0);
            }
            if i < a.len() - 1 {
                assert(a[i].0 >= a[a.len() - 1].0);
            }
        }
        (last, a.first().0)
    } else {
        lemma_some_bounds(a)
    }
}

proof fn lemma_some_bounds(a: Seq<(int, int)>) -> (bounds: (int, int))
    ensures
        prices_within(a, bounds.0, bounds.1),
    decreases a.len(),
{
    if a.len() == 0 {
        (0, 0)
    } else {
        let rest = a.drop_last();
        let (low, high) = lemma_some_bounds(rest);
        let p = a.last().0;
        let l = if p < low { p } else { low };
        let h = if p > high { p } else { high };
        assert forall|i: int| 0 <= i < a.len() implies l <= (#[trigger] a[i]).0 <= h by {
            if i < rest.len() {
                assert(rest[i] == a[i]);
            }
        }
        (l, h)
    }
}

/// The quantities of a choice, added up.
pub open spec fn chosen(choice: Seq<int>) -> int
    decreases choice.len(),
{
    if choice.len() == 0 {
        0
    } else {
        choice.first() + chosen(choice.drop_first())
    }
}

/// What a choice costs that takes a quantity of each amount.
pub open spec fn cost_of_choice(a: Seq<(int, int)>, choice: Seq<int>) -> int
    decreases a.len(),
{
    if a.len() == 0 || choice.len() == 0 {
        0
    } else {
        a.first().0 * choice.first() + cost_of_choice(a.drop_first(), choice.drop_first())
    }
}

/// Whether a choice takes of each amount no less than nothing and no more than there is.
pub open spec fn can_choose(a: Seq<(int, int)>, choice: Seq<int>) -> bool {
    &&& choice.len() == a.len()
    &&& forall|i: int| 0 <= i < a.len() ==> 0 <= #[trigger] choice[i] <= a[i].1
}

/// A choice behind its first quantity.
proof fn lemma_choice_rest(a: Seq<(int, int)>, choice: Seq<int>)
    requires
        a.len() > 0,
        all_offer(a),
        can_choose(a, choice),
    ensures
        can_choose(a.drop_first(), choice.drop_first()),
        0 <= choice.first() <= a.first().1,
        0 <= chosen(choice.drop_first()) <= offered(a.drop_first()),
    decreases a.len(),
{
    let (b, c) = (a.drop_first(), choice.drop_first());
    assert(choice.first() == choice[0]);
    lemma_amounts_rest(a);
    assert forall|i: int| 0 <= i < b.len() implies 0 <= #[trigger] c[i] <= b[i].1 by {
        assert(c[i] == choice[i + 1]);
    }
    if b.len() > 0 {
        lemma_choice_rest(b, c);
    }
}

/// Where prices rise, taking the amounts from the front is the cheapest choice.
pub proof fn lemma_front_is_cheapest(a: Seq<(int, int)>, choice: Seq<int>, high: int)
    requires
        all_offer(a),
        prices_rise(a),
        a.len() > 0 ==> prices_within(a, a.first().0, high),
        can_choose(a, choice),
    ensures
        cost_of_want(a, chosen(choice)) <= cost_of_choice(a, choice),
    decreases a.len(),
{
    if a.len() > 0 {
        lemma_amounts_rest(a);
        lemma_choice_rest(a, choice);
        let (p, q) = a.first();
        let (b, c) = (a.drop_first(), choice.drop_first());
        let (x, y) = (choice.first(), chosen(c));
        if b.len() > 0 {
            assert(b.first() == a[1]);
            assert forall|i: int| 0 <= i < b.len() implies b.first().0 <= (#[trigger] b[i]).0
                <= high by {
                assert(b[i] == a[i + 1]);
                if i > 0 {
                    assert(a[1].0 <= a[i + 1].0);
                }
            }
        }
        lemma_front_is_cheapest(b, c, high);
        assert(prices_within(b, p, high));
        if x + y <= q {
            lemma_cost_within(b, y, p, high);
            assert(p * (x + y) == p * x + p * y) by (nonlinear_arith);
            assert(p * 0 == 0);
            if x + y <= 0 {
                assert(x == 0 && y == 0);
            }
        } else {
            lemma_cost_of_more(b, x + y - q, y, p, high);
            assert(p * (y - (x + y - q)) == p * q - p * x) by (nonlinear_arith);
        }
    }
}

/// Where prices fall, taking the amounts from the front is the dearest choice.
pub proof fn lemma_front_is_dearest(a: Seq<(int, int)>, choice: Seq<int>, low: int)
    requires
        all_offer(a),
        prices_fall(a),
        a.len() > 0 ==> prices_within(a, low, a.first().0),
        can_choose(a, choice),
    ensures
        cost_of_want(a, chosen(choice)) >= cost_of_choice(a, choice),
{
    let m = mirrored(a);
    lemma_mirrored_order(a, low);
    assert(can_choose(m, choice)) by {
        assert forall|i: int| 0 <= i < m.len() implies 0 <= #[trigger] choice[i] <= m[i].1 by {
            assert(choice[i] <= a[i].1);
        }
    }
    lemma_front_is_cheapest(m, choice, -low);
    lemma_mirrored(a, chosen(choice));
    lemma_mirrored_choice(a, choice);
}

proof fn lemma_mirrored_choice(a: Seq<(int, int)>, choice: Seq<int>)
    ensures
        cost_of_choice(mirrored(a), choice) == -cost_of_choice(a, choice),
    decreases a.len(),
{
    if a.len() > 0 && choice.len() > 0 {
        let (p, x) = (a.first().0, choice.first());
        assert(mirrored(a).drop_first() =~= mirrored(a.drop_first()));
        lemma_mirrored_choice(a.drop_first(), choice.drop_first());
        assert((-p) * x == -(p * x)) by (nonlinear_arith);
    }
}

/// Prices that fall rise when they are mirrored.
proof fn lemma_mirrored_order(a: Seq<(int, int)>, low: int)
    requires
        all_offer(a),
        prices_fall(a),
        a.len() > 0 ==> prices_within(a, low, a.first().0),
    ensures
        all_offer(mirrored(a)),
        prices_rise(mirrored(a)),
        a.len() > 0 ==> prices_within(mirrored(a), mirrored(a).first().0, -low),
{
    let m = mirrored(a);
    assert forall|i: int| 0 <= i < m.len() implies (#[trigger] m[i]).1 > 0 by {
        assert(a[i].1 > 0);
    }
    assert forall|i: int, j: int| 0 <= i < j < m.len() implies (#[trigger] m[i]).0 <= (
    #[trigger] m[j]).0 by {
        assert(a[i].0 >= a[j].0);
    }
    if a.len() > 0 {
        assert forall|i: int| 0 <= i < m.len() implies m.first().0 <= (#[trigger] m[i]).0
            <= -low by {
            assert(low <= a[i].0 <= a.first().0);
        }
    }
}

} // verus!
