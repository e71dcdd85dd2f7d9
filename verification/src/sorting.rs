//! A stable sort of numbers.

use crate::double::{lemma_value_identifies, Double};
use vstd::prelude::*;

verus! {

/// Whether the values of `s` never fall.
pub open spec fn is_sorted(s: Seq<Double>) -> bool {
    forall|i: int, j: int| 0 <= i <= j < s.len() ==> s[i].value() <= s[j].value()
}

/// The items of `s` whose value is `k`, in their order.
pub open spec fn with_value(s: Seq<Double>, k: int) -> Seq<Double> {
    s.filter(|d: Double| d.value() == k)
}

/// Whether `t` is `s`, stably sorted: the values of `t` never fall, and the items
/// of each value are those of `s`, in the order in which `s` has them.
pub open spec fn is_stable_sort(s: Seq<Double>, t: Seq<Double>) -> bool {
    &&& is_sorted(t)
    &&& forall|k: int| #[trigger] with_value(t, k) == with_value(s, k)
}

/// Whether no item of `s` is a NaN.
pub open spec fn all_numbers(s: Seq<Double>) -> bool {
    forall|i: int| 0 <= i < s.len() ==> !(#[trigger] s[i]).nan()
}

/// There is at most one stable sort of a sequence.
pub proof fn lemma_stable_sort_unique(s: Seq<Double>, t: Seq<Double>, u: Seq<Double>)
    requires
        is_stable_sort(s, t),
        is_stable_sort(s, u),
    ensures
        t == u,
{
    assert forall|k: int| #[trigger] with_value(t, k) == with_value(u, k) by {
        assert(with_value(u, k) == with_value(s, k));
    }
    lemma_sorted_equal(t, u);
}

/// A stable sort has the items of the sequence it sorts, each as often.
pub proof fn lemma_stable_sort_permutes(s: Seq<Double>, t: Seq<Double>)
    requires
        is_stable_sort(s, t),
    ensures
        t.to_multiset() == s.to_multiset(),
        t.len() == s.len(),
{
    assert forall|d: Double|
        #![trigger s.to_multiset().count(d)]
        #![trigger t.to_multiset().count(d)]
        s.to_multiset().count(d) == t.to_multiset().count(d) by {
        lemma_filter_count(s, |e: Double| e.value() == d.value(), d);
        lemma_filter_count(t, |e: Double| e.value() == d.value(), d);
        assert(with_value(t, d.value()) == with_value(s, d.value()));
    }
    assert(s.to_multiset() =~= t.to_multiset());
    s.to_multiset_ensures();
    t.to_multiset_ensures();
}

/// An item that is kept occurs as often among what is kept as in the whole.
pub proof fn lemma_filter_count(s: Seq<Double>, p: spec_fn(Double) -> bool, d: Double)
    ensures
        s.filter(p).to_multiset().count(d) == (if p(d) {
            s.to_multiset().count(d)
        } else {
            0
        }),
    decreases s.len(),
{
    broadcast use vstd::seq_lib::group_to_multiset_ensures;

    reveal(Seq::filter);
    if s.len() == 0 {
        assert(s =~= Seq::empty());
    } else {
        let rest = s.drop_last();
        lemma_filter_count(rest, p, d);
        assert(s =~= rest.push(s.last()));
    }
}

/// What is kept of two permutations of each other are permutations of each other.
pub proof fn lemma_filter_permutes(
    s: Seq<Double>,
    t: Seq<Double>,
    p: spec_fn(Double) -> bool,
)
    requires
        s.to_multiset() == t.to_multiset(),
    ensures
        s.filter(p).to_multiset() == t.filter(p).to_multiset(),
        s.filter(p).len() == t.filter(p).len(),
{
    assert forall|d: Double|
        #![trigger s.filter(p).to_multiset().count(d)]
        #![trigger t.filter(p).to_multiset().count(d)]
        s.filter(p).to_multiset().count(d) == t.filter(p).to_multiset().count(d) by {
        lemma_filter_count(s, p, d);
        lemma_filter_count(t, p, d);
    }
    assert(s.filter(p).to_multiset() =~= t.filter(p).to_multiset());
    s.filter(p).to_multiset_ensures();
    t.filter(p).to_multiset_ensures();
}

/// Two sorted sequences with as many items of each value have the same values.
proof fn lemma_sorted_same_values(t: Seq<Double>, u: Seq<Double>)
    requires
        is_sorted(t),
        is_sorted(u),
        forall|k: int| #[trigger] with_value(t, k).len() == with_value(u, k).len(),
    ensures
        t.len() == u.len(),
        forall|i: int| 0 <= i < t.len() ==> (#[trigger] t[i]).value() == u[i].value(),
    decreases t.len(),
{
    if t.len() == 0 {
        if u.len() > 0 {
            let k = u[0].value();
            assert(with_value(t, k).len() == with_value(u, k).len());
            lemma_with_value_first(u);
            lemma_with_value_member(t, k);
        }
    } else {
        let k = t[0].value();
        lemma_with_value_first(t);
        assert(with_value(t, k).len() == with_value(u, k).len());
        lemma_with_value_member(u, k);
        let m = u[0].value();
        lemma_with_value_first(u);
        assert(with_value(t, m).len() == with_value(u, m).len());
        lemma_with_value_member(t, m);
        assert(k == m);
        let t1 = t.drop_first();
        let u1 = u.drop_first();
        assert forall|j: int| #[trigger] with_value(t1, j).len() == with_value(u1, j).len() by {
            assert(with_value(t, j).len() == with_value(u, j).len());
            lemma_with_value_prepend(t, j);
            lemma_with_value_prepend(u, j);
        }
        lemma_sorted_same_values(t1, u1);
        assert forall|i: int| 0 <= i < t.len() implies (#[trigger] t[i]).value()
            == u[i].value() by {
            if i > 0 {
                assert(t1[i - 1].value() == u1[i - 1].value());
            }
        }
    }
}

/// An ascending permutation of a sequence has the values of its sort, place by place.
pub proof fn lemma_sort_same_values(s: Seq<Double>, t: Seq<Double>, sorted: Seq<Double>)
    requires
        s.to_multiset() == t.to_multiset(),
        forall|i: int, j: int|
            0 <= i <= j < t.len() ==> (#[trigger] t[i]).value() <= (#[trigger] t[j]).value(),
        is_stable_sort(s, sorted),
    ensures
        t.len() == sorted.len(),
        forall|i: int| 0 <= i < t.len() ==> (#[trigger] t[i]).value() == sorted[i].value(),
{
    assert(is_sorted(t));
    assert forall|k: int| #[trigger] with_value(t, k).len() == with_value(sorted, k).len() by {
        assert(with_value(sorted, k) == with_value(s, k));
        lemma_filter_permutes(s, t, |d: Double| d.value() == k);
    }
    lemma_sorted_same_values(t, sorted);
}

/// The order of the items does not matter to a sort: of two permutations of each other
/// the sorts have equal numbers at each place.
pub proof fn lemma_sort_ignores_order(
    s: Seq<Double>,
    s2: Seq<Double>,
    t: Seq<Double>,
    t2: Seq<Double>,
)
    requires
        all_numbers(s),
        s.to_multiset() == s2.to_multiset(),
        is_stable_sort(s, t),
        is_stable_sort(s2, t2),
    ensures
        t.len() == t2.len(),
        forall|i: int| 0 <= i < t.len() ==> (#[trigger] t[i]).same_number(t2[i]),
{
    assert forall|k: int| #[trigger] with_value(t, k).len() == with_value(t2, k).len() by {
        assert(with_value(t, k) == with_value(s, k));
        assert(with_value(t2, k) == with_value(s2, k));
        lemma_filter_permutes(s, s2, |d: Double| d.value() == k);
    }
    lemma_sorted_same_values(t, t2);
    lemma_stable_sort_permutes(s, t);
    lemma_stable_sort_permutes(s2, t2);
    lemma_all_numbers_permutes(s, t);
    lemma_all_numbers_permutes(s, t2);
    assert forall|i: int| 0 <= i < t.len() implies (#[trigger] t[i]).same_number(t2[i]) by {
        lemma_value_identifies(t[i], t2[i]);
    }
}

/// Whether the items of `s2` have `k / m` times the values of those of `s`.
pub open spec fn are_scaled(s: Seq<Double>, s2: Seq<Double>, k: int, m: int) -> bool {
    &&& s.len() == s2.len()
    &&& forall|i: int| 0 <= i < s.len() ==> is_scaled(#[trigger] s[i], s2[i], k, m)
}

/// Whether `b` has `k / m` times the value of `a`.
pub open spec fn is_scaled(a: Double, b: Double, k: int, m: int) -> bool {
    is_ratio(a.value(), b.value(), k, m)
}

/// Whether `y` is `k / m` times `x`.
pub open spec fn is_ratio(x: int, y: int, k: int, m: int) -> bool {
    m * y == k * x
}

/// Scaling keeps the order, and is one to one.
pub proof fn lemma_ratio_order(x: int, y: int, x2: int, y2: int, k: int, m: int)
    requires
        k > 0,
        m > 0,
        is_ratio(x, y, k, m),
        is_ratio(x2, y2, k, m),
    ensures
        x <= x2 <==> y <= y2,
        x == x2 <==> y == y2,
{
    assert(x <= x2 <==> k * x <= k * x2) by (nonlinear_arith)
        requires
            k > 0,
    ;
    assert(y <= y2 <==> m * y <= m * y2) by (nonlinear_arith)
        requires
            m > 0,
    ;
    assert(x2 <= x <==> k * x2 <= k * x) by (nonlinear_arith)
        requires
            k > 0,
    ;
    assert(y2 <= y <==> m * y2 <= m * y) by (nonlinear_arith)
        requires
            m > 0,
    ;
}

/// Scaled items are as many of the scaled value.
proof fn lemma_with_value_scaled(
    s: Seq<Double>,
    s2: Seq<Double>,
    k: int,
    m: int,
    x: int,
    y: int,
)
    requires
        k > 0,
        m > 0,
        are_scaled(s, s2, k, m),
        is_ratio(x, y, k, m),
    ensures
        with_value(s, x).len() == with_value(s2, y).len(),
    decreases s.len(),
{
    if s.len() == 0 {
        lemma_with_value_none(s, x);
        lemma_with_value_none(s2, y);
    } else {
        let front = s.drop_last();
        let front2 = s2.drop_last();
        assert forall|i: int| 0 <= i < front.len() implies is_scaled(
            #[trigger] front[i],
            front2[i],
            k,
            m,
        ) by {
            assert(is_scaled(s[i], s2[i], k, m));
        }
        lemma_with_value_scaled(front, front2, k, m, x, y);
        lemma_with_value_push(front, s.last(), x);
        lemma_with_value_push(front2, s2.last(), y);
        assert(front.push(s.last()) =~= s);
        assert(front2.push(s2.last()) =~= s2);
        assert(is_scaled(s[s.len() - 1], s2[s.len() - 1], k, m));
        lemma_ratio_order(s.last().value(), s2.last().value(), x, y, k, m);
    }
}

/// Whether the value of each item of `t` has its like, scaled by `k / m`.
spec fn has_scaled(t: Seq<Double>, k: int, m: int) -> bool {
    forall|i: int| 0 <= i < t.len() ==> has_ratio((#[trigger] t[i]).value(), k, m)
}

/// Whether some number is `k / m` times `x`.
spec fn has_ratio(x: int, k: int, m: int) -> bool {
    exists|y: int| #[trigger] is_ratio(x, y, k, m)
}

/// Two sorted sequences with as many items of each value as of the scaled value have
/// scaled items.
proof fn lemma_sorted_scaled(t: Seq<Double>, t2: Seq<Double>, k: int, m: int)
    requires
        k > 0,
        m > 0,
        is_sorted(t),
        is_sorted(t2),
        has_scaled(t, k, m),
        has_scaled(t2, m, k),
        forall|x: int, y: int|
            is_ratio(x, y, k, m) ==> #[trigger] with_value(t, x).len() == #[trigger] with_value(
                t2,
                y,
            ).len(),
    ensures
        are_scaled(t, t2, k, m),
    decreases t.len(),
{
    if t.len() == 0 {
        if t2.len() > 0 {
            let y = t2[0].value();
            assert(has_ratio(t2[0].value(), m, k));
            let x = choose|x: int| #[trigger] is_ratio(t2[0].value(), x, m, k);
            assert(is_ratio(x, y, k, m));
            lemma_with_value_first(t2);
            assert(with_value(t, x).len() == with_value(t2, y).len());
            lemma_with_value_member(t, x);
        }
    } else {
        let a = t[0].value();
        assert(has_ratio(t[0].value(), k, m));
        let b = choose|y: int| #[trigger] is_ratio(t[0].value(), y, k, m);
        lemma_with_value_first(t);
        assert(with_value(t, a).len() == with_value(t2, b).len());
        lemma_with_value_member(t2, b);
        let c = t2[0].value();
        assert(has_ratio(t2[0].value(), m, k));
        let d = choose|x: int| #[trigger] is_ratio(t2[0].value(), x, m, k);
        assert(is_ratio(d, c, k, m));
        lemma_with_value_first(t2);
        assert(with_value(t, d).len() == with_value(t2, c).len());
        lemma_with_value_member(t, d);
        lemma_ratio_order(a, b, d, c, k, m);
        assert(b == c);
        let u = t.drop_first();
        let u2 = t2.drop_first();
        assert forall|i: int| 0 <= i < u.len() implies has_ratio(
            (#[trigger] u[i]).value(),
            k,
            m,
        ) by {
            assert(u[i] == t[i + 1]);
        }
        assert forall|i: int| 0 <= i < u2.len() implies has_ratio(
            (#[trigger] u2[i]).value(),
            m,
            k,
        ) by {
            assert(u2[i] == t2[i + 1]);
        }
        assert forall|x: int, y: int|
            is_ratio(x, y, k, m) implies #[trigger] with_value(u, x).len()
            == #[trigger] with_value(u2, y).len() by {
            assert(with_value(t, x).len() == with_value(t2, y).len());
            lemma_with_value_prepend(t, x);
            lemma_with_value_prepend(t2, y);
            lemma_ratio_order(a, b, x, y, k, m);
        }
        lemma_sorted_scaled(u, u2, k, m);
        assert forall|i: int| 0 <= i < t.len() implies is_scaled(#[trigger] t[i], t2[i], k, m) by {
            if i > 0 {
                assert(is_scaled(u[i - 1], u2[i - 1], k, m));
            }
        }
    }
}

/// The sort of scaled items is the scaled sort.
pub proof fn lemma_sort_scaled(
    s: Seq<Double>,
    s2: Seq<Double>,
    k: int,
    m: int,
    t: Seq<Double>,
    t2: Seq<Double>,
)
    requires
        k > 0,
        m > 0,
        are_scaled(s, s2, k, m),
        is_stable_sort(s, t),
        is_stable_sort(s2, t2),
    ensures
        are_scaled(t, t2, k, m),
{
    lemma_stable_sort_permutes(s, t);
    lemma_stable_sort_permutes(s2, t2);
    s.to_multiset_ensures();
    t.to_multiset_ensures();
    s2.to_multiset_ensures();
    t2.to_multiset_ensures();
    assert forall|i: int| 0 <= i < t.len() implies has_ratio(
        (#[trigger] t[i]).value(),
        k,
        m,
    ) by {
        assert(t.contains(t[i]));
        assert(s.to_multiset().count(t[i]) > 0);
        assert(s.contains(t[i]));
        let j = choose|j: int| 0 <= j < s.len() && s[j] == t[i];
        assert(is_scaled(s[j], s2[j], k, m));
        assert(is_ratio(t[i].value(), s2[j].value(), k, m));
    }
    assert forall|i: int| 0 <= i < t2.len() implies has_ratio(
        (#[trigger] t2[i]).value(),
        m,
        k,
    ) by {
        assert(t2.contains(t2[i]));
        assert(s2.to_multiset().count(t2[i]) > 0);
        assert(s2.contains(t2[i]));
        let j = choose|j: int| 0 <= j < s2.len() && s2[j] == t2[i];
        assert(is_scaled(s[j], s2[j], k, m));
        assert(is_ratio(t2[i].value(), s[j].value(), m, k));
    }
    assert forall|x: int, y: int| is_ratio(x, y, k, m) implies #[trigger] with_value(t, x).len()
        == #[trigger] with_value(t2, y).len() by {
        assert(with_value(t, x) == with_value(s, x));
        assert(with_value(t2, y) == with_value(s2, y));
        lemma_with_value_scaled(s, s2, k, m, x, y);
    }
    lemma_sorted_scaled(t, t2, k, m);
}

/// A permutation of numbers has numbers.
pub proof fn lemma_all_numbers_permutes(s: Seq<Double>, t: Seq<Double>)
    requires
        all_numbers(s),
        s.to_multiset() == t.to_multiset(),
    ensures
        all_numbers(t),
{
    s.to_multiset_ensures();
    t.to_multiset_ensures();
    assert forall|i: int| 0 <= i < t.len() implies !(#[trigger] t[i]).nan() by {
        assert(t.contains(t[i]));
        assert(s.to_multiset().count(t[i]) > 0);
        assert(s.contains(t[i]));
    }
}

/// One high outlier moves nothing but the last place of a sort: where a greatest item
/// of `s` is replaced by a greater `y`, the sort has equal numbers at each other place,
/// and `y` at the last.
pub proof fn lemma_sort_with_outlier(
    s: Seq<Double>,
    at: int,
    y: Double,
    t: Seq<Double>,
    t2: Seq<Double>,
)
    requires
        all_numbers(s),
        0 <= at < s.len(),
        forall|i: int| 0 <= i < s.len() ==> (#[trigger] s[i]).value() <= s[at].value(),
        !y.nan(),
        s[at].value() < y.value(),
        is_stable_sort(s, t),
        is_stable_sort(s.update(at, y), t2),
    ensures
        t.len() == s.len(),
        t2.len() == s.len(),
        t2.last() == y,
        forall|i: int| 0 <= i < s.len() - 1 ==> (#[trigger] t[i]).same_number(t2[i]),
{
    let s2 = s.update(at, y);
    let x = s[at];
    let n = s.len() as int;
    lemma_stable_sort_permutes(s, t);
    lemma_stable_sort_permutes(s2, t2);
    lemma_all_numbers_permutes(s, t);
    assert(all_numbers(s2));
    lemma_all_numbers_permutes(s2, t2);
    s.to_multiset_ensures();
    t.to_multiset_ensures();
    s2.to_multiset_ensures();
    t2.to_multiset_ensures();
    // The last item of the sort of `s` is of the value of `x`.
    assert(s.contains(x));
    assert(t.to_multiset().count(x) > 0);
    assert(t.contains(x));
    assert(t.contains(t.last()));
    assert(s.to_multiset().count(t.last()) > 0);
    assert(s.contains(t.last()));
    assert(t.last().value() == x.value());
    // The last item of the other sort is `y`, the only item of its value.
    assert(s2[at] == y);
    assert(s2.contains(y));
    assert(t2.to_multiset().count(y) > 0);
    assert(t2.contains(y));
    assert(t2.contains(t2.last()));
    assert(s2.to_multiset().count(t2.last()) > 0);
    assert(s2.contains(t2.last()));
    let k = choose|k: int| 0 <= k < s2.len() && s2[k] == t2.last();
    assert(t2.last().value() >= y.value());
    if k != at {
        assert(s2[k] == s[k]);
    }
    assert(t2.last() == y);
    let front = t.drop_last();
    let front2 = t2.drop_last();
    assert(t =~= front.push(t.last()));
    assert(t2 =~= front2.push(y));
    assert forall|q: int| #[trigger] with_value(front, q).len() == with_value(front2, q).len() by {
        assert(with_value(t, q) == with_value(s, q));
        assert(with_value(t2, q) == with_value(s2, q));
        lemma_with_value_push(front, t.last(), q);
        lemma_with_value_push(front2, y, q);
        lemma_with_value_replaced(s, at, y, q);
    }
    lemma_sorted_same_values(front, front2);
    assert forall|i: int| 0 <= i < n - 1 implies (#[trigger] t[i]).same_number(t2[i]) by {
        assert(front[i].value() == front2[i].value());
        lemma_value_identifies(t[i], t2[i]);
    }
}

/// How many items there are of a value where one item is replaced.
proof fn lemma_with_value_replaced(s: Seq<Double>, at: int, y: Double, k: int)
    requires
        0 <= at < s.len(),
    ensures
        with_value(s.update(at, y), k).len() + (if s[at].value() == k {
            1int
        } else {
            0int
        }) == with_value(s, k).len() + (if y.value() == k {
            1int
        } else {
            0int
        }),
{
    let p = |d: Double| d.value() == k;
    let a = s.take(at);
    let b = s.skip(at + 1);
    assert(s =~= a + seq![s[at]] + b);
    assert(s.update(at, y) =~= a + seq![y] + b);
    Seq::filter_distributes_over_add(a + seq![s[at]], b, p);
    Seq::filter_distributes_over_add(a, seq![s[at]], p);
    Seq::filter_distributes_over_add(a + seq![y], b, p);
    Seq::filter_distributes_over_add(a, seq![y], p);
    lemma_with_value_one(s[at], k);
    lemma_with_value_one(y, k);
}

/// Two sorted sequences with the same items of each value are equal.
proof fn lemma_sorted_equal(t: Seq<Double>, u: Seq<Double>)
    requires
        is_sorted(t),
        is_sorted(u),
        forall|k: int| #[trigger] with_value(t, k) == with_value(u, k),
    ensures
        t == u,
    decreases t.len(),
{
    if t.len() == 0 {
        if u.len() > 0 {
            let k = u[0].value();
            assert(with_value(t, k) == with_value(u, k));
            lemma_with_value_first(u);
        }
        assert(t =~= u);
    } else {
        let k = t[0].value();
        lemma_with_value_first(t);
        assert(with_value(t, k) == with_value(u, k));
        lemma_with_value_member(u, k);
        let m = u[0].value();
        lemma_with_value_first(u);
        assert(with_value(t, m) == with_value(u, m));
        lemma_with_value_member(t, m);
        assert(k == m);
        let t1 = t.drop_first();
        let u1 = u.drop_first();
        assert forall|j: int| #[trigger] with_value(t1, j) == with_value(u1, j) by {
            assert(with_value(t, j) == with_value(u, j));
            lemma_with_value_prepend(t, j);
            lemma_with_value_prepend(u, j);
            if j == k {
                assert(with_value(t1, j) =~= with_value(t, j).drop_first());
                assert(with_value(u1, j) =~= with_value(u, j).drop_first());
            }
        }
        lemma_sorted_equal(t1, u1);
        assert(t =~= seq![t[0]] + t1);
        assert(u =~= seq![u[0]] + u1);
    }
}

/// The first item of a sequence heads the items of its value.
proof fn lemma_with_value_first(s: Seq<Double>)
    requires
        s.len() > 0,
    ensures
        with_value(s, s[0].value()).len() > 0,
        with_value(s, s[0].value())[0] == s[0],
{
    lemma_with_value_prepend(s, s[0].value());
}

/// Where some item is of the value `k`, it stands at an index.
proof fn lemma_with_value_member(s: Seq<Double>, k: int)
    requires
        with_value(s, k).len() > 0,
    ensures
        exists|i: int| 0 <= i < s.len() && (#[trigger] s[i]).value() == k,
{
    let p = |d: Double| d.value() == k;
    s.lemma_filter_pred(p, 0);
    s.lemma_filter_contains_rev(p, with_value(s, k)[0]);
}

/// The items of one value, of a sequence taken apart at its first item.
proof fn lemma_with_value_prepend(s: Seq<Double>, k: int)
    requires
        s.len() > 0,
    ensures
        with_value(s, k) == (if s[0].value() == k {
            seq![s[0]] + with_value(s.drop_first(), k)
        } else {
            with_value(s.drop_first(), k)
        }),
{
    let p = |d: Double| d.value() == k;
    assert(s =~= seq![s[0]] + s.drop_first());
    Seq::filter_distributes_over_add(seq![s[0]], s.drop_first(), p);
    lemma_with_value_one(s[0], k);
    assert(with_value(s, k) =~= with_value(seq![s[0]], k) + with_value(s.drop_first(), k));
}

/// The items of one value, of a sequence of one item.
proof fn lemma_with_value_one(d: Double, k: int)
    ensures
        with_value(seq![d], k) == (if d.value() == k {
            seq![d]
        } else {
            Seq::empty()
        }),
{
    let p = |d: Double| d.value() == k;
    reveal(Seq::filter);
    assert(seq![d].drop_last() =~= Seq::empty());
    assert(Seq::<Double>::empty().filter(p) =~= Seq::empty());
    assert(Seq::<Double>::empty().push(d) =~= seq![d]);
}

/// The items of one value, of a sequence that grows by one item.
proof fn lemma_with_value_push(s: Seq<Double>, d: Double, k: int)
    ensures
        with_value(s.push(d), k) == (if d.value() == k {
            with_value(s, k).push(d)
        } else {
            with_value(s, k)
        }),
{
    let p = |d: Double| d.value() == k;
    s.lemma_filter_push(d, p);
}

/// Where no item is of the value `k`, there is nothing to keep.
proof fn lemma_with_value_none(s: Seq<Double>, k: int)
    requires
        forall|i: int| 0 <= i < s.len() ==> (#[trigger] s[i]).value() != k,
    ensures
        with_value(s, k) == Seq::<Double>::empty(),
{
    if with_value(s, k).len() > 0 {
        lemma_with_value_member(s, k);
    }
    assert(with_value(s, k) =~= Seq::empty());
}

/// The stable merge of two sorted sequences: of two items of one value that of
/// `a` comes first.
fn merge(a: &Vec<Double>, b: &Vec<Double>) -> (out: Vec<Double>)
    requires
        is_sorted(a@),
        is_sorted(b@),
        all_numbers(a@),
        all_numbers(b@),
    ensures
        is_stable_sort(a@ + b@, out@),
        all_numbers(out@),
{
    let mut out: Vec<Double> = Vec::new();
    let mut i: usize = 0;
    let mut j: usize = 0;
    proof {
        assert(a@.take(0) =~= Seq::empty());
        assert(b@.take(0) =~= Seq::empty());
    }
    while i < a.len() || j < b.len()
        invariant
            i <= a.len(),
            j <= b.len(),
            is_sorted(a@),
            is_sorted(b@),
            all_numbers(a@),
            all_numbers(b@),
            is_sorted(out@),
            all_numbers(out@),
            forall|p: int, q: int|
                0 <= p < out.len() && i <= q < a.len() ==> (#[trigger] out[p]).value()
                    <= (#[trigger] a[q]).value(),
            forall|p: int, q: int|
                0 <= p < out.len() && j <= q < b.len() ==> (#[trigger] out[p]).value()
                    <= (#[trigger] b[q]).value(),
            forall|p: int, q: int|
                0 <= p < j && i <= q < a.len() ==> (#[trigger] b[p]).value() < (
                #[trigger] a[q]).value(),
            forall|k: int| #[trigger]
                with_value(out@, k) == with_value(a@.take(i as int), k) + with_value(
                    b@.take(j as int),
                    k,
                ),
        decreases (a.len() - i) + (b.len() - j),
    {
        let ghost before = out@;
        if i < a.len() && (j >= b.len() || !b[j].is_below(a[i])) {
            proof {
                assert(a@.take(i + 1) =~= a@.take(i as int).push(a[i as int]));
                assert forall|k: int| #[trigger]
                    with_value(before.push(a[i as int]), k) == with_value(a@.take(i + 1), k)
                        + with_value(b@.take(j as int), k) by {
                    assert(with_value(before, k) == with_value(a@.take(i as int), k) + with_value(
                        b@.take(j as int),
                        k,
                    ));
                    lemma_with_value_push(before, a[i as int], k);
                    lemma_with_value_push(a@.take(i as int), a[i as int], k);
                    if a[i as int].value() == k {
                        lemma_with_value_none(b@.take(j as int), k);
                        assert(with_value(before.push(a[i as int]), k) =~= with_value(
                            a@.take(i + 1),
                            k,
                        ) + with_value(b@.take(j as int), k));
                    }
                }
            }
            out.push(a[i]);
            i = i + 1;
        } else {
            proof {
                assert(b@.take(j + 1) =~= b@.take(j as int).push(b[j as int]));
                assert forall|k: int| #[trigger]
                    with_value(before.push(b[j as int]), k) == with_value(a@.take(i as int), k)
                        + with_value(b@.take(j + 1), k) by {
                    assert(with_value(before, k) == with_value(a@.take(i as int), k) + with_value(
                        b@.take(j as int),
                        k,
                    ));
                    lemma_with_value_push(before, b[j as int], k);
                    lemma_with_value_push(b@.take(j as int), b[j as int], k);
                    assert(with_value(before.push(b[j as int]), k) =~= with_value(
                        a@.take(i as int),
                        k,
                    ) + with_value(b@.take(j + 1), k));
                }
            }
            out.push(b[j]);
            j = j + 1;
        }
    }
    proof {
        assert(a@.take(a.len() as int) =~= a@);
        assert(b@.take(b.len() as int) =~= b@);
        assert forall|k: int| #[trigger] with_value(out@, k) == with_value(a@ + b@, k) by {
            Seq::filter_distributes_over_add(a@, b@, |d: Double| d.value() == k);
        }
    }
    out
}

/// The items of `v` from `lo` up to `hi`, stably sorted.
fn sort_range(v: &[Double], lo: usize, hi: usize) -> (out: Vec<Double>)
    requires
        lo <= hi <= v.len(),
        all_numbers(v@),
    ensures
        is_stable_sort(v@.subrange(lo as int, hi as int), out@),
        all_numbers(out@),
    decreases hi - lo,
{
    if hi - lo <= 1 {
        let mut out: Vec<Double> = Vec::new();
        if lo < hi {
            out.push(v[lo]);
        }
        assert(out@ =~= v@.subrange(lo as int, hi as int));
        return out;
    }
    let mid: usize = lo + (hi - lo) / 2;
    let a = sort_range(v, lo, mid);
    let b = sort_range(v, mid, hi);
    let out = merge(&a, &b);
    proof {
        let left = v@.subrange(lo as int, mid as int);
        let right = v@.subrange(mid as int, hi as int);
        assert(v@.subrange(lo as int, hi as int) =~= left + right);
        assert forall|k: int| #[trigger] with_value(out@, k) == with_value(left + right, k) by {
            let p = |d: Double| d.value() == k;
            assert(with_value(out@, k) == with_value(a@ + b@, k));
            assert(with_value(a@, k) == with_value(left, k));
            assert(with_value(b@, k) == with_value(right, k));
            Seq::filter_distributes_over_add(a@, b@, p);
            Seq::filter_distributes_over_add(left, right, p);
        }
    }
    out
}

/// The numbers of `v`, stably sorted.
pub fn stable_sort(v: &[Double]) -> (out: Vec<Double>)
    requires
        all_numbers(v@),
    ensures
        is_stable_sort(v@, out@),
        all_numbers(out@),
        out.len() == v.len(),
{
    let out = sort_range(v, 0, v.len());
    proof {
        assert(v@.subrange(0, v.len() as int) =~= v@);
        lemma_stable_sort_permutes(v@, out@);
    }
    out
}

} // verus!
