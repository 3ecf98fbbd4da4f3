//! A stable sort that puts the heaviest items first.
use vstd::prelude::*;

verus! {

/// Something that is ordered by a number.
pub trait Weighted: Sized {
    /// The number.
    spec fn weight(self) -> int;
}

/// Something whose number can be computed.
pub trait Weigh: Weighted {
    /// The number.
    fn weigh(&self) -> (w: i128)
        ensures
            w == self.weight(),
    ;
}

/// The first `n` items, or all where there are fewer.
pub open spec fn up_to<T>(s: Seq<T>, n: int) -> Seq<T> {
    if n < s.len() {
        s.take(n)
    } else {
        s
    }
}

/// No item is lighter than one that comes after it.
pub open spec fn descending<T: Weighted>(s: Seq<T>) -> bool {
    forall|i: int, j: int| 0 <= i <= j < s.len() ==> s[i].weight() >= s[j].weight()
}

/// The place of an item of weight `w` among items in descending order: before
/// the first that is not heavier.
pub open spec fn place<T: Weighted>(w: int, s: Seq<T>) -> int
    decreases s.len(),
{
    if s.len() == 0 || s[0].weight() <= w {
        0
    } else {
        1 + place(w, s.skip(1))
    }
}

/// `s` with `x` in its place.
pub open spec fn placed<T: Weighted>(x: T, s: Seq<T>) -> Seq<T> {
    let p = place(x.weight(), s);
    s.take(p) + seq![x] + s.skip(p)
}

/// The items of `s` from the heaviest to the lightest; items of one weight stay
/// in the order in which they stand in `s`.
pub open spec fn ranked<T: Weighted>(s: Seq<T>) -> Seq<T>
    decreases s.len(),
{
    if s.len() == 0 {
        s
    } else {
        placed(s[0], ranked(s.skip(1)))
    }
}

/// Two lists in descending order as one; where two weights are equal, the item
/// of the first list comes first.
pub open spec fn merged<T: Weighted>(a: Seq<T>, b: Seq<T>) -> Seq<T>
    decreases a.len() + b.len(),
{
    if a.len() == 0 {
        b
    } else if b.len() == 0 {
        a
    } else if a[0].weight() >= b[0].weight() {
        seq![a[0]] + merged(a.skip(1), b)
    } else {
        seq![b[0]] + merged(a, b.skip(1))
    }
}

proof fn lemma_place<T: Weighted>(w: int, s: Seq<T>)
    ensures
        0 <= place(w, s) <= s.len(),
        forall|i: int| 0 <= i < place(w, s) ==> (#[trigger] s[i]).weight() > w,
        place(w, s) < s.len() ==> s[place(w, s)].weight() <= w,
    decreases s.len(),
{
    if s.len() > 0 && s[0].weight() > w {
        lemma_place(w, s.skip(1));
        assert forall|i: int| 0 <= i < place(w, s) implies (#[trigger] s[i]).weight() > w by {
            if i > 0 {
                assert(s[i] == s.skip(1)[i - 1]);
            }
        }
    }
}

/// An item put in front of heavier or equal ones leaves the first of them first.
proof fn lemma_placed_after_first<T: Weighted>(x: T, s: Seq<T>)
    requires
        s.len() > 0,
        s[0].weight() > x.weight(),
    ensures
        placed(x, s) == seq![s[0]] + placed(x, s.skip(1)),
{
    let p = place(x.weight(), s.skip(1));
    lemma_place(x.weight(), s.skip(1));
    assert(s.take(p + 1) =~= seq![s[0]] + s.skip(1).take(p));
    assert(s.skip(p + 1) =~= s.skip(1).skip(p));
    assert(placed(x, s) =~= seq![s[0]] + placed(x, s.skip(1)));
}

/// An item that is not lighter than the first goes before it.
proof fn lemma_placed_first<T: Weighted>(x: T, s: Seq<T>)
    requires
        s.len() == 0 || s[0].weight() <= x.weight(),
    ensures
        placed(x, s) == seq![x] + s,
{
    assert(place(x.weight(), s) == 0);
    assert(s.take(0) + seq![x] + s.skip(0) =~= seq![x] + s);
}

/// To put an item in its place in the first list and then merge is to merge
/// and then put it in its place.
proof fn lemma_merged_placed<T: Weighted>(x: T, a: Seq<T>, b: Seq<T>)
    requires
        descending(a),
        descending(b),
    ensures
        merged(placed(x, a), b) == placed(x, merged(a, b)),
    decreases a.len() + b.len(),
{
    let w = x.weight();
    let m = merged(a, b);
    if a.len() > 0 && a[0].weight() > w {
        lemma_placed_after_first(x, a);
        let pa = placed(x, a);
        assert(pa.skip(1) =~= placed(x, a.skip(1)));
        if b.len() > 0 && b[0].weight() > a[0].weight() {
            assert(descending(b.skip(1)));
            lemma_merged_placed(x, a, b.skip(1));
            assert(m.skip(1) =~= merged(a, b.skip(1)));
            lemma_placed_after_first(x, m);
        } else {
            assert(descending(a.skip(1)));
            lemma_merged_placed(x, a.skip(1), b);
            assert(m =~= seq![a[0]] + merged(a.skip(1), b));
            assert(m.skip(1) =~= merged(a.skip(1), b));
            lemma_placed_after_first(x, m);
            assert(merged(pa, b) =~= seq![a[0]] + merged(pa.skip(1), b));
        }
    } else {
        lemma_placed_first(x, a);
        let pa = placed(x, a);
        assert(pa.skip(1) =~= a);
        if b.len() > 0 && b[0].weight() > w {
            assert(descending(b.skip(1)));
            lemma_merged_placed(x, a, b.skip(1));
            assert(m =~= seq![b[0]] + merged(a, b.skip(1)));
            assert(m.skip(1) =~= merged(a, b.skip(1)));
            lemma_placed_after_first(x, m);
        } else {
            lemma_placed_first(x, m);
            assert(merged(pa, b) =~= seq![x] + m);
        }
    }
}

/// The order of a list can be had from the orders of its two parts.
proof fn lemma_ranked_parts<T: Weighted>(a: Seq<T>, b: Seq<T>)
    ensures
        ranked(a + b) == merged(ranked(a), ranked(b)),
    decreases a.len(),
{
    if a.len() == 0 {
        assert(a + b =~= b);
    } else {
        let rest = a.skip(1);
        assert((a + b).skip(1) =~= rest + b);
        lemma_ranked_parts(rest, b);
        law_ranked_descending(rest);
        law_ranked_descending(b);
        lemma_merged_placed(a[0], ranked(rest), ranked(b));
    }
}

/// The ranked items are in descending order.
pub proof fn law_ranked_descending<T: Weighted>(s: Seq<T>)
    ensures
        descending(ranked(s)),
    decreases s.len(),
{
    if s.len() > 0 {
        let t = ranked(s.skip(1));
        law_ranked_descending(s.skip(1));
        let p = place(s[0].weight(), t);
        lemma_place(s[0].weight(), t);
        let r = ranked(s);
        assert forall|i: int, j: int| 0 <= i <= j < r.len() implies r[i].weight()
            >= r[j].weight() by {
            if i < p {
                assert(r[i] == t[i]);
            } else if i > p {
                assert(r[i] == t[i - 1]);
            }
            if j < p {
                assert(r[j] == t[j]);
            } else if j > p {
                assert(r[j] == t[j - 1]);
            }
        }
    }
}

/// The ranked items are the items of the list, each as often as it stands there.
pub proof fn law_ranked_same_items<T: Weighted>(s: Seq<T>)
    ensures
        ranked(s).to_multiset() == s.to_multiset(),
        ranked(s).len() == s.len(),
    decreases s.len(),
{
    if s.len() > 0 {
        let rest = s.skip(1);
        let t = ranked(rest);
        law_ranked_same_items(rest);
        let p = place(s[0].weight(), t);
        lemma_place(s[0].weight(), t);
        assert(s =~= seq![s[0]] + rest);
        assert(t =~= t.take(p) + t.skip(p));
        vstd::seq_lib::lemma_multiset_commutative(t.take(p), t.skip(p));
        vstd::seq_lib::lemma_multiset_commutative(t.take(p), seq![s[0]]);
        vstd::seq_lib::lemma_multiset_commutative(t.take(p) + seq![s[0]], t.skip(p));
        vstd::seq_lib::lemma_multiset_commutative(seq![s[0]], rest);
        assert(ranked(s).to_multiset() =~= s.to_multiset());
    }
}

/// The test for weight `w`.
pub open spec fn weighs<T: Weighted>(w: int) -> spec_fn(T) -> bool {
    |x: T| x.weight() == w
}

/// The items of `s` that have weight `w`, in order.
pub open spec fn of_weight<T: Weighted>(s: Seq<T>, w: int) -> Seq<T> {
    s.filter(weighs(w))
}

/// Ranking keeps the items of one weight in their order.
pub proof fn law_ranked_stable<T: Weighted>(s: Seq<T>, w: int)
    ensures
        of_weight(ranked(s), w) == of_weight(s, w),
    decreases s.len(),
{
    if s.len() > 0 {
        let f = weighs::<T>(w);
        let rest = s.skip(1);
        let t = ranked(rest);
        let p = place(s[0].weight(), t);
        law_ranked_stable(rest, w);
        lemma_place(s[0].weight(), t);
        let x = seq![s[0]];
        let front = t.take(p);
        let back = t.skip(p);
        assert(front.filter(f) + x.filter(f) == x.filter(f) + front.filter(f)) by {
            if s[0].weight() == w {
                lemma_none_left(front, f);
            } else {
                lemma_none_left(x, f);
            }
            assert(front.filter(f) + x.filter(f) =~= x.filter(f) + front.filter(f));
        }
        lemma_filter_parts(s, x, rest, f);
        lemma_filter_parts(t, front, back, f);
        lemma_filter_parts(front + x, front, x, f);
        lemma_filter_parts(ranked(s), front + x, back, f);
        assert((x.filter(f) + front.filter(f)) + back.filter(f) =~= x.filter(f) + (front.filter(f)
            + back.filter(f)));
    }
}

proof fn lemma_filter_parts<T>(s: Seq<T>, a: Seq<T>, b: Seq<T>, f: spec_fn(T) -> bool)
    requires
        s =~= a + b,
    ensures
        s.filter(f) == a.filter(f) + b.filter(f),
{
    Seq::filter_distributes_over_add(a, b, f);
}

proof fn lemma_none_left<T>(s: Seq<T>, f: spec_fn(T) -> bool)
    requires
        forall|i: int| 0 <= i < s.len() ==> !f(#[trigger] s[i]),
    ensures
        s.filter(f) == Seq::<T>::empty(),
    decreases s.len(),
{
    reveal(Seq::filter);
    if s.len() > 0 {
        assert forall|i: int| 0 <= i < s.drop_last().len() implies !f(
            #[trigger] s.drop_last()[i],
        ) by {
            assert(s.drop_last()[i] == s[i]);
        }
        lemma_none_left(s.drop_last(), f);
    }
}

proof fn lemma_place_map<T: Weighted, U: Weighted>(w: int, s: Seq<T>, f: spec_fn(T) -> U)
    requires
        forall|x: T| (#[trigger] f(x)).weight() == x.weight(),
    ensures
        place(w, s.map_values(f)) == place(w, s),
    decreases s.len(),
{
    if s.len() > 0 {
        assert(s.map_values(f)[0] == f(s[0]));
        assert(s.map_values(f).skip(1) =~= s.skip(1).map_values(f));
        lemma_place_map(w, s.skip(1), f);
    }
}

/// To rank and then change what does not matter for the order is to change and
/// then rank.
pub proof fn lemma_ranked_map<T: Weighted, U: Weighted>(s: Seq<T>, f: spec_fn(T) -> U)
    requires
        forall|x: T| (#[trigger] f(x)).weight() == x.weight(),
    ensures
        ranked(s.map_values(f)) == ranked(s).map_values(f),
    decreases s.len(),
{
    let m = s.map_values(f);
    if s.len() == 0 {
        assert(ranked(m) =~= ranked(s).map_values(f));
    } else {
        let rest = s.skip(1);
        assert(m.skip(1) =~= rest.map_values(f));
        lemma_ranked_map(rest, f);
        lemma_place_map(s[0].weight(), ranked(rest), f);
        lemma_place(s[0].weight(), ranked(rest));
        assert(m[0] == f(s[0]));
        assert(ranked(m) =~= ranked(s).map_values(f));
    }
}

/// What a test picks out stands in the order in which it stood.
pub proof fn lemma_picked_in_order<T>(s: Seq<T>, f: spec_fn(T) -> bool, p: int, q: int)
    requires
        0 <= p < q < s.filter(f).len(),
    ensures
        exists|a: int, b: int|
            0 <= a < b < s.len() && #[trigger] s[a] == s.filter(f)[p] && #[trigger] s[b]
                == s.filter(f)[q],
    decreases s.len(),
{
    reveal(Seq::filter);
    if s.len() > 0 {
        let before = s.drop_last();
        let rest = before.filter(f);
        if q < rest.len() {
            lemma_picked_in_order(before, f, p, q);
            let (a, b) = choose|a: int, b: int|
                0 <= a < b < before.len() && #[trigger] before[a] == rest[p] && #[trigger] before[b]
                    == rest[q];
            assert(s[a] == s.filter(f)[p] && s[b] == s.filter(f)[q]);
        } else {
            assert(s.filter(f)[p] == rest[p]);
            assert(rest.contains(rest[p]));
            before.lemma_filter_contains_rev(f, rest[p]);
            let a = choose|a: int| 0 <= a < before.len() && before[a] == rest[p];
            assert(s[a] == s.filter(f)[p] && s[s.len() - 1] == s.filter(f)[q]);
        }
    }
}

proof fn lemma_order_is_picked<T>(s: Seq<T>, f: spec_fn(T) -> bool, a: int, b: int)
    requires
        0 <= a < b < s.len(),
        f(s[a]),
        f(s[b]),
    ensures
        exists|p: int, q: int|
            0 <= p < q < s.filter(f).len() && #[trigger] s.filter(f)[p] == s[a]
                && #[trigger] s.filter(f)[q] == s[b],
    decreases s.len(),
{
    reveal(Seq::filter);
    let before = s.drop_last();
    let rest = before.filter(f);
    assert(before[a] == s[a]);
    if b < before.len() {
        assert(before[b] == s[b]);
        lemma_order_is_picked(before, f, a, b);
        let (p, q) = choose|p: int, q: int|
            0 <= p < q < rest.len() && #[trigger] rest[p] == before[a] && #[trigger] rest[q]
                == before[b];
        assert(s.filter(f)[p] == s[a] && s.filter(f)[q] == s[b]);
    } else {
        before.lemma_filter_contains(f, a);
        let p = choose|p: int| 0 <= p < rest.len() && rest[p] == before[a];
        assert(s.filter(f)[p] == s[a] && s.filter(f)[rest.len() as int] == s[b]);
    }
}

/// Of two ranked items of one weight, the one that comes first stood before the
/// other in the list.
pub proof fn law_ties_keep_order<T: Weighted>(s: Seq<T>, i: int, j: int)
    requires
        0 <= i < j < ranked(s).len(),
        ranked(s)[i].weight() == ranked(s)[j].weight(),
    ensures
        exists|a: int, b: int|
            0 <= a < b < s.len() && #[trigger] s[a] == ranked(s)[i] && #[trigger] s[b]
                == ranked(s)[j],
{
    let w = ranked(s)[i].weight();
    let f = weighs::<T>(w);
    law_ranked_stable(s, w);
    lemma_order_is_picked(ranked(s), f, i, j);
    let (p, q) = choose|p: int, q: int|
        0 <= p < q < ranked(s).filter(f).len() && #[trigger] ranked(s).filter(f)[p] == ranked(s)[i]
            && #[trigger] ranked(s).filter(f)[q] == ranked(s)[j];
    lemma_picked_in_order(s, f, p, q);
}

/// The first items are a front of the list, as long as wanted and possible.
pub proof fn law_up_to<T>(s: Seq<T>, n: int)
    requires
        n >= 0,
    ensures
        up_to(s, n).len() == (if s.len() < n {
            s.len() as int
        } else {
            n
        }),
        forall|i: int| 0 <= i < up_to(s, n).len() ==> #[trigger] up_to(s, n)[i] == s[i],
{
}

/// The items from the last to the first.
fn reversed<T>(items: Vec<T>) -> (r: Vec<T>)
    ensures
        r@ == items@.reverse(),
{
    let ghost all = items@;
    let mut items = items;
    let mut out: Vec<T> = Vec::new();
    while items.len() > 0
        invariant
            items@.len() <= all.len(),
            items@ == all.take(items@.len() as int),
            out@ == all.skip(items@.len() as int).reverse(),
        decreases items.len(),
    {
        let ghost n = items@.len();
        match items.pop() {
            Some(x) => {
                proof {
                    assert(x == all[n - 1]);
                    assert(all.take(n as int).drop_last() =~= all.take(n - 1));
                    assert(all.skip(n - 1).reverse() =~= all.skip(n as int).reverse().push(x));
                }
                out.push(x);
            },
            None => {},
        }
    }
    assert(all.skip(0) =~= all);
    out
}

/// Merges two lists in descending order.
fn merge<T: Weigh>(left: Vec<T>, right: Vec<T>) -> (r: Vec<T>)
    ensures
        r@ == merged(left@, right@),
{
    let ghost a = left@;
    let ghost b = right@;
    let mut left = reversed(left);
    let mut right = reversed(right);
    assert(a.reverse().reverse() =~= a);
    assert(b.reverse().reverse() =~= b);
    let mut out: Vec<T> = Vec::new();
    while left.len() > 0 && right.len() > 0
        invariant
            out@ + merged(left@.reverse(), right@.reverse()) == merged(a, b),
        decreases left.len() + right.len(),
    {
        let ghost l = left@.reverse();
        let ghost r = right@.reverse();
        assert(l[0] == left@.last() && r[0] == right@.last());
        let from_left: bool = left[left.len() - 1].weigh() >= right[right.len() - 1].weigh();
        if from_left {
            if let Some(x) = left.pop() {
                proof {
                    assert(left@.reverse() =~= l.skip(1));
                    assert(out@ + (seq![x] + merged(l.skip(1), r)) =~= out@.push(x) + merged(
                        l.skip(1),
                        r,
                    ));
                }
                out.push(x);
            }
        } else {
            if let Some(x) = right.pop() {
                proof {
                    assert(right@.reverse() =~= r.skip(1));
                    assert(out@ + (seq![x] + merged(l, r.skip(1))) =~= out@.push(x) + merged(
                        l,
                        r.skip(1),
                    ));
                }
                out.push(x);
            }
        }
    }
    let mut rest = if left.len() > 0 {
        reversed(left)
    } else {
        reversed(right)
    };
    out.append(&mut rest);
    out
}

/// The items from the heaviest to the lightest, those of one weight in their
/// order.
pub fn sorted_by_weight<T: Weigh>(items: Vec<T>) -> (r: Vec<T>)
    ensures
        r@ == ranked(items@),
    decreases items@.len(),
{
    let mut items = items;
    let n: usize = items.len();
    if n <= 1 {
        proof {
            if n == 1 {
                let t = ranked(items@.skip(1));
                assert(t =~= Seq::<T>::empty());
                lemma_placed_first(items@[0], t);
                assert(ranked(items@) =~= items@);
            }
        }
        return items;
    }
    let ghost all = items@;
    let back = items.split_off(n / 2);
    proof {
        assert(all =~= items@ + back@);
        lemma_ranked_parts(items@, back@);
    }
    merge(sorted_by_weight(items), sorted_by_weight(back))
}

} // verus!
