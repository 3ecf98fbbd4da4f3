//! The first of each: lists without the items whose label was there before.
use vstd::hash_set::StringHashSet;
use vstd::prelude::*;

verus! {

/// Something that is known by a text.
pub trait Labelled: Sized {
    /// The text.
    spec fn label(self) -> Seq<char>;

    /// The text.
    fn label_text(&self) -> (r: String)
        ensures
            r@ == self.label(),
    ;
}

impl Labelled for String {
    open spec fn label(self) -> Seq<char> {
        self@
    }

    fn label_text(&self) -> (r: String) {
        self.clone()
    }
}

/// Some item of `s` has the label.
pub open spec fn labels<T: Labelled>(s: Seq<T>, label: Seq<char>) -> bool {
    exists|i: int| 0 <= i < s.len() && (#[trigger] s[i]).label() == label
}

/// The items of `s` before which no item has the same label.
pub open spec fn first_of_each<T: Labelled>(s: Seq<T>) -> Seq<T>
    decreases s.len(),
{
    if s.len() == 0 {
        s
    } else {
        let rest = first_of_each(s.drop_last());
        if labels(s.drop_last(), s.last().label()) {
            rest
        } else {
            rest.push(s.last())
        }
    }
}

/// The items before which no item has the same label.
pub fn without_repeats<T: Labelled>(items: Vec<T>) -> (r: Vec<T>)
    ensures
        r@ == first_of_each(items@),
{
    let ghost all = items@;
    let mut seen = StringHashSet::new();
    let mut out: Vec<T> = Vec::new();
    for x in it: items
        invariant
            it.seq() == all,
            out@ == first_of_each(all.take(it.index() as int)),
            forall|l: Seq<char>| #[trigger]
                seen@.contains(l) <==> labels(all.take(it.index() as int), l),
    {
        let ghost n = it.index() as int;
        let ghost before = all.take(n);
        let ghost after = all.take(n + 1);
        let ghost known = seen@;
        proof {
            assert(after.drop_last() =~= before);
            assert(after.last() == x);
        }
        let new: bool = seen.insert(x.label_text());
        assert forall|l: Seq<char>| #[trigger] seen@.contains(l) <==> labels(after, l) by {
            if l == x.label() {
                assert(after[n].label() == l);
            }
            if labels(before, l) {
                let i = choose|i: int| 0 <= i < before.len() && (#[trigger] before[i]).label() == l;
                assert(after[i].label() == l);
            }
            if labels(after, l) {
                let i = choose|i: int| 0 <= i < after.len() && (#[trigger] after[i]).label() == l;
                if i < n {
                    assert(before[i].label() == l);
                }
            }
            assert(known.contains(l) <==> labels(before, l));
        }
        if new {
            out.push(x);
        }
    }
    assert(all.take(all.len() as int) =~= all);
    out
}

/// No two items of the result have one label.
pub proof fn law_no_repeats<T: Labelled>(s: Seq<T>)
    ensures
        forall|i: int, j: int|
            0 <= i < j < first_of_each(s).len() ==> (#[trigger] first_of_each(s)[i]).label() != (
            #[trigger] first_of_each(s)[j]).label(),
    decreases s.len(),
{
    if s.len() > 0 {
        law_no_repeats(s.drop_last());
        law_same_labels(s.drop_last(), s.last().label());
        let rest = first_of_each(s.drop_last());
        let r = first_of_each(s);
        assert forall|i: int, j: int| 0 <= i < j < r.len() implies (#[trigger] r[i]).label() != (
        #[trigger] r[j]).label() by {
            if r.len() > rest.len() && j == rest.len() {
                assert(r[i] == rest[i]);
                if r[i].label() == s.last().label() {
                    assert(labels(rest, s.last().label()));
                }
            } else {
                assert(r[i] == rest[i] && r[j] == rest[j]);
            }
        }
    }
}

/// The result has the labels of the list, and no others.
pub proof fn law_same_labels<T: Labelled>(s: Seq<T>, label: Seq<char>)
    ensures
        labels(first_of_each(s), label) <==> labels(s, label),
    decreases s.len(),
{
    if s.len() > 0 {
        let before = s.drop_last();
        let rest = first_of_each(before);
        let r = first_of_each(s);
        law_same_labels(before, label);
        if labels(before, label) {
            let i = choose|i: int| 0 <= i < before.len() && (#[trigger] before[i]).label() == label;
            assert(s[i].label() == label);
            let k = choose|k: int| 0 <= k < rest.len() && (#[trigger] rest[k]).label() == label;
            assert(r[k].label() == label);
        }
        if labels(s, label) && !labels(before, label) {
            let i = choose|i: int| 0 <= i < s.len() && (#[trigger] s[i]).label() == label;
            if i < before.len() {
                assert(before[i].label() == label);
            }
            assert(s.last().label() == label);
            assert(r.last().label() == label);
            assert(r[r.len() - 1].label() == label);
        }
        if labels(r, label) {
            let k = choose|k: int| 0 <= k < r.len() && (#[trigger] r[k]).label() == label;
            if k < rest.len() {
                assert(rest[k].label() == label);
            } else {
                assert(s[s.len() - 1].label() == label);
            }
        }
    }
}

/// No item before the `k`th has its label.
pub open spec fn is_first<T: Labelled>(s: Seq<T>, k: int) -> bool {
    0 <= k < s.len() && forall|j: int| 0 <= j < k ==> (#[trigger] s[j]).label() != s[k].label()
}

/// Each item of the result is the first of its label in the list.
pub proof fn law_result_is_first<T: Labelled>(s: Seq<T>, i: int)
    requires
        0 <= i < first_of_each(s).len(),
    ensures
        exists|k: int| #[trigger] is_first(s, k) && s[k] == first_of_each(s)[i],
    decreases s.len(),
{
    let before = s.drop_last();
    let rest = first_of_each(before);
    if i < rest.len() {
        law_result_is_first(before, i);
        let k = choose|k: int| #[trigger] is_first(before, k) && before[k] == rest[i];
        assert forall|j: int| 0 <= j < k implies (#[trigger] s[j]).label() != s[k].label() by {
            assert(before[j].label() != before[k].label());
        }
        assert(is_first(s, k) && s[k] == first_of_each(s)[i]);
    } else {
        let k = s.len() - 1;
        assert forall|j: int| 0 <= j < k implies (#[trigger] s[j]).label() != s[k].label() by {
            assert(before[j] == s[j]);
        }
        assert(is_first(s, k) && s[k] == first_of_each(s)[i]);
    }
}

/// A list in which no label repeats stays as it is.
pub proof fn law_nothing_to_drop<T: Labelled>(s: Seq<T>)
    requires
        forall|i: int, j: int|
            0 <= i < j < s.len() ==> (#[trigger] s[i]).label() != (#[trigger] s[j]).label(),
    ensures
        first_of_each(s) == s,
    decreases s.len(),
{
    if s.len() > 0 {
        let before = s.drop_last();
        assert forall|i: int, j: int| 0 <= i < j < before.len() implies (
        #[trigger] before[i]).label() != (#[trigger] before[j]).label() by {
            assert(before[i] == s[i] && before[j] == s[j]);
        }
        law_nothing_to_drop(before);
        if labels(before, s.last().label()) {
            let i = choose|i: int|
                0 <= i < before.len() && (#[trigger] before[i]).label() == s.last().label();
            assert(s[i].label() == s[s.len() - 1].label());
        }
        assert(first_of_each(s) =~= s);
    }
}

/// The result keeps the order of the list.
pub proof fn law_result_in_order<T: Labelled>(s: Seq<T>, i: int, j: int)
    requires
        0 <= i < j < first_of_each(s).len(),
    ensures
        exists|a: int, b: int|
            a < b && #[trigger] is_first(s, a) && #[trigger] is_first(s, b) && s[a]
                == first_of_each(s)[i] && s[b] == first_of_each(s)[j],
    decreases s.len(),
{
    let before = s.drop_last();
    let rest = first_of_each(before);
    assert forall|k: int| #[trigger] is_first(before, k) implies is_first(s, k) by {
        assert forall|m: int| 0 <= m < k implies (#[trigger] s[m]).label() != s[k].label() by {
            assert(before[m].label() != before[k].label());
        }
    }
    if j < rest.len() {
        law_result_in_order(before, i, j);
        let (a, b) = choose|a: int, b: int|
            a < b && #[trigger] is_first(before, a) && #[trigger] is_first(before, b) && before[a]
                == rest[i] && before[b] == rest[j];
        assert(is_first(s, a) && is_first(s, b));
    } else {
        law_result_is_first(before, i);
        let a = choose|a: int| #[trigger] is_first(before, a) && before[a] == rest[i];
        let b = s.len() - 1;
        assert forall|m: int| 0 <= m < b implies (#[trigger] s[m]).label() != s[b].label() by {
            assert(before[m] == s[m]);
        }
        assert(is_first(s, a) && is_first(s, b));
    }
}

} // verus!
