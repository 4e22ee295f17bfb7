//! The order of texts, and stable sorting.

use crate::fs::DirEntry;
use crate::fs;
use crate::text;
use vstd::prelude::*;

verus! {

/// How a first thing compares to a second.
#[derive(Debug, Clone, Copy, PartialEq, Eq, Structural)]
pub enum Order {
    Less,
    Equal,
    Greater,
}

impl Order {
    /// The same comparison with the two things exchanged.
    pub open spec fn spec_reverse(self) -> Order {
        match self {
            Order::Less => Order::Greater,
            Order::Equal => Order::Equal,
            Order::Greater => Order::Less,
        }
    }

    /// The same comparison with the two things exchanged.
    pub fn reverse(self) -> (r: Order)
        ensures
            r == self.spec_reverse(),
    {
        match self {
            Order::Less => Order::Greater,
            Order::Equal => Order::Equal,
            Order::Greater => Order::Less,
        }
    }
}

/// How two texts compare, character by character, the shorter before what it begins.
pub open spec fn text_order(a: Seq<char>, b: Seq<char>) -> Order
    decreases a.len(),
{
    if a.len() == 0 && b.len() == 0 {
        Order::Equal
    } else if a.len() == 0 {
        Order::Less
    } else if b.len() == 0 {
        Order::Greater
    } else if a[0] < b[0] {
        Order::Less
    } else if a[0] > b[0] {
        Order::Greater
    } else {
        text_order(a.skip(1), b.skip(1))
    }
}

/// How two numbers compare.
pub open spec fn int_order(a: int, b: int) -> Order {
    if a < b {
        Order::Less
    } else if a > b {
        Order::Greater
    } else {
        Order::Equal
    }
}

/// Compares two texts.
pub fn compare_texts(a: &str, b: &str) -> (r: Order)
    ensures
        r == text_order(a@, b@),
{
    let v = text::chars(a);
    let w = text::chars(b);
    let mut i: usize = 0;
    assert(a@.skip(0) =~= a@);
    assert(b@.skip(0) =~= b@);
    while i < v.len() && i < w.len()
        invariant
            v@ == a@,
            w@ == b@,
            i <= v@.len(),
            i <= w@.len(),
            text_order(a@.skip(i as int), b@.skip(i as int)) == text_order(a@, b@),
        decreases v.len() - i,
    {
        if v[i] < w[i] {
            return Order::Less;
        }
        if v[i] > w[i] {
            return Order::Greater;
        }
        assert(a@.skip(i as int).skip(1) =~= a@.skip(i + 1));
        assert(b@.skip(i as int).skip(1) =~= b@.skip(i + 1));
        i += 1;
    }
    if i < v.len() {
        Order::Greater
    } else if i < w.len() {
        Order::Less
    } else {
        Order::Equal
    }
}

pub proof fn lemma_text_order_reverse(a: Seq<char>, b: Seq<char>)
    ensures
        text_order(b, a) == text_order(a, b).spec_reverse(),
    decreases a.len(),
{
    if a.len() > 0 && b.len() > 0 && a[0] == b[0] {
        lemma_text_order_reverse(a.skip(1), b.skip(1));
    }
}

pub proof fn lemma_text_order_equal(a: Seq<char>, b: Seq<char>)
    ensures
        text_order(a, b) == Order::Equal <==> a == b,
    decreases a.len(),
{
    if a.len() > 0 && b.len() > 0 && a[0] == b[0] {
        lemma_text_order_equal(a.skip(1), b.skip(1));
        if a.skip(1) == b.skip(1) {
            assert(a =~= seq![a[0]] + a.skip(1));
            assert(b =~= seq![b[0]] + b.skip(1));
        }
    } else if a.len() == 0 && b.len() == 0 {
        assert(a =~= b);
    }
}

pub proof fn lemma_text_order_transitive(a: Seq<char>, b: Seq<char>, c: Seq<char>)
    requires
        text_order(a, b) != Order::Greater,
        text_order(b, c) != Order::Greater,
    ensures
        text_order(a, c) != Order::Greater,
        text_order(a, c) == Order::Equal ==> text_order(a, b) == Order::Equal,
    decreases a.len(),
{
    if a.len() > 0 && b.len() > 0 && c.len() > 0 && a[0] == b[0] && b[0] == c[0] {
        lemma_text_order_transitive(a.skip(1), b.skip(1), c.skip(1));
    }
}

/// One text comes before another if and only if it is the beginning of it, or has the smaller
/// character at the first place where they differ.
pub proof fn lemma_text_order_by_first_difference(a: Seq<char>, b: Seq<char>)
    ensures
        text_order(a, b) == Order::Less <==> exists|k: int|
            0 <= k <= a.len() && k < b.len() && #[trigger] a.take(k) == b.take(k) && (k == a.len()
                || a[k] < b[k]),
    decreases a.len(),
{
    if text_order(a, b) == Order::Less {
        if a.len() == 0 || a[0] < b[0] {
            assert(a.take(0) =~= b.take(0));
        } else {
            let x = a.skip(1);
            let y = b.skip(1);
            lemma_text_order_by_first_difference(x, y);
            let k = choose|k: int|
                0 <= k <= x.len() && k < y.len() && #[trigger] x.take(k) == y.take(k) && (k
                    == x.len() || x[k] < y[k]);
            assert(a.take(k + 1) =~= seq![a[0]] + x.take(k));
            assert(b.take(k + 1) =~= seq![b[0]] + y.take(k));
            assert(a.take(k + 1) == b.take(k + 1));
        }
    }
    if exists|k: int|
        0 <= k <= a.len() && k < b.len() && #[trigger] a.take(k) == b.take(k) && (k == a.len()
            || a[k] < b[k]) {
        let k = choose|k: int|
            0 <= k <= a.len() && k < b.len() && #[trigger] a.take(k) == b.take(k) && (k == a.len()
                || a[k] < b[k]);
        if k > 0 {
            assert(a.take(k)[0] == b.take(k)[0]);
            let x = a.skip(1);
            let y = b.skip(1);
            assert(x.take(k - 1) =~= a.take(k).skip(1));
            assert(y.take(k - 1) =~= b.take(k).skip(1));
            lemma_text_order_by_first_difference(x, y);
        }
    }
}

/// Whether a comparison turns round with its arguments, and goes on through a third thing.
pub open spec fn consistent<T>(o: spec_fn(T, T) -> Order) -> bool {
    &&& forall|a: T, b: T| #[trigger] o(b, a) == o(a, b).spec_reverse()
    &&& forall|a: T, b: T, c: T| #[trigger]
        o(a, b) != Order::Greater && #[trigger] o(b, c) != Order::Greater ==> o(a, c)
            != Order::Greater && (o(a, c) == Order::Equal ==> o(a, b) == Order::Equal && o(b, c)
            == Order::Equal)
}

/// The order that a consistent comparison gives.
pub open spec fn not_after<T>(o: spec_fn(T, T) -> Order) -> spec_fn(T, T) -> bool {
    |a: T, b: T| o(a, b) != Order::Greater
}

/// A consistent comparison gives an order in which anything can be sorted.
pub proof fn lemma_consistent_total<T>(o: spec_fn(T, T) -> Order)
    requires
        consistent(o),
    ensures
        total_preorder(not_after(o)),
{
    let le = not_after(o);
    assert forall|a: T, b: T| #[trigger] le(a, b) || le(b, a) by {
        assert(o(b, a) == o(a, b).spec_reverse());
    }
    assert forall|a: T, b: T, c: T| #[trigger] le(a, b) && #[trigger] le(b, c) implies le(a, c) by {
        assert(o(a, b) != Order::Greater && o(b, c) != Order::Greater);
    }
}

pub open spec fn reversed<T>(o: spec_fn(T, T) -> Order) -> spec_fn(T, T) -> Order {
    |a: T, b: T| o(a, b).spec_reverse()
}

/// A consistent comparison stays one when it is turned round.
pub proof fn lemma_reversed_consistent<T>(o: spec_fn(T, T) -> Order)
    requires
        consistent(o),
    ensures
        consistent(reversed(o)),
{
    let r = reversed(o);
    assert forall|a: T, b: T| #[trigger] r(b, a) == r(a, b).spec_reverse() by {
        assert(o(b, a) == o(a, b).spec_reverse());
    }
    assert forall|a: T, b: T, c: T| #[trigger]
        r(a, b) != Order::Greater && #[trigger] r(b, c) != Order::Greater implies r(a, c)
        != Order::Greater && (r(a, c) == Order::Equal ==> r(a, b) == Order::Equal && r(b, c)
        == Order::Equal) by {
        assert(o(b, a) == o(a, b).spec_reverse());
        assert(o(c, b) == o(b, c).spec_reverse());
        assert(o(c, a) == o(a, c).spec_reverse());
        assert(o(c, b) != Order::Greater && o(b, a) != Order::Greater);
    }
}

pub open spec fn first_then<T>(o: spec_fn(T, T) -> Order, p: spec_fn(T, T) -> Order) -> spec_fn(
    T,
    T,
) -> Order {
    |a: T, b: T|
        if o(a, b) != Order::Equal {
            o(a, b)
        } else {
            p(a, b)
        }
}

/// Two consistent comparisons one after the other are one.
pub proof fn lemma_first_then_consistent<T>(
    o: spec_fn(T, T) -> Order,
    p: spec_fn(T, T) -> Order,
)
    requires
        consistent(o),
        consistent(p),
    ensures
        consistent(first_then(o, p)),
{
    let r = first_then(o, p);
    assert forall|a: T, b: T| #[trigger] r(b, a) == r(a, b).spec_reverse() by {
        assert(o(b, a) == o(a, b).spec_reverse());
        assert(p(b, a) == p(a, b).spec_reverse());
    }
    assert forall|a: T, b: T, c: T| #[trigger]
        r(a, b) != Order::Greater && #[trigger] r(b, c) != Order::Greater implies r(a, c)
        != Order::Greater && (r(a, c) == Order::Equal ==> r(a, b) == Order::Equal && r(b, c)
        == Order::Equal) by {
        assert(o(a, b) != Order::Greater && o(b, c) != Order::Greater);
        assert(o(b, a) == o(a, b).spec_reverse());
        assert(o(c, b) == o(b, c).spec_reverse());
        assert(o(c, a) == o(a, c).spec_reverse());
        if o(a, c) == Order::Equal {
            assert(p(a, b) != Order::Greater && p(b, c) != Order::Greater);
        } else if o(a, b) == Order::Equal && o(b, c) == Order::Equal {
            assert(o(b, a) != Order::Greater && o(c, b) != Order::Greater);
            assert(o(c, a) != Order::Greater);
        }
    }
}

pub open spec fn compared_by<S, T>(o: spec_fn(T, T) -> Order, f: spec_fn(S) -> T) -> spec_fn(
    S,
    S,
) -> Order {
    |a: S, b: S| o(f(a), f(b))
}

/// A consistent comparison of what is taken from things is one of the things.
pub proof fn lemma_compared_by_consistent<S, T>(o: spec_fn(T, T) -> Order, f: spec_fn(S) -> T)
    requires
        consistent(o),
    ensures
        consistent(compared_by(o, f)),
{
    let r = compared_by(o, f);
    assert forall|a: S, b: S| #[trigger] r(b, a) == r(a, b).spec_reverse() by {
        assert(o(f(b), f(a)) == o(f(a), f(b)).spec_reverse());
    }
    assert forall|a: S, b: S, c: S| #[trigger]
        r(a, b) != Order::Greater && #[trigger] r(b, c) != Order::Greater implies r(a, c)
        != Order::Greater && (r(a, c) == Order::Equal ==> r(a, b) == Order::Equal && r(b, c)
        == Order::Equal) by {
        assert(o(f(a), f(b)) != Order::Greater && o(f(b), f(c)) != Order::Greater);
    }
}

pub open spec fn text_comparison() -> spec_fn(Seq<char>, Seq<char>) -> Order {
    |a: Seq<char>, b: Seq<char>| text_order(a, b)
}

/// The comparison of texts is consistent.
pub proof fn lemma_text_consistent()
    ensures
        consistent(text_comparison()),
{
    let r = text_comparison();
    assert forall|a: Seq<char>, b: Seq<char>| #[trigger] r(b, a) == r(a, b).spec_reverse() by {
        lemma_text_order_reverse(a, b);
    }
    assert forall|a: Seq<char>, b: Seq<char>, c: Seq<char>| #[trigger]
        r(a, b) != Order::Greater && #[trigger] r(b, c) != Order::Greater implies r(a, c)
        != Order::Greater && (r(a, c) == Order::Equal ==> r(a, b) == Order::Equal && r(b, c)
        == Order::Equal) by {
        lemma_text_order_transitive(a, b, c);
        lemma_text_order_equal(a, b);
    }
}

/// `s` with `x` put behind the last element that may stand before it.
pub open spec fn placed<T>(s: Seq<T>, x: T, le: spec_fn(T, T) -> bool) -> Seq<T>
    decreases s.len(),
{
    if s.len() == 0 {
        seq![x]
    } else if le(s.last(), x) {
        s.push(x)
    } else {
        placed(s.drop_last(), x, le).push(s.last())
    }
}

/// `s` in the order of `le`, elements that may stand either way in the order that they had.
pub open spec fn sorted<T>(s: Seq<T>, le: spec_fn(T, T) -> bool) -> Seq<T>
    decreases s.len(),
{
    if s.len() == 0 {
        Seq::empty()
    } else {
        placed(sorted(s.drop_last(), le), s.last(), le)
    }
}

/// Whether every element may stand before all that follow it.
pub open spec fn in_order<T>(s: Seq<T>, le: spec_fn(T, T) -> bool) -> bool {
    forall|i: int, j: int| 0 <= i < j < s.len() ==> le(#[trigger] s[i], #[trigger] s[j])
}

/// Whether any two things can be ordered, and the order goes on through a third.
pub open spec fn total_preorder<T>(le: spec_fn(T, T) -> bool) -> bool {
    &&& forall|a: T, b: T| #[trigger] le(a, b) || le(b, a)
    &&& forall|a: T, b: T, c: T| #[trigger] le(a, b) && #[trigger] le(b, c) ==> le(a, c)
}

proof fn lemma_placed_in_order<T>(s: Seq<T>, x: T, le: spec_fn(T, T) -> bool)
    requires
        in_order(s, le),
        total_preorder(le),
    ensures
        in_order(placed(s, x, le), le),
        placed(s, x, le).len() == s.len() + 1,
        placed(s, x, le).to_multiset() == s.to_multiset().insert(x),
    decreases s.len(),
{
    broadcast use vstd::seq_lib::group_to_multiset_ensures;

    if s.len() == 0 {
        assert(seq![x] =~= s.push(x));
    } else if le(s.last(), x) {
        assert forall|i: int, j: int| 0 <= i < j < s.push(x).len() implies le(
            #[trigger] s.push(x)[i],
            #[trigger] s.push(x)[j],
        ) by {
            if j == s.len() && i < s.len() - 1 {
                assert(le(s[i], s[s.len() - 1]));
            }
        }
    } else {
        let t = s.drop_last();
        lemma_placed_in_order(t, x, le);
        let p = placed(t, x, le);
        let r = p.push(s.last());
        assert(le(x, s.last()));
        lemma_placed_elements(t, x, le);
        assert forall|i: int, j: int| 0 <= i < j < r.len() implies le(
            #[trigger] r[i],
            #[trigger] r[j],
        ) by {
            if j == p.len() {
                if p[i] != x {
                    let k = choose|k: int| 0 <= k < t.len() && t[k] == p[i];
                    assert(le(s[k], s[s.len() - 1]));
                }
            } else {
                assert(le(p[i], p[j]));
            }
        }
        assert(s =~= t.push(s.last()));
        assert(r.to_multiset() =~= s.to_multiset().insert(x));
    }
}

proof fn lemma_placed_elements<T>(s: Seq<T>, x: T, le: spec_fn(T, T) -> bool)
    ensures
        placed(s, x, le).len() == s.len() + 1,
        forall|i: int|
            0 <= i < placed(s, x, le).len() ==> #[trigger] placed(s, x, le)[i] == x || exists|k: int|
                0 <= k < s.len() && s[k] == placed(s, x, le)[i],
    decreases s.len(),
{
    if s.len() > 0 {
        let t = s.drop_last();
        lemma_placed_elements(t, x, le);
        let r = placed(s, x, le);
        assert forall|i: int| 0 <= i < r.len() implies #[trigger] r[i] == x || exists|k: int|
            0 <= k < s.len() && s[k] == r[i] by {
            if le(s.last(), x) {
                if i < s.len() {
                    assert(s[i] == r[i]);
                }
            } else if i < t.len() + 1 {
                let p = placed(t, x, le);
                assert(r[i] == p[i]);
                if p[i] != x {
                    let k = choose|k: int| 0 <= k < t.len() && t[k] == p[i];
                    assert(s[k] == r[i]);
                }
            } else {
                assert(s[s.len() - 1] == r[i]);
            }
        }
    }
}

/// Sorting gives the same elements, in order.
pub proof fn lemma_sorted<T>(s: Seq<T>, le: spec_fn(T, T) -> bool)
    requires
        total_preorder(le),
    ensures
        in_order(sorted(s, le), le),
        sorted(s, le).len() == s.len(),
        sorted(s, le).to_multiset() == s.to_multiset(),
    decreases s.len(),
{
    broadcast use vstd::seq_lib::group_to_multiset_ensures;

    if s.len() > 0 {
        lemma_sorted(s.drop_last(), le);
        lemma_placed_in_order(sorted(s.drop_last(), le), s.last(), le);
        assert(s =~= s.drop_last().push(s.last()));
    } else {
        assert(sorted(s, le) =~= s);
    }
}

proof fn lemma_placed_multiset<T>(s: Seq<T>, x: T, le: spec_fn(T, T) -> bool)
    ensures
        placed(s, x, le).to_multiset() == s.to_multiset().insert(x),
    decreases s.len(),
{
    broadcast use vstd::seq_lib::group_to_multiset_ensures;

    if s.len() == 0 {
        assert(seq![x] =~= s.push(x));
    } else if !le(s.last(), x) {
        lemma_placed_multiset(s.drop_last(), x, le);
        assert(s =~= s.drop_last().push(s.last()));
        assert(placed(s, x, le).to_multiset() =~= s.to_multiset().insert(x));
    }
}

/// Sorting gives the same elements, each as often as before, whatever the order.
pub proof fn lemma_sorted_multiset<T>(s: Seq<T>, le: spec_fn(T, T) -> bool)
    ensures
        sorted(s, le).to_multiset() == s.to_multiset(),
        sorted(s, le).len() == s.len(),
    decreases s.len(),
{
    broadcast use vstd::seq_lib::group_to_multiset_ensures;

    if s.len() > 0 {
        lemma_sorted_multiset(s.drop_last(), le);
        lemma_placed_multiset(sorted(s.drop_last(), le), s.last(), le);
        lemma_placed_elements(sorted(s.drop_last(), le), s.last(), le);
        assert(s =~= s.drop_last().push(s.last()));
    } else {
        assert(sorted(s, le) =~= s);
    }
}

/// What holds of all elements holds of them when they are sorted.
pub proof fn lemma_sorted_all<T>(s: Seq<T>, le: spec_fn(T, T) -> bool, p: spec_fn(T) -> bool)
    requires
        forall|i: int| 0 <= i < s.len() ==> p(#[trigger] s[i]),
    ensures
        forall|i: int| 0 <= i < sorted(s, le).len() ==> p(#[trigger] sorted(s, le)[i]),
{
    broadcast use vstd::seq_lib::group_to_multiset_ensures;

    lemma_sorted_multiset(s, le);
    let r = sorted(s, le);
    assert forall|i: int| 0 <= i < r.len() implies p(#[trigger] r[i]) by {
        assert(r.contains(r[i]));
        assert(r.to_multiset().count(r[i]) > 0);
        assert(s.contains(r[i]));
        let k = choose|k: int| 0 <= k < s.len() && s[k] == r[i];
        assert(p(s[k]));
    }
}

proof fn lemma_placed_agree<T>(
    s: Seq<T>,
    x: T,
    le: spec_fn(T, T) -> bool,
    other: spec_fn(T, T) -> bool,
)
    requires
        forall|i: int| 0 <= i < s.len() ==> le(#[trigger] s[i], x) == other(s[i], x),
    ensures
        placed(s, x, le) == placed(s, x, other),
    decreases s.len(),
{
    if s.len() > 0 {
        let t = s.drop_last();
        assert forall|i: int| 0 <= i < t.len() implies le(#[trigger] t[i], x) == other(
            t[i],
            x,
        ) by {
            assert(t[i] == s[i]);
        }
        lemma_placed_agree(t, x, le, other);
        assert(le(s[s.len() - 1], x) == other(s[s.len() - 1], x));
    }
}

/// Two orders that agree on the elements sort them alike.
pub proof fn lemma_sorted_agree<T>(
    s: Seq<T>,
    le: spec_fn(T, T) -> bool,
    other: spec_fn(T, T) -> bool,
    p: spec_fn(T) -> bool,
)
    requires
        forall|i: int| 0 <= i < s.len() ==> p(#[trigger] s[i]),
        forall|a: T, b: T| p(a) && p(b) ==> #[trigger] le(a, b) == other(a, b),
    ensures
        sorted(s, le) == sorted(s, other),
    decreases s.len(),
{
    if s.len() > 0 {
        let t = s.drop_last();
        assert forall|i: int| 0 <= i < t.len() implies p(#[trigger] t[i]) by {
            assert(t[i] == s[i]);
        }
        lemma_sorted_agree(t, le, other, p);
        lemma_sorted_all(t, le, p);
        assert(p(s[s.len() - 1]));
        lemma_placed_agree(sorted(t, le), s.last(), le, other);
    }
}

/// What is in order stays as it is when it is sorted.
pub proof fn lemma_sorted_again<T>(s: Seq<T>, le: spec_fn(T, T) -> bool)
    requires
        in_order(s, le),
    ensures
        sorted(s, le) == s,
    decreases s.len(),
{
    if s.len() > 0 {
        let t = s.drop_last();
        assert forall|i: int, j: int| 0 <= i < j < t.len() implies le(
            #[trigger] t[i],
            #[trigger] t[j],
        ) by {
            assert(le(s[i], s[j]));
        }
        lemma_sorted_again(t, le);
        if t.len() > 0 {
            assert(le(s[s.len() - 2], s[s.len() - 1]));
        }
        assert(placed(t, s.last(), le) =~= s);
    }
}

/// Where an element is placed: behind the last one that may stand before it.
pub proof fn lemma_placed_at<T>(s: Seq<T>, x: T, le: spec_fn(T, T) -> bool, k: int)
    requires
        0 <= k <= s.len(),
        k > 0 ==> le(s[k - 1], x),
        forall|j: int| k <= j < s.len() ==> !le(#[trigger] s[j], x),
    ensures
        placed(s, x, le) == s.insert(k, x),
    decreases s.len(),
{
    if s.len() == 0 {
        assert(s.insert(k, x) =~= seq![x]);
    } else if k == s.len() {
        assert(s.insert(k, x) =~= s.push(x));
    } else {
        lemma_placed_at(s.drop_last(), x, le, k);
        assert(s.insert(k, x) =~= s.drop_last().insert(k, x).push(s.last()));
    }
}

/// Whether a listed name may stand before another.
pub open spec fn name_le() -> spec_fn(fs::Listed, fs::Listed) -> bool {
    |a: fs::Listed, b: fs::Listed| text_order(a.name, b.name) != Order::Greater
}

/// A directory listing in the order of its names.
pub open spec fn by_name(l: Seq<fs::Listed>) -> Seq<fs::Listed> {
    sorted(l, name_le())
}

/// The order of names is one in which any listing can be sorted.
pub proof fn lemma_by_name(l: Seq<fs::Listed>)
    ensures
        in_order(by_name(l), name_le()),
        by_name(l).len() == l.len(),
        by_name(l).to_multiset() == l.to_multiset(),
{
    let le = name_le();
    assert forall|a: fs::Listed, b: fs::Listed| #[trigger] le(a, b) || le(b, a) by {
        lemma_text_order_reverse(a.name, b.name);
    }
    assert forall|a: fs::Listed, b: fs::Listed, c: fs::Listed| #[trigger]
        le(a, b) && #[trigger] le(b, c) implies le(a, c) by {
        lemma_text_order_transitive(a.name, b.name, c.name);
    }
    lemma_sorted(l, le);
}

/// Sorts a directory listing by name.
pub fn sort_by_name(l: Vec<(String, DirEntry)>) -> (r: Vec<(String, DirEntry)>)
    ensures
        fs::listing(r@) == by_name(fs::listing(l@)),
{
    let mut out: Vec<(String, DirEntry)> = Vec::new();
    let mut i: usize = 0;
    let ghost all = fs::listing(l@);
    assert(fs::listing(out@) =~= by_name(all.take(0)));
    while i < l.len()
        invariant
            i <= l@.len(),
            all == fs::listing(l@),
            fs::listing(out@) == by_name(all.take(i as int)),
        decreases l.len() - i,
    {
        let name = l[i].0.clone();
        let entry = l[i].1;
        let ghost x = fs::Listed { name: name@, entry };
        let ghost shown = fs::listing(out@);
        let mut k: usize = out.len();
        while k > 0 && compare_texts(out[k - 1].0.as_str(), name.as_str()) == Order::Greater
            invariant
                k <= out@.len(),
                shown == fs::listing(out@),
                x.name == name@,
                forall|j: int| k <= j < out@.len() ==> !name_le()(#[trigger] shown[j], x),
            decreases k,
        {
            assert(!name_le()(shown[k - 1], x));
            k -= 1;
        }
        proof {
            if k > 0 {
                assert(name_le()(shown[k - 1], x));
            }
            lemma_placed_at(shown, x, name_le(), k as int);
            let t = all.take(i + 1);
            assert(t.drop_last() =~= all.take(i as int));
            assert(t.last() == x);
        }
        out.insert(k, (name, entry));
        assert(fs::listing(out@) =~= shown.insert(k as int, x));
        i += 1;
    }
    assert(all.take(i as int) =~= all);
    out
}

/// What may stand either way with `y`.
pub open spec fn alike<T>(y: T, le: spec_fn(T, T) -> bool) -> spec_fn(T) -> bool {
    |z: T| le(y, z) && le(z, y)
}

proof fn lemma_filter_push<T>(s: Seq<T>, x: T, keep: spec_fn(T) -> bool)
    ensures
        s.push(x).filter(keep) == if keep(x) {
            s.filter(keep).push(x)
        } else {
            s.filter(keep)
        },
{
    reveal(Seq::filter);
    assert(s.push(x).drop_last() =~= s);
}

proof fn lemma_placed_alike<T>(s: Seq<T>, x: T, y: T, le: spec_fn(T, T) -> bool)
    requires
        total_preorder(le),
        in_order(s, le),
    ensures
        placed(s, x, le).filter(alike(y, le)) == s.push(x).filter(alike(y, le)),
    decreases s.len(),
{
    let class = alike(y, le);
    if s.len() == 0 {
        assert(s.push(x) =~= seq![x]);
    } else if !le(s.last(), x) {
        let init = s.drop_last();
        lemma_placed_alike(init, x, y, le);
        lemma_filter_push(placed(init, x, le), s.last(), class);
        lemma_filter_push(init, x, class);
        lemma_filter_push(s, x, class);
        lemma_filter_push(init, s.last(), class);
        assert(init.push(s.last()) =~= s);
        if class(s.last()) && class(x) {
            assert(le(s.last(), y) && le(y, x));
        }
    }
}

/// Sorting leaves the elements that may stand either way in the order that they had.
pub proof fn lemma_sorted_stable<T>(s: Seq<T>, y: T, le: spec_fn(T, T) -> bool)
    requires
        total_preorder(le),
    ensures
        sorted(s, le).filter(alike(y, le)) == s.filter(alike(y, le)),
    decreases s.len(),
{
    if s.len() > 0 {
        let init = s.drop_last();
        let before = sorted(init, le);
        lemma_sorted_stable(init, y, le);
        lemma_sorted(init, le);
        lemma_placed_alike(before, s.last(), y, le);
        lemma_filter_push(before, s.last(), alike(y, le));
        lemma_filter_push(init, s.last(), alike(y, le));
        assert(init.push(s.last()) =~= s);
    }
}

} // verus!
