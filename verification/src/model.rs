//! The mathematical model: what "sorted" and "the `k` smallest" mean for a
//! sequence of `u32`, and the facts about them that the executable code
//! relies on.

use vstd::multiset::*;
use vstd::prelude::*;
use vstd::relations::*;
use vstd::seq_lib::*;

verus! {

/// No element of `s` is larger than one that comes after it.
pub open spec fn ascending(s: Seq<u32>) -> bool {
    forall|i: int, j: int| 0 <= i <= j < s.len() ==> s[i] <= s[j]
}

/// The first `k` elements of `s`, or all of `s` where it has no more than `k`.
pub open spec fn prefix(s: Seq<u32>, k: nat) -> Seq<u32> {
    if k < s.len() {
        s.take(k as int)
    } else {
        s
    }
}

/// `s` with `v` added in front of the trailing run of elements that are not
/// below `v`. On an ascending `s` this is the ascending sequence that holds
/// the elements of `s` and `v`.
pub open spec fn insert_ascending(s: Seq<u32>, v: u32) -> Seq<u32>
    decreases s.len(),
{
    if s.len() == 0 || s.last() < v {
        s.push(v)
    } else {
        insert_ascending(s.drop_last(), v).push(s.last())
    }
}

/// The elements of `s` in ascending order.
pub open spec fn sorted(s: Seq<u32>) -> Seq<u32>
    decreases s.len(),
{
    if s.len() == 0 {
        s
    } else {
        insert_ascending(sorted(s.drop_last()), s.last())
    }
}

/// The `k` smallest elements of `s` in ascending order, duplicates kept; all
/// of `s` in ascending order where `s` has no more than `k` elements.
pub open spec fn smallest(s: Seq<u32>, k: nat) -> Seq<u32> {
    prefix(sorted(s), k)
}

/// What a buffer bounded by `k` holds after `v` was offered to it.
pub open spec fn bounded_insert(buf: Seq<u32>, v: u32, k: nat) -> Seq<u32> {
    prefix(insert_ascending(buf, v), k)
}

/// The elements of `s` that are not above `max`, in the order of `s`.
pub open spec fn fitting(s: Seq<u32>, max: u32) -> Seq<u32> {
    s.filter(|v: u32| v <= max)
}

/// `i` is a place in `s` where `v` can be inserted without disturbing the
/// ascending order: nothing before `i` is above `v`, nothing from `i` on is
/// below it.
pub open spec fn insertion_point(s: Seq<u32>, v: u32, i: int) -> bool {
    &&& 0 <= i <= s.len()
    &&& forall|j: int| 0 <= j < i ==> s[j] <= v
    &&& forall|j: int| i <= j < s.len() ==> v <= s[j]
}

/// The order on `u32` as a relation, for the lemmas of `vstd` that take one.
pub open spec fn at_most() -> spec_fn(u32, u32) -> bool {
    |a: u32, b: u32| a <= b
}

/// An insertion makes a sequence longer by one.
pub proof fn lemma_insert_len(s: Seq<u32>, v: u32)
    ensures
        insert_ascending(s, v).len() == s.len() + 1,
    decreases s.len(),
{
    if !(s.len() == 0 || s.last() < v) {
        lemma_insert_len(s.drop_last(), v);
    }
}

/// Inserting at any insertion point of an ascending sequence gives the same
/// sequence, the one that `insert_ascending` names.
pub proof fn lemma_insert_at(s: Seq<u32>, v: u32, i: int)
    requires
        ascending(s),
        insertion_point(s, v, i),
    ensures
        insert_ascending(s, v) == s.insert(i, v),
    decreases s.len(),
{
    if s.len() == 0 || s.last() < v {
        assert(i == s.len()) by {
            if i < s.len() {
                assert(v <= s[s.len() - 1]);
            }
        }
        assert(s.push(v) =~= s.insert(i, v));
    } else {
        let rest = s.drop_last();
        let at = if i == s.len() { i - 1 } else { i };
        assert(insertion_point(rest, v, at)) by {
            if i == s.len() {
                assert(s[s.len() - 1] <= v);
            }
        }
        lemma_insert_at(rest, v, at);
        assert(rest.insert(at, v).push(s.last()) =~= s.insert(i, v));
    }
}

/// Every sequence has an insertion point for every value if it is ascending;
/// the one returned is the first, the position of the first element that is
/// not below `v`.
pub proof fn lemma_first_insertion_point(s: Seq<u32>, v: u32) -> (i: int)
    requires
        ascending(s),
    ensures
        insertion_point(s, v, i),
        forall|j: int| 0 <= j < i ==> s[j] < v,
    decreases s.len(),
{
    if s.len() == 0 {
        0
    } else if s.last() < v {
        assert forall|j: int| 0 <= j < s.len() implies s[j] < v by {
            assert(s[j] <= s[s.len() - 1]);
        }
        s.len() as int
    } else {
        let rest = s.drop_last();
        let at = lemma_first_insertion_point(rest, v);
        assert forall|j: int| at <= j < s.len() implies v <= s[j] by {
            if j < rest.len() {
                assert(v <= rest[j]);
            }
        }
        assert forall|j: int| 0 <= j < at implies s[j] < v by {
            assert(rest[j] < v);
        }
        at
    }
}

/// An insertion into an ascending sequence leaves it ascending.
pub proof fn lemma_insert_ascending(s: Seq<u32>, v: u32)
    requires
        ascending(s),
    ensures
        ascending(insert_ascending(s, v)),
{
    let i = lemma_first_insertion_point(s, v);
    lemma_insert_at(s, v, i);
}

/// An insertion adds the value once and changes nothing else.
pub proof fn lemma_insert_multiset(s: Seq<u32>, v: u32)
    ensures
        insert_ascending(s, v).to_multiset() == s.to_multiset().insert(v),
    decreases s.len(),
{
    broadcast use group_multiset_axioms;

    if s.len() == 0 || s.last() < v {
        to_multiset_build(s, v);
    } else {
        let rest = s.drop_last();
        lemma_insert_multiset(rest, v);
        to_multiset_build(insert_ascending(rest, v), s.last());
        to_multiset_build(rest, s.last());
        assert(rest.push(s.last()) =~= s);
        assert(insert_ascending(s, v).to_multiset() =~= s.to_multiset().insert(v));
    }
}

/// `sorted(s)` is ascending and holds exactly the elements of `s`, each as
/// often as `s` does.
pub proof fn lemma_sorted(s: Seq<u32>)
    ensures
        ascending(sorted(s)),
        sorted(s).len() == s.len(),
        sorted(s).to_multiset() == s.to_multiset(),
    decreases s.len(),
{
    if s.len() > 0 {
        let rest = s.drop_last();
        lemma_sorted(rest);
        lemma_insert_ascending(sorted(rest), s.last());
        lemma_insert_len(sorted(rest), s.last());
        lemma_insert_multiset(sorted(rest), s.last());
        to_multiset_build(rest, s.last());
        assert(rest.push(s.last()) =~= s);
    }
}

/// Two ascending sequences with the same elements, counted, are the same
/// sequence.
pub proof fn lemma_ascending_unique(a: Seq<u32>, b: Seq<u32>)
    requires
        ascending(a),
        ascending(b),
        a.to_multiset() == b.to_multiset(),
    ensures
        a == b,
{
    let leq = at_most();
    assert(sorted_by(a, leq));
    assert(sorted_by(b, leq));
    assert(total_ordering(leq));
    lemma_sorted_unique(a, b, leq);
}

/// One more element at the end of the input is one more element that fits,
/// or none.
pub proof fn lemma_fitting_push(s: Seq<u32>, v: u32, max: u32)
    ensures
        fitting(s.push(v), max) == (if v <= max {
            fitting(s, max).push(v)
        } else {
            fitting(s, max)
        }),
        fitting(Seq::<u32>::empty(), max) == Seq::<u32>::empty(),
{
    s.lemma_filter_push(v, |v: u32| v <= max);
    reveal(Seq::filter);
}

/// Where every element fits, all are kept.
pub proof fn lemma_fitting_all(s: Seq<u32>, max: u32)
    requires
        forall|i: int| 0 <= i < s.len() ==> s[i] <= max,
    ensures
        fitting(s, max) == s,
    decreases s.len(),
{
    if s.len() == 0 {
        lemma_fitting_push(s, 0, max);
        assert(s =~= Seq::<u32>::empty());
    } else {
        lemma_fitting_all(s.drop_last(), max);
        lemma_fitting_push(s.drop_last(), s.last(), max);
        assert(s.drop_last().push(s.last()) =~= s);
    }
}

/// Cutting an ascending sequence down to `k` before an insertion loses
/// nothing that the first `k` elements after the insertion depend on.
pub proof fn lemma_bounded_insert_prefix(a: Seq<u32>, v: u32, k: nat)
    requires
        ascending(a),
    ensures
        prefix(insert_ascending(a, v), k) == bounded_insert(prefix(a, k), v, k),
{
    if k < a.len() {
        let p = lemma_first_insertion_point(a, v);
        lemma_insert_at(a, v, p);
        let head = a.take(k as int);
        if p <= k {
            assert(insertion_point(head, v, p));
            lemma_insert_at(head, v, p);
            assert(a.insert(p, v).take(k as int) =~= head.insert(p, v).take(k as int));
        } else {
            assert(insertion_point(head, v, k as int)) by {
                assert forall|j: int| 0 <= j < k implies head[j] <= v by {
                    assert(a[j] < v);
                }
            }
            lemma_insert_at(head, v, k as int);
            assert(a.insert(p, v).take(k as int) =~= head);
            assert(head.insert(k as int, v).take(k as int) =~= head);
        }
    }
}

/// One more element at the end of the input is one more offer to the bounded
/// buffer.
pub proof fn lemma_smallest_push(s: Seq<u32>, v: u32, k: nat)
    ensures
        smallest(s.push(v), k) == bounded_insert(smallest(s, k), v, k),
{
    assert(s.push(v).drop_last() =~= s);
    lemma_sorted(s);
    lemma_bounded_insert_prefix(sorted(s), v, k);
}

/// An offer keeps an ascending buffer ascending and within its bound.
pub proof fn lemma_bounded_insert(buf: Seq<u32>, v: u32, k: nat)
    requires
        ascending(buf),
        buf.len() <= k,
    ensures
        ascending(bounded_insert(buf, v, k)),
        bounded_insert(buf, v, k).len() <= k,
        bounded_insert(buf, v, k).len() == (if buf.len() < k {
            buf.len() + 1
        } else {
            k
        }),
{
    lemma_insert_ascending(buf, v);
    lemma_insert_len(buf, v);
}

/// An ascending sequence is its own sorted form.
pub proof fn lemma_sorted_fixed(a: Seq<u32>)
    requires
        ascending(a),
    ensures
        sorted(a) == a,
{
    lemma_sorted(a);
    lemma_ascending_unique(sorted(a), a);
}

/// The sorted form depends on which elements there are and how often, not on
/// their order.
pub proof fn lemma_sorted_permutation(a: Seq<u32>, b: Seq<u32>)
    requires
        a.to_multiset() == b.to_multiset(),
    ensures
        sorted(a) == sorted(b),
{
    lemma_sorted(a);
    lemma_sorted(b);
    lemma_ascending_unique(sorted(a), sorted(b));
}

/// The `k` smallest are ascending, and there are `k` of them, or as many as
/// the input has where it has fewer.
pub proof fn lemma_smallest_shape(s: Seq<u32>, k: nat)
    ensures
        ascending(smallest(s, k)),
        smallest(s, k).len() == (if s.len() < k {
            s.len()
        } else {
            k
        }),
{
    lemma_sorted(s);
}

/// Selecting from a selection changes nothing.
pub proof fn lemma_smallest_idempotent(s: Seq<u32>, k: nat)
    ensures
        smallest(smallest(s, k), k) == smallest(s, k),
{
    lemma_smallest_shape(s, k);
    lemma_sorted_fixed(smallest(s, k));
}

/// The front part of an input can be replaced by its own selection.
pub proof fn lemma_smallest_concat_left(a: Seq<u32>, b: Seq<u32>, k: nat)
    ensures
        smallest(a + b, k) == smallest(smallest(a, k) + b, k),
    decreases b.len(),
{
    if b.len() == 0 {
        assert(a + b =~= a);
        assert(smallest(a, k) + b =~= smallest(a, k));
        lemma_smallest_idempotent(a, k);
    } else {
        let front = b.drop_last();
        let v = b.last();
        lemma_smallest_concat_left(a, front, k);
        assert((a + front).push(v) =~= a + b);
        assert((smallest(a, k) + front).push(v) =~= smallest(a, k) + b);
        lemma_smallest_push(a + front, v, k);
        lemma_smallest_push(smallest(a, k) + front, v, k);
    }
}

/// The selection does not depend on which of two parts of the input comes
/// first.
pub proof fn lemma_smallest_commutes(a: Seq<u32>, b: Seq<u32>, k: nat)
    ensures
        smallest(a + b, k) == smallest(b + a, k),
{
    lemma_seq_union_to_multiset_commutative(a, b);
    lemma_sorted_permutation(a + b, b + a);
}

/// The selection from an input in two parts is the selection from the two
/// parts' own selections.
pub proof fn lemma_smallest_concat(a: Seq<u32>, b: Seq<u32>, k: nat)
    ensures
        smallest(a + b, k) == smallest(smallest(a, k) + smallest(b, k), k),
{
    lemma_smallest_concat_left(a, b, k);
    lemma_smallest_commutes(smallest(a, k), b, k);
    lemma_smallest_concat_left(b, smallest(a, k), k);
    lemma_smallest_commutes(smallest(b, k), smallest(a, k), k);
}

/// What makes a sequence the `k` smallest of `s`: it is ascending, it and
/// some `rest` together hold exactly the elements of `s`, nothing in `rest`
/// is below anything in it, and it has `k` elements unless `rest` is empty
/// and it has fewer.
pub proof fn lemma_smallest_split(s: Seq<u32>, out: Seq<u32>, rest: Seq<u32>, k: nat)
    requires
        ascending(out),
        (out + rest).to_multiset() == s.to_multiset(),
        forall|i: int, j: int| 0 <= i < out.len() && 0 <= j < rest.len() ==> out[i] <= rest[j],
        out.len() <= k,
        out.len() == k || rest.len() == 0,
    ensures
        out == smallest(s, k),
{
    broadcast use group_multiset_axioms;

    let tail = sorted(rest);
    lemma_sorted(rest);
    lemma_sorted(s);
    let whole = out + tail;
    assert(ascending(whole)) by {
        assert forall|i: int, j: int| 0 <= i <= j < whole.len() implies whole[i] <= whole[j] by {
            if i < out.len() && j >= out.len() {
                let t = tail[j - out.len()];
                assert(tail.contains(t));
                to_multiset_contains(tail, t);
                to_multiset_contains(rest, t);
                let at = choose|at: int| 0 <= at < rest.len() && rest[at] == t;
                assert(out[i] <= rest[at]);
            }
        }
    }
    lemma_multiset_commutative(out, tail);
    lemma_multiset_commutative(out, rest);
    lemma_ascending_unique(whole, sorted(s));
    assert(prefix(whole, k) =~= out);
}

/// Where a merged result stands for the input seen so far, it still does
/// after one more piece of input and that piece's own selection are added.
pub proof fn lemma_smallest_extends(merged: Seq<u32>, seen: Seq<u32>, piece: Seq<u32>, k: nat)
    requires
        smallest(merged, k) == smallest(seen, k),
    ensures
        smallest(merged + smallest(piece, k), k) == smallest(seen + piece, k),
{
    lemma_smallest_concat(merged, smallest(piece, k), k);
    lemma_smallest_idempotent(piece, k);
    lemma_smallest_concat(seen, piece, k);
}

/// `c` is where the elements of the ascending `a` stop fitting: the first
/// `c` are not above `max`, all others are.
pub open spec fn fitting_count(a: Seq<u32>, max: u32, c: int) -> bool {
    &&& 0 <= c <= a.len()
    &&& forall|i: int| 0 <= i < c ==> a[i] <= max
    &&& forall|i: int| c <= i < a.len() ==> a[i] > max
}

/// The elements of an ascending sequence that fit are a prefix of it; the
/// result is the length of that prefix.
pub proof fn lemma_fitting_prefix(a: Seq<u32>, max: u32) -> (c: int)
    requires
        ascending(a),
    ensures
        fitting_count(a, max, c),
        fitting(a, max) == a.take(c),
    decreases a.len(),
{
    if a.len() == 0 {
        lemma_fitting_all(a, max);
        assert(a.take(0) =~= a);
        0
    } else if a.last() <= max {
        assert forall|i: int| 0 <= i < a.len() implies a[i] <= max by {
            assert(a[i] <= a[a.len() - 1]);
        }
        lemma_fitting_all(a, max);
        assert(a.take(a.len() as int) =~= a);
        a.len() as int
    } else {
        let front = a.drop_last();
        let c = lemma_fitting_prefix(front, max);
        lemma_fitting_push(front, a.last(), max);
        assert(front.push(a.last()) =~= a);
        assert(front.take(c) =~= a.take(c));
        c
    }
}

/// Of an insertion into an ascending sequence, what fits is the insertion,
/// into what fitted before, of the value if it fits.
pub proof fn lemma_fitting_insert(a: Seq<u32>, v: u32, max: u32)
    requires
        ascending(a),
    ensures
        fitting(insert_ascending(a, v), max) == (if v <= max {
            insert_ascending(fitting(a, max), v)
        } else {
            fitting(a, max)
        }),
{
    let p = lemma_first_insertion_point(a, v);
    lemma_insert_at(a, v, p);
    lemma_insert_ascending(a, v);
    let b = a.insert(p, v);
    let c = lemma_fitting_prefix(a, max);
    let d = lemma_fitting_prefix(b, max);
    if v <= max {
        assert(p <= c) by {
            if c < p {
                assert(a[c] < v);
            }
        }
        assert(d == c + 1) by {
            if d <= c {
                assert(b[d] > max);
                if d < p {
                    assert(b[d] == a[d]);
                } else if d > p {
                    assert(b[d] == a[d - 1]);
                }
            } else if d > c + 1 {
                assert(b[c + 1] <= max);
                assert(b[c + 1] == a[c]);
            }
        }
        let head = a.take(c);
        assert(insertion_point(head, v, p));
        lemma_insert_at(head, v, p);
        assert(b.take(c + 1) =~= head.insert(p, v));
    } else {
        assert(c <= p) by {
            if p < c {
                assert(v <= a[p]);
            }
        }
        assert(d == c) by {
            if d < c {
                assert(b[d] > max);
                assert(b[d] == a[d]);
            } else if d > c {
                assert(b[c] <= max);
                if c < p {
                    assert(b[c] == a[c]);
                } else if c > p {
                    assert(b[c] == a[c - 1]);
                }
            }
        }
        assert(b.take(c) =~= a.take(c));
    }
}

/// Sorting what fits is keeping what fits of the sorted input.
pub proof fn lemma_fitting_sorted(s: Seq<u32>, max: u32)
    ensures
        sorted(fitting(s, max)) == fitting(sorted(s), max),
    decreases s.len(),
{
    if s.len() == 0 {
        lemma_fitting_all(s, max);
    } else {
        let front = s.drop_last();
        let v = s.last();
        assert(front.push(v) =~= s);
        lemma_fitting_sorted(front, max);
        lemma_sorted(front);
        lemma_fitting_insert(sorted(front), v, max);
        lemma_fitting_push(front, v, max);
        if v <= max {
            assert(fitting(front, max).push(v).drop_last() =~= fitting(front, max));
        }
    }
}

/// Passing over the values that do not fit leaves the selection as it is
/// exactly where every one of the `k` smallest fits, and makes it shorter
/// everywhere else.
pub proof fn lemma_fitting_selection(s: Seq<u32>, k: nat, max: u32)
    ensures
        (forall|i: int| 0 <= i < smallest(s, k).len() ==> smallest(s, k)[i] <= max) <==> smallest(
            fitting(s, max),
            k,
        ).len() == smallest(s, k).len(),
        (forall|i: int| 0 <= i < smallest(s, k).len() ==> smallest(s, k)[i] <= max) ==> smallest(
            fitting(s, max),
            k,
        ) == smallest(s, k),
{
    let all = sorted(s);
    lemma_sorted(s);
    lemma_fitting_sorted(s, max);
    let c = lemma_fitting_prefix(all, max);
    let full = smallest(s, k);
    let got = smallest(fitting(s, max), k);
    assert(got == prefix(all.take(c), k));
    if full.len() <= c {
        assert(got =~= full);
        assert forall|i: int| 0 <= i < full.len() implies full[i] <= max by {
            assert(full[i] == all[i]);
        }
    } else {
        assert(got.len() == c);
        assert(full[c] == all[c]);
        assert(full[c] > max);
    }
}

} // verus!
