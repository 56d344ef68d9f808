//! Splitting an input into consecutive partitions, one for each worker, and
//! merging the workers' bounded results into the selection from the whole.

use crate::buffer::BoundedInsertionBuffer;
use crate::error::SelectError;
use crate::model::{ascending, lemma_smallest_extends, lemma_smallest_split, smallest};
use vstd::multiset::*;
use vstd::prelude::*;
use vstd::seq_lib::*;

verus! {

/// The largest number of partitions that an input is split into.
pub const MAX_WORKERS: usize = 4;

/// The number of partitions for an input of `n` values and a capacity of
/// `k`: one for every `k` values or part of that, but no more than
/// `MAX_WORKERS`.
pub open spec fn spec_partition_count(n: usize, k: usize) -> int {
    let needed = n / k + if n % k == 0 {
        0int
    } else {
        1int
    };
    if needed < MAX_WORKERS {
        needed
    } else {
        MAX_WORKERS as int
    }
}

/// Where partition `i` of `count` begins in an input of `n` values.
pub open spec fn partition_start(n: int, count: int, i: int) -> int {
    i * (n / count)
}

/// Where partition `i` of `count` ends in an input of `n` values: all
/// partitions have the same size but the last, which takes what is left.
pub open spec fn partition_end(n: int, count: int, i: int) -> int {
    if i + 1 < count {
        (i + 1) * (n / count)
    } else {
        n
    }
}

/// The partitions tile the input: the first begins at 0, each begins where
/// the one before it ends, the last ends at `n`, and none runs backwards.
pub proof fn lemma_partitions_tile(n: int, count: int, i: int)
    requires
        0 <= n,
        0 <= i < count,
    ensures
        partition_start(n, count, 0) == 0,
        partition_end(n, count, count - 1) == n,
        i + 1 < count ==> partition_end(n, count, i) == partition_start(n, count, i + 1),
        0 <= partition_start(n, count, i) <= partition_end(n, count, i) <= n,
{
    let size = n / count;
    assert(0 <= size && count * size <= n) by (nonlinear_arith)
        requires
            0 <= n,
            0 < count,
            size == n / count,
    ;
    assert(0 <= i * size && i * size + size == (i + 1) * size && (i + 1) * size <= count * size)
        by (nonlinear_arith)
        requires
            0 <= i < count,
            0 <= size,
    ;
}

pub fn partition_count(n: usize, k: usize) -> (count: usize)
    requires
        1 <= k,
    ensures
        count == spec_partition_count(n, k),
        count <= MAX_WORKERS,
        count == 0 <==> n == 0,
{
    let full: usize = n / k;
    assert(n == k * (n / k) + n % k) by (nonlinear_arith)
        requires
            1 <= k,
    ;
    assert(n / k == 0 ==> k * (n / k) == 0) by (nonlinear_arith);
    if full >= MAX_WORKERS {
        MAX_WORKERS
    } else if n % k == 0 {
        full
    } else {
        full + 1
    }
}

/// The range of the input that partition `i` of `count` covers, as the place
/// of its first value and the place behind its last.
pub fn partition_bounds(n: usize, count: usize, i: usize) -> (bounds: (usize, usize))
    requires
        i < count,
    ensures
        bounds.0 == partition_start(n as int, count as int, i as int),
        bounds.1 == partition_end(n as int, count as int, i as int),
        bounds.0 <= bounds.1 <= n,
{
    proof {
        lemma_partitions_tile(n as int, count as int, i as int);
        if i + 1 < count {
            lemma_partitions_tile(n as int, count as int, i + 1);
        }
    }
    let size: usize = n / count;
    assert(i * size + size == (i + 1) * size) by (nonlinear_arith);
    let start: usize = i * size;
    let end: usize = if i + 1 < count {
        start + size
    } else {
        n
    };
    (start, end)
}

/// The sequences of `parts` one after the other.
pub open spec fn joined(parts: Seq<Seq<u32>>) -> Seq<u32>
    decreases parts.len(),
{
    if parts.len() == 0 {
        Seq::empty()
    } else {
        joined(parts.drop_last()) + parts.last()
    }
}

/// What each of the buffers holds.
pub open spec fn contents(parts: Seq<BoundedInsertionBuffer>) -> Seq<Seq<u32>> {
    Seq::new(parts.len(), |i: int| parts[i]@)
}

/// Of each part, what lies before its cursor.
pub open spec fn taken(parts: Seq<Seq<u32>>, cursors: Seq<usize>) -> Seq<Seq<u32>> {
    Seq::new(parts.len(), |i: int| parts[i].take(cursors[i] as int))
}

/// Of each part, what lies at its cursor and behind it.
pub open spec fn pending(parts: Seq<Seq<u32>>, cursors: Seq<usize>) -> Seq<Seq<u32>> {
    Seq::new(parts.len(), |i: int| parts[i].skip(cursors[i] as int))
}

/// Every cursor lies within its part.
pub open spec fn cursors_within(parts: Seq<Seq<u32>>, cursors: Seq<usize>) -> bool {
    &&& cursors.len() == parts.len()
    &&& forall|i: int| 0 <= i < parts.len() ==> cursors[i] <= parts[i].len()
}

/// Where `front[i]` followed by `back[i]` is `whole[i]` for every `i`, the
/// elements of `joined(front)` and `joined(back)` together are those of
/// `joined(whole)`.
pub proof fn lemma_joined_halves(front: Seq<Seq<u32>>, back: Seq<Seq<u32>>, whole: Seq<Seq<u32>>)
    requires
        front.len() == whole.len(),
        back.len() == whole.len(),
        forall|i: int| 0 <= i < whole.len() ==> front[i] + back[i] == whole[i],
    ensures
        joined(front).to_multiset().add(joined(back).to_multiset()) == joined(whole).to_multiset(),
    decreases whole.len(),
{
    broadcast use group_multiset_axioms;

    if whole.len() == 0 {
        let none = Seq::<u32>::empty();
        lemma_multiset_commutative(none, none);
        assert(none + none =~= none);
    } else {
        lemma_joined_halves(front.drop_last(), back.drop_last(), whole.drop_last());
        lemma_multiset_commutative(joined(front.drop_last()), front.last());
        lemma_multiset_commutative(joined(back.drop_last()), back.last());
        lemma_multiset_commutative(joined(whole.drop_last()), whole.last());
        lemma_multiset_commutative(front.last(), back.last());
        assert(front.last() + back.last() == whole.last());
        assert(joined(front).to_multiset().add(joined(back).to_multiset()) =~= joined(
            whole,
        ).to_multiset());
    }
}

/// One more element at the end of one part is one more element in the whole.
pub proof fn lemma_joined_grows(parts: Seq<Seq<u32>>, j: int, v: u32)
    requires
        0 <= j < parts.len(),
    ensures
        joined(parts.update(j, parts[j].push(v))).to_multiset() == joined(
            parts,
        ).to_multiset().insert(v),
    decreases parts.len(),
{
    broadcast use group_multiset_axioms;

    let grown = parts.update(j, parts[j].push(v));
    lemma_multiset_commutative(joined(parts.drop_last()), parts.last());
    lemma_multiset_commutative(joined(grown.drop_last()), grown.last());
    if j == parts.len() - 1 {
        assert(grown.drop_last() =~= parts.drop_last());
        to_multiset_build(parts.last(), v);
    } else {
        assert(grown.drop_last() =~= parts.drop_last().update(j, parts[j].push(v)));
        lemma_joined_grows(parts.drop_last(), j, v);
    }
    assert(joined(grown).to_multiset() =~= joined(parts).to_multiset().insert(v));
}

/// Every element of `joined(parts)` is an element of one of the parts; the
/// result names the part and the place in it.
pub proof fn lemma_joined_origin(parts: Seq<Seq<u32>>, at: int) -> (place: (int, int))
    requires
        0 <= at < joined(parts).len(),
    ensures
        0 <= place.0 < parts.len(),
        0 <= place.1 < parts[place.0].len(),
        parts[place.0][place.1] == joined(parts)[at],
    decreases parts.len(),
{
    let front = joined(parts.drop_last());
    if at < front.len() {
        lemma_joined_origin(parts.drop_last(), at)
    } else {
        (parts.len() - 1, at - front.len())
    }
}

/// The `k` smallest of each piece.
pub open spec fn selections(pieces: Seq<Seq<u32>>, k: nat) -> Seq<Seq<u32>> {
    Seq::new(pieces.len(), |i: int| smallest(pieces[i], k))
}

/// However an input is cut into consecutive pieces, and into however many,
/// the `k` smallest of the pieces' own `k` smallest are the `k` smallest of
/// the whole input.
pub proof fn lemma_partitioned_selection(pieces: Seq<Seq<u32>>, k: nat)
    ensures
        smallest(joined(selections(pieces, k)), k) == smallest(joined(pieces), k),
    decreases pieces.len(),
{
    if pieces.len() > 0 {
        let front = pieces.drop_last();
        lemma_partitioned_selection(front, k);
        assert(selections(pieces, k).drop_last() =~= selections(front, k));
        lemma_smallest_extends(joined(selections(front, k)), joined(front), pieces.last(), k);
    }
}

/// The input `s` cut into `count` partitions.
pub open spec fn pieces(s: Seq<u32>, count: int) -> Seq<Seq<u32>> {
    Seq::new(
        count as nat,
        |i: int|
            s.subrange(
                partition_start(s.len() as int, count, i),
                partition_end(s.len() as int, count, i),
            ),
    )
}

/// The first `j` partitions, one after the other, are the input up to where
/// partition `j` begins, and all of them together are the input.
pub proof fn lemma_pieces_join(s: Seq<u32>, count: int, j: int)
    requires
        0 <= j <= count,
        1 <= count,
    ensures
        j < count ==> joined(pieces(s, count).take(j)) == s.take(
            partition_start(s.len() as int, count, j),
        ),
        j == count ==> joined(pieces(s, count).take(j)) == s,
    decreases j,
{
    let n = s.len() as int;
    let cut = pieces(s, count);
    if j == 0 {
        lemma_partitions_tile(n, count, 0);
        assert(joined(cut.take(0)) =~= s.take(0));
    } else {
        lemma_pieces_join(s, count, j - 1);
        lemma_partitions_tile(n, count, j - 1);
        assert(cut.take(j).drop_last() =~= cut.take(j - 1));
        let from = partition_start(n, count, j - 1);
        let to = partition_end(n, count, j - 1);
        assert(s.take(from) + s.subrange(from, to) =~= s.take(to));
        assert(s.take(n) =~= s);
    }
}

/// Into however many partitions an input is cut, the `k` smallest of the
/// partitions' own `k` smallest are the `k` smallest of the input: what the
/// merge returns does not depend on the number of workers.
pub proof fn lemma_partitioned_agrees(s: Seq<u32>, count: int, k: nat)
    requires
        1 <= count,
    ensures
        smallest(joined(selections(pieces(s, count), k)), k) == smallest(s, k),
{
    lemma_partitioned_selection(pieces(s, count), k);
    lemma_pieces_join(s, count, count);
    assert(pieces(s, count).take(count) =~= pieces(s, count));
}

/// The part whose next value is the smallest of all the parts' next values,
/// and that value; `None` where every part is used up. Of equal values the
/// one of the earliest part is chosen.
pub fn smallest_head(parts: &Vec<BoundedInsertionBuffer>, cursors: &Vec<usize>) -> (head: Option<
    (usize, u32),
>)
    requires
        forall|i: int| 0 <= i < parts.len() ==> parts[i].wf(),
        cursors_within(contents(parts@), cursors@),
    ensures
        (match head {
            Some((j, v)) => {
                &&& j < parts.len()
                &&& cursors[j as int] < parts[j as int]@.len()
                &&& v == parts[j as int]@[cursors[j as int] as int]
                &&& forall|i: int|
                    0 <= i < parts.len() && cursors[i] < parts[i]@.len() ==> v <= parts[i]@[cursors[i] as int]
                &&& forall|i: int|
                    0 <= i < j && cursors[i] < parts[i]@.len() ==> v < parts[i]@[cursors[i] as int]
            },
            None => forall|i: int| 0 <= i < parts.len() ==> cursors[i] == parts[i]@.len(),
        }),
{
    let ghost whole = contents(parts@);
    let mut head: Option<(usize, u32)> = None;
    let mut i: usize = 0;
    while i < parts.len()
        invariant
            i <= parts.len(),
            whole == contents(parts@),
            forall|i: int| 0 <= i < parts.len() ==> parts[i].wf(),
            cursors_within(whole, cursors@),
            match head {
                Some((j, v)) => {
                    &&& j < i
                    &&& cursors[j as int] < parts[j as int]@.len()
                    &&& v == parts[j as int]@[cursors[j as int] as int]
                    &&& forall|h: int|
                        0 <= h < i && cursors[h] < parts[h]@.len() ==> v <= parts[h]@[cursors[h] as int]
                    &&& forall|h: int|
                        0 <= h < j && cursors[h] < parts[h]@.len() ==> v < parts[h]@[cursors[h] as int]
                },
                None => forall|h: int| 0 <= h < i ==> cursors[h] == parts[h]@.len(),
            },
        decreases parts.len() - i,
    {
        assert(cursors[i as int] <= whole[i as int].len());
        if cursors[i] < parts[i].len() {
            let value: u32 = parts[i].get(cursors[i]);
            let better: bool = match head {
                Some((_, least)) => value < least,
                None => true,
            };
            if better {
                head = Some((i, value));
            }
        }
        i = i + 1;
    }
    head
}

/// The `k` smallest values of all that the parts hold, in ascending order:
/// the smallest of the parts' next values is taken, again and again, until
/// there are `k` or every part is used up.
pub fn merge(parts: &Vec<BoundedInsertionBuffer>, k: usize) -> (out: Vec<u32>)
    requires
        forall|i: int| 0 <= i < parts.len() ==> parts[i].wf(),
    ensures
        out@ == smallest(joined(contents(parts@)), k as nat),
{
    let ghost whole = contents(parts@);
    let mut cursors: Vec<usize> = Vec::new();
    let mut i: usize = 0;
    while i < parts.len()
        invariant
            i <= parts.len(),
            cursors.len() == i,
            forall|j: int| 0 <= j < i ==> cursors[j] == 0,
        decreases parts.len() - i,
    {
        cursors.push(0);
        i = i + 1;
    }
    let mut out: Vec<u32> = Vec::new();
    let mut exhausted: bool = false;
    proof {
        let none = joined(taken(whole, cursors@));
        if none.len() > 0 {
            let place = lemma_joined_origin(taken(whole, cursors@), 0);
        }
        assert(none =~= out@);
    }
    while out.len() < k && !exhausted
        invariant
            whole == contents(parts@),
            forall|i: int| 0 <= i < parts.len() ==> parts[i].wf(),
            cursors_within(whole, cursors@),
            out.len() <= k,
            ascending(out@),
            out@.to_multiset() == joined(taken(whole, cursors@)).to_multiset(),
            forall|x: int, i: int, j: int|
                #![trigger out[x], whole[i][j]]
                0 <= x < out.len() && 0 <= i < whole.len() && cursors[i] <= j < whole[i].len()
                    ==> out[x] <= whole[i][j],
            exhausted ==> forall|i: int| 0 <= i < whole.len() ==> cursors[i] == whole[i].len(),
        decreases
                k - out.len() + (if exhausted {
                    0int
                } else {
                    1int
                }),
    {
        match smallest_head(parts, &cursors) {
            Some((j, v)) => {
                let ghost before = cursors@;
                let ghost held = out@;
                assert forall|i: int| 0 <= i < whole.len() implies ascending(#[trigger] whole[i]) by {
                    parts@[i].lemma_wf();
                }
                proof {
                    parts@[j as int].lemma_wf();
                }
                out.push(v);
                let next: usize = cursors[j] + 1;
                cursors.set(j, next);
                proof {
                    let part = whole[j as int];
                    assert(part.take(next as int) =~= part.take(before[j as int] as int).push(v));
                    assert(taken(whole, cursors@) =~= taken(whole, before).update(
                        j as int,
                        taken(whole, before)[j as int].push(v),
                    ));
                    lemma_joined_grows(taken(whole, before), j as int, v);
                    to_multiset_build(held, v);
                    assert forall|x: int, i: int, h: int|
                        #![trigger out[x], whole[i][h]]
                        0 <= x < out.len() && 0 <= i < whole.len() && cursors[i] <= h
                            < whole[i].len() implies out[x] <= whole[i][h] by {
                        if x == held.len() {
                            assert(before[i] < whole[i].len());
                            assert(v <= whole[i][before[i] as int]);
                            assert(whole[i][before[i] as int] <= whole[i][h]);
                        } else {
                            assert(held[x] <= whole[i][h]);
                        }
                    }
                    assert(ascending(out@)) by {
                        assert forall|a: int, b: int| 0 <= a <= b < out.len() implies out[a]
                            <= out[b] by {
                            if b == held.len() && a < b {
                                assert(held[a] <= whole[j as int][before[j as int] as int]);
                            }
                        }
                    }
                }
            },
            None => {
                exhausted = true;
            },
        }
    }
    proof {
        let rest = joined(pending(whole, cursors@));
        assert forall|i: int| 0 <= i < whole.len() implies taken(whole, cursors@)[i] + pending(
            whole,
            cursors@,
        )[i] == whole[i] by {
            assert(whole[i].take(cursors[i] as int) + whole[i].skip(cursors[i] as int) =~= whole[i]);
        }
        lemma_joined_halves(taken(whole, cursors@), pending(whole, cursors@), whole);
        lemma_multiset_commutative(out@, rest);
        assert forall|x: int, y: int| 0 <= x < out.len() && 0 <= y < rest.len() implies out[x]
            <= rest[y] by {
            let place = lemma_joined_origin(pending(whole, cursors@), y);
            assert(rest[y] == whole[place.0][cursors[place.0] + place.1]);
        }
        if exhausted && rest.len() > 0 {
            let place = lemma_joined_origin(pending(whole, cursors@), 0);
        }
        lemma_smallest_split(joined(whole), out@, rest, k as nat);
    }
    out
}

/// What the workers delivered, where each delivered a buffer.
pub open spec fn delivered(outcomes: Seq<Option<BoundedInsertionBuffer>>) -> Seq<Seq<u32>> {
    Seq::new(outcomes.len(), |i: int| outcomes[i]->Some_0@)
}

/// The merge of what the workers delivered, `None` standing for a worker
/// that failed: with one such worker there is no result, only the error
/// `WorkerFailure`.
pub fn join_partitions(outcomes: Vec<Option<BoundedInsertionBuffer>>, k: usize) -> (result: Result<
    Vec<u32>,
    SelectError,
>)
    requires
        forall|i: int|
            0 <= i < outcomes.len() && (#[trigger] outcomes[i]) is Some
                ==> outcomes[i]->Some_0.wf(),
    ensures
        (exists|i: int| 0 <= i < outcomes.len() && outcomes[i] is None) ==> result == Err::<
            Vec<u32>,
            SelectError,
        >(SelectError::WorkerFailure),
        (forall|i: int| 0 <= i < outcomes.len() ==> outcomes[i] is Some) ==> (result matches Ok(
            out,
        ) && out@ == smallest(joined(delivered(outcomes@)), k as nat)),
{
    let ghost all = outcomes@;
    let mut parts: Vec<BoundedInsertionBuffer> = Vec::new();
    for outcome in it: outcomes
        invariant
            it.seq() == all,
            parts.len() == it.index(),
            forall|i: int| 0 <= i < all.len() && (#[trigger] all[i]) is Some ==> all[i]->Some_0.wf(),
            forall|i: int| 0 <= i < parts.len() ==> all[i] == Some(parts[i]),
            forall|i: int| 0 <= i < parts.len() ==> parts[i].wf(),
    {
        assert(all[it.index() as int] == outcome);
        match outcome {
            Some(part) => {
                parts.push(part);
            },
            None => {
                return Err(SelectError::WorkerFailure);
            },
        }
    }
    assert(contents(parts@) =~= delivered(all));
    Ok(merge(&parts, k))
}

} // verus!
