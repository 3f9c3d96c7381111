//! Lists of object ids: the pairs one list offers to the collision pass,
//! and how many ids a run of lists holds.
use vstd::prelude::*;

verus! {

/// The pairs `(object_id, other)` for each `other` in `list`, in list order,
/// skipping `object_id` itself.
pub open spec fn cell_pairs(list: Seq<usize>, object_id: usize) -> Seq<(usize, usize)>
    decreases list.len(),
{
    if list.len() == 0 {
        Seq::empty()
    } else {
        let rest = cell_pairs(list.drop_last(), object_id);
        if list.last() == object_id {
            rest
        } else {
            rest.push((object_id, list.last()))
        }
    }
}

/// No pair pairs an object with itself.
pub open spec fn no_self_pairs(pairs: Seq<(usize, usize)>) -> bool {
    forall|i: int| 0 <= i < pairs.len() ==> (#[trigger] pairs[i]).0 != pairs[i].1
}

/// Every pair that `cell_pairs` yields starts with `object_id` and names
/// another object of the list.
pub proof fn lemma_cell_pairs_shape(list: Seq<usize>, object_id: usize)
    ensures
        no_self_pairs(cell_pairs(list, object_id)),
        forall|i: int|
            0 <= i < cell_pairs(list, object_id).len() ==> (#[trigger] cell_pairs(
                list,
                object_id,
            )[i]).0 == object_id && list.contains(cell_pairs(list, object_id)[i].1),
        cell_pairs(list, object_id).len() <= list.len(),
    decreases list.len(),
{
    if list.len() > 0 {
        lemma_cell_pairs_shape(list.drop_last(), object_id);
        let rest = cell_pairs(list.drop_last(), object_id);
        assert forall|i: int| 0 <= i < rest.len() implies list.contains(#[trigger] rest[i].1) by {
            let j = choose|j: int| 0 <= j < list.drop_last().len() && list.drop_last()[j] == rest[i].1;
            assert(list[j] == rest[i].1);
        }
        assert(list[list.len() - 1] == list.last());
    }
}

/// Concatenation keeps pairs free of self-pairs.
pub proof fn lemma_no_self_pairs_add(a: Seq<(usize, usize)>, b: Seq<(usize, usize)>)
    requires
        no_self_pairs(a),
        no_self_pairs(b),
    ensures
        no_self_pairs(a + b),
{
    assert forall|i: int| 0 <= i < (a + b).len() implies (#[trigger] (a + b)[i]).0 != (a
        + b)[i].1 by {
        if i < a.len() {
            assert((a + b)[i] == a[i]);
        } else {
            assert((a + b)[i] == b[i - a.len()]);
        }
    }
}

/// Appending `x` to the list appends at most the pair `(object_id, x)`.
pub proof fn lemma_cell_pairs_push(list: Seq<usize>, x: usize, object_id: usize)
    ensures
        cell_pairs(list.push(x), object_id) == if x == object_id {
            cell_pairs(list, object_id)
        } else {
            cell_pairs(list, object_id).push((object_id, x))
        },
{
    assert(list.push(x).drop_last() =~= list);
}

/// How many ids the lists hold together.
pub open spec fn total_listed(cells: Seq<Seq<usize>>) -> nat
    decreases cells.len(),
{
    if cells.len() == 0 {
        0
    } else {
        total_listed(cells.drop_last()) + cells.last().len()
    }
}

/// Appending an id to one list adds one to the total.
pub proof fn lemma_total_listed_push(cells: Seq<Seq<usize>>, k: int, id: usize)
    requires
        0 <= k < cells.len(),
    ensures
        total_listed(cells.update(k, cells[k].push(id))) == total_listed(cells) + 1,
    decreases cells.len(),
{
    let updated = cells.update(k, cells[k].push(id));
    if k == cells.len() - 1 {
        assert(updated.drop_last() =~= cells.drop_last());
    } else {
        lemma_total_listed_push(cells.drop_last(), k, id);
        assert(updated.drop_last() =~= cells.drop_last().update(k, cells[k].push(id)));
    }
}

/// A run of empty lists holds no id.
pub proof fn lemma_total_listed_empty(n: nat)
    ensures
        total_listed(Seq::new(n, |k: int| Seq::<usize>::empty())) == 0,
    decreases n,
{
    if n > 0 {
        lemma_total_listed_empty((n - 1) as nat);
        assert(Seq::new(n, |k: int| Seq::<usize>::empty()).drop_last() =~= Seq::new(
            (n - 1) as nat,
            |k: int| Seq::<usize>::empty(),
        ));
    }
}

/// An element of either part is an element of a concatenation.
pub proof fn lemma_contains_add<A>(s: Seq<A>, t: Seq<A>, e: A)
    ensures
        s.contains(e) || t.contains(e) ==> (s + t).contains(e),
{
    if s.contains(e) {
        let i = choose|i: int| 0 <= i < s.len() && s[i] == e;
        assert((s + t)[i] == e);
    } else if t.contains(e) {
        let i = choose|i: int| 0 <= i < t.len() && t[i] == e;
        assert((s + t)[s.len() + i] == e);
    }
}

/// A cell offers `object_id` the pair with every other object it lists.
pub proof fn lemma_cell_pairs_contains(list: Seq<usize>, object_id: usize, other: usize)
    requires
        list.contains(other),
        other != object_id,
    ensures
        cell_pairs(list, object_id).contains((object_id, other)),
    decreases list.len(),
{
    let i = choose|i: int| 0 <= i < list.len() && list[i] == other;
    let rest = cell_pairs(list.drop_last(), object_id);
    if i == list.len() - 1 {
        assert(list.last() == other);
        assert(cell_pairs(list, object_id)[rest.len() as int] == (object_id, other));
    } else {
        assert(list.drop_last()[i] == other);
        lemma_cell_pairs_contains(list.drop_last(), object_id, other);
        if list.last() != object_id {
            lemma_contains_add(rest, seq![(object_id, list.last())], (object_id, other));
            assert(rest.push((object_id, list.last())) =~= rest + seq![(object_id, list.last())]);
        }
    }
}

/// An element of a concatenation is an element of one of its parts.
pub proof fn lemma_contains_split<A>(s: Seq<A>, t: Seq<A>, e: A)
    ensures
        (s + t).contains(e) ==> s.contains(e) || t.contains(e),
{
    if (s + t).contains(e) {
        let i = choose|i: int| 0 <= i < (s + t).len() && (s + t)[i] == e;
        if i < s.len() {
            assert(s[i] == e);
        } else {
            assert(t[i - s.len()] == e);
        }
    }
}

} // verus!
