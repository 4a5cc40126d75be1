//! The edges that leave one node, in the order in which they were added.
//!
//! An adjacency entry is a sequence of edges. This module says what it means
//! for such a sequence to lead to a node, which of its edges is the first to
//! do so, and what is left of it once the edges to a node are struck out; and
//! it holds the loops that compute these on a `Vec`.

use crate::edge::Edge;
use crate::id::ID;
use vstd::prelude::*;

verus! {

/// The index of the first element of `s` of which `p` holds, or `s.len()`
/// where it holds of none.
pub open spec fn first_where<A>(s: Seq<A>, p: spec_fn(A) -> bool) -> int
    decreases s.len(),
{
    if s.len() == 0 {
        0
    } else if p(s[0]) {
        0
    } else {
        1 + first_where(s.drop_first(), p)
    }
}

/// Some edge of `edges` leads to `dest`.
pub open spec fn leads_to<E>(edges: Seq<Edge<E>>, dest: ID) -> bool {
    exists|i: int| 0 <= i < edges.len() && (#[trigger] edges[i]).dest == dest
}

/// The index of the first edge of `edges` that leads to `dest`, or
/// `edges.len()` where none does.
pub open spec fn first_to<E>(edges: Seq<Edge<E>>, dest: ID) -> int {
    first_where(edges, |e: Edge<E>| e.dest == dest)
}

/// The index of the first edge of `edges` that is named `id`, or
/// `edges.len()` where none is.
pub open spec fn first_named<E>(edges: Seq<Edge<E>>, id: ID) -> int {
    first_where(edges, |e: Edge<E>| e.id == id)
}

/// The edges of `edges` that do not lead to `dest`, in their order.
pub open spec fn without_dest<E>(edges: Seq<Edge<E>>, dest: ID) -> Seq<Edge<E>> {
    edges.filter(|e: Edge<E>| e.dest != dest)
}

/// How many edges of `edges` lead to `dest`.
pub open spec fn count_to<E>(edges: Seq<Edge<E>>, dest: ID) -> nat {
    edges.filter(|e: Edge<E>| e.dest == dest).len()
}

/// Some edge of `edges` is named `id`.
pub open spec fn holds_named<E>(edges: Seq<Edge<E>>, id: ID) -> bool {
    exists|i: int| 0 <= i < edges.len() && (#[trigger] edges[i]).id == id
}

/// No two edges of `edges` have the same name.
pub open spec fn names_differ<E>(edges: Seq<Edge<E>>) -> bool {
    forall|i: int, j: int|
        0 <= i < edges.len() && 0 <= j < edges.len() && i != j ==> (#[trigger] edges[i]).id
            != (#[trigger] edges[j]).id
}

/// `first_where` finds an element exactly where there is one, and none
/// before the one it finds satisfies `p`.
pub proof fn lemma_first_where<A>(s: Seq<A>, p: spec_fn(A) -> bool)
    ensures
        0 <= first_where(s, p) <= s.len(),
        first_where(s, p) < s.len() ==> p(s[first_where(s, p)]),
        forall|j: int| 0 <= j < first_where(s, p) ==> !p(#[trigger] s[j]),
    decreases s.len(),
{
    if s.len() > 0 && !p(s[0]) {
        let rest = s.drop_first();
        lemma_first_where(rest, p);
        assert forall|j: int| 0 <= j < first_where(s, p) implies !p(#[trigger] s[j]) by {
            if j > 0 {
                assert(s[j] == rest[j - 1]);
            }
        }
    }
}

/// An index at which `p` holds, with none before it at which it does, is the
/// one that `first_where` gives; so is `s.len()` where `p` holds nowhere.
pub proof fn lemma_first_where_is<A>(s: Seq<A>, p: spec_fn(A) -> bool, i: int)
    requires
        0 <= i <= s.len(),
        i < s.len() ==> p(s[i]),
        forall|j: int| 0 <= j < i ==> !p(#[trigger] s[j]),
    ensures
        first_where(s, p) == i,
{
    lemma_first_where(s, p);
    let f = first_where(s, p);
    if f < i {
        assert(!p(s[f]));
    } else if i < f {
        assert(!p(s[i]));
    }
}

/// `first_to` is below the length exactly where some edge leads to `dest`;
/// the edge it then points at leads there, and none before it does.
pub proof fn lemma_first_to<E>(edges: Seq<Edge<E>>, dest: ID)
    ensures
        0 <= first_to(edges, dest) <= edges.len(),
        leads_to(edges, dest) <==> first_to(edges, dest) < edges.len(),
        first_to(edges, dest) < edges.len() ==> edges[first_to(edges, dest)].dest == dest,
        forall|j: int| 0 <= j < first_to(edges, dest) ==> (#[trigger] edges[j]).dest != dest,
{
    let p = |e: Edge<E>| e.dest == dest;
    lemma_first_where(edges, p);
    let f = first_to(edges, dest);
    if leads_to(edges, dest) {
        let i = choose|i: int| 0 <= i < edges.len() && (#[trigger] edges[i]).dest == dest;
        if f >= edges.len() {
            assert(!p(edges[i]));
        }
    }
    assert forall|j: int| 0 <= j < f implies (#[trigger] edges[j]).dest != dest by {
        assert(!p(edges[j]));
    }
}

/// `first_named` is below the length exactly where some edge is named `id`;
/// the edge it then points at has that name, and none before it has.
pub proof fn lemma_first_named<E>(edges: Seq<Edge<E>>, id: ID)
    ensures
        0 <= first_named(edges, id) <= edges.len(),
        holds_named(edges, id) <==> first_named(edges, id) < edges.len(),
        first_named(edges, id) < edges.len() ==> edges[first_named(edges, id)].id == id,
        forall|j: int| 0 <= j < first_named(edges, id) ==> (#[trigger] edges[j]).id != id,
{
    let p = |e: Edge<E>| e.id == id;
    lemma_first_where(edges, p);
    if holds_named(edges, id) {
        let i = choose|i: int| 0 <= i < edges.len() && (#[trigger] edges[i]).id == id;
        if first_named(edges, id) >= edges.len() {
            assert(!p(edges[i]));
        }
    }
    assert forall|j: int| 0 <= j < first_named(edges, id) implies (#[trigger] edges[j]).id
        != id by {
        assert(!p(edges[j]));
    }
}

/// Striking out the edges to `dest` from a sequence that ends in `e` keeps
/// `e` at the end exactly where `e` leads elsewhere.
pub proof fn lemma_without_dest_push<E>(edges: Seq<Edge<E>>, e: Edge<E>, dest: ID)
    ensures
        without_dest(edges.push(e), dest) == if e.dest != dest {
            without_dest(edges, dest).push(e)
        } else {
            without_dest(edges, dest)
        },
{
    reveal(Seq::filter);
    assert(edges.push(e).drop_last() == edges);
}

/// What is left after striking out the edges to `dest`: every edge that is
/// left was there before and leads elsewhere, and every edge that led
/// elsewhere is left.
pub proof fn lemma_without_dest<E>(edges: Seq<Edge<E>>, dest: ID)
    ensures
        without_dest(edges, dest).len() <= edges.len(),
        !leads_to(without_dest(edges, dest), dest),
        forall|i: int|
            0 <= i < without_dest(edges, dest).len() ==> (#[trigger] without_dest(
                edges,
                dest,
            )[i]).dest != dest && edges.contains(without_dest(edges, dest)[i]),
        forall|i: int|
            0 <= i < edges.len() && (#[trigger] edges[i]).dest != dest ==> without_dest(
                edges,
                dest,
            ).contains(edges[i]),
    decreases edges.len(),
{
    let kept = without_dest(edges, dest);
    if edges.len() == 0 {
        reveal(Seq::filter);
    } else {
        let front = edges.drop_last();
        let last = edges.last();
        lemma_without_dest(front, dest);
        lemma_without_dest_push(front, last, dest);
        assert(front.push(last) == edges);
        let kept_front = without_dest(front, dest);
        assert forall|i: int| 0 <= i < kept.len() implies (#[trigger] kept[i]).dest != dest
            && edges.contains(kept[i]) by {
            if i < kept_front.len() {
                assert(kept[i] == kept_front[i]);
                let j = choose|j: int| 0 <= j < front.len() && front[j] == kept_front[i];
                assert(edges[j] == kept[i]);
            } else {
                assert(kept[i] == last);
                assert(edges[edges.len() - 1] == last);
            }
        }
        assert forall|i: int| 0 <= i < edges.len() && (#[trigger] edges[i]).dest
            != dest implies kept.contains(edges[i]) by {
            if i < front.len() {
                assert(front[i] == edges[i]);
                let j = choose|j: int| 0 <= j < kept_front.len() && kept_front[j] == front[i];
                assert(kept[j] == edges[i]);
            } else {
                assert(kept[kept.len() - 1] == edges[i]);
            }
        }
    }
}

/// Striking out edges leaves the names of the others different from one
/// another.
pub proof fn lemma_without_dest_names_differ<E>(edges: Seq<Edge<E>>, dest: ID)
    requires
        names_differ(edges),
    ensures
        names_differ(without_dest(edges, dest)),
    decreases edges.len(),
{
    let kept = without_dest(edges, dest);
    if edges.len() == 0 {
        reveal(Seq::filter);
    } else {
        let front = edges.drop_last();
        let last = edges.last();
        assert(names_differ(front)) by {
            assert forall|i: int, j: int|
                0 <= i < front.len() && 0 <= j < front.len() && i != j implies (#[trigger] front[i]).id
                != (#[trigger] front[j]).id by {
                assert(front[i] == edges[i] && front[j] == edges[j]);
            }
        }
        lemma_without_dest_names_differ(front, dest);
        lemma_without_dest(front, dest);
        lemma_without_dest_push(front, last, dest);
        assert(front.push(last) == edges);
        let kept_front = without_dest(front, dest);
        assert forall|i: int, j: int|
            0 <= i < kept.len() && 0 <= j < kept.len() && i != j implies (#[trigger] kept[i]).id
            != (#[trigger] kept[j]).id by {
            if i < kept_front.len() && j < kept_front.len() {
                assert(kept[i] == kept_front[i] && kept[j] == kept_front[j]);
            } else {
                let k = if i < kept_front.len() {
                    i
                } else {
                    j
                };
                assert(kept[k] == kept_front[k]);
                assert(front.contains(kept_front[k]));
                let m = choose|m: int| 0 <= m < front.len() && front[m] == kept_front[k];
                assert(edges[m] == kept[k]);
                assert(edges[edges.len() - 1] == last);
                assert(edges[m].id != edges[edges.len() - 1].id);
            }
        }
    }
}

/// Striking out the edges to one node changes nothing about whether the
/// sequence leads to another.
pub proof fn lemma_without_dest_keeps_others<E>(edges: Seq<Edge<E>>, dest: ID, other: ID)
    requires
        other != dest,
    ensures
        leads_to(without_dest(edges, dest), other) == leads_to(edges, other),
{
    let kept = without_dest(edges, dest);
    lemma_without_dest(edges, dest);
    if leads_to(edges, other) {
        let i = choose|i: int| 0 <= i < edges.len() && (#[trigger] edges[i]).dest == other;
        assert(kept.contains(edges[i]));
        let j = choose|j: int| 0 <= j < kept.len() && kept[j] == edges[i];
        assert(kept[j].dest == other);
    }
    if leads_to(kept, other) {
        let j = choose|j: int| 0 <= j < kept.len() && (#[trigger] kept[j]).dest == other;
        assert(edges.contains(kept[j]));
        let i = choose|i: int| 0 <= i < edges.len() && edges[i] == kept[j];
        assert(edges[i].dest == other);
    }
}

/// Adding an edge at the end raises the count of the edges to `dest` by
/// one where the edge leads there, and leaves it otherwise.
pub proof fn lemma_count_to_push<E>(edges: Seq<Edge<E>>, e: Edge<E>, dest: ID)
    ensures
        count_to(edges.push(e), dest) == count_to(edges, dest) + if e.dest == dest {
            1nat
        } else {
            0nat
        },
{
    reveal(Seq::filter);
    assert(edges.push(e).drop_last() == edges);
}

/// A sequence leads to `dest` exactly where it counts an edge to `dest`.
pub proof fn lemma_count_to_positive<E>(edges: Seq<Edge<E>>, dest: ID)
    ensures
        leads_to(edges, dest) <==> count_to(edges, dest) > 0,
    decreases edges.len(),
{
    if edges.len() == 0 {
        reveal(Seq::filter);
    } else {
        let front = edges.drop_last();
        let last = edges.last();
        lemma_count_to_positive(front, dest);
        lemma_count_to_push(front, last, dest);
        assert(front.push(last) == edges);
        if leads_to(front, dest) {
            let i = choose|i: int| 0 <= i < front.len() && (#[trigger] front[i]).dest == dest;
            assert(edges[i].dest == dest);
        }
        if last.dest == dest {
            assert(edges[edges.len() - 1].dest == dest);
        }
        if leads_to(edges, dest) && last.dest != dest {
            let i = choose|i: int| 0 <= i < edges.len() && (#[trigger] edges[i]).dest == dest;
            assert(front[i].dest == dest);
        }
    }
}

/// Where no edge of `edges` leads to `dest` and `e` does, `e` is the first
/// edge of `edges.push(e)` that leads there.
pub proof fn lemma_first_to_push<E>(edges: Seq<Edge<E>>, e: Edge<E>, dest: ID)
    requires
        !leads_to(edges, dest),
        e.dest == dest,
    ensures
        first_to(edges.push(e), dest) == edges.len(),
        leads_to(edges.push(e), dest),
{
    let longer = edges.push(e);
    assert(longer[edges.len() as int].dest == dest);
    assert forall|j: int| 0 <= j < edges.len() implies !(|x: Edge<E>| x.dest == dest)(
        #[trigger] longer[j],
    ) by {
        assert(edges[j].dest != dest);
    }
    lemma_first_where_is(longer, |x: Edge<E>| x.dest == dest, edges.len() as int);
}

/// The position of the first edge of `edges` that leads to `dest`.
pub fn find_edge_to<E>(edges: &Vec<Edge<E>>, dest: &ID) -> (r: Option<usize>)
    ensures
        r is Some <==> leads_to(edges@, *dest),
        r matches Some(i) ==> i == first_to(edges@, *dest) && i < edges.len(),
{
    let mut i: usize = 0;
    while i < edges.len()
        invariant
            i <= edges.len(),
            forall|j: int| 0 <= j < i ==> (#[trigger] edges@[j]).dest != *dest,
        decreases edges.len() - i,
    {
        if edges[i].dest == *dest {
            proof {
                lemma_first_to(edges@, *dest);
                lemma_first_where_is(edges@, |e: Edge<E>| e.dest == *dest, i as int);
            }
            return Some(i);
        }
        i = i + 1;
    }
    None
}

/// The position of the first edge of `edges` that is named `id`.
pub fn find_edge_named<E>(edges: &Vec<Edge<E>>, id: &ID) -> (r: Option<usize>)
    ensures
        r is Some <==> first_named(edges@, *id) < edges.len(),
        r matches Some(i) ==> i == first_named(edges@, *id),
{
    let mut i: usize = 0;
    while i < edges.len()
        invariant
            i <= edges.len(),
            forall|j: int| 0 <= j < i ==> (#[trigger] edges@[j]).id != *id,
        decreases edges.len() - i,
    {
        if edges[i].id == *id {
            proof {
                lemma_first_where_is(edges@, |e: Edge<E>| e.id == *id, i as int);
            }
            return Some(i);
        }
        i = i + 1;
    }
    proof {
        lemma_first_where_is(edges@, |e: Edge<E>| e.id == *id, edges@.len() as int);
    }
    None
}

/// Strikes out of `edges` every edge that leads to `dest`, and keeps the
/// others in their order.
pub fn remove_edges_to<E>(edges: &mut Vec<Edge<E>>, dest: &ID)
    ensures
        final(edges)@ == without_dest(old(edges)@, *dest),
{
    let ghost before = edges@;
    let ghost seen: int = 0;
    let mut i: usize = 0;
    proof {
        reveal(Seq::filter);
        assert(before.take(0) =~= Seq::<Edge<E>>::empty());
        assert(before.skip(0) =~= before);
        assert(edges@ =~= without_dest(before.take(0), *dest) + before.skip(0));
    }
    while i < edges.len()
        invariant
            0 <= seen <= before.len(),
            i == without_dest(before.take(seen), *dest).len(),
            edges@ == without_dest(before.take(seen), *dest) + before.skip(seen),
        decreases before.len() - seen,
    {
        proof {
            let kept = without_dest(before.take(seen), *dest);
            assert(edges@.len() == kept.len() + (before.len() - seen));
            assert(edges@[i as int] == before.skip(seen)[0]);
            assert(before.take(seen + 1) =~= before.take(seen).push(before[seen]));
            lemma_without_dest_push(before.take(seen), before[seen], *dest);
        }
        if edges[i].dest == *dest {
            edges.remove(i);
            proof {
                assert(edges@ =~= without_dest(before.take(seen + 1), *dest) + before.skip(
                    seen + 1,
                ));
            }
        } else {
            proof {
                assert(edges@ =~= without_dest(before.take(seen + 1), *dest) + before.skip(
                    seen + 1,
                ));
            }
            i = i + 1;
        }
        proof {
            seen = seen + 1;
        }
    }
    proof {
        assert(before.skip(seen).len() == 0);
        assert(before.take(seen) =~= before);
        assert(edges@ =~= without_dest(before, *dest));
    }
}

} // verus!
