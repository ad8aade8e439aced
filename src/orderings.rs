use vstd::prelude::*;

use crate::entities::ChapterOrdering;

verus! {

/// `o` after `gone` was deleted: an ordering of the same series ranked after `gone` moves up
/// by one.
pub open spec fn renumbered(o: ChapterOrdering, gone: ChapterOrdering) -> ChapterOrdering {
    if o.comic_id == gone.comic_id && o.rank > gone.rank {
        ChapterOrdering { rank: (o.rank - 1) as u32, ..o }
    } else {
        o
    }
}

/// Index of the first ordering with identifier `id`.
pub open spec fn index_of_id(s: Seq<ChapterOrdering>, id: u32) -> Option<int>
    decreases s.len(),
{
    if s.len() == 0 {
        None
    } else if s.last().id == id {
        match index_of_id(s.drop_last(), id) {
            Some(i) => Some(i),
            None => Some(s.len() - 1),
        }
    } else {
        index_of_id(s.drop_last(), id)
    }
}

/// The ranks of `s` are `0 .. s.len()`, each once.
pub open spec fn dense_ranks(s: Seq<ChapterOrdering>) -> bool {
    &&& forall|i: int| 0 <= i < s.len() ==> (#[trigger] s[i]).rank < s.len()
    &&& forall|i: int, j: int| 0 <= i < j < s.len() ==> (#[trigger] s[i]).rank != (#[trigger] s[j]).rank
}

proof fn lemma_index_of_id(s: Seq<ChapterOrdering>, id: u32)
    ensures
        index_of_id(s, id) matches Some(i) ==> 0 <= i < s.len() && s[i].id == id && forall|k: int|
            0 <= k < i ==> (#[trigger] s[k]).id != id,
        index_of_id(s, id) is None ==> forall|k: int| 0 <= k < s.len() ==> (#[trigger] s[k]).id != id,
    decreases s.len(),
{
    if s.len() > 0 {
        lemma_index_of_id(s.drop_last(), id);
        assert forall|k: int| 0 <= k < s.len() - 1 implies s[k] == s.drop_last()[k] by {}
    }
}

/// The orderings of a series after deleting the one with identifier `id`, with the ranks
/// after it closed up; `None` when no ordering has that identifier.
pub fn delete_ordering(orderings: Vec<ChapterOrdering>, id: u32) -> (r: Option<
    Vec<ChapterOrdering>,
>)
    ensures
        r is None <==> index_of_id(orderings@, id) is None,
        r matches Some(v) ==> {
            let i = index_of_id(orderings@, id)->Some_0;
            let gone = orderings@[i];
            v@ == orderings@.remove(i).map_values(|o: ChapterOrdering| renumbered(o, gone))
        },
{
    proof {
        lemma_index_of_id(orderings@, id);
    }
    let mut i: usize = 0;
    while i < orderings.len() && orderings[i].id != id
        invariant
            i <= orderings@.len(),
            forall|k: int| 0 <= k < i ==> (#[trigger] orderings@[k]).id != id,
        decreases orderings@.len() - i,
    {
        i = i + 1;
    }
    if i == orderings.len() {
        assert(index_of_id(orderings@, id) is None);
        return None;
    }
    let ghost all = orderings@;
    let mut rest = orderings;
    let gone = rest.remove(i);
    let mut out: Vec<ChapterOrdering> = Vec::new();
    let mut k: usize = 0;
    while k < rest.len()
        invariant
            k <= rest@.len(),
            rest@ == all.remove(i as int),
            gone == all[i as int],
            out@ == rest@.take(k as int).map_values(|o: ChapterOrdering| renumbered(o, gone)),
        decreases rest@.len() - k,
    {
        let o = &rest[k];
        let n = if o.comic_id == gone.comic_id && o.rank > gone.rank {
            ChapterOrdering { id: o.id, comic_id: o.comic_id, rank: o.rank - 1, regex: o.regex.clone() }
        } else {
            ChapterOrdering { id: o.id, comic_id: o.comic_id, rank: o.rank, regex: o.regex.clone() }
        };
        out.push(n);
        assert(out@ =~= rest@.take(k + 1).map_values(|o: ChapterOrdering| renumbered(o, gone)));
        k = k + 1;
    }
    assert(rest@.take(rest@.len() as int) =~= rest@);
    Some(out)
}

/// Deleting an ordering from the dense ranks of one series leaves dense ranks: no gap and
/// no rank twice.
pub proof fn lemma_delete_keeps_ranks_dense(orderings: Seq<ChapterOrdering>, id: u32)
    requires
        dense_ranks(orderings),
        forall|i: int| 0 <= i < orderings.len() ==> (#[trigger] orderings[i]).comic_id == orderings[0].comic_id,
        index_of_id(orderings, id) is Some,
    ensures
        ({
            let i = index_of_id(orderings, id)->Some_0;
            let gone = orderings[i];
            dense_ranks(orderings.remove(i).map_values(|o: ChapterOrdering| renumbered(o, gone)))
        }),
{
    lemma_index_of_id(orderings, id);
    let i = index_of_id(orderings, id)->Some_0;
    let gone = orderings[i];
    let rest = orderings.remove(i);
    let v = rest.map_values(|o: ChapterOrdering| renumbered(o, gone));
    assert forall|a: int| 0 <= a < v.len() implies (#[trigger] v[a]).rank < v.len() by {
        let src = if a < i { a } else { a + 1 };
        assert(rest[a] == orderings[src]);
        assert(orderings[src].rank != gone.rank);
    }
    assert forall|a: int, b: int| 0 <= a < b < v.len() implies (#[trigger] v[a]).rank != (
    #[trigger] v[b]).rank by {
        let sa = if a < i { a } else { a + 1 };
        let sb = if b < i { b } else { b + 1 };
        assert(rest[a] == orderings[sa]);
        assert(rest[b] == orderings[sb]);
        assert(orderings[sa].rank != gone.rank);
        assert(orderings[sb].rank != gone.rank);
        assert(orderings[sa].rank != orderings[sb].rank);
    }
}

} // verus!
