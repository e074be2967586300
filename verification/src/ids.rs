//! Lists of window and output IDs, and the choice of items from a list.

use vstd::prelude::*;

verus! {

/// The first place of an ID in a list.
pub open spec fn place_of(ids: Seq<u64>, id: u64) -> Option<int>
    decreases ids.len(),
{
    if ids.len() == 0 {
        None
    } else {
        match place_of(ids.drop_last(), id) {
            Some(i) => Some(i),
            None => if ids.last() == id {
                Some(ids.len() - 1)
            } else {
                None
            },
        }
    }
}

/// What `place_of` gives is the first place that holds the ID.
pub proof fn lemma_place_of(ids: Seq<u64>, id: u64)
    ensures
        match place_of(ids, id) {
            Some(i) => {
                &&& 0 <= i < ids.len()
                &&& ids[i] == id
                &&& forall|j: int| 0 <= j < i ==> #[trigger] ids[j] != id
            },
            None => !ids.contains(id),
        },
    decreases ids.len(),
{
    if ids.len() > 0 {
        let front = ids.drop_last();
        lemma_place_of(front, id);
        assert forall|j: int| 0 <= j < front.len() implies #[trigger] ids[j] == front[j] by {}
    }
}

/// The first place of an ID in a list.
pub fn find_id(ids: &Vec<u64>, id: u64) -> (r: Option<usize>)
    ensures
        match r {
            Some(i) => place_of(ids@, id) == Some(i as int) && i < ids@.len(),
            None => place_of(ids@, id) is None,
        },
{
    let mut i: usize = 0;
    while i < ids.len()
        invariant
            i <= ids@.len(),
            forall|j: int| 0 <= j < i ==> #[trigger] ids@[j] != id,
        decreases ids@.len() - i,
    {
        if ids[i] == id {
            proof {
                lemma_place_of(ids@, id);
                assert(ids@[i as int] == id);
            }
            return Some(i);
        }
        i = i + 1;
    }
    proof {
        lemma_place_of(ids@, id);
    }
    None
}

/// How a filter goes on with the next item.
pub proof fn lemma_filter_next<T>(all: Seq<T>, done: int, keep: spec_fn(T) -> bool)
    requires
        0 <= done < all.len(),
    ensures
        all.take(done + 1).filter(keep) == if keep(all[done]) {
            all.take(done).filter(keep).push(all[done])
        } else {
            all.take(done).filter(keep)
        },
{
    reveal(Seq::filter);
    assert(all.take(done + 1).drop_last() =~= all.take(done));
}

/// A filter that holds of every item keeps them all.
pub proof fn lemma_filter_all<T>(all: Seq<T>, keep: spec_fn(T) -> bool)
    requires
        forall|i: int| 0 <= i < all.len() ==> keep(#[trigger] all[i]),
    ensures
        all.filter(keep) == all,
    decreases all.len(),
{
    reveal(Seq::filter);
    if all.len() > 0 {
        assert forall|i: int| 0 <= i < all.drop_last().len() implies keep(
            #[trigger] all.drop_last()[i],
        ) by {
            assert(all.drop_last()[i] == all[i]);
        }
        lemma_filter_all(all.drop_last(), keep);
        assert(all.drop_last().push(all.last()) =~= all);
    } else {
        assert(all.filter(keep) =~= all);
    }
}

/// A filter keeps an item of the list if and only if it holds of it.
pub proof fn lemma_filter_keeps<T>(all: Seq<T>, keep: spec_fn(T) -> bool, item: T)
    ensures
        all.filter(keep).contains(item) <==> all.contains(item) && keep(item),
    decreases all.len(),
{
    reveal(Seq::filter);
    if all.len() > 0 {
        let front = all.drop_last();
        lemma_filter_keeps(front, keep, item);
        let kept = front.filter(keep);
        if all.contains(item) && !front.contains(item) {
            let i = all.index_of(item);
            assert(i < front.len() ==> front[i] == item);
            assert(all.last() == item);
        }
        if front.contains(item) {
            assert(all[front.index_of(item)] == item);
        }
        if keep(all.last()) {
            assert(kept.push(all.last()).last() == all.last());
            if kept.contains(item) {
                assert(kept.push(all.last())[kept.index_of(item)] == item);
            }
            assert(all[all.len() - 1] == all.last());
        }
    }
}

} // verus!
