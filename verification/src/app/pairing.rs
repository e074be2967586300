//! Which overlay belongs to which capture.
//!
//! The tracked outputs and the captured ones are found over two connections, so
//! that their orders can differ. They belong together by their names.

use crate::app::{output_views, Output, OutputState};
use crate::ids::{find_id, lemma_filter_keeps, lemma_filter_next, lemma_place_of};
use crate::picker::output::CapturedOutput;
use crate::text::same_text;
use vstd::prelude::*;

verus! {

/// Whether the output at a place has a name.
pub open spec fn is_named(outputs: Seq<Output>, k: int, name: Seq<char>) -> bool {
    0 <= k < outputs.len() && outputs[k].name == name
}

/// Whether the output at a place, and no other, has a name.
pub open spec fn is_only(outputs: Seq<Output>, k: int, name: Seq<char>) -> bool {
    is_named(outputs, k, name) && forall|j: int| is_named(outputs, j, name) ==> j == k
}

/// Whether exactly one output has a name.
pub open spec fn names_one(outputs: Seq<Output>, name: Seq<char>) -> bool {
    exists|k: int| is_only(outputs, k, name)
}

/// Whether the capture at a place has a name.
pub open spec fn is_capture_named(captures: Seq<CapturedOutput>, i: int, name: Seq<char>) -> bool {
    0 <= i < captures.len() && captures[i].name@ == name
}

/// Whether a capture has a name.
pub open spec fn has_capture(captures: Seq<CapturedOutput>, name: Seq<char>) -> bool {
    exists|i: int| is_capture_named(captures, i, name)
}

/// Whether the names tell what was captured: no two captures have one name, and
/// each names one of the outputs.
pub open spec fn captures_match(outputs: Seq<Output>, captures: Seq<CapturedOutput>) -> bool {
    &&& forall|i: int, j: int|
        0 <= i < j < captures.len() ==> (#[trigger] captures[i]).name@ != (
        #[trigger] captures[j]).name@
    &&& forall|i: int|
        0 <= i < captures.len() ==> names_one(outputs, (#[trigger] captures[i]).name@)
}

/// Whether each output was captured.
pub open spec fn all_captured(outputs: Seq<Output>, captures: Seq<CapturedOutput>) -> bool {
    forall|k: int| 0 <= k < outputs.len() ==> has_capture(captures, (#[trigger] outputs[k]).name)
}

/// The place of the one output with a name.
pub open spec fn output_named(outputs: Seq<Output>, name: Seq<char>) -> int {
    choose|k: int| is_only(outputs, k, name)
}

/// The overlay windows of outputs.
pub open spec fn window_ids(outputs: Seq<Output>) -> Seq<u64> {
    outputs.map_values(|o: Output| o.id)
}

/// For each capture, the overlay window of the output that it names.
pub open spec fn captured_ids(outputs: Seq<Output>, captures: Seq<CapturedOutput>) -> Seq<u64> {
    Seq::new(captures.len(), |i: int| outputs[output_named(outputs, captures[i].name@)].id)
}

/// Tells the outputs that were not captured.
pub open spec fn is_uncaptured(captures: Seq<CapturedOutput>) -> spec_fn(Output) -> bool {
    |o: Output| !has_capture(captures, o.name)
}

/// The overlay windows of the outputs. Where the names tell what was captured,
/// they are parallel to the captures, and the windows of the other outputs come
/// after them; otherwise they are in the order of the outputs.
pub open spec fn overlay_order(outputs: Seq<Output>, captures: Seq<CapturedOutput>) -> Seq<u64> {
    if captures_match(outputs, captures) {
        captured_ids(outputs, captures) + window_ids(outputs.filter(is_uncaptured(captures)))
    } else {
        window_ids(outputs)
    }
}

/// Tells the IDs that are not in a list.
pub open spec fn is_outside(ids: Seq<u64>) -> spec_fn(u64) -> bool {
    |id: u64| !ids.contains(id)
}

/// Pre-created overlay windows as a session takes them over. Where the names
/// tell what was captured, and each captured output has its window among them,
/// they are parallel to the captures, and the others come after them; otherwise
/// they stay as they are.
pub open spec fn reused_order(
    pending: Seq<u64>,
    outputs: Seq<Output>,
    captures: Seq<CapturedOutput>,
) -> Seq<u64> {
    let first = captured_ids(outputs, captures);
    if captures_match(outputs, captures) && forall|i: int|
        0 <= i < first.len() ==> pending.contains(#[trigger] first[i]) {
        first + pending.filter(is_outside(first))
    } else {
        pending
    }
}

/// The overlay of a capture is that of the output with its name.
pub proof fn law_overlays_are_parallel(
    outputs: Seq<Output>,
    captures: Seq<CapturedOutput>,
    i: int,
    k: int,
)
    requires
        captures_match(outputs, captures),
        0 <= i < captures.len(),
        is_named(outputs, k, captures[i].name@),
    ensures
        i < overlay_order(outputs, captures).len(),
        overlay_order(outputs, captures)[i] == outputs[k].id,
{
    assert(names_one(outputs, captures[i].name@));
}

/// Distinct names tell what was captured, if each capture names an output.
pub proof fn law_distinct_names_match(outputs: Seq<Output>, captures: Seq<CapturedOutput>)
    requires
        forall|j: int, k: int|
            0 <= j < k < outputs.len() ==> (#[trigger] outputs[j]).name != (
            #[trigger] outputs[k]).name,
        forall|i: int, j: int|
            0 <= i < j < captures.len() ==> (#[trigger] captures[i]).name@ != (
            #[trigger] captures[j]).name@,
        forall|i: int|
            0 <= i < captures.len() ==> exists|k: int|
                is_named(outputs, k, (#[trigger] captures[i]).name@),
    ensures
        captures_match(outputs, captures),
{
    assert forall|i: int| 0 <= i < captures.len() implies names_one(
        outputs,
        (#[trigger] captures[i]).name@,
    ) by {
        let name = captures[i].name@;
        let k = choose|k: int| is_named(outputs, k, name);
        assert forall|j: int| is_named(outputs, j, name) implies j == k by {
            if j < k {
                assert(outputs[j].name != outputs[k].name);
            } else if k < j {
                assert(outputs[k].name != outputs[j].name);
            }
        }
        assert(is_only(outputs, k, name));
    }
}

/// Where each output was captured, there is one overlay for each capture.
pub proof fn law_one_overlay_for_each_capture(
    outputs: Seq<Output>,
    captures: Seq<CapturedOutput>,
)
    requires
        captures_match(outputs, captures),
        all_captured(outputs, captures),
    ensures
        overlay_order(outputs, captures).len() == captures.len(),
{
    let rest = outputs.filter(is_uncaptured(captures));
    if rest.len() > 0 {
        lemma_filter_keeps(outputs, is_uncaptured(captures), rest[0]);
        assert(rest.contains(rest[0]));
        let k = outputs.index_of(rest[0]);
        assert(has_capture(captures, outputs[k].name));
    }
}

/// Each output has its overlay among the ordered ones.
pub proof fn law_every_output_has_its_overlay(
    outputs: Seq<Output>,
    captures: Seq<CapturedOutput>,
    k: int,
)
    requires
        0 <= k < outputs.len(),
    ensures
        overlay_order(outputs, captures).contains(outputs[k].id),
{
    let order = overlay_order(outputs, captures);
    let name = outputs[k].name;
    if !captures_match(outputs, captures) {
        assert(order[k] == outputs[k].id);
    } else if has_capture(captures, name) {
        let i = choose|i: int| is_capture_named(captures, i, name);
        law_overlays_are_parallel(outputs, captures, i, k);
    } else {
        let rest = outputs.filter(is_uncaptured(captures));
        assert(outputs.contains(outputs[k]));
        lemma_filter_keeps(outputs, is_uncaptured(captures), outputs[k]);
        let j = rest.index_of(outputs[k]);
        assert(order[captures.len() + j] == outputs[k].id);
    }
}

/// A pre-created overlay of a capture is that of the output with its name, if
/// each output has one.
pub proof fn law_reused_are_parallel(
    pending: Seq<u64>,
    outputs: Seq<Output>,
    captures: Seq<CapturedOutput>,
    i: int,
    k: int,
)
    requires
        captures_match(outputs, captures),
        forall|j: int| 0 <= j < outputs.len() ==> pending.contains((#[trigger] outputs[j]).id),
        0 <= i < captures.len(),
        is_named(outputs, k, captures[i].name@),
    ensures
        i < reused_order(pending, outputs, captures).len(),
        reused_order(pending, outputs, captures)[i] == outputs[k].id,
{
    let first = captured_ids(outputs, captures);
    assert forall|j: int| 0 <= j < first.len() implies pending.contains(#[trigger] first[j]) by {
        assert(names_one(outputs, captures[j].name@));
        assert(is_only(outputs, output_named(outputs, captures[j].name@), captures[j].name@));
    }
    assert(names_one(outputs, captures[i].name@));
}

/// A session takes over the pre-created overlays, all of them and no others.
pub proof fn law_reused_are_the_same(
    pending: Seq<u64>,
    outputs: Seq<Output>,
    captures: Seq<CapturedOutput>,
    id: u64,
)
    ensures
        reused_order(pending, outputs, captures).contains(id) <==> pending.contains(id),
{
    let first = captured_ids(outputs, captures);
    if captures_match(outputs, captures) && forall|i: int|
        0 <= i < first.len() ==> pending.contains(#[trigger] first[i]) {
        lemma_moved_to_front(first, pending, id);
    }
}

/// Moving some IDs of a list to its front leaves the same IDs.
proof fn lemma_moved_to_front(first: Seq<u64>, all: Seq<u64>, id: u64)
    requires
        forall|i: int| 0 <= i < first.len() ==> all.contains(#[trigger] first[i]),
    ensures
        (first + all.filter(is_outside(first))).contains(id) <==> all.contains(id),
{
    let rest = all.filter(is_outside(first));
    let order = first + rest;
    lemma_filter_keeps(all, is_outside(first), id);
    if order.contains(id) {
        let p = order.index_of(id);
        if p < first.len() {
            assert(all.contains(first[p]));
        } else {
            assert(rest[p - first.len()] == id);
        }
    }
    if first.contains(id) {
        assert(order[first.index_of(id)] == id);
    } else if all.contains(id) {
        assert(order[first.len() + rest.index_of(id)] == id);
    }
}

/// The one output with a name.
fn find_only(outputs: &Vec<OutputState>, name: &str) -> (r: Option<usize>)
    ensures
        match r {
            Some(k) => is_only(output_views(outputs@), k as int, name@),
            None => !names_one(output_views(outputs@), name@),
        },
{
    let ghost all = output_views(outputs@);
    let mut found: Option<usize> = None;
    let mut k: usize = 0;
    while k < outputs.len()
        invariant
            k <= outputs@.len(),
            all == output_views(outputs@),
            match found {
                Some(f) => f < k && is_named(all, f as int, name@) && forall|j: int|
                    0 <= j < k && j != f ==> (#[trigger] all[j]).name != name@,
                None => forall|j: int| 0 <= j < k ==> (#[trigger] all[j]).name != name@,
            },
        decreases outputs@.len() - k,
    {
        assert(all[k as int].name == outputs@[k as int].name@);
        if same_text(outputs[k].name.as_str(), name) {
            if let Some(f) = found {
                assert(is_named(all, k as int, name@));
                return None;
            }
            found = Some(k);
        }
        k = k + 1;
    }
    found
}

/// The first capture with a name.
fn find_capture(captures: &Vec<CapturedOutput>, name: &str) -> (r: Option<usize>)
    ensures
        match r {
            Some(i) => is_capture_named(captures@, i as int, name@) && forall|j: int|
                0 <= j < i ==> (#[trigger] captures@[j]).name@ != name@,
            None => !has_capture(captures@, name@),
        },
{
    let mut i: usize = 0;
    while i < captures.len()
        invariant
            i <= captures@.len(),
            forall|j: int| 0 <= j < i ==> (#[trigger] captures@[j]).name@ != name@,
        decreases captures@.len() - i,
    {
        if same_text(captures[i].name.as_str(), name) {
            return Some(i);
        }
        i = i + 1;
    }
    None
}

/// For each capture the overlay window of the output that it names, if the names
/// tell what was captured.
fn find_captured(outputs: &Vec<OutputState>, captures: &Vec<CapturedOutput>) -> (r: Option<
    Vec<u64>,
>)
    ensures
        match r {
            Some(ids) => captures_match(output_views(outputs@), captures@) && ids@ == captured_ids(
                output_views(outputs@),
                captures@,
            ),
            None => !captures_match(output_views(outputs@), captures@),
        },
{
    let ghost all = output_views(outputs@);
    let mut ids: Vec<u64> = Vec::new();
    let mut i: usize = 0;
    while i < captures.len()
        invariant
            i <= captures@.len(),
            all == output_views(outputs@),
            forall|a: int, b: int|
                0 <= a < b < i ==> (#[trigger] captures@[a]).name@ != (
                #[trigger] captures@[b]).name@,
            forall|j: int| 0 <= j < i ==> names_one(all, (#[trigger] captures@[j]).name@),
            ids@ =~= captured_ids(all, captures@).take(i as int),
        decreases captures@.len() - i,
    {
        let name = captures[i].name.as_str();
        assert(is_capture_named(captures@, i as int, name@));
        let first: usize = match find_capture(captures, name) {
            Some(first) => first,
            None => i,
        };
        if first != i {
            assert(captures@[first as int].name@ == captures@[i as int].name@);
            return None;
        }
        match find_only(outputs, name) {
            Some(k) => {
                assert(names_one(all, captures@[i as int].name@));
                ids.push(outputs[k].id);
            },
            None => {
                assert(!names_one(all, captures@[i as int].name@));
                return None;
            },
        }
        i = i + 1;
    }
    Some(ids)
}

/// The overlay windows of the outputs, parallel to the captures where the names
/// tell what was captured.
pub fn overlays_for(outputs: &Vec<OutputState>, captures: &Vec<CapturedOutput>) -> (r: Vec<u64>)
    ensures
        r@ == overlay_order(output_views(outputs@), captures@),
{
    let ghost all = output_views(outputs@);
    match find_captured(outputs, captures) {
        Some(ids) => {
            let mut ids = ids;
            let ghost first = ids@;
            let ghost keep = is_uncaptured(captures@);
            let mut k: usize = 0;
            proof {
                reveal(Seq::filter);
                assert(all.take(0) =~= Seq::empty());
            }
            while k < outputs.len()
                invariant
                    k <= outputs@.len(),
                    all == output_views(outputs@),
                    keep == is_uncaptured(captures@),
                    ids@ =~= first + window_ids(all.take(k as int).filter(keep)),
                decreases outputs@.len() - k,
            {
                proof {
                    lemma_filter_next(all, k as int, keep);
                    assert(all[k as int] == outputs@[k as int]@);
                }
                if find_capture(captures, outputs[k].name.as_str()).is_none() {
                    ids.push(outputs[k].id);
                }
                k = k + 1;
            }
            assert(all.take(k as int) =~= all);
            ids
        },
        None => {
            let mut ids: Vec<u64> = Vec::new();
            let mut k: usize = 0;
            while k < outputs.len()
                invariant
                    k <= outputs@.len(),
                    ids@ =~= Seq::new(k as nat, |j: int| outputs@[j].id),
                decreases outputs@.len() - k,
            {
                ids.push(outputs[k].id);
                k = k + 1;
            }
            assert(ids@ =~= overlay_order(all, captures@));
            ids
        },
    }
}

/// Whether the first list holds each ID of the second.
fn holds_all(ids: &Vec<u64>, wanted: &Vec<u64>) -> (r: bool)
    ensures
        r == forall|i: int| 0 <= i < wanted@.len() ==> ids@.contains(#[trigger] wanted@[i]),
{
    let mut i: usize = 0;
    while i < wanted.len()
        invariant
            i <= wanted@.len(),
            forall|j: int| 0 <= j < i ==> ids@.contains(#[trigger] wanted@[j]),
        decreases wanted@.len() - i,
    {
        proof {
            lemma_place_of(ids@, wanted@[i as int]);
        }
        if find_id(ids, wanted[i]).is_none() {
            assert(!ids@.contains(wanted@[i as int]));
            return false;
        }
        i = i + 1;
    }
    true
}

/// Pre-created overlay windows as a session takes them over, parallel to the
/// captures where the names tell what was captured.
pub fn reused_overlays(
    pending: Vec<u64>,
    outputs: &Vec<OutputState>,
    captures: &Vec<CapturedOutput>,
) -> (r: Vec<u64>)
    ensures
        r@ == reused_order(pending@, output_views(outputs@), captures@),
{
    let captured: Vec<u64> = match find_captured(outputs, captures) {
        Some(ids) => ids,
        None => return pending,
    };
    if !holds_all(&pending, &captured) {
        return pending;
    }
    let ghost first = captured@;
    let ghost keep = is_outside(first);
    let mut ids: Vec<u64> = captured.clone();
    let mut k: usize = 0;
    proof {
        reveal(Seq::filter);
        assert(pending@.take(0) =~= Seq::empty());
        assert(ids@ =~= first);
    }
    while k < pending.len()
        invariant
            k <= pending@.len(),
            first == captured@,
            keep == is_outside(first),
            ids@ =~= first + pending@.take(k as int).filter(keep),
        decreases pending@.len() - k,
    {
        proof {
            lemma_filter_next(pending@, k as int, keep);
            lemma_place_of(captured@, pending@[k as int]);
        }
        if find_id(&captured, pending[k]).is_none() {
            ids.push(pending[k]);
        }
        k = k + 1;
    }
    assert(pending@.take(k as int) =~= pending@);
    ids
}

/// Where the names do not tell what was captured, the overlays are in the order of
/// the outputs, and pre-created ones stay as they are.
pub proof fn law_overlays_keep_order(
    pending: Seq<u64>,
    outputs: Seq<Output>,
    captures: Seq<CapturedOutput>,
    k: int,
)
    requires
        !captures_match(outputs, captures),
        0 <= k < outputs.len(),
    ensures
        overlay_order(outputs, captures).len() == outputs.len(),
        overlay_order(outputs, captures)[k] == outputs[k].id,
        reused_order(pending, outputs, captures) == pending,
{
}

/// Only outputs have overlays.
pub proof fn law_only_outputs_have_overlays(
    outputs: Seq<Output>,
    captures: Seq<CapturedOutput>,
    p: int,
)
    requires
        0 <= p < overlay_order(outputs, captures).len(),
    ensures
        exists|k: int|
            0 <= k < outputs.len() && overlay_order(outputs, captures)[p] == (
            #[trigger] outputs[k]).id,
{
    let order = overlay_order(outputs, captures);
    if !captures_match(outputs, captures) {
        assert(order[p] == outputs[p].id);
    } else if p < captures.len() {
        let k = output_named(outputs, captures[p].name@);
        assert(names_one(outputs, captures[p].name@));
        assert(is_only(outputs, k, captures[p].name@));
        assert(order[p] == outputs[k].id);
    } else {
        let rest = outputs.filter(is_uncaptured(captures));
        let o = rest[p - captures.len()];
        assert(rest.contains(o));
        lemma_filter_keeps(outputs, is_uncaptured(captures), o);
        let k = outputs.index_of(o);
        assert(order[p] == outputs[k].id);
    }
}

} // verus!
