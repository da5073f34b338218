//! Choosing the rows of an image that are looked at.

use vstd::prelude::*;
use rand::seq::SliceRandom;
use crate::percentage::{rows_wanted, takes_every_row, target_row_count, Percentage};

verus! {

/// The rows of an image of `height` rows, from the top.
pub open spec fn all_rows(height: nat) -> Seq<u32> {
    Seq::new(height, |y: int| y as u32)
}

/// `rows` names rows of an image of `height` rows.
pub open spec fn rows_in_range(rows: Seq<u32>, height: nat) -> bool {
    forall|i: int| 0 <= i < rows.len() ==> rows[i] < height
}

/// `rows` names rows of an image of `height` rows, none of them twice.
pub open spec fn is_row_selection(rows: Seq<u32>, height: nat) -> bool {
    &&& rows.no_duplicates()
    &&& rows_in_range(rows, height)
}

/// A selection holds no more rows than the image has.
pub proof fn lemma_selection_fits(rows: Seq<u32>, height: nat)
    requires
        is_row_selection(rows, height),
    ensures
        rows.len() <= height,
    decreases height,
{
    if height == 0 {
        if rows.len() > 0 {
            assert(rows[0] < height);
        }
    } else {
        let below = (height - 1) as nat;
        if exists|i: int| 0 <= i < rows.len() && rows[i] == below {
            let i = choose|i: int| 0 <= i < rows.len() && rows[i] == below;
            let rest = rows.remove(i);
            assert forall|j: int| 0 <= j < rest.len() implies rest[j] < below by {
                if j < i {
                    assert(rest[j] == rows[j]);
                } else {
                    assert(rest[j] == rows[j + 1]);
                }
            }
            assert(rest.no_duplicates()) by {
                assert forall|j: int, k: int|
                    0 <= j < rest.len() && 0 <= k < rest.len() && j != k implies rest[j]
                    != rest[k] by {
                    let from_j = if j < i { j } else { j + 1 };
                    let from_k = if k < i { k } else { k + 1 };
                    assert(rest[j] == rows[from_j] && rest[k] == rows[from_k]);
                }
            }
            lemma_selection_fits(rest, below);
        } else {
            lemma_selection_fits(rows, below);
        }
    }
}

/// A reordering of all the rows of an image is a selection of all of them.
pub proof fn lemma_reordered_rows(order: Seq<u32>, height: nat)
    requires
        height <= u32::MAX,
        order.to_multiset() == all_rows(height).to_multiset(),
    ensures
        is_row_selection(order, height),
        order.len() == height,
{
    let rows = all_rows(height);
    vstd::seq_lib::to_multiset_len(order);
    vstd::seq_lib::to_multiset_len(rows);
    rows.lemma_multiset_has_no_duplicates();
    order.lemma_multiset_has_no_duplicates_conv();
    assert forall|i: int| 0 <= i < order.len() implies order[i] < height by {
        vstd::seq_lib::to_multiset_contains(order, order[i]);
        vstd::seq_lib::to_multiset_contains(rows, order[i]);
        assert(order.contains(order[i]));
        let at = choose|at: int| 0 <= at < rows.len() && rows[at] == order[i];
        assert(rows[at] == at);
    }
}

/// The first rows of a selection are a selection.
pub proof fn lemma_selection_prefix(rows: Seq<u32>, height: nat, count: int)
    requires
        is_row_selection(rows, height),
        0 <= count <= rows.len(),
    ensures
        is_row_selection(rows.take(count), height),
{
}

/// Every row of an image of `height` rows, from the top.
pub fn every_row(height: u32) -> (rows: Vec<u32>)
    ensures
        rows@ == all_rows(height as nat),
{
    let mut rows: Vec<u32> = Vec::new();
    let mut y: u32 = 0;
    while y < height
        invariant
            y <= height,
            rows@ == all_rows(y as nat),
        decreases height - y,
    {
        rows.push(y);
        y = y + 1;
        assert(rows@ =~= all_rows(y as nat));
    }
    rows
}

/// Reorders `rows` at random, by `rand::seq::SliceRandom::shuffle` with the
/// generator of `rand::thread_rng`. Believed of it, not proved: it moves the
/// entries about and neither adds, drops nor changes one. Which order comes
/// out is left open. The call fails only where the system has no seed to
/// give the generator.
#[verifier::external_body]
fn shuffle(rows: &mut Vec<u32>)
    ensures
        final(rows)@.to_multiset() == old(rows)@.to_multiset(),
{
    let mut generator = rand::thread_rng();
    rows.shuffle(&mut generator);
}

/// The first `count` rows of `order`, or all of them if there are fewer.
pub fn keep_first(order: Vec<u32>, count: u32) -> (rows: Vec<u32>)
    ensures
        rows@ == order@.take(
            if count <= order@.len() {
                count as int
            } else {
                order@.len() as int
            },
        ),
{
    let mut rows = order;
    rows.truncate(count as usize);
    assert(rows@ =~= order@.take(
        if count <= order@.len() {
            count as int
        } else {
            order@.len() as int
        },
    ));
    rows
}

/// Chooses the rows to look at in an image of `height` rows.
///
/// Without a share, or with one of a hundred percent or more, these are all
/// rows from the top, and no random number is drawn. With a smaller share
/// they are [`crate::percentage::target_rows`] many different rows, drawn at
/// random.
pub fn sample_rows(height: u32, share: Option<Percentage>) -> (rows: Vec<u32>)
    ensures
        is_row_selection(rows@, height as nat),
        rows@.len() == rows_wanted(height as nat, share),
        takes_every_row(share) ==> rows@ == all_rows(height as nat),
{
    let mut order = every_row(height);
    proof {
        assert(is_row_selection(all_rows(height as nat), height as nat));
    }
    match share {
        Some(part) => {
            if part.is_full() {
                order
            } else {
                let count = target_row_count(height, part);
                shuffle(&mut order);
                proof {
                    lemma_reordered_rows(order@, height as nat);
                    lemma_selection_prefix(order@, height as nat, count as int);
                }
                keep_first(order, count)
            }
        },
        None => order,
    }
}

} // verus!
