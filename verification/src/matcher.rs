//! Selecting property blocks by criteria and collecting a target key's values.

use vstd::prelude::*;
use vstd::string::*;
use crate::parser::{get_single_property, value_of};
use crate::seqs::{lemma_filter_map_concat, lemma_filter_map_one};

verus! {

/// Whether a block meets every criterion: for each pair of key and expected
/// value, the block's value for the key is present and equal to the expected
/// value. A block meets an empty set of criteria.
pub open spec fn satisfies(block: Seq<char>, criteria: Seq<(Seq<char>, Seq<char>)>) -> bool {
    forall|i: int|
        0 <= i < criteria.len() ==> value_of(block, (#[trigger] criteria[i]).0) == Some(
            criteria[i].1,
        )
}

/// What a block contributes to a match: its value for `target`, provided the
/// block meets the criteria and holds the target key.
pub open spec fn picked(
    block: Seq<char>,
    target: Seq<char>,
    criteria: Seq<(Seq<char>, Seq<char>)>,
) -> Option<Seq<char>> {
    if satisfies(block, criteria) {
        value_of(block, target)
    } else {
        None
    }
}

/// The values of `target` in the blocks that meet the criteria, in the order
/// of the blocks.
pub open spec fn matched_values(
    blocks: Seq<Seq<char>>,
    target: Seq<char>,
    criteria: Seq<(Seq<char>, Seq<char>)>,
) -> Seq<Seq<char>> {
    blocks.filter_map(|b: Seq<char>| picked(b, target, criteria))
}

/// The criteria that an optional list stands for: none at all where the list
/// is absent.
pub open spec fn criteria_of(criteria: Option<&Vec<(&str, &str)>>) -> Seq<(Seq<char>, Seq<char>)> {
    match criteria {
        Some(list) => list.deep_view(),
        None => Seq::empty(),
    }
}

/// Whether `block` meets every criterion of `criteria`.
pub fn block_satisfies(block: &str, criteria: &Vec<(&str, &str)>) -> (r: bool)
    ensures
        r == satisfies(block@, criteria.deep_view()),
{
    let mut i: usize = 0;
    while i < criteria.len()
        invariant
            i <= criteria.len(),
            forall|j: int|
                0 <= j < i ==> value_of(block@, (#[trigger] criteria.deep_view()[j]).0) == Some(
                    criteria.deep_view()[j].1,
                ),
        decreases criteria.len() - i,
    {
        let key: &str = criteria[i].0;
        let expected: &str = criteria[i].1;
        assert(criteria.deep_view()[i as int] == (key@, expected@));
        let holds = match get_single_property(block, key) {
            Some(value) => value == expected.to_owned(),
            None => false,
        };
        if !holds {
            return false;
        }
        i += 1;
    }
    true
}

/// Collects the values of `key` from the blocks that meet the criteria.
///
/// With no criteria every block is eligible. A block that lacks `key` adds
/// nothing to the result.
pub fn match_values(blocks: &Vec<String>, key: &str, criteria: Option<&Vec<(&str, &str)>>) -> (r:
    Vec<String>)
    ensures
        r.deep_view() == matched_values(blocks.deep_view(), key@, criteria_of(criteria)),
{
    let ghost pick = |b: Seq<char>| picked(b, key@, criteria_of(criteria));
    let mut out: Vec<String> = Vec::new();
    let mut i: usize = 0;
    assert(blocks.deep_view().take(0) =~= Seq::empty());
    while i < blocks.len()
        invariant
            i <= blocks.len(),
            pick == |b: Seq<char>| picked(b, key@, criteria_of(criteria)),
            out.deep_view() == blocks.deep_view().take(i as int).filter_map(pick),
        decreases blocks.len() - i,
    {
        let block: &str = blocks[i].as_str();
        let eligible = match criteria {
            Some(list) => block_satisfies(block, list),
            None => true,
        };
        let ghost before = out.deep_view();
        if eligible {
            match get_single_property(block, key) {
                Some(value) => {
                    out.push(value);
                    assert(out.deep_view() =~= before + seq![value@]);
                },
                None => {},
            }
        }
        proof {
            blocks.deep_view().lemma_filter_map_take_succ(pick, i as int);
        }
        i += 1;
    }
    assert(blocks.deep_view().take(blocks.len() as int) =~= blocks.deep_view());
    out
}

/// A block that lacks the target key adds nothing to a match, wherever it
/// stands and whether or not it meets the criteria: the values of the
/// other blocks are what they are without it.
pub proof fn lemma_block_without_target_adds_nothing(
    before: Seq<Seq<char>>,
    block: Seq<char>,
    after: Seq<Seq<char>>,
    target: Seq<char>,
    criteria: Seq<(Seq<char>, Seq<char>)>,
)
    requires
        value_of(block, target) is None,
    ensures
        matched_values(before + seq![block] + after, target, criteria) == matched_values(
            before + after,
            target,
            criteria,
        ),
{
    let pick = |b: Seq<char>| picked(b, target, criteria);
    lemma_filter_map_concat(before + seq![block], after, pick);
    lemma_filter_map_concat(before, seq![block], pick);
    lemma_filter_map_one(block, pick);
    lemma_filter_map_concat(before, after, pick);
    assert(before.filter_map(pick) + Seq::empty() =~= before.filter_map(pick));
}

/// A block that fails a criterion adds nothing to a match either.
pub proof fn lemma_block_failing_criteria_adds_nothing(
    before: Seq<Seq<char>>,
    block: Seq<char>,
    after: Seq<Seq<char>>,
    target: Seq<char>,
    criteria: Seq<(Seq<char>, Seq<char>)>,
)
    requires
        !satisfies(block, criteria),
    ensures
        matched_values(before + seq![block] + after, target, criteria) == matched_values(
            before + after,
            target,
            criteria,
        ),
{
    let pick = |b: Seq<char>| picked(b, target, criteria);
    lemma_filter_map_concat(before + seq![block], after, pick);
    lemma_filter_map_concat(before, seq![block], pick);
    lemma_filter_map_one(block, pick);
    lemma_filter_map_concat(before, after, pick);
    assert(before.filter_map(pick) + Seq::empty() =~= before.filter_map(pick));
}

/// A block that meets the criteria and holds the target key adds that
/// key's value, after the values of the blocks before it.
pub proof fn lemma_matching_block_adds_its_value(
    blocks: Seq<Seq<char>>,
    block: Seq<char>,
    target: Seq<char>,
    criteria: Seq<(Seq<char>, Seq<char>)>,
)
    requires
        satisfies(block, criteria),
        value_of(block, target) is Some,
    ensures
        matched_values(blocks.push(block), target, criteria) == matched_values(
            blocks,
            target,
            criteria,
        ).push(value_of(block, target)->0),
{
    let pick = |b: Seq<char>| picked(b, target, criteria);
    assert(blocks.push(block).drop_last() =~= blocks);
    assert(matched_values(blocks.push(block), target, criteria) =~= matched_values(
        blocks,
        target,
        criteria,
    ).push(value_of(block, target)->0));
}

/// With no criteria a block need only hold the target key.
pub proof fn lemma_no_criteria_are_met(block: Seq<char>)
    ensures
        satisfies(block, Seq::empty()),
{
}

} // verus!
