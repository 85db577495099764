//! How nodes relate to the regions in which formatting is disabled.
use vstd::prelude::*;

use crate::parser::{ParseInput, RegionWithDisabledFormatting};

verus! {

/// Siblings that one region covers.
#[derive(Clone, Copy, Debug)]
pub struct DisabledRegionNodeSpan {
    pub region: RegionWithDisabledFormatting,
    /// The index of the last covered sibling.
    pub last_covered_index: usize,
}

/// The ways in which a child can relate to the disabled regions. The markers
/// of a region can stand at different depths of the tree, as where a region
/// starts in front of a function and ends inside of its body.
#[derive(Clone, Copy, Debug)]
pub enum DisabledRegionOverlapKind {
    /// A region covers the child.
    CoveredFully(DisabledRegionNodeSpan),
    /// A region starts before the child and ends inside of it.
    PartiallyCovered,
    /// The child does not start in a region.
    NotCovered,
}

/// The way in which a child relates to the disabled regions, where a region
/// that covers the child also covers the `following` siblings behind it.
pub enum Overlap {
    Covered { region: RegionWithDisabledFormatting, following: nat },
    Partial,
    Clear,
}

/// The first region from `from` on that contains an offset. The search ends at
/// a region that starts behind the offset.
pub open spec fn region_containing(
    regions: Seq<RegionWithDisabledFormatting>,
    from: int,
    offset: int,
) -> Option<RegionWithDisabledFormatting>
    decreases regions.len() - from,
{
    if from >= regions.len() || regions[from].start > offset {
        None
    } else if offset < regions[from].end {
        Some(regions[from])
    } else {
        region_containing(regions, from + 1, offset)
    }
}

/// The number of siblings behind the child at `index` that end before a region
/// does, up to the first one that does not.
pub open spec fn covered_following(input: ParseInput, node: int, index: int, end: int) -> nat
    decreases input.tree.child_count_of(node) - index,
{
    if index + 1 < input.tree.child_count_of(node) && input.tree.start_of(
        input.tree.child_of(node, index + 1),
    ) < end && input.tree.end_of(input.tree.child_of(node, index + 1)) <= end {
        1 + covered_following(input, node, index + 1, end)
    } else {
        0
    }
}

/// The way in which a child relates to the disabled regions.
pub open spec fn overlap(input: ParseInput, node: int, index: int) -> Overlap {
    let child = input.tree.child_of(node, index);
    match region_containing(input.disabled_regions@, 0, input.tree.start_of(child)) {
        Some(region) => if input.tree.start_of(child) != region.start && input.tree.end_of(child)
            > region.end {
            Overlap::Partial
        } else {
            Overlap::Covered {
                region,
                following: covered_following(input, node, index, region.end as int),
            }
        },
        None => Overlap::Clear,
    }
}

/// A region that contains an offset does so, and is one of the regions.
pub proof fn region_contains_its_offset(
    regions: Seq<RegionWithDisabledFormatting>,
    from: int,
    offset: int,
)
    requires
        0 <= from,
    ensures
        region_containing(regions, from, offset) matches Some(region) ==> region.start <= offset
            < region.end && regions.contains(region),
    decreases regions.len() - from,
{
    if from < regions.len() && regions[from].start <= offset && offset >= regions[from].end {
        region_contains_its_offset(regions, from + 1, offset);
    }
}

/// Where regions are in order, an offset has a region if and only if it lies in
/// one of them.
pub proof fn region_is_found_if_there_is_one(
    regions: Seq<RegionWithDisabledFormatting>,
    from: int,
    offset: int,
)
    requires
        0 <= from,
        forall|i: int, j: int| 0 <= i < j < regions.len() ==> regions[i].start <= regions[j].start,
    ensures
        region_containing(regions, from, offset) is Some <==> exists|index: int|
            from <= index < regions.len() && (#[trigger] regions[index]).start <= offset
                < regions[index].end,
    decreases regions.len() - from,
{
    if from < regions.len() && regions[from].start <= offset && offset >= regions[from].end {
        region_is_found_if_there_is_one(regions, from + 1, offset);
    }
}

/// The siblings behind a child that a region covers with it are those that end by
/// its end, up to the first one that does not.
proof fn lemma_covered_following(input: ParseInput, node: int, index: int, end: int)
    requires
        0 <= index < input.tree.child_count_of(node),
    ensures
        ({
            let following = covered_following(input, node, index, end);
            &&& index + following < input.tree.child_count_of(node)
            &&& forall|next: int|
                #![trigger input.tree.child_of(node, next)]
                index < next <= index + following ==> input.tree.start_of(
                    input.tree.child_of(node, next),
                ) < end && input.tree.end_of(input.tree.child_of(node, next)) <= end
            &&& index + following + 1 < input.tree.child_count_of(node) ==> !(input.tree.start_of(
                input.tree.child_of(node, index + following + 1),
            ) < end && input.tree.end_of(input.tree.child_of(node, index + following + 1)) <= end)
        }),
    decreases input.tree.child_count_of(node) - index,
{
    if index + 1 < input.tree.child_count_of(node) && input.tree.start_of(
        input.tree.child_of(node, index + 1),
    ) < end && input.tree.end_of(input.tree.child_of(node, index + 1)) <= end {
        lemma_covered_following(input, node, index + 1, end);
    }
}

/// Where regions are in order, a child is clear of them exactly where it starts in
/// none. Where it starts in one, which is not where the region starts, and ends
/// behind it, the region covers a part of it. Otherwise the region covers it, with
/// all the siblings behind it that end by its end.
pub proof fn overlaps_go_by_offsets(input: ParseInput, node: int, index: int)
    requires
        0 <= index < input.tree.child_count_of(node),
        forall|i: int, j: int|
            0 <= i < j < input.disabled_regions@.len() ==> input.disabled_regions@[i].start
                <= input.disabled_regions@[j].start,
    ensures
        ({
            let regions = input.disabled_regions@;
            let start = input.tree.start_of(input.tree.child_of(node, index));
            let end = input.tree.end_of(input.tree.child_of(node, index));
            match overlap(input, node, index) {
                Overlap::Clear => forall|i: int|
                    0 <= i < regions.len() ==> !((#[trigger] regions[i]).start <= start
                        < regions[i].end),
                Overlap::Partial => exists|i: int|
                    0 <= i < regions.len() && (#[trigger] regions[i]).start < start
                        < regions[i].end < end,
                Overlap::Covered { region, following } => {
                    &&& regions.contains(region)
                    &&& region.start <= start < region.end
                    &&& start == region.start || end <= region.end
                    &&& index + following < input.tree.child_count_of(node)
                    &&& forall|next: int|
                        #![trigger input.tree.child_of(node, next)]
                        index < next <= index + following ==> input.tree.start_of(
                            input.tree.child_of(node, next),
                        ) < region.end && input.tree.end_of(input.tree.child_of(node, next))
                            <= region.end
                    &&& index + following + 1 < input.tree.child_count_of(node) ==> !(
                    input.tree.start_of(input.tree.child_of(node, index + following + 1))
                        < region.end && input.tree.end_of(
                        input.tree.child_of(node, index + following + 1),
                    ) <= region.end)
                },
            }
        }),
{
    let regions = input.disabled_regions@;
    let start = input.tree.start_of(input.tree.child_of(node, index));
    region_contains_its_offset(regions, 0, start);
    region_is_found_if_there_is_one(regions, 0, start);
    match region_containing(regions, 0, start) {
        Some(region) => {
            lemma_covered_following(input, node, index, region.end as int);
            let i = choose|i: int| 0 <= i < regions.len() && regions[i] == region;
            assert(regions[i] == region);
        },
        None => {},
    }
}

/// Finds the region that contains an offset.
pub fn find_disabled_region_containing(input: &ParseInput, byte_offset: usize) -> (found: Option<
    RegionWithDisabledFormatting,
>)
    ensures
        found == region_containing(input.disabled_regions@, 0, byte_offset as int),
{
    let mut index: usize = 0;
    while index < input.disabled_regions.len()
        invariant
            index <= input.disabled_regions@.len(),
            region_containing(input.disabled_regions@, 0, byte_offset as int) == region_containing(
                input.disabled_regions@,
                index as int,
                byte_offset as int,
            ),
        decreases input.disabled_regions@.len() - index,
    {
        let region = input.disabled_regions[index];
        if region.start > byte_offset {
            return None;
        }
        if byte_offset < region.end {
            return Some(region);
        }
        index = index + 1;
    }
    None
}

/// Tells how the child at `first_child_index` relates to the disabled regions.
pub fn classify_disabled_region_overlap(
    input: &ParseInput,
    node: usize,
    first_child_index: usize,
) -> (kind: DisabledRegionOverlapKind)
    requires
        input.tree_fits(),
        input.tree.has(node as int),
        first_child_index < input.tree.child_count_of(node as int),
    ensures
        match kind {
            DisabledRegionOverlapKind::CoveredFully(span) => first_child_index
                <= span.last_covered_index < input.tree.child_count_of(node as int) && overlap(
                *input,
                node as int,
                first_child_index as int,
            ) == (Overlap::Covered {
                region: span.region,
                following: (span.last_covered_index - first_child_index) as nat,
            }),
            DisabledRegionOverlapKind::PartiallyCovered => overlap(
                *input,
                node as int,
                first_child_index as int,
            ) is Partial,
            DisabledRegionOverlapKind::NotCovered => overlap(
                *input,
                node as int,
                first_child_index as int,
            ) is Clear,
        },
{
    proof {
        input.tree.lemma_child(node as int, first_child_index as int);
    }
    let first_child: usize = input.tree.child(node, first_child_index);
    let start: usize = input.tree.start_byte(first_child);
    match find_disabled_region_containing(input, start) {
        None => DisabledRegionOverlapKind::NotCovered,
        Some(region) => {
            if start != region.start && input.tree.end_byte(first_child) > region.end {
                return DisabledRegionOverlapKind::PartiallyCovered;
            }
            let count: usize = input.tree.child_count(node);
            let mut last_covered_index: usize = first_child_index;
            let mut is_covered = true;
            while is_covered && last_covered_index + 1 < count
                invariant
                    first_child_index <= last_covered_index < count,
                    count == input.tree.child_count_of(node as int),
                    input.tree_fits(),
                    input.tree.has(node as int),
                    covered_following(
                        *input,
                        node as int,
                        first_child_index as int,
                        region.end as int,
                    ) == last_covered_index - first_child_index + covered_following(
                        *input,
                        node as int,
                        last_covered_index as int,
                        region.end as int,
                    ),
                    !is_covered ==> covered_following(
                        *input,
                        node as int,
                        last_covered_index as int,
                        region.end as int,
                    ) == 0,
                decreases count - last_covered_index, is_covered as int,
            {
                proof {
                    input.tree.lemma_child(node as int, last_covered_index + 1);
                }
                let next: usize = input.tree.child(node, last_covered_index + 1);
                if input.tree.start_byte(next) >= region.end || input.tree.end_byte(next)
                    > region.end {
                    is_covered = false;
                } else {
                    last_covered_index = last_covered_index + 1;
                }
            }
            DisabledRegionOverlapKind::CoveredFully(
                DisabledRegionNodeSpan { region, last_covered_index },
            )
        },
    }
}

/// True where a region shares source with a node.
pub open spec fn overlaps_a_region(input: ParseInput, node: int) -> bool {
    exists|index: int|
        #![trigger input.disabled_regions@[index]]
        0 <= index < input.disabled_regions@.len() && input.disabled_regions@[index].start
            < input.tree.end_of(node) && input.disabled_regions@[index].end > input.tree.start_of(
            node,
        )
}

/// Tells whether a region shares source with a node.
pub fn has_disabled_region(input: &ParseInput, node: usize) -> (found: bool)
    requires
        input.tree.has(node as int),
    ensures
        found == overlaps_a_region(*input, node as int),
{
    let start: usize = input.tree.start_byte(node);
    let end: usize = input.tree.end_byte(node);
    let mut index: usize = 0;
    while index < input.disabled_regions.len()
        invariant
            index <= input.disabled_regions@.len(),
            start == input.tree.start_of(node as int),
            end == input.tree.end_of(node as int),
            forall|before: int|
                #![trigger input.disabled_regions@[before]]
                0 <= before < index ==> !(input.disabled_regions@[before].start < end
                    && input.disabled_regions@[before].end > start),
        decreases input.disabled_regions@.len() - index,
    {
        let region = input.disabled_regions[index];
        if region.start < end && region.end > start {
            return true;
        }
        index = index + 1;
    }
    false
}

} // verus!
