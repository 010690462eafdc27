use vstd::prelude::*;
use crate::model::{
    SizeClass, Segment, SegmentGroup, good_suffix, groups_cover, valid_allocation, valid_group,
    is_split_group, is_multi_a_group, is_multi_b_group, split_a, split_b, multi_s, alloc_count_a,
    alloc_count_b, group_count_a, group_count_b, solvable, lemma_good_suffix_decompose,
    lemma_group_counts, lemma_alloc_counts_nonneg, lemma_alloc_count_snoc,
};
use crate::ranges::{
    class_a_val, class_b_val, class_a_lengths, class_b_lengths, lemma_class_a_index,
    lemma_class_b_index,
};
use crate::ratio::{accepted_counts, spec_simplify, is_accepted, simplify_ratio};

verus! {

/// No good completion of the current state starts with a one-and-one split
/// whose class-A piece is below `bound` millimeters.
pub open spec fn no_split_below(
    lengths: Seq<u64>,
    index: int,
    ca: int,
    cb: int,
    bound: int,
) -> bool {
    forall|gs: Seq<SegmentGroup>|
        !(#[trigger] good_suffix(gs, lengths, index, ca, cb) && is_split_group(
            gs[0],
            lengths[index],
        ) && split_a(gs[0]) < bound)
}

/// No good completion starts with a split whose class-A piece is exactly
/// `aval` and whose class-B piece is below `bbound` millimeters.
pub open spec fn no_split_at_below(
    lengths: Seq<u64>,
    index: int,
    ca: int,
    cb: int,
    aval: int,
    bbound: int,
) -> bool {
    forall|gs: Seq<SegmentGroup>|
        !(#[trigger] good_suffix(gs, lengths, index, ca, cb) && is_split_group(
            gs[0],
            lengths[index],
        ) && split_a(gs[0]) == aval && split_b(gs[0]) < bbound)
}

/// No good completion starts with equal class-A pieces of a size below
/// `bound` millimeters.
pub open spec fn no_multi_a_below(
    lengths: Seq<u64>,
    index: int,
    ca: int,
    cb: int,
    bound: int,
) -> bool {
    forall|gs: Seq<SegmentGroup>|
        !(#[trigger] good_suffix(gs, lengths, index, ca, cb) && is_multi_a_group(
            gs[0],
            lengths[index],
        ) && multi_s(gs[0]) < bound)
}

/// No good completion starts with equal class-B pieces of a size below
/// `bound` millimeters.
pub open spec fn no_multi_b_below(
    lengths: Seq<u64>,
    index: int,
    ca: int,
    cb: int,
    bound: int,
) -> bool {
    forall|gs: Seq<SegmentGroup>|
        !(#[trigger] good_suffix(gs, lengths, index, ca, cb) && is_multi_b_group(
            gs[0],
            lengths[index],
        ) && multi_s(gs[0]) < bound)
}

/// The place of a committed group in the per-tape enumeration order: splits
/// come first, ordered by their class-A then class-B size; then class-A
/// multiples and class-B multiples, each ordered by size.
pub open spec fn group_rank(g: SegmentGroup) -> int {
    if g.segments@.len() == 2 {
        split_a(g) * 1000000 + split_b(g)
    } else if g.segments@[0].class is ClassA {
        1000000000000 + multi_s(g)
    } else {
        2000000000000 + multi_s(g)
    }
}

/// The first sequence of groups comes no later than the second in the
/// enumeration order: group ranks compared position by position.
pub open spec fn rank_le(gs1: Seq<SegmentGroup>, gs2: Seq<SegmentGroup>) -> bool
    decreases gs1.len(),
{
    if gs1.len() == 0 || gs2.len() == 0 {
        true
    } else if group_rank(gs1[0]) != group_rank(gs2[0]) {
        group_rank(gs1[0]) < group_rank(gs2[0])
    } else {
        rank_le(gs1.skip(1), gs2.skip(1))
    }
}

/// What an earlier rank says of two valid groups for one tape: an earlier
/// split pair before a split, any split before a multiple, class-A multiples
/// before class-B multiples.
proof fn lemma_rank_below(h: SegmentGroup, g: SegmentGroup, len: u64)
    requires
        valid_group(h, len),
        valid_group(g, len),
        group_rank(h) < group_rank(g),
    ensures
        is_split_group(g, len) ==> is_split_group(h, len) && (split_a(h) < split_a(g) || (split_a(
            h,
        ) == split_a(g) && split_b(h) < split_b(g))),
        is_multi_a_group(g, len) ==> is_split_group(h, len) || (is_multi_a_group(h, len)
            && multi_s(h) < multi_s(g)),
        is_multi_b_group(g, len) ==> is_split_group(h, len) || is_multi_a_group(h, len) || (
        is_multi_b_group(h, len) && multi_s(h) < multi_s(g)),
{
}

/// Two valid groups of one rank contribute the same counts.
proof fn lemma_rank_equal(h: SegmentGroup, g: SegmentGroup, len: u64)
    requires
        valid_group(h, len),
        valid_group(g, len),
        group_rank(h) == group_rank(g),
    ensures
        group_count_a(h) == group_count_a(g),
        group_count_b(h) == group_count_b(g),
{
    lemma_group_counts(h, len);
    lemma_group_counts(g, len);
}

/// Two valid groups of one rank for one tape are the same cut: the same
/// segments and the same tape.
proof fn lemma_rank_equal_same_view(h: SegmentGroup, g: SegmentGroup, len: u64)
    requires
        valid_group(h, len),
        valid_group(g, len),
        group_rank(h) == group_rank(g),
    ensures
        h.segments@ == g.segments@,
        h.tape_mm == g.tape_mm,
{
    if is_split_group(h, len) {
        assert(split_a(h) == split_a(g) && split_b(h) == split_b(g));
        assert(h.segments@[0] == g.segments@[0]);
        assert(h.segments@[1] == g.segments@[1]);
        assert(h.segments@ =~= g.segments@);
    } else {
        assert(multi_s(h) == multi_s(g));
        assert(h.segments@[0] == g.segments@[0]);
        assert(h.segments@ =~= g.segments@);
    }
}

/// Two coverings of the remaining tapes that come no later than each other
/// in the enumeration order are the same cuts, group for group.
proof fn lemma_minimal_unique(
    gs1: Seq<SegmentGroup>,
    gs2: Seq<SegmentGroup>,
    lengths: Seq<u64>,
    index: int,
)
    requires
        0 <= index <= lengths.len(),
        groups_cover(gs1, lengths, index),
        groups_cover(gs2, lengths, index),
        rank_le(gs1, gs2),
        rank_le(gs2, gs1),
    ensures
        forall|i: int|
            0 <= i < gs1.len() ==> (#[trigger] gs1[i]).segments@ == gs2[i].segments@ && gs1[i].tape_mm
                == gs2[i].tape_mm,
    decreases gs1.len(),
{
    if gs1.len() > 0 {
        assert(valid_group(gs1[0], lengths[index]));
        assert(valid_group(gs2[0], lengths[index]));
        assert(group_rank(gs1[0]) == group_rank(gs2[0]));
        lemma_rank_equal_same_view(gs1[0], gs2[0], lengths[index]);
        assert forall|j: int| 0 <= j < gs1.skip(1).len() implies valid_group(
            #[trigger] gs1.skip(1)[j],
            lengths[index + 1 + j],
        ) by {
            assert(gs1.skip(1)[j] == gs1[j + 1]);
            assert(valid_group(gs1[j + 1], lengths[index + (j + 1)]));
        }
        assert forall|j: int| 0 <= j < gs2.skip(1).len() implies valid_group(
            #[trigger] gs2.skip(1)[j],
            lengths[index + 1 + j],
        ) by {
            assert(gs2.skip(1)[j] == gs2[j + 1]);
            assert(valid_group(gs2[j + 1], lengths[index + (j + 1)]));
        }
        lemma_minimal_unique(gs1.skip(1), gs2.skip(1), lengths, index + 1);
        assert forall|i: int|
            0 <= i < gs1.len() implies (#[trigger] gs1[i]).segments@ == gs2[i].segments@
            && gs1[i].tape_mm == gs2[i].tape_mm by {
            if i > 0 {
                assert(gs1[i] == gs1.skip(1)[i - 1]);
                assert(gs2[i] == gs2.skip(1)[i - 1]);
            }
        }
    }
}

/// Two full allocations that come no later than each other in the
/// enumeration order are the same cuts with the same totals.
pub proof fn lemma_minimal_allocation_unique(
    gs1: Seq<SegmentGroup>,
    gs2: Seq<SegmentGroup>,
    lengths: Seq<u64>,
)
    requires
        valid_allocation(gs1, lengths),
        valid_allocation(gs2, lengths),
        rank_le(gs1, gs2),
        rank_le(gs2, gs1),
    ensures
        gs1.len() == gs2.len(),
        forall|i: int|
            0 <= i < gs1.len() ==> (#[trigger] gs1[i]).segments@ == gs2[i].segments@ && gs1[i].tape_mm
                == gs2[i].tape_mm,
        alloc_count_a(gs1) == alloc_count_a(gs2),
        alloc_count_b(gs1) == alloc_count_b(gs2),
{
    lemma_minimal_unique(gs1, gs2, lengths, 0);
    lemma_same_views_same_counts(gs1, gs2);
}

/// Sequences of groups with the same segments, group for group, contribute
/// the same totals.
proof fn lemma_same_views_same_counts(gs1: Seq<SegmentGroup>, gs2: Seq<SegmentGroup>)
    requires
        gs1.len() == gs2.len(),
        forall|i: int|
            0 <= i < gs1.len() ==> (#[trigger] gs1[i]).segments@ == gs2[i].segments@,
    ensures
        alloc_count_a(gs1) == alloc_count_a(gs2),
        alloc_count_b(gs1) == alloc_count_b(gs2),
    decreases gs1.len(),
{
    if gs1.len() > 0 {
        assert(gs1[0].segments@ == gs2[0].segments@);
        assert(group_count_a(gs1[0]) == group_count_a(gs2[0]));
        assert(group_count_b(gs1[0]) == group_count_b(gs2[0]));
        assert forall|i: int|
            0 <= i < gs1.skip(1).len() implies (#[trigger] gs1.skip(1)[i]).segments@ == gs2.skip(
            1,
        )[i].segments@ by {
            assert(gs1.skip(1)[i] == gs1[i + 1]);
            assert(gs2.skip(1)[i] == gs2[i + 1]);
        }
        lemma_same_views_same_counts(gs1.skip(1), gs2.skip(1));
    }
}

/// After the recursion refused every completion past a committed split, no
/// good completion starts with a split of exactly these two sizes.
proof fn lemma_split_pair_excluded(lengths: Seq<u64>, index: int, ca: int, cb: int, av: int, bv: int)
    requires
        0 <= index < lengths.len(),
        ca + 1 <= u64::MAX && cb + 1 <= u64::MAX ==> (forall|gs: Seq<SegmentGroup>|
            !(#[trigger] good_suffix(gs, lengths, index + 1, ca + 1, cb + 1))),
    ensures
        forall|gs: Seq<SegmentGroup>|
            !(#[trigger] good_suffix(gs, lengths, index, ca, cb) && is_split_group(
                gs[0],
                lengths[index],
            ) && split_a(gs[0]) == av && split_b(gs[0]) == bv),
{
    assert forall|gs: Seq<SegmentGroup>|
        !(#[trigger] good_suffix(gs, lengths, index, ca, cb) && is_split_group(
            gs[0],
            lengths[index],
        ) && split_a(gs[0]) == av && split_b(gs[0]) == bv) by {
        if good_suffix(gs, lengths, index, ca, cb) && is_split_group(gs[0], lengths[index])
            && split_a(gs[0]) == av && split_b(gs[0]) == bv {
            lemma_good_suffix_decompose(gs, lengths, index, ca, cb);
            lemma_group_counts(gs[0], lengths[index]);
            assert(good_suffix(gs.skip(1), lengths, index + 1, ca + 1, cb + 1));
            lemma_alloc_counts_nonneg(gs.skip(1));
            assert(ca + 1 <= u64::MAX && cb + 1 <= u64::MAX);
            assert(false);
        }
    }
}

/// After the recursion refused every completion past committed equal class-A
/// pieces, no good completion starts with equal class-A pieces of that size.
proof fn lemma_multi_a_excluded(lengths: Seq<u64>, index: int, ca: int, cb: int, sv: int, cnt: int)
    requires
        0 <= index < lengths.len(),
        sv > 0,
        lengths[index] as int % sv == 0,
        cnt == lengths[index] as int / sv,
        ca + cnt <= u64::MAX ==> (forall|gs: Seq<SegmentGroup>|
            !(#[trigger] good_suffix(gs, lengths, index + 1, ca + cnt, cb))),
    ensures
        forall|gs: Seq<SegmentGroup>|
            !(#[trigger] good_suffix(gs, lengths, index, ca, cb) && is_multi_a_group(
                gs[0],
                lengths[index],
            ) && multi_s(gs[0]) == sv),
{
    assert forall|gs: Seq<SegmentGroup>|
        !(#[trigger] good_suffix(gs, lengths, index, ca, cb) && is_multi_a_group(
            gs[0],
            lengths[index],
        ) && multi_s(gs[0]) == sv) by {
        if good_suffix(gs, lengths, index, ca, cb) && is_multi_a_group(gs[0], lengths[index])
            && multi_s(gs[0]) == sv {
            lemma_good_suffix_decompose(gs, lengths, index, ca, cb);
            lemma_group_counts(gs[0], lengths[index]);
            assert(group_count_a(gs[0]) == cnt);
            assert(good_suffix(gs.skip(1), lengths, index + 1, ca + cnt, cb));
            lemma_alloc_counts_nonneg(gs.skip(1));
            assert(ca + cnt <= u64::MAX);
            assert(false);
        }
    }
}

/// The class-B counterpart of the lemma above.
proof fn lemma_multi_b_excluded(lengths: Seq<u64>, index: int, ca: int, cb: int, sv: int, cnt: int)
    requires
        0 <= index < lengths.len(),
        sv > 0,
        lengths[index] as int % sv == 0,
        cnt == lengths[index] as int / sv,
        cb + cnt <= u64::MAX ==> (forall|gs: Seq<SegmentGroup>|
            !(#[trigger] good_suffix(gs, lengths, index + 1, ca, cb + cnt))),
    ensures
        forall|gs: Seq<SegmentGroup>|
            !(#[trigger] good_suffix(gs, lengths, index, ca, cb) && is_multi_b_group(
                gs[0],
                lengths[index],
            ) && multi_s(gs[0]) == sv),
{
    assert forall|gs: Seq<SegmentGroup>|
        !(#[trigger] good_suffix(gs, lengths, index, ca, cb) && is_multi_b_group(
            gs[0],
            lengths[index],
        ) && multi_s(gs[0]) == sv) by {
        if good_suffix(gs, lengths, index, ca, cb) && is_multi_b_group(gs[0], lengths[index])
            && multi_s(gs[0]) == sv {
            lemma_good_suffix_decompose(gs, lengths, index, ca, cb);
            lemma_group_counts(gs[0], lengths[index]);
            assert(group_count_b(gs[0]) == cnt);
            assert(good_suffix(gs.skip(1), lengths, index + 1, ca, cb + cnt));
            lemma_alloc_counts_nonneg(gs.skip(1));
            assert(cb + cnt <= u64::MAX);
            assert(false);
        }
    }
}

/// Widens the class-B exclusion by one catalog step.
proof fn lemma_split_at_advance(lengths: Seq<u64>, index: int, ca: int, cb: int, av: int, bi: int)
    requires
        0 <= index < lengths.len(),
        0 <= bi < 2391,
        no_split_at_below(lengths, index, ca, cb, av, class_b_val(bi)),
        forall|gs: Seq<SegmentGroup>|
            !(#[trigger] good_suffix(gs, lengths, index, ca, cb) && is_split_group(
                gs[0],
                lengths[index],
            ) && split_a(gs[0]) == av && split_b(gs[0]) == class_b_val(bi)),
    ensures
        no_split_at_below(lengths, index, ca, cb, av, class_b_val(bi + 1)),
{
    assert forall|gs: Seq<SegmentGroup>|
        !(#[trigger] good_suffix(gs, lengths, index, ca, cb) && is_split_group(
            gs[0],
            lengths[index],
        ) && split_a(gs[0]) == av && split_b(gs[0]) < class_b_val(bi + 1)) by {
        if good_suffix(gs, lengths, index, ca, cb) && is_split_group(gs[0], lengths[index])
            && split_a(gs[0]) == av && split_b(gs[0]) < class_b_val(bi + 1) {
            lemma_class_b_index(split_b(gs[0]));
            let k = choose|k: int| 0 <= k < 2391 && split_b(gs[0]) == #[trigger] class_b_val(k);
            assert(k <= bi);
            assert(false);
        }
    }
}

/// Widens the class-A split exclusion by one catalog step once every class-B
/// partner of the current class-A size is excluded.
proof fn lemma_split_advance(lengths: Seq<u64>, index: int, ca: int, cb: int, ai: int)
    requires
        0 <= index < lengths.len(),
        0 <= ai < 601,
        no_split_below(lengths, index, ca, cb, class_a_val(ai)),
        no_split_at_below(lengths, index, ca, cb, class_a_val(ai), class_b_val(2391)),
    ensures
        no_split_below(lengths, index, ca, cb, class_a_val(ai + 1)),
{
    assert forall|gs: Seq<SegmentGroup>|
        !(#[trigger] good_suffix(gs, lengths, index, ca, cb) && is_split_group(
            gs[0],
            lengths[index],
        ) && split_a(gs[0]) < class_a_val(ai + 1)) by {
        if good_suffix(gs, lengths, index, ca, cb) && is_split_group(gs[0], lengths[index])
            && split_a(gs[0]) < class_a_val(ai + 1) {
            if split_a(gs[0]) >= class_a_val(ai) {
                lemma_class_a_index(split_a(gs[0]));
                let k = choose|k: int|
                    0 <= k < 601 && split_a(gs[0]) == #[trigger] class_a_val(k);
                assert(k == ai);
                lemma_class_b_index(split_b(gs[0]));
                let j = choose|j: int|
                    0 <= j < 2391 && split_b(gs[0]) == #[trigger] class_b_val(j);
                assert(split_b(gs[0]) < class_b_val(2391));
                assert(false);
            }
            assert(false);
        }
    }
}

/// Widens the class-A multiple exclusion by one catalog step.
proof fn lemma_multi_a_advance(lengths: Seq<u64>, index: int, ca: int, cb: int, ai: int)
    requires
        0 <= index < lengths.len(),
        0 <= ai < 601,
        no_multi_a_below(lengths, index, ca, cb, class_a_val(ai)),
        forall|gs: Seq<SegmentGroup>|
            !(#[trigger] good_suffix(gs, lengths, index, ca, cb) && is_multi_a_group(
                gs[0],
                lengths[index],
            ) && multi_s(gs[0]) == class_a_val(ai)),
    ensures
        no_multi_a_below(lengths, index, ca, cb, class_a_val(ai + 1)),
{
    assert forall|gs: Seq<SegmentGroup>|
        !(#[trigger] good_suffix(gs, lengths, index, ca, cb) && is_multi_a_group(
            gs[0],
            lengths[index],
        ) && multi_s(gs[0]) < class_a_val(ai + 1)) by {
        if good_suffix(gs, lengths, index, ca, cb) && is_multi_a_group(gs[0], lengths[index])
            && multi_s(gs[0]) < class_a_val(ai + 1) {
            if multi_s(gs[0]) >= class_a_val(ai) {
                lemma_class_a_index(multi_s(gs[0]));
                let k = choose|k: int| 0 <= k < 601 && multi_s(gs[0]) == #[trigger] class_a_val(k);
                assert(k == ai);
                assert(false);
            }
            assert(false);
        }
    }
}

/// Widens the class-B multiple exclusion by one catalog step.
proof fn lemma_multi_b_advance(lengths: Seq<u64>, index: int, ca: int, cb: int, bi: int)
    requires
        0 <= index < lengths.len(),
        0 <= bi < 2391,
        no_multi_b_below(lengths, index, ca, cb, class_b_val(bi)),
        forall|gs: Seq<SegmentGroup>|
            !(#[trigger] good_suffix(gs, lengths, index, ca, cb) && is_multi_b_group(
                gs[0],
                lengths[index],
            ) && multi_s(gs[0]) == class_b_val(bi)),
    ensures
        no_multi_b_below(lengths, index, ca, cb, class_b_val(bi + 1)),
{
    assert forall|gs: Seq<SegmentGroup>|
        !(#[trigger] good_suffix(gs, lengths, index, ca, cb) && is_multi_b_group(
            gs[0],
            lengths[index],
        ) && multi_s(gs[0]) < class_b_val(bi + 1)) by {
        if good_suffix(gs, lengths, index, ca, cb) && is_multi_b_group(gs[0], lengths[index])
            && multi_s(gs[0]) < class_b_val(bi + 1) {
            if multi_s(gs[0]) >= class_b_val(bi) {
                lemma_class_b_index(multi_s(gs[0]));
                let k = choose|k: int| 0 <= k < 2391 && multi_s(gs[0]) == #[trigger] class_b_val(k);
                assert(k == bi);
                assert(false);
            }
            assert(false);
        }
    }
}

/// Once all three strategies are exhausted for the current tape, no good
/// completion of the current state exists at all.
proof fn lemma_all_excluded(lengths: Seq<u64>, index: int, ca: int, cb: int)
    requires
        0 <= index < lengths.len(),
        no_split_below(lengths, index, ca, cb, class_a_val(601)),
        no_multi_a_below(lengths, index, ca, cb, class_a_val(601)),
        no_multi_b_below(lengths, index, ca, cb, class_b_val(2391)),
    ensures
        forall|gs: Seq<SegmentGroup>| !good_suffix(gs, lengths, index, ca, cb),
{
    assert forall|gs: Seq<SegmentGroup>| !good_suffix(gs, lengths, index, ca, cb) by {
        if good_suffix(gs, lengths, index, ca, cb) {
            lemma_good_suffix_decompose(gs, lengths, index, ca, cb);
            let g = gs[0];
            if is_split_group(g, lengths[index]) {
                assert(split_a(g) <= 360000 < class_a_val(601));
                assert(false);
            } else if is_multi_a_group(g, lengths[index]) {
                assert(multi_s(g) <= 360000 < class_a_val(601));
                assert(false);
            } else {
                assert(is_multi_b_group(g, lengths[index]));
                assert(multi_s(g) <= 600000 < class_b_val(2391));
                assert(false);
            }
        }
    }
}

/// A full allocation that extends the committed prefix by a valid group for
/// the current tape keeps that prefix unchanged, and its remainder is a good
/// completion of the current state.
proof fn lemma_some_extends(
    fg: Seq<SegmentGroup>,
    olds: Seq<SegmentGroup>,
    g: SegmentGroup,
    lengths: Seq<u64>,
    index: int,
    ca: int,
    cb: int,
)
    requires
        0 <= index < lengths.len(),
        olds.len() == index,
        fg.len() == lengths.len(),
        fg.subrange(0, index + 1) == olds.push(g),
        valid_group(g, lengths[index]),
        good_suffix(
            fg.skip(index + 1),
            lengths,
            index + 1,
            ca + group_count_a(g),
            cb + group_count_b(g),
        ),
    ensures
        fg.subrange(0, index) == olds,
        good_suffix(fg.skip(index), lengths, index, ca, cb),
{
    assert forall|i: int| 0 <= i < index implies fg[i] == olds[i] by {
        assert(fg.subrange(0, index + 1)[i] == fg[i]);
        assert(olds.push(g)[i] == olds[i]);
    }
    assert(fg.subrange(0, index) =~= olds);
    assert(fg.subrange(0, index + 1)[index] == fg[index]);
    assert(olds.push(g)[index] == g);
    assert(fg[index] == g);
    let suf = fg.skip(index);
    assert(suf[0] == fg[index]);
    assert(suf.skip(1) =~= fg.skip(index + 1));
    assert forall|j: int| 0 <= j < suf.len() implies valid_group(
        #[trigger] suf[j],
        lengths[index + j],
    ) by {
        if j > 0 {
            assert(suf[j] == fg.skip(index + 1)[j - 1]);
            assert(valid_group(fg.skip(index + 1)[j - 1], lengths[index + 1 + (j - 1)]));
        }
    }
    assert(alloc_count_a(suf) == group_count_a(suf[0]) + alloc_count_a(suf.skip(1)));
    assert(alloc_count_b(suf) == group_count_b(suf[0]) + alloc_count_b(suf.skip(1)));
}

/// Depth-first backtracking over the remaining tapes. `groups` holds the
/// committed groups for the tapes before `index`, and `count_a` / `count_b`
/// their accumulated class counts. On success the committed prefix is kept
/// unchanged and extended with the first good completion in enumeration
/// order — no good completion ranks earlier — and the accepted ratio text is
/// returned; on failure the committed groups are left as they were, and no
/// completion of this state reaches an accepted ratio.
#[verifier::loop_isolation(false)]
pub fn backtrack(
    index: usize,
    count_a: u64,
    count_b: u64,
    groups: &mut Vec<SegmentGroup>,
    lengths: &Vec<u64>,
    range_a: &Vec<u64>,
    range_b: &Vec<u64>,
) -> (r: Option<String>)
    requires
        index <= lengths@.len(),
        old(groups)@.len() == index,
        forall|j: int| 0 <= j < index ==> valid_group(#[trigger] old(groups)@[j], lengths@[j]),
        count_a as int == alloc_count_a(old(groups)@),
        count_b as int == alloc_count_b(old(groups)@),
        range_a@.len() == 601,
        forall|i: int| 0 <= i < 601 ==> range_a@[i] == class_a_val(i),
        range_b@.len() == 2391,
        forall|i: int| 0 <= i < 2391 ==> range_b@[i] == class_b_val(i),
    ensures
        r is Some ==> final(groups)@.len() == lengths@.len() && final(groups)@.subrange(
            0,
            index as int,
        ) == old(groups)@ && good_suffix(
            final(groups)@.skip(index as int),
            lengths@,
            index as int,
            count_a as int,
            count_b as int,
        ),
        r is Some ==> (forall|gs: Seq<SegmentGroup>|
            #[trigger] good_suffix(gs, lengths@, index as int, count_a as int, count_b as int)
                ==> rank_le(final(groups)@.skip(index as int), gs)),
        r matches Some(ratio) ==> valid_allocation(final(groups)@, lengths@) && accepted_counts(
            alloc_count_a(final(groups)@),
            alloc_count_b(final(groups)@),
        ) && ratio@ == spec_simplify(
            alloc_count_a(final(groups)@),
            alloc_count_b(final(groups)@),
        ) && alloc_count_a(final(groups)@) <= u64::MAX && alloc_count_b(final(groups)@)
            <= u64::MAX,
        r is None ==> final(groups)@ == old(groups)@ && (forall|gs: Seq<SegmentGroup>|
            !good_suffix(gs, lengths@, index as int, count_a as int, count_b as int)),
    decreases lengths@.len() - index,
{
    let ghost olds = old(groups)@;
    let ghost lens = lengths@;
    let ghost idx = index as int;
    let ghost ca = count_a as int;
    let ghost cb = count_b as int;
    let n = lengths.len();
    if index == n {
        if is_accepted(count_a, count_b) {
            let ratio = simplify_ratio(count_a, count_b);
            proof {
                assert(groups_cover(groups@, lens, 0));
                assert(groups@.subrange(0, idx) =~= olds);
                let suf = groups@.skip(idx);
                assert(suf.len() == 0);
                assert(alloc_count_a(suf) == 0);
                assert(alloc_count_b(suf) == 0);
                assert(good_suffix(suf, lens, idx, ca, cb));
                assert forall|gs: Seq<SegmentGroup>|
                    #[trigger] good_suffix(gs, lens, idx, ca, cb) implies rank_le(
                    groups@.skip(idx),
                    gs,
                ) by {
                    assert(groups@.skip(idx).len() == 0);
                }
            }
            Some(ratio)
        } else {
            proof {
                assert forall|gs: Seq<SegmentGroup>| !good_suffix(gs, lens, idx, ca, cb) by {
                    if good_suffix(gs, lens, idx, ca, cb) {
                        assert(gs.len() == 0);
                        assert(alloc_count_a(gs) == 0);
                        assert(alloc_count_b(gs) == 0);
                        assert(accepted_counts(ca, cb));
                        assert(false);
                    }
                }
            }
            None
        }
    } else {
        let len = lengths[index];
        proof {
            assert forall|gs: Seq<SegmentGroup>|
                !(#[trigger] good_suffix(gs, lens, idx, ca, cb) && is_split_group(gs[0], lens[idx])
                    && split_a(gs[0]) < class_a_val(0)) by {}
        }
        // One-and-one split: one class-A piece plus one class-B piece.
        let mut ai: usize = 0;
        while ai < 601
            invariant
                ai <= 601,
                groups@ == olds,
                no_split_below(lens, idx, ca, cb, class_a_val(ai as int)),
            decreases 601 - ai,
        {
            let s1 = range_a[ai];
            proof {
                assert forall|gs: Seq<SegmentGroup>|
                    !(#[trigger] good_suffix(gs, lens, idx, ca, cb) && is_split_group(
                        gs[0],
                        lens[idx],
                    ) && split_a(gs[0]) == s1 as int && split_b(gs[0]) < class_b_val(0)) by {}
            }
            let mut bi: usize = 0;
            while bi < 2391
                invariant
                    bi <= 2391,
                    groups@ == olds,
                    no_split_below(lens, idx, ca, cb, class_a_val(ai as int)),
                    no_split_at_below(lens, idx, ca, cb, s1 as int, class_b_val(bi as int)),
                decreases 2391 - bi,
            {
                let s2 = range_b[bi];
                if s1 + s2 == len {
                    if count_a < u64::MAX && count_b < u64::MAX {
                        let mut segs: Vec<Segment> = Vec::new();
                        segs.push(Segment { class: SizeClass::ClassA, len_mm: s1, count: 1 });
                        segs.push(Segment { class: SizeClass::ClassB, len_mm: s2, count: 1 });
                        let g = SegmentGroup { tape_mm: len, segments: segs };
                        proof {
                            assert(exists|i: int|
                                0 <= i < 601 && s1 as int == #[trigger] class_a_val(i));
                            lemma_class_a_index(s1 as int);
                            assert(exists|i: int|
                                0 <= i < 2391 && s2 as int == #[trigger] class_b_val(i));
                            lemma_class_b_index(s2 as int);
                            assert(is_split_group(g, len));
                            lemma_group_counts(g, len);
                            lemma_alloc_count_snoc(olds, g);
                        }
                        groups.push(g);
                        let r = backtrack(
                            index + 1,
                            count_a + 1,
                            count_b + 1,
                            groups,
                            lengths,
                            range_a,
                            range_b,
                        );
                        if r.is_some() {
                            proof {
                                lemma_some_extends(groups@, olds, g, lens, idx, ca, cb);
                                let fg = groups@;
                                let sfx = fg.skip(idx);
                                assert(fg.subrange(0, idx + 1)[idx] == fg[idx]);
                                assert(olds.push(g)[idx] == g);
                                assert(sfx[0] == fg[idx]);
                                assert forall|gs: Seq<SegmentGroup>|
                                    #[trigger] good_suffix(gs, lens, idx, ca, cb) implies rank_le(sfx, gs) by {
                                    lemma_good_suffix_decompose(gs, lens, idx, ca, cb);
                                    let h = gs[0];
                                    if group_rank(h) < group_rank(g) {
                                        lemma_rank_below(h, g, lens[idx]);
                                    if is_split_group(h, lens[idx]) && split_a(h) < split_a(g) {
                                    } else {
                                        assert(split_a(h) == split_a(g) && split_b(h) < split_b(g));
                                    }
                                        assert(false);
                                    } else if group_rank(h) == group_rank(g) {
                                        lemma_rank_equal(h, g, lens[idx]);
                                        assert(good_suffix(gs.skip(1), lens, idx + 1, ca + 1, cb + 1));
                                        assert(rank_le(fg.skip(idx + 1), gs.skip(1)));
                                        assert(sfx.skip(1) =~= fg.skip(idx + 1));
                                        assert(rank_le(sfx, gs));
                                    } else {
                                        assert(rank_le(sfx, gs));
                                    }
                                }
                            }
                            return r;
                        }
                        let _ = groups.pop();
                        proof {
                            assert(groups@ =~= olds);
                            lemma_split_pair_excluded(lens, idx, ca, cb, s1 as int, s2 as int);
                        }
                    } else {
                        proof {
                            lemma_split_pair_excluded(lens, idx, ca, cb, s1 as int, s2 as int);
                        }
                    }
                } else {
                    proof {
                        assert forall|gs: Seq<SegmentGroup>|
                            !(#[trigger] good_suffix(gs, lens, idx, ca, cb) && is_split_group(
                                gs[0],
                                lens[idx],
                            ) && split_a(gs[0]) == s1 as int && split_b(gs[0]) == s2 as int) by {
                            if good_suffix(gs, lens, idx, ca, cb) && is_split_group(
                                gs[0],
                                lens[idx],
                            ) && split_a(gs[0]) == s1 as int && split_b(gs[0]) == s2 as int {
                                assert(split_a(gs[0]) + split_b(gs[0]) == len);
                                assert(false);
                            }
                        }
                    }
                }
                proof {
                    lemma_split_at_advance(lens, idx, ca, cb, s1 as int, bi as int);
                }
                bi += 1;
            }
            proof {
                lemma_split_advance(lens, idx, ca, cb, ai as int);
            }
            ai += 1;
        }
        // Equal class-A pieces dividing the tape evenly.
        proof {
            assert forall|gs: Seq<SegmentGroup>|
                !(#[trigger] good_suffix(gs, lens, idx, ca, cb) && is_multi_a_group(
                    gs[0],
                    lens[idx],
                ) && multi_s(gs[0]) < class_a_val(0)) by {}
        }
        let mut ai: usize = 0;
        while ai < 601
            invariant
                ai <= 601,
                groups@ == olds,
                no_multi_a_below(lens, idx, ca, cb, class_a_val(ai as int)),
            decreases 601 - ai,
        {
            let s1 = range_a[ai];
            if len % s1 == 0 {
                let cnt = len / s1;
                if count_a <= u64::MAX - cnt {
                    let mut segs: Vec<Segment> = Vec::new();
                    segs.push(Segment { class: SizeClass::ClassA, len_mm: s1, count: cnt });
                    let g = SegmentGroup { tape_mm: len, segments: segs };
                    proof {
                        assert(exists|i: int|
                            0 <= i < 601 && s1 as int == #[trigger] class_a_val(i));
                        lemma_class_a_index(s1 as int);
                        assert(is_multi_a_group(g, len));
                        lemma_group_counts(g, len);
                        lemma_alloc_count_snoc(olds, g);
                    }
                    groups.push(g);
                    let r = backtrack(
                        index + 1,
                        count_a + cnt,
                        count_b,
                        groups,
                        lengths,
                        range_a,
                        range_b,
                    );
                    if r.is_some() {
                        proof {
                            lemma_some_extends(groups@, olds, g, lens, idx, ca, cb);
                            let fg = groups@;
                            let sfx = fg.skip(idx);
                            assert(fg.subrange(0, idx + 1)[idx] == fg[idx]);
                            assert(olds.push(g)[idx] == g);
                            assert(sfx[0] == fg[idx]);
                            assert forall|gs: Seq<SegmentGroup>|
                                #[trigger] good_suffix(gs, lens, idx, ca, cb) implies rank_le(sfx, gs) by {
                                lemma_good_suffix_decompose(gs, lens, idx, ca, cb);
                                let h = gs[0];
                                if group_rank(h) < group_rank(g) {
                                    lemma_rank_below(h, g, lens[idx]);
                                if is_split_group(h, lens[idx]) {
                                } else {
                                    assert(is_multi_a_group(h, lens[idx]) && multi_s(h) < multi_s(g));
                                }
                                    assert(false);
                                } else if group_rank(h) == group_rank(g) {
                                    lemma_rank_equal(h, g, lens[idx]);
                                    assert(good_suffix(gs.skip(1), lens, idx + 1, ca + cnt, cb));
                                    assert(rank_le(fg.skip(idx + 1), gs.skip(1)));
                                    assert(sfx.skip(1) =~= fg.skip(idx + 1));
                                    assert(rank_le(sfx, gs));
                                } else {
                                    assert(rank_le(sfx, gs));
                                }
                            }
                        }
                        return r;
                    }
                    let _ = groups.pop();
                    proof {
                        assert(groups@ =~= olds);
                        lemma_multi_a_excluded(lens, idx, ca, cb, s1 as int, cnt as int);
                    }
                } else {
                    proof {
                        lemma_multi_a_excluded(lens, idx, ca, cb, s1 as int, cnt as int);
                    }
                }
            } else {
                proof {
                    assert forall|gs: Seq<SegmentGroup>|
                        !(#[trigger] good_suffix(gs, lens, idx, ca, cb) && is_multi_a_group(
                            gs[0],
                            lens[idx],
                        ) && multi_s(gs[0]) == s1 as int) by {
                        if good_suffix(gs, lens, idx, ca, cb) && is_multi_a_group(gs[0], lens[idx])
                            && multi_s(gs[0]) == s1 as int {
                            assert(len as int % (s1 as int) == 0);
                            assert(false);
                        }
                    }
                }
            }
            proof {
                lemma_multi_a_advance(lens, idx, ca, cb, ai as int);
            }
            ai += 1;
        }
        // Equal class-B pieces dividing the tape evenly.
        proof {
            assert forall|gs: Seq<SegmentGroup>|
                !(#[trigger] good_suffix(gs, lens, idx, ca, cb) && is_multi_b_group(
                    gs[0],
                    lens[idx],
                ) && multi_s(gs[0]) < class_b_val(0)) by {}
        }
        let mut bi: usize = 0;
        while bi < 2391
            invariant
                bi <= 2391,
                groups@ == olds,
                no_multi_b_below(lens, idx, ca, cb, class_b_val(bi as int)),
            decreases 2391 - bi,
        {
            let s2 = range_b[bi];
            if len % s2 == 0 {
                let cnt = len / s2;
                if count_b <= u64::MAX - cnt {
                    let mut segs: Vec<Segment> = Vec::new();
                    segs.push(Segment { class: SizeClass::ClassB, len_mm: s2, count: cnt });
                    let g = SegmentGroup { tape_mm: len, segments: segs };
                    proof {
                        assert(exists|i: int|
                            0 <= i < 2391 && s2 as int == #[trigger] class_b_val(i));
                        lemma_class_b_index(s2 as int);
                        assert(is_multi_b_group(g, len));
                        lemma_group_counts(g, len);
                        lemma_alloc_count_snoc(olds, g);
                    }
                    groups.push(g);
                    let r = backtrack(
                        index + 1,
                        count_a,
                        count_b + cnt,
                        groups,
                        lengths,
                        range_a,
                        range_b,
                    );
                    if r.is_some() {
                        proof {
                            lemma_some_extends(groups@, olds, g, lens, idx, ca, cb);
                            let fg = groups@;
                            let sfx = fg.skip(idx);
                            assert(fg.subrange(0, idx + 1)[idx] == fg[idx]);
                            assert(olds.push(g)[idx] == g);
                            assert(sfx[0] == fg[idx]);
                            assert forall|gs: Seq<SegmentGroup>|
                                #[trigger] good_suffix(gs, lens, idx, ca, cb) implies rank_le(sfx, gs) by {
                                lemma_good_suffix_decompose(gs, lens, idx, ca, cb);
                                let h = gs[0];
                                if group_rank(h) < group_rank(g) {
                                    lemma_rank_below(h, g, lens[idx]);
                                if is_split_group(h, lens[idx]) {
                                } else if is_multi_a_group(h, lens[idx]) {
                                } else {
                                    assert(is_multi_b_group(h, lens[idx]) && multi_s(h) < multi_s(g));
                                }
                                    assert(false);
                                } else if group_rank(h) == group_rank(g) {
                                    lemma_rank_equal(h, g, lens[idx]);
                                    assert(good_suffix(gs.skip(1), lens, idx + 1, ca, cb + cnt));
                                    assert(rank_le(fg.skip(idx + 1), gs.skip(1)));
                                    assert(sfx.skip(1) =~= fg.skip(idx + 1));
                                    assert(rank_le(sfx, gs));
                                } else {
                                    assert(rank_le(sfx, gs));
                                }
                            }
                        }
                        return r;
                    }
                    let _ = groups.pop();
                    proof {
                        assert(groups@ =~= olds);
                        lemma_multi_b_excluded(lens, idx, ca, cb, s2 as int, cnt as int);
                    }
                } else {
                    proof {
                        lemma_multi_b_excluded(lens, idx, ca, cb, s2 as int, cnt as int);
                    }
                }
            } else {
                proof {
                    assert forall|gs: Seq<SegmentGroup>|
                        !(#[trigger] good_suffix(gs, lens, idx, ca, cb) && is_multi_b_group(
                            gs[0],
                            lens[idx],
                        ) && multi_s(gs[0]) == s2 as int) by {
                        if good_suffix(gs, lens, idx, ca, cb) && is_multi_b_group(gs[0], lens[idx])
                            && multi_s(gs[0]) == s2 as int {
                            assert(len as int % (s2 as int) == 0);
                            assert(false);
                        }
                    }
                }
            }
            proof {
                lemma_multi_b_advance(lens, idx, ca, cb, bi as int);
            }
            bi += 1;
        }
        proof {
            lemma_all_excluded(lens, idx, ca, cb);
        }
        None
    }
}

/// Searches the whole input for the first full assignment of standard-size
/// segments whose global class-A : class-B count ratio is accepted: tapes in
/// input order, strategies in priority order, candidates ascending, so the
/// returned allocation ranks no later than any other good one. Returns the
/// committed groups, one per tape in input order, with the reduced ratio
/// text; returns nothing exactly when no allocation within machine counts
/// reaches an accepted ratio.
pub fn search(lengths: &Vec<u64>) -> (r: Option<(Vec<SegmentGroup>, String)>)
    ensures
        r matches Some(p) ==> good_suffix(p.0@, lengths@, 0, 0, 0),
        r matches Some(p) ==> (forall|gs: Seq<SegmentGroup>|
            #[trigger] good_suffix(gs, lengths@, 0, 0, 0) ==> rank_le(p.0@, gs)),
        r matches Some(p) ==> p.1@ == "2:1"@ || p.1@ == "5:2"@ || p.1@ == "3:2"@,
        r matches Some(p) ==> valid_allocation(p.0@, lengths@) && accepted_counts(
            alloc_count_a(p.0@),
            alloc_count_b(p.0@),
        ) && p.1@ == spec_simplify(alloc_count_a(p.0@), alloc_count_b(p.0@)),
        r is Some <==> solvable(lengths@),
{
    let range_a = class_a_lengths();
    let range_b = class_b_lengths();
    let mut groups: Vec<SegmentGroup> = Vec::new();
    let res = backtrack(0, 0, 0, &mut groups, lengths, &range_a, &range_b);
    match res {
        Some(ratio) => {
            proof {
                assert(good_suffix(groups@, lengths@, 0, 0, 0));
                assert(solvable(lengths@));
                assert forall|gs: Seq<SegmentGroup>|
                    #[trigger] good_suffix(gs, lengths@, 0, 0, 0) implies rank_le(
                    groups@,
                    gs,
                ) by {
                    assert(rank_le(groups@.skip(0), gs));
                    assert(groups@.skip(0) =~= groups@);
                }
                lemma_alloc_counts_nonneg(groups@);
                crate::ratio::lemma_accepted_simplify(
                    alloc_count_a(groups@),
                    alloc_count_b(groups@),
                );
            }
            Some((groups, ratio))
        },
        None => {
            proof {
                assert(!solvable(lengths@)) by {
                    if solvable(lengths@) {
                        let gs = choose|gs: Seq<SegmentGroup>| good_suffix(gs, lengths@, 0, 0, 0);
                        assert(!good_suffix(gs, lengths@, 0, 0, 0));
                    }
                }
            }
            None
        },
    }
}

} // verus!
