use vstd::prelude::*;
use crate::ranges::{in_class_a, in_class_b};
use crate::ratio::accepted_counts;
use vstd::arithmetic::div_mod::lemma_fundamental_div_mod;

verus! {

/// The two catalogs of standard cut lengths.
#[derive(Clone, Copy, PartialEq, Eq, Structural, Debug)]
pub enum SizeClass {
    ClassA,
    ClassB,
}

/// One committed piece: `count` cuts of the standard length `len_mm`
/// millimeters, drawn from one catalog.
#[derive(Clone, Copy, PartialEq, Eq, Structural, Debug)]
pub struct Segment {
    pub class: SizeClass,
    pub len_mm: u64,
    pub count: u64,
}

/// The segments committed for one tape, together with the tape's length.
#[derive(Debug)]
pub struct SegmentGroup {
    pub tape_mm: u64,
    pub segments: Vec<Segment>,
}

/// Class-A cuts a segment contributes to the global count.
pub open spec fn seg_count_a(s: Segment) -> int {
    if s.class is ClassA {
        s.count as int
    } else {
        0
    }
}

/// Class-B cuts a segment contributes to the global count.
pub open spec fn seg_count_b(s: Segment) -> int {
    if s.class is ClassB {
        s.count as int
    } else {
        0
    }
}

/// Total class-A cuts over a sequence of segments.
pub open spec fn segs_count_a(ss: Seq<Segment>) -> int
    decreases ss.len(),
{
    if ss.len() == 0 {
        0
    } else {
        seg_count_a(ss[0]) + segs_count_a(ss.skip(1))
    }
}

/// Total class-B cuts over a sequence of segments.
pub open spec fn segs_count_b(ss: Seq<Segment>) -> int
    decreases ss.len(),
{
    if ss.len() == 0 {
        0
    } else {
        seg_count_b(ss[0]) + segs_count_b(ss.skip(1))
    }
}

/// Total length covered by a sequence of segments, in millimeters.
pub open spec fn segs_total_len(ss: Seq<Segment>) -> int
    decreases ss.len(),
{
    if ss.len() == 0 {
        0
    } else {
        ss[0].count * ss[0].len_mm + segs_total_len(ss.skip(1))
    }
}

/// Class-A cuts one group contributes.
pub open spec fn group_count_a(g: SegmentGroup) -> int {
    segs_count_a(g.segments@)
}

/// Class-B cuts one group contributes.
pub open spec fn group_count_b(g: SegmentGroup) -> int {
    segs_count_b(g.segments@)
}

/// Length covered by one group, in millimeters.
pub open spec fn group_total_len(g: SegmentGroup) -> int {
    segs_total_len(g.segments@)
}

/// The group splits its tape into one class-A piece and one class-B piece
/// whose lengths sum exactly to the tape's length.
pub open spec fn is_split_group(g: SegmentGroup, len: u64) -> bool {
    &&& g.tape_mm == len
    &&& g.segments@.len() == 2
    &&& g.segments@[0].class is ClassA
    &&& g.segments@[1].class is ClassB
    &&& g.segments@[0].count == 1
    &&& g.segments@[1].count == 1
    &&& in_class_a(g.segments@[0].len_mm as int)
    &&& in_class_b(g.segments@[1].len_mm as int)
    &&& g.segments@[0].len_mm + g.segments@[1].len_mm == len
}

/// The group cuts its tape into equal class-A pieces that divide the tape's
/// length evenly.
pub open spec fn is_multi_a_group(g: SegmentGroup, len: u64) -> bool {
    &&& g.tape_mm == len
    &&& g.segments@.len() == 1
    &&& g.segments@[0].class is ClassA
    &&& in_class_a(g.segments@[0].len_mm as int)
    &&& len as int % (g.segments@[0].len_mm as int) == 0
    &&& g.segments@[0].count == len as int / (g.segments@[0].len_mm as int)
}

/// The group cuts its tape into equal class-B pieces that divide the tape's
/// length evenly.
pub open spec fn is_multi_b_group(g: SegmentGroup, len: u64) -> bool {
    &&& g.tape_mm == len
    &&& g.segments@.len() == 1
    &&& g.segments@[0].class is ClassB
    &&& in_class_b(g.segments@[0].len_mm as int)
    &&& len as int % (g.segments@[0].len_mm as int) == 0
    &&& g.segments@[0].count == len as int / (g.segments@[0].len_mm as int)
}

/// A committed group arises from one of the three per-tape strategies.
pub open spec fn valid_group(g: SegmentGroup, len: u64) -> bool {
    is_split_group(g, len) || is_multi_a_group(g, len) || is_multi_b_group(g, len)
}

/// The class-A value of a split group's first piece.
pub open spec fn split_a(g: SegmentGroup) -> int {
    g.segments@[0].len_mm as int
}

/// The class-B value of a split group's second piece.
pub open spec fn split_b(g: SegmentGroup) -> int {
    g.segments@[1].len_mm as int
}

/// The standard size a single-class group repeats.
pub open spec fn multi_s(g: SegmentGroup) -> int {
    g.segments@[0].len_mm as int
}

/// Total class-A cuts over a sequence of groups.
pub open spec fn alloc_count_a(gs: Seq<SegmentGroup>) -> int
    decreases gs.len(),
{
    if gs.len() == 0 {
        0
    } else {
        group_count_a(gs[0]) + alloc_count_a(gs.skip(1))
    }
}

/// Total class-B cuts over a sequence of groups.
pub open spec fn alloc_count_b(gs: Seq<SegmentGroup>) -> int
    decreases gs.len(),
{
    if gs.len() == 0 {
        0
    } else {
        group_count_b(gs[0]) + alloc_count_b(gs.skip(1))
    }
}

/// The groups cover the tapes from position `index` on, one valid group per
/// tape, in input order.
pub open spec fn groups_cover(gs: Seq<SegmentGroup>, lengths: Seq<u64>, index: int) -> bool {
    &&& gs.len() == lengths.len() - index
    &&& forall|j: int| 0 <= j < gs.len() ==> valid_group(#[trigger] gs[j], lengths[index + j])
}

/// One valid group per input tape, in input order.
pub open spec fn valid_allocation(gs: Seq<SegmentGroup>, lengths: Seq<u64>) -> bool {
    groups_cover(gs, lengths, 0)
}

/// The groups complete a search state: they cover the remaining tapes, the
/// final totals stay within machine counts, and the final count ratio is
/// accepted.
pub open spec fn good_suffix(
    gs: Seq<SegmentGroup>,
    lengths: Seq<u64>,
    index: int,
    ca: int,
    cb: int,
) -> bool {
    &&& groups_cover(gs, lengths, index)
    &&& ca + alloc_count_a(gs) <= u64::MAX
    &&& cb + alloc_count_b(gs) <= u64::MAX
    &&& accepted_counts(ca + alloc_count_a(gs), cb + alloc_count_b(gs))
}

/// Some allocation of the whole input reaches an accepted ratio.
pub open spec fn solvable(lengths: Seq<u64>) -> bool {
    exists|gs: Seq<SegmentGroup>| good_suffix(gs, lengths, 0, 0, 0)
}

/// Cut counts are never negative.
pub proof fn lemma_segs_counts_nonneg(ss: Seq<Segment>)
    ensures
        segs_count_a(ss) >= 0,
        segs_count_b(ss) >= 0,
    decreases ss.len(),
{
    if ss.len() > 0 {
        lemma_segs_counts_nonneg(ss.skip(1));
    }
}

/// Totals over groups are never negative.
pub proof fn lemma_alloc_counts_nonneg(gs: Seq<SegmentGroup>)
    ensures
        alloc_count_a(gs) >= 0,
        alloc_count_b(gs) >= 0,
    decreases gs.len(),
{
    if gs.len() > 0 {
        lemma_segs_counts_nonneg(gs[0].segments@);
        lemma_alloc_counts_nonneg(gs.skip(1));
    }
}

/// Appending a group adds its contribution to the totals.
pub proof fn lemma_alloc_count_snoc(gs: Seq<SegmentGroup>, g: SegmentGroup)
    ensures
        alloc_count_a(gs.push(g)) == alloc_count_a(gs) + group_count_a(g),
        alloc_count_b(gs.push(g)) == alloc_count_b(gs) + group_count_b(g),
    decreases gs.len(),
{
    let p = gs.push(g);
    assert(p.len() == gs.len() + 1);
    assert(alloc_count_a(p) == group_count_a(p[0]) + alloc_count_a(p.skip(1)));
    assert(alloc_count_b(p) == group_count_b(p[0]) + alloc_count_b(p.skip(1)));
    if gs.len() == 0 {
        assert(p[0] == g);
        assert(p.skip(1) =~= Seq::<SegmentGroup>::empty());
        assert(alloc_count_a(p.skip(1)) == 0);
        assert(alloc_count_b(p.skip(1)) == 0);
    } else {
        assert(p[0] == gs[0]);
        assert(p.skip(1) =~= gs.skip(1).push(g));
        lemma_alloc_count_snoc(gs.skip(1), g);
        assert(alloc_count_a(gs) == group_count_a(gs[0]) + alloc_count_a(gs.skip(1)));
        assert(alloc_count_b(gs) == group_count_b(gs[0]) + alloc_count_b(gs.skip(1)));
    }
}

/// Concatenated sequences of groups contribute the sum of their totals: the
/// totals of a full allocation are the committed prefix's counts plus its
/// completion's.
pub proof fn lemma_alloc_count_concat(s1: Seq<SegmentGroup>, s2: Seq<SegmentGroup>)
    ensures
        alloc_count_a(s1 + s2) == alloc_count_a(s1) + alloc_count_a(s2),
        alloc_count_b(s1 + s2) == alloc_count_b(s1) + alloc_count_b(s2),
    decreases s1.len(),
{
    if s1.len() == 0 {
        assert(s1 + s2 =~= s2);
    } else {
        assert((s1 + s2).skip(1) =~= s1.skip(1) + s2);
        assert((s1 + s2)[0] == s1[0]);
        lemma_alloc_count_concat(s1.skip(1), s2);
    }
}

/// What each strategy contributes to the global counts.
pub proof fn lemma_group_counts(g: SegmentGroup, len: u64)
    requires
        valid_group(g, len),
    ensures
        is_split_group(g, len) ==> group_count_a(g) == 1 && group_count_b(g) == 1,
        is_multi_a_group(g, len) ==> group_count_a(g) == len as int / multi_s(g) && group_count_b(
            g,
        ) == 0,
        is_multi_b_group(g, len) ==> group_count_b(g) == len as int / multi_s(g) && group_count_a(
            g,
        ) == 0,
        group_count_a(g) >= 0,
        group_count_b(g) >= 0,
{
    let ss = g.segments@;
    lemma_segs_counts_nonneg(ss);
    if is_split_group(g, len) {
        assert(segs_count_a(ss) == seg_count_a(ss[0]) + segs_count_a(ss.skip(1)));
        assert(segs_count_a(ss.skip(1)) == seg_count_a(ss[1]) + segs_count_a(ss.skip(1).skip(1)));
        assert(ss.skip(1).skip(1).len() == 0);
        assert(segs_count_b(ss) == seg_count_b(ss[0]) + segs_count_b(ss.skip(1)));
        assert(segs_count_b(ss.skip(1)) == seg_count_b(ss[1]) + segs_count_b(ss.skip(1).skip(1)));
    } else {
        assert(segs_count_a(ss) == seg_count_a(ss[0]) + segs_count_a(ss.skip(1)));
        assert(ss.skip(1).len() == 0);
        assert(segs_count_b(ss) == seg_count_b(ss[0]) + segs_count_b(ss.skip(1)));
    }
}

/// Every committed group accounts exactly for its tape's length: the segment
/// lengths, taken with their counts, sum to the tape length in millimeters.
/// On the millimeter grid a difference below one millimeter is a difference
/// of zero, so this is the exact form of the stated tolerance.
pub proof fn lemma_group_covers_tape(g: SegmentGroup, len: u64)
    requires
        valid_group(g, len),
    ensures
        group_total_len(g) == len,
{
    let ss = g.segments@;
    if is_split_group(g, len) {
        assert(segs_total_len(ss) == ss[0].count * ss[0].len_mm + segs_total_len(ss.skip(1)));
        assert(segs_total_len(ss.skip(1)) == ss[1].count * ss[1].len_mm + segs_total_len(
            ss.skip(1).skip(1),
        ));
        assert(ss.skip(1).skip(1).len() == 0);
        assert(ss[0].count * ss[0].len_mm == ss[0].len_mm) by (nonlinear_arith)
            requires
                ss[0].count == 1,
        ;
        assert(ss[1].count * ss[1].len_mm == ss[1].len_mm) by (nonlinear_arith)
            requires
                ss[1].count == 1,
        ;
    } else {
        let s = ss[0].len_mm as int;
        assert(segs_total_len(ss) == ss[0].count * ss[0].len_mm + segs_total_len(ss.skip(1)));
        assert(ss.skip(1).len() == 0);
        lemma_fundamental_div_mod(len as int, s);
        assert(ss[0].count * s == (len as int / s) * s);
        assert((len as int / s) * s == s * (len as int / s)) by (nonlinear_arith);
    }
}

/// Every committed group of a full allocation accounts exactly for its own
/// tape's length, in input order.
pub proof fn lemma_allocation_covers_tapes(gs: Seq<SegmentGroup>, lengths: Seq<u64>)
    requires
        valid_allocation(gs, lengths),
    ensures
        forall|i: int| 0 <= i < gs.len() ==> group_total_len(#[trigger] gs[i]) == lengths[i],
{
    assert forall|i: int| 0 <= i < gs.len() implies group_total_len(#[trigger] gs[i])
        == lengths[i] by {
        lemma_group_covers_tape(gs[i], lengths[i]);
    }
}

/// A good suffix splits into a valid head group for the current tape and a
/// good suffix for the rest, with the head's contribution added to the counts.
pub proof fn lemma_good_suffix_decompose(
    gs: Seq<SegmentGroup>,
    lengths: Seq<u64>,
    index: int,
    ca: int,
    cb: int,
)
    requires
        good_suffix(gs, lengths, index, ca, cb),
        0 <= index < lengths.len(),
    ensures
        gs.len() >= 1,
        valid_group(gs[0], lengths[index]),
        good_suffix(
            gs.skip(1),
            lengths,
            index + 1,
            ca + group_count_a(gs[0]),
            cb + group_count_b(gs[0]),
        ),
{
    assert(valid_group(gs[0], lengths[index]));
    assert forall|j: int| 0 <= j < gs.skip(1).len() implies valid_group(
        #[trigger] gs.skip(1)[j],
        lengths[index + 1 + j],
    ) by {
        assert(gs.skip(1)[j] == gs[j + 1]);
        assert(valid_group(gs[j + 1], lengths[index + (j + 1)]));
    }
    assert(alloc_count_a(gs) == group_count_a(gs[0]) + alloc_count_a(gs.skip(1)));
    assert(alloc_count_b(gs) == group_count_b(gs[0]) + alloc_count_b(gs.skip(1)));
}

} // verus!
