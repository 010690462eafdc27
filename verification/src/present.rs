use vstd::prelude::*;
use crate::model::{
    Segment, SegmentGroup, valid_group, good_suffix, alloc_count_a, alloc_count_b, solvable,
};
use crate::numfmt::{
    spec_digits, spec_fmt_mm, spec_fmt_mm_listed, spec_fmt_tenths, push_digits, push_len_mm,
    push_len_mm_listed, push_tenths,
};
use crate::parse::spec_parse_all;
use crate::ratio::spec_simplify;
use crate::search::{search, rank_le, lemma_minimal_allocation_unique};
use crate::parse::parse_tapes;

verus! {

/// The semantic category of one text fragment; the shell maps each category
/// to its own styling.
#[derive(Clone, Copy, PartialEq, Eq, Structural, Debug)]
pub enum Category {
    InputSummary,
    ClassASegment,
    ClassBSegment,
    PlainNote,
    RatioSummary,
    ErrorMessage,
}

/// One styled piece of a display line.
#[derive(Debug)]
pub struct Fragment {
    pub category: Category,
    pub text: String,
}

/// The fragment carries this category and exactly this text.
pub open spec fn frag_is(f: Fragment, cat: Category, text: Seq<char>) -> bool {
    f.category == cat && f.text@ == text
}

/// The text of one committed segment: "3x 320 m".
pub open spec fn seg_text(seg: Segment) -> Seq<char> {
    spec_digits(seg.count as int) + "x "@ + spec_fmt_mm(seg.len_mm as int) + " m"@
}

/// The note naming the tape a group was cut from: "from 600 m tape".
pub open spec fn note_text(len: u64) -> Seq<char> {
    "from "@ + spec_fmt_mm(len as int) + " m tape"@
}

/// The trailing ratio line's text.
pub open spec fn ratio_text(r: Seq<char>) -> Seq<char> {
    "\nRatio "@ + r
}

/// The failure line's text.
pub open spec fn no_valid_text() -> Seq<char> {
    "No valid combinations found. Please add more tapes."@
}

/// The line shown when no entry parses.
pub open spec fn empty_input_text() -> Seq<char> {
    "Please enter at least one valid tape length."@
}

/// The listing of the validated lengths, comma separated, each with at least
/// one fractional digit.
pub open spec fn listed_text(lengths: Seq<u64>) -> Seq<char>
    decreases lengths.len(),
{
    if lengths.len() == 0 {
        Seq::empty()
    } else if lengths.len() == 1 {
        spec_fmt_mm_listed(lengths[0] as int)
    } else {
        listed_text(lengths.drop_last()) + ", "@ + spec_fmt_mm_listed(lengths.last() as int)
    }
}

/// The sum of the validated lengths, in millimeters.
pub open spec fn sum_mm(lengths: Seq<u64>) -> int
    decreases lengths.len(),
{
    if lengths.len() == 0 {
        0
    } else {
        sum_mm(lengths.drop_last()) + lengths.last()
    }
}

/// The input-summary line's text: the validated lengths and their sum,
/// rounded to a tenth of a meter.
pub open spec fn summary_text(lengths: Seq<u64>) -> Seq<char> {
    "Input is ["@ + listed_text(lengths) + "] m, sum "@ + spec_fmt_tenths(
        (sum_mm(lengths) + 50) / 100,
    ) + " m\n"@
}

/// The display line that presents one committed group: for a one-and-one
/// split, a class-A fragment, a class-B fragment and the source note; for a
/// single-class cut, the repeated piece's fragment and the source note.
pub open spec fn line_for_group(line: Seq<Fragment>, g: SegmentGroup) -> bool {
    if g.segments@.len() == 2 {
        &&& line.len() == 3
        &&& frag_is(line[0], Category::ClassASegment, seg_text(g.segments@[0]) + ","@)
        &&& frag_is(line[1], Category::ClassBSegment, seg_text(g.segments@[1]))
        &&& frag_is(line[2], Category::PlainNote, note_text(g.tape_mm))
    } else {
        &&& line.len() == 2
        &&& frag_is(
            line[0],
            if g.segments@[0].class is ClassA {
                Category::ClassASegment
            } else {
                Category::ClassBSegment
            },
            seg_text(g.segments@[0]),
        )
        &&& frag_is(line[1], Category::PlainNote, note_text(g.tape_mm))
    }
}

/// What the presenter reports for a non-empty validated input: first the
/// input summary; then, where some allocation reaches an accepted ratio, one
/// line per committed group followed by the ratio line; otherwise a single
/// failure line.
pub open spec fn lines_report(res: Seq<Vec<Fragment>>, lengths: Seq<u64>) -> bool {
    &&& res.len() >= 2
    &&& res[0]@.len() == 1
    &&& frag_is(res[0]@[0], Category::InputSummary, summary_text(lengths))
    &&& (solvable(lengths) ==> exists|gs: Seq<SegmentGroup>|
        {
            &&& #[trigger] good_suffix(gs, lengths, 0, 0, 0)
            &&& (forall|gs2: Seq<SegmentGroup>|
                #[trigger] good_suffix(gs2, lengths, 0, 0, 0) ==> rank_le(gs, gs2))
            &&& res.len() == gs.len() + 2
            &&& forall|i: int| 0 <= i < gs.len() ==> line_for_group(#[trigger] res[i + 1]@, gs[i])
            &&& res[res.len() - 1]@.len() == 1
            &&& frag_is(
                res[res.len() - 1]@[0],
                Category::RatioSummary,
                ratio_text(spec_simplify(alloc_count_a(gs), alloc_count_b(gs))),
            )
        })
    &&& (!solvable(lengths) ==> res.len() == 2 && res[1]@.len() == 1 && frag_is(
        res[1]@[0],
        Category::ErrorMessage,
        no_valid_text(),
    ))
}

/// Builds the text of one committed segment.
fn seg_string(seg: &Segment) -> (r: String)
    ensures
        r@ == seg_text(*seg),
{
    let mut s = String::new();
    push_digits(seg.count as u128, &mut s);
    proof {
        reveal_strlit("x ");
        reveal_strlit(" m");
    }
    s.append("x ");
    push_len_mm(seg.len_mm, &mut s);
    s.append(" m");
    proof {
        assert(s@ =~= seg_text(*seg));
    }
    s
}

/// Builds the source note of one committed group.
fn note_string(len: u64) -> (r: String)
    ensures
        r@ == note_text(len),
{
    let mut s = String::from_str("from ");
    push_len_mm(len, &mut s);
    proof {
        reveal_strlit("from ");
        reveal_strlit(" m tape");
    }
    s.append(" m tape");
    proof {
        assert(s@ =~= note_text(len));
    }
    s
}

/// Builds the input-summary line's text.
#[verifier::loop_isolation(false)]
fn summary_string(lengths: &Vec<u64>) -> (r: String)
    ensures
        r@ == summary_text(lengths@),
{
    let mut s = String::from_str("Input is [");
    let mut acc: u128 = 0;
    let mut i: usize = 0;
    proof {
        assert(usize::MAX <= u64::MAX);
        assert(lengths@.take(0) =~= Seq::<u64>::empty());
    }
    while i < lengths.len()
        invariant
            i <= lengths@.len(),
            s@ == "Input is ["@ + listed_text(lengths@.take(i as int)),
            acc == sum_mm(lengths@.take(i as int)),
            acc <= i * (u64::MAX as int),
        decreases lengths@.len() - i,
    {
        let ghost pre = lengths@.take(i as int);
        let ghost post = lengths@.take(i + 1 as int);
        proof {
            assert(post.drop_last() =~= pre);
            assert(post.last() == lengths@[i as int]);
            assert(i * (u64::MAX as int) + (u64::MAX as int) == (i + 1) * (u64::MAX as int))
                by (nonlinear_arith);
            assert((i + 1) * (u64::MAX as int) <= (usize::MAX as int) * (u64::MAX as int))
                by (nonlinear_arith)
                requires
                    0 <= i + 1 <= usize::MAX as int,
            ;
            assert((usize::MAX as int) * (u64::MAX as int) < u128::MAX as int)
                by (nonlinear_arith)
                requires
                    usize::MAX as int <= u64::MAX as int,
            ;
        }
        if i > 0 {
            proof {
                reveal_strlit(", ");
            }
            s.append(", ");
        }
        push_len_mm_listed(lengths[i], &mut s);
        proof {
            if i == 0 {
                assert(pre.len() == 0);
                assert(listed_text(pre) =~= Seq::<char>::empty());
                assert(s@ =~= "Input is ["@ + listed_text(post));
            } else {
                assert(s@ =~= "Input is ["@ + listed_text(post));
            }
        }
        acc = acc + lengths[i] as u128;
        i += 1;
    }
    proof {
        assert(lengths@.take(lengths@.len() as int) =~= lengths@);
        assert((usize::MAX as int) * (u64::MAX as int) + 50 < u128::MAX as int)
            by (nonlinear_arith)
            requires
                usize::MAX as int <= u64::MAX as int,
        ;
        assert(acc <= (usize::MAX as int) * (u64::MAX as int)) by (nonlinear_arith)
            requires
                acc <= lengths@.len() * (u64::MAX as int),
                0 <= lengths@.len() <= usize::MAX as int,
        ;
    }
    proof {
        reveal_strlit("] m, sum ");
        reveal_strlit(" m\n");
    }
    s.append("] m, sum ");
    push_tenths((acc + 50) / 100, &mut s);
    s.append(" m\n");
    proof {
        assert(s@ =~= summary_text(lengths@));
    }
    s
}

/// Turns the validated lengths into the full report: the input summary, then
/// either the committed groups with their ratio line or the failure line.
#[verifier::loop_isolation(false)]
pub fn find_combinations(lengths: &Vec<u64>) -> (res: Vec<Vec<Fragment>>)
    ensures
        lines_report(res@, lengths@),
{
    let mut res: Vec<Vec<Fragment>> = Vec::new();
    let stext = summary_string(lengths);
    let mut line0: Vec<Fragment> = Vec::new();
    line0.push(Fragment { category: Category::InputSummary, text: stext });
    res.push(line0);
    match search(lengths) {
        Some((groups, ratio)) => {
            let ghost gs = groups@;
            let mut gi: usize = 0;
            while gi < groups.len()
                invariant
                    gi <= gs.len(),
                    groups@ == gs,
                    res@.len() == gi + 1,
                    res@[0]@.len() == 1,
                    frag_is(res@[0]@[0], Category::InputSummary, summary_text(lengths@)),
                    forall|k: int|
                        0 <= k < gi ==> line_for_group(#[trigger] res@[k + 1]@, gs[k]),
                decreases gs.len() - gi,
            {
                let g = &groups[gi];
                proof {
                    assert(valid_group(gs[gi as int], lengths@[gi as int]));
                }
                let mut line: Vec<Fragment> = Vec::new();
                if g.segments.len() == 2 {
                    let mut t0 = seg_string(&g.segments[0]);
                    proof {
                        reveal_strlit(",");
                    }
                    t0.append(",");
                    line.push(Fragment { category: Category::ClassASegment, text: t0 });
                    let t1 = seg_string(&g.segments[1]);
                    line.push(Fragment { category: Category::ClassBSegment, text: t1 });
                } else {
                    let cat = match g.segments[0].class {
                        crate::model::SizeClass::ClassA => Category::ClassASegment,
                        crate::model::SizeClass::ClassB => Category::ClassBSegment,
                    };
                    let t0 = seg_string(&g.segments[0]);
                    line.push(Fragment { category: cat, text: t0 });
                }
                line.push(Fragment { category: Category::PlainNote, text: note_string(g.tape_mm) });
                res.push(line);
                proof {
                    assert(line_for_group(res@[gi + 1]@, gs[gi as int]));
                }
                gi += 1;
            }
            let mut rtext = String::from_str("\nRatio ");
            rtext.append(ratio.as_str());
            proof {
                reveal_strlit("\nRatio ");
                assert(rtext@ =~= ratio_text(spec_simplify(alloc_count_a(gs), alloc_count_b(gs))));
            }
            let mut rline: Vec<Fragment> = Vec::new();
            rline.push(Fragment { category: Category::RatioSummary, text: rtext });
            res.push(rline);
            proof {
                assert(res@.len() == gs.len() + 2);
                assert(res@[res@.len() - 1]@.len() == 1);
                assert(good_suffix(gs, lengths@, 0, 0, 0));
                assert(forall|gs2: Seq<SegmentGroup>|
                    #[trigger] good_suffix(gs2, lengths@, 0, 0, 0) ==> rank_le(gs, gs2));
                assert forall|i: int| 0 <= i < gs.len() implies line_for_group(
                    #[trigger] res@[i + 1]@,
                    gs[i],
                ) by {}
            }
            res
        },
        None => {
            let etext = String::from_str("No valid combinations found. Please add more tapes.");
            let mut eline: Vec<Fragment> = Vec::new();
            eline.push(Fragment { category: Category::ErrorMessage, text: etext });
            res.push(eline);
            res
        },
    }
}

/// The whole calculation: validates the raw entries, and either asks for at
/// least one valid length, or reports the search's outcome for the validated
/// lengths. The report is free of any state: it depends on the entries alone.
pub fn calculate(tapes: &Vec<String>) -> (res: Vec<Vec<Fragment>>)
    ensures
        ({
            let parsed = spec_parse_all(tapes.deep_view());
            if parsed.len() == 0 {
                res@.len() == 1 && res@[0]@.len() == 1 && frag_is(
                    res@[0]@[0],
                    Category::ErrorMessage,
                    empty_input_text(),
                )
            } else {
                lines_report(res@, parsed)
            }
        }),
{
    let parsed = parse_tapes(tapes);
    if parsed.len() == 0 {
        let etext = String::from_str("Please enter at least one valid tape length.");
        let mut eline: Vec<Fragment> = Vec::new();
        eline.push(Fragment { category: Category::ErrorMessage, text: etext });
        let mut res: Vec<Vec<Fragment>> = Vec::new();
        res.push(eline);
        res
    } else {
        find_combinations(&parsed)
    }
}

/// The report ends in a single ratio line naming one of the accepted ratios.
pub open spec fn accepted_tail(res: Seq<Vec<Fragment>>) -> bool {
    &&& res[res.len() - 1]@.len() == 1
    &&& res[res.len() - 1]@[0].category == Category::RatioSummary
    &&& (res[res.len() - 1]@[0].text@ == ratio_text("2:1"@) || res[res.len() - 1]@[0].text@
        == ratio_text("5:2"@) || res[res.len() - 1]@[0].text@ == ratio_text("3:2"@))
}

/// The report's outcome is a function of the validated input alone: two
/// reports for the same validated lengths carry the same summary line; where
/// no allocation reaches an accepted ratio they are equal line for line and
/// byte for byte; and where one exists, both end in a ratio line naming an
/// accepted ratio.
pub proof fn lemma_report_outcome_determined(
    lengths: Seq<u64>,
    r1: Seq<Vec<Fragment>>,
    r2: Seq<Vec<Fragment>>,
)
    requires
        lines_report(r1, lengths),
        lines_report(r2, lengths),
    ensures
        r1[0]@[0].text@ == r2[0]@[0].text@,
        r1[0]@[0].category == r2[0]@[0].category,
        !solvable(lengths) ==> r1.len() == r2.len() && r1[1]@[0].text@ == r2[1]@[0].text@
            && r1[1]@[0].category == r2[1]@[0].category,
        solvable(lengths) ==> accepted_tail(r1) && accepted_tail(r2),
{
    if solvable(lengths) {
        lemma_report_tail(lengths, r1);
        lemma_report_tail(lengths, r2);
    }
}

/// Where some allocation reaches an accepted ratio, a report for the input
/// closes with a ratio line naming an accepted ratio.
proof fn lemma_report_tail(lengths: Seq<u64>, res: Seq<Vec<Fragment>>)
    requires
        lines_report(res, lengths),
        solvable(lengths),
    ensures
        accepted_tail(res),
{
    let gs = choose|gs: Seq<SegmentGroup>|
        {
            &&& #[trigger] good_suffix(gs, lengths, 0, 0, 0)
            &&& (forall|gs2: Seq<SegmentGroup>|
                #[trigger] good_suffix(gs2, lengths, 0, 0, 0) ==> rank_le(gs, gs2))
            &&& res.len() == gs.len() + 2
            &&& forall|i: int| 0 <= i < gs.len() ==> line_for_group(#[trigger] res[i + 1]@, gs[i])
            &&& res[res.len() - 1]@.len() == 1
            &&& frag_is(
                res[res.len() - 1]@[0],
                Category::RatioSummary,
                ratio_text(spec_simplify(alloc_count_a(gs), alloc_count_b(gs))),
            )
        };
    crate::model::lemma_alloc_counts_nonneg(gs);
    crate::ratio::lemma_accepted_simplify(alloc_count_a(gs), alloc_count_b(gs));
}

/// Two reports for the same validated lengths are equal line for line,
/// category for category and byte for byte: the whole report is a function
/// of the validated input alone.
pub proof fn lemma_reports_byte_equal(
    lengths: Seq<u64>,
    r1: Seq<Vec<Fragment>>,
    r2: Seq<Vec<Fragment>>,
)
    requires
        lines_report(r1, lengths),
        lines_report(r2, lengths),
    ensures
        r1.len() == r2.len(),
        forall|i: int| 0 <= i < r1.len() ==> (#[trigger] r1[i]@).len() == r2[i]@.len(),
        forall|i: int, j: int|
            0 <= i < r1.len() && 0 <= j < r1[i]@.len() ==> (#[trigger] r1[i]@[j]).category
                == r2[i]@[j].category && r1[i]@[j].text@ == r2[i]@[j].text@,
{
    if !solvable(lengths) {
        assert forall|i: int, j: int|
            0 <= i < r1.len() && 0 <= j < r1[i]@.len() implies (#[trigger] r1[i]@[j]).category
            == r2[i]@[j].category && r1[i]@[j].text@ == r2[i]@[j].text@ by {
            assert(i == 0 || i == 1);
        }
    } else {
        let gs1 = choose|gs: Seq<SegmentGroup>|
            {
                &&& #[trigger] good_suffix(gs, lengths, 0, 0, 0)
                &&& (forall|gs2: Seq<SegmentGroup>|
                    #[trigger] good_suffix(gs2, lengths, 0, 0, 0) ==> rank_le(gs, gs2))
                &&& r1.len() == gs.len() + 2
                &&& forall|i: int| 0 <= i < gs.len() ==> line_for_group(#[trigger] r1[i + 1]@, gs[i])
                &&& r1[r1.len() - 1]@.len() == 1
                &&& frag_is(
                    r1[r1.len() - 1]@[0],
                    Category::RatioSummary,
                    ratio_text(spec_simplify(alloc_count_a(gs), alloc_count_b(gs))),
                )
            };
        let gs2 = choose|gs: Seq<SegmentGroup>|
            {
                &&& #[trigger] good_suffix(gs, lengths, 0, 0, 0)
                &&& (forall|gs2: Seq<SegmentGroup>|
                    #[trigger] good_suffix(gs2, lengths, 0, 0, 0) ==> rank_le(gs, gs2))
                &&& r2.len() == gs.len() + 2
                &&& forall|i: int| 0 <= i < gs.len() ==> line_for_group(#[trigger] r2[i + 1]@, gs[i])
                &&& r2[r2.len() - 1]@.len() == 1
                &&& frag_is(
                    r2[r2.len() - 1]@[0],
                    Category::RatioSummary,
                    ratio_text(spec_simplify(alloc_count_a(gs), alloc_count_b(gs))),
                )
            };
        assert(rank_le(gs1, gs2));
        assert(rank_le(gs2, gs1));
        lemma_minimal_allocation_unique(gs1, gs2, lengths);
        if gs1.len() == 0 {
            assert(alloc_count_a(gs1) == 0);
            assert(alloc_count_b(gs1) == 0);
            assert(false);
        }
        assert(r1.len() == r2.len());
        assert forall|i: int| 0 <= i < r1.len() implies (#[trigger] r1[i]@).len()
            == r2[i]@.len() by {
            if i == 0 {
            } else if i == r1.len() - 1 {
            } else {
                let k = i - 1;
                assert(line_for_group(r1[k + 1]@, gs1[k]));
                assert(line_for_group(r2[k + 1]@, gs2[k]));
                assert(r1[k + 1]@ == r1[i]@ && r2[k + 1]@ == r2[i]@);
                assert(gs1[k].segments@ == gs2[k].segments@);
            }
        }
        assert forall|i: int, j: int|
            0 <= i < r1.len() && 0 <= j < r1[i]@.len() implies (#[trigger] r1[i]@[j]).category
            == r2[i]@[j].category && r1[i]@[j].text@ == r2[i]@[j].text@ by {
            if i == 0 {
            } else if i == r1.len() - 1 {
            } else {
                let k = i - 1;
                assert(line_for_group(r1[k + 1]@, gs1[k]));
                assert(line_for_group(r2[k + 1]@, gs2[k]));
                assert(r1[k + 1]@ == r1[i]@ && r2[k + 1]@ == r2[i]@);
                assert(gs1[k].segments@ == gs2[k].segments@);
                assert(gs1[k].tape_mm == gs2[k].tape_mm);
                if gs1[k].segments@.len() == 2 {
                    assert(gs1[k].segments@[0] == gs2[k].segments@[0]);
                    assert(gs1[k].segments@[1] == gs2[k].segments@[1]);
                } else {
                    assert(gs1[k].segments@[0] == gs2[k].segments@[0]);
                }
            }
        }
    }
}

} // verus!
