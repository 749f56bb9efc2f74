//! Growing, successful composition families.
use vstd::prelude::*;

use crate::analysis::{CompositionSummary, TimeWindow, window_before};
use crate::fraction::wide_product;
use crate::sorting::TotalPreorder;

verus! {

/// The family's usage rate rose from the previous populated window of its
/// patch (a rate with a zero denominator is infinite, or undefined when its
/// numerator is zero too).
pub open spec fn usage_grew(s: CompositionSummary) -> bool {
    match s.usage_rate_change {
        None => false,
        Some(c) => if s.window_play_count > 0 && c.previous_window_play_count > 0 {
            s.play_count * c.previous_window_play_count > c.previous_play_count * s.window_play_count
        } else {
            s.window_play_count == 0 && s.play_count > 0 && c.previous_window_play_count > 0
        },
    }
}

/// At least two plays, an average placement of 4.5 or better, and growing
/// usage.
pub open spec fn is_emerging(s: CompositionSummary) -> bool {
    &&& s.play_count >= 2
    &&& 2 * s.placement_total <= 9 * s.play_count
    &&& usage_grew(s)
}

pub fn is_emerging_exec(s: &CompositionSummary) -> (r: bool)
    ensures
        r == is_emerging(*s),
{
    if s.play_count < 2 {
        return false;
    }
    if (s.placement_total as u128) * 2 > (s.play_count as u128) * 9 {
        return false;
    }
    match s.usage_rate_change {
        None => false,
        Some(c) => {
            if s.window_play_count > 0 && c.previous_window_play_count > 0 {
                wide_product(s.play_count as u64, c.previous_window_play_count as u64) > wide_product(c.previous_play_count as u64, s.window_play_count as u64)
            } else {
                s.window_play_count == 0 && s.play_count > 0 && c.previous_window_play_count > 0
            }
        },
    }
}

/// The summaries in `s` that satisfy `pred`, by reference, in order.
pub open spec fn refs_where<'a>(
    s: Seq<CompositionSummary>,
    pred: spec_fn(CompositionSummary) -> bool,
) -> Seq<&'a CompositionSummary> {
    s.as_ref().filter(|r: &CompositionSummary| pred(*r))
}

/// The summaries of `summaries` that satisfy `pred`, in order.
fn select<'a>(
    summaries: &'a [CompositionSummary],
    window: Option<TimeWindow>,
    Ghost(pred): Ghost<spec_fn(CompositionSummary) -> bool>,
) -> (chosen: Vec<&'a CompositionSummary>)
    requires
        forall|s: CompositionSummary|
            #[trigger] pred(s) == (is_emerging(s) && (window matches Some(w) ==> s.window == w)),
    ensures
        chosen@ == refs_where(summaries@, pred),
{
    let ghost rpred = |r: &CompositionSummary| pred(*r);
    let ghost all = summaries@.as_ref();
    let mut chosen: Vec<&CompositionSummary> = Vec::new();
    let mut i: usize = 0;
    assert(all.take(0).filter(rpred) =~= Seq::<&CompositionSummary>::empty()) by {
        reveal(Seq::filter);
    }
    while i < summaries.len()
        invariant
            0 <= i <= summaries@.len(),
            all == summaries@.as_ref(),
            rpred == (|r: &CompositionSummary| pred(*r)),
            forall|s: CompositionSummary|
                #[trigger] pred(s) == (is_emerging(s) && (window matches Some(w) ==> s.window == w)),
            chosen@ == all.take(i as int).filter(rpred),
        decreases summaries@.len() - i,
    {
        proof {
            assert(all.take(i + 1) =~= all.take(i as int).push(all[i as int]));
            all.take(i as int).lemma_filter_push(all[i as int], rpred);
        }
        let in_window = match window {
            Some(w) => summaries[i].window == w,
            None => true,
        };
        if in_window && is_emerging_exec(&summaries[i]) {
            chosen.push(&summaries[i]);
        }
        i = i + 1;
    }
    assert(all.take(all.len() as int) =~= all);
    chosen
}

/// The emerging summaries of `summaries`, in order.
pub open spec fn emerging_in<'a>(summaries: Seq<CompositionSummary>) -> Seq<&'a CompositionSummary> {
    refs_where(summaries, |s: CompositionSummary| is_emerging(s))
}

/// Every emerging summary, in the given order.
pub fn emerging_events(summaries: &[CompositionSummary]) -> (events: Vec<&CompositionSummary>)
    ensures
        events@ == emerging_in(summaries@),
{
    select(summaries, None, Ghost(|s: CompositionSummary| is_emerging(s)))
}

/// `w` is the latest window of the summaries.
pub open spec fn is_latest_window(summaries: Seq<CompositionSummary>, w: TimeWindow) -> bool {
    &&& exists|i: int| 0 <= i < summaries.len() && #[trigger] summaries[i].window == w
    &&& forall|i: int| 0 <= i < summaries.len() ==> !window_before(w, #[trigger] summaries[i].window)
}

pub open spec fn latest_window(summaries: Seq<CompositionSummary>) -> TimeWindow {
    choose|w: TimeWindow| is_latest_window(summaries, w)
}

/// The latest window of the summaries, if there are any.
pub fn latest_summary_window(summaries: &[CompositionSummary]) -> (latest: Option<TimeWindow>)
    ensures
        latest is None <==> summaries@.len() == 0,
        latest matches Some(w) ==> is_latest_window(summaries@, w),
{
    let mut latest: Option<TimeWindow> = None;
    let mut i: usize = 0;
    while i < summaries.len()
        invariant
            0 <= i <= summaries@.len(),
            latest is None <==> i == 0,
            latest matches Some(w) ==> is_latest_window(summaries@.take(i as int), w),
        decreases summaries@.len() - i,
    {
        let w = summaries[i].window;
        let ghost prefix = summaries@.take(i + 1);
        let ghost old_latest = latest;
        let replace = match latest {
            None => true,
            Some(l) => l.start < w.start || (l.start == w.start && l.end_exclusive < w.end_exclusive),
        };
        if replace {
            latest = Some(w);
        }
        proof {
            let l = latest->0;
            assert(prefix[i as int].window == w);
            assert forall|q: int| 0 <= q < prefix.len() implies !window_before(l, #[trigger] prefix[q].window) by {
                if q < i {
                    assert(prefix[q] == summaries@.take(i as int)[q]);
                }
            }
            if !replace {
                let ol = old_latest->0;
                let q = choose|q: int| 0 <= q < summaries@.take(i as int).len() && #[trigger] summaries@.take(i as int)[q].window == ol;
                assert(prefix[q] == summaries@.take(i as int)[q]);
            }
        }
        i = i + 1;
    }
    assert(summaries@.take(summaries@.len() as int) =~= summaries@);
    latest
}

/// Emerging summaries of the latest window.
pub open spec fn is_candidate(summaries: Seq<CompositionSummary>, s: CompositionSummary) -> bool {
    is_emerging(s) && s.window == latest_window(summaries)
}

/// Returns the growing, successful composition families of the latest
/// window: at least two plays, an average placement of 4.5 or better, and a
/// usage rate above that of the previous populated window. They are listed by
/// growth, then average placement, then plays, then patch and composition.
pub fn emerging_candidates(summaries: &[CompositionSummary]) -> (candidates: Vec<&CompositionSummary>)
    ensures
        crate::sorting::sorted_under(CandidateOrder, candidates@),
        crate::sorting::stable_rearrangement(
            CandidateOrder,
            candidates@,
            refs_where(summaries@, |s: CompositionSummary| is_candidate(summaries@, s)),
        ),
{
    let latest = latest_summary_window(summaries);
    let ghost pred = |s: CompositionSummary| is_candidate(summaries@, s);
    let mut candidates = match latest {
        Some(w) => {
            proof {
                let other = latest_window(summaries@);
                assert(is_latest_window(summaries@, other));
                let qa = choose|q: int| 0 <= q < summaries@.len() && #[trigger] summaries@[q].window == w;
                let qb = choose|q: int| 0 <= q < summaries@.len() && #[trigger] summaries@[q].window == other;
                assert(!window_before(w, summaries@[qb].window));
                assert(!window_before(other, summaries@[qa].window));
                assert(w == other);
            }
            select(summaries, Some(w), Ghost(pred))
        },
        None => {
            proof {
                assert(summaries@.as_ref().len() == 0);
                assert(refs_where(summaries@, pred) =~= Seq::<&CompositionSummary>::empty()) by {
                    reveal(Seq::filter);
                }
            }
            Vec::new()
        },
    };
    let ghost chosen = candidates@;
    crate::sorting::stable_sort(&mut candidates, &CandidateOrder);
    candidates
}

} // verus!

verus! {

/// The usage-rate change is infinite: the family's window had no plays
/// recorded.
pub open spec fn change_infinite(s: CompositionSummary) -> bool {
    s.window_play_count == 0
}

/// Numerator and denominator of a finite usage-rate change (0/1 where the
/// change is not a finite number).
pub open spec fn change_numerator(s: CompositionSummary) -> int {
    match s.usage_rate_change {
        Some(c) => if s.window_play_count > 0 && c.previous_window_play_count > 0 {
            s.play_count * c.previous_window_play_count - c.previous_play_count * s.window_play_count
        } else {
            0
        },
        None => 0,
    }
}

pub open spec fn change_denominator(s: CompositionSummary) -> int {
    match s.usage_rate_change {
        Some(c) => if s.window_play_count > 0 && c.previous_window_play_count > 0 {
            s.window_play_count * c.previous_window_play_count
        } else {
            1
        },
        None => 1,
    }
}

/// `a` grew more than `b`.
pub open spec fn grew_more(a: CompositionSummary, b: CompositionSummary) -> bool {
    ||| change_infinite(a) && !change_infinite(b)
    ||| !change_infinite(a) && !change_infinite(b) && change_numerator(b) * change_denominator(a)
        < change_numerator(a) * change_denominator(b)
}

pub open spec fn placement_denominator(s: CompositionSummary) -> int {
    if s.play_count > 0 {
        s.play_count as int
    } else {
        1
    }
}

/// `a` placed better on average than `b`.
pub open spec fn placed_better(a: CompositionSummary, b: CompositionSummary) -> bool {
    a.placement_total * placement_denominator(b) < b.placement_total * placement_denominator(a)
}

/// Candidates are listed by growth (largest first), then average placement
/// (best first), then plays (most first), then patch and composition.
pub open spec fn candidate_before(a: CompositionSummary, b: CompositionSummary) -> bool {
    ||| grew_more(a, b)
    ||| !grew_more(b, a) && placed_better(a, b)
    ||| !grew_more(b, a) && !placed_better(b, a) && a.play_count > b.play_count
    ||| !grew_more(b, a) && !placed_better(b, a) && a.play_count == b.play_count
        && crate::text::text_before(a.patch@, b.patch@)
    ||| !grew_more(b, a) && !placed_better(b, a) && a.play_count == b.play_count
        && a.patch@ == b.patch@ && crate::text::texts_before(a.composition@, b.composition@)
}

proof fn lemma_change_denominator_positive(s: CompositionSummary)
    ensures
        change_denominator(s) > 0,
        placement_denominator(s) > 0,
{
    match s.usage_rate_change {
        Some(c) => if s.window_play_count > 0 && c.previous_window_play_count > 0 {
            assert(s.window_play_count * c.previous_window_play_count > 0) by (nonlinear_arith)
                requires
                    s.window_play_count > 0,
                    c.previous_window_play_count > 0,
            ;
        },
        None => {},
    }
}

proof fn lemma_grew_more_weak(a: CompositionSummary, b: CompositionSummary, c: CompositionSummary)
    ensures
        grew_more(a, b) ==> !grew_more(b, a),
        grew_more(c, a) ==> grew_more(c, b) || grew_more(b, a),
{
    lemma_change_denominator_positive(a);
    lemma_change_denominator_positive(b);
    lemma_change_denominator_positive(c);
    if !change_infinite(a) && !change_infinite(b) && !change_infinite(c) {
        if grew_more(c, a) && !grew_more(c, b) {
            crate::fraction::lemma_fraction_mixed_transitive(
                change_numerator(a), change_denominator(a),
                change_numerator(c), change_denominator(c),
                change_numerator(b), change_denominator(b),
            );
        }
    }
}

proof fn lemma_placed_better_weak(a: CompositionSummary, b: CompositionSummary, c: CompositionSummary)
    ensures
        placed_better(a, b) ==> !placed_better(b, a),
        placed_better(c, a) ==> placed_better(c, b) || placed_better(b, a),
{
    lemma_change_denominator_positive(a);
    lemma_change_denominator_positive(b);
    lemma_change_denominator_positive(c);
    if placed_better(c, a) && !placed_better(c, b) {
        crate::fraction::lemma_fraction_mixed_transitive(
            b.placement_total as int, placement_denominator(b),
            c.placement_total as int, placement_denominator(c),
            a.placement_total as int, placement_denominator(a),
        );
    }
}

proof fn lemma_candidate_order(a: CompositionSummary, b: CompositionSummary, c: CompositionSummary)
    ensures
        candidate_before(a, b) ==> !candidate_before(b, a),
        candidate_before(c, a) ==> candidate_before(c, b) || candidate_before(b, a),
{
    lemma_grew_more_weak(a, b, c);
    lemma_grew_more_weak(b, a, c);
    lemma_grew_more_weak(a, c, b);
    lemma_grew_more_weak(c, a, b);
    lemma_grew_more_weak(b, c, a);
    lemma_grew_more_weak(c, b, a);
    lemma_placed_better_weak(a, b, c);
    lemma_placed_better_weak(b, a, c);
    lemma_placed_better_weak(a, c, b);
    lemma_placed_better_weak(c, a, b);
    lemma_placed_better_weak(b, c, a);
    lemma_placed_better_weak(c, b, a);
    crate::text::lemma_text_asymmetric(a.patch@, b.patch@);
    crate::text::lemma_text_irreflexive(a.patch@);
    crate::text::lemma_text_irreflexive(b.patch@);
    crate::text::lemma_text_total(a.patch@, b.patch@);
    crate::text::lemma_text_total(b.patch@, c.patch@);
    crate::text::lemma_text_total(a.patch@, c.patch@);
    crate::text::lemma_text_transitive(c.patch@, b.patch@, a.patch@);
    crate::text::lemma_text_transitive(b.patch@, a.patch@, c.patch@);
    crate::text::lemma_text_transitive(c.patch@, a.patch@, b.patch@);
    crate::text::lemma_texts_asymmetric(a.composition@, b.composition@);
    crate::text::lemma_texts_irreflexive(a.composition@);
    crate::text::lemma_texts_total(a.composition@, b.composition@);
    crate::text::lemma_texts_total(b.composition@, c.composition@);
    crate::text::lemma_texts_total(a.composition@, c.composition@);
    crate::text::lemma_texts_transitive(c.composition@, b.composition@, a.composition@);
    crate::text::lemma_texts_transitive(b.composition@, a.composition@, c.composition@);
    crate::text::lemma_texts_transitive(c.composition@, a.composition@, b.composition@);
}

/// The listing order of emerging candidates.
pub struct CandidateOrder;

impl<'a> crate::sorting::TotalPreorder<&'a CompositionSummary> for CandidateOrder {
    open spec fn precedes(&self, a: &'a CompositionSummary, b: &'a CompositionSummary) -> bool {
        !candidate_before(*b, *a)
    }

    fn precedes_exec(&self, a: &&'a CompositionSummary, b: &&'a CompositionSummary) -> (r: bool) {
        !candidate_before_exec(*b, *a)
    }

    proof fn lemma_total_preorder(&self) {
        assert forall|a: &'a CompositionSummary, b: &'a CompositionSummary|
            #[trigger] self.precedes(a, b) || self.precedes(b, a) by {
            lemma_candidate_order(*a, *b, *b);
        }
        assert forall|a: &'a CompositionSummary, b: &'a CompositionSummary, c: &'a CompositionSummary|
            #[trigger] self.precedes(a, b) && #[trigger] self.precedes(b, c) implies self.precedes(a, c) by {
            lemma_candidate_order(*a, *b, *c);
        }
    }
}

/// Usage-rate change parts as exact integers: (plays, previous share, denominator).
fn change_parts(s: &CompositionSummary) -> (r: (u128, u128, u128))
    ensures
        r.2 > 0,
        r.0 - r.1 == change_numerator(*s),
        r.2 == change_denominator(*s),
{
    proof {
        lemma_change_denominator_positive(*s);
    }
    match s.usage_rate_change {
        Some(c) => if s.window_play_count > 0 && c.previous_window_play_count > 0 {
            (
                wide_product(s.play_count as u64, c.previous_window_play_count as u64),
                wide_product(c.previous_play_count as u64, s.window_play_count as u64),
                wide_product(s.window_play_count as u64, c.previous_window_play_count as u64),
            )
        } else {
            (0, 0, 1)
        },
        None => (0, 0, 1),
    }
}

fn candidate_before_exec(a: &CompositionSummary, b: &CompositionSummary) -> (r: bool)
    ensures
        r == candidate_before(*a, *b),
{
    let a_inf = a.window_play_count == 0;
    let b_inf = b.window_play_count == 0;
    // growth: Before means a grew less than b
    let growth = if a_inf && b_inf {
        crate::text::Precedence::Same
    } else if a_inf {
        crate::text::Precedence::After
    } else if b_inf {
        crate::text::Precedence::Before
    } else {
        let (pa, ma, da) = change_parts(a);
        let (pb, mb, db) = change_parts(b);
        crate::fraction::compare_signed_fractions(pa, ma, da, pb, mb, db)
    };
    match growth {
        crate::text::Precedence::After => return true,
        crate::text::Precedence::Before => return false,
        crate::text::Precedence::Same => {},
    }
    proof {
        lemma_change_denominator_positive(*a);
        lemma_change_denominator_positive(*b);
    }
    let da: u64 = if a.play_count > 0 { a.play_count as u64 } else { 1 };
    let db: u64 = if b.play_count > 0 { b.play_count as u64 } else { 1 };
    let placement = crate::fraction::compare_fractions(a.placement_total as u128, da as u128, b.placement_total as u128, db as u128);
    match placement {
        crate::text::Precedence::Before => return true,
        crate::text::Precedence::After => return false,
        crate::text::Precedence::Same => {},
    }
    if a.play_count != b.play_count {
        return a.play_count > b.play_count;
    }
    match crate::text::compare_text(a.patch.as_str(), b.patch.as_str()) {
        crate::text::Precedence::Before => true,
        crate::text::Precedence::After => false,
        crate::text::Precedence::Same => {
            match a.composition.compare(&b.composition) {
                crate::text::Precedence::Before => true,
                _ => false,
            }
        },
    }
}


/// An emerging family was played at least twice, averaged a placement of 4.5
/// or better (its placement total is at most 45 tenths of its plays), and
/// its usage rate grew: where both rates are finite, its plays over its
/// window's plays exceed its previous plays over the previous window's.
pub proof fn lemma_emerging_means(s: CompositionSummary)
    requires
        is_emerging(s),
    ensures
        s.play_count >= 2,
        s.placement_total * 10 <= s.play_count * 45,
        s.usage_rate_change is Some,
        s.window_play_count > 0 && s.usage_rate_change->0.previous_window_play_count > 0 ==> s.play_count
            * s.usage_rate_change->0.previous_window_play_count > s.usage_rate_change->0.previous_play_count
            * s.window_play_count,
{
}

/// Each listed candidate is an emerging family of the latest window: played
/// at least twice, averaging a placement of 4.5 or better.
pub proof fn lemma_candidates_are_emerging(summaries: Seq<CompositionSummary>, candidates: Seq<&CompositionSummary>, i: int)
    requires
        crate::sorting::stable_rearrangement(
            CandidateOrder,
            candidates,
            refs_where(summaries, |s: CompositionSummary| is_candidate(summaries, s)),
        ),
        0 <= i < candidates.len(),
    ensures
        summaries.contains(*candidates[i]),
        is_latest_window(summaries, candidates[i].window),
        candidates[i].play_count >= 2,
        candidates[i].placement_total * 10 <= candidates[i].play_count * 45,
        candidates[i].usage_rate_change is Some,
{
    broadcast use vstd::seq_lib::group_seq_properties;
    let pred = |s: CompositionSummary| is_candidate(summaries, s);
    let keep = |r: &CompositionSummary| pred(*r);
    let all = summaries.as_ref();
    crate::sorting::lemma_rearrangement_contains(CandidateOrder, candidates, refs_where(summaries, pred), i);
    let x = candidates[i];
    assert(refs_where(summaries, pred) == all.filter(keep));
    let f = all.filter(keep);
    let m = choose|m: int| 0 <= m < f.len() && f[m] == x;
    all.lemma_filter_pred(keep, m);
    all.lemma_filter_contains_rev(keep, x);
    let j = choose|j: int| 0 <= j < all.len() && all[j] == x;
    assert(summaries[j] == *x);
    lemma_emerging_means(*x);
    lemma_latest_exists(summaries);
}

/// Some window of a non-empty list of summaries is the latest.
proof fn lemma_latest_exists(summaries: Seq<CompositionSummary>)
    requires
        summaries.len() > 0,
    ensures
        exists|v: TimeWindow| is_latest_window(summaries, v),
    decreases summaries.len(),
{
    if summaries.len() == 1 {
        assert(is_latest_window(summaries, summaries[0].window));
    } else {
        let init = summaries.drop_last();
        lemma_latest_exists(init);
        let v = choose|v: TimeWindow| is_latest_window(init, v);
        let last = summaries[summaries.len() - 1].window;
        let i0 = choose|i: int| 0 <= i < init.len() && #[trigger] init[i].window == v;
        assert(summaries[i0].window == v);
        if window_before(v, last) {
            assert forall|q: int| 0 <= q < summaries.len() implies !window_before(last, #[trigger] summaries[q].window) by {
                if q < init.len() {
                    assert(summaries[q] == init[q]);
                    assert(!window_before(v, init[q].window));
                }
            }
            assert(is_latest_window(summaries, last));
        } else {
            assert forall|q: int| 0 <= q < summaries.len() implies !window_before(v, #[trigger] summaries[q].window) by {
                if q < init.len() {
                    assert(summaries[q] == init[q]);
                }
            }
            assert(is_latest_window(summaries, v));
        }
    }
}

/// The usage-rate change of `a` is larger than that of `b`, both finite:
/// plays over window plays less previous plays over previous window plays,
/// compared as exact fractions.
pub open spec fn usage_change_larger(a: CompositionSummary, b: CompositionSummary) -> bool {
    let ca = a.usage_rate_change->0;
    let cb = b.usage_rate_change->0;
    (a.play_count * ca.previous_window_play_count - ca.previous_play_count * a.window_play_count) * (b.window_play_count
        * cb.previous_window_play_count) > (b.play_count * cb.previous_window_play_count - cb.previous_play_count
        * b.window_play_count) * (a.window_play_count * ca.previous_window_play_count)
}

/// Both usage-rate changes are finite and equal, as exact fractions.
pub open spec fn usage_change_equal(a: CompositionSummary, b: CompositionSummary) -> bool {
    let ca = a.usage_rate_change->0;
    let cb = b.usage_rate_change->0;
    (a.play_count * ca.previous_window_play_count - ca.previous_play_count * a.window_play_count) * (b.window_play_count
        * cb.previous_window_play_count) == (b.play_count * cb.previous_window_play_count - cb.previous_play_count
        * b.window_play_count) * (a.window_play_count * ca.previous_window_play_count)
}

/// Both usage-rate changes are finite numbers.
pub open spec fn finite_changes(a: CompositionSummary, b: CompositionSummary) -> bool {
    &&& a.usage_rate_change is Some
    &&& b.usage_rate_change is Some
    &&& a.window_play_count > 0
    &&& b.window_play_count > 0
    &&& a.usage_rate_change->0.previous_window_play_count > 0
    &&& b.usage_rate_change->0.previous_window_play_count > 0
}

/// In a list of candidates in candidate order, a larger usage-rate change
/// comes first; among equal changes, the better average placement comes
/// first; among equal changes and averages, more plays come first.
pub proof fn lemma_candidates_by_growth(candidates: Seq<&CompositionSummary>, i: int, j: int)
    requires
        crate::sorting::sorted_under(CandidateOrder, candidates),
        0 <= i < candidates.len(),
        0 <= j < candidates.len(),
        finite_changes(*candidates[i], *candidates[j]),
    ensures
        usage_change_larger(*candidates[i], *candidates[j]) ==> i < j,
        usage_change_equal(*candidates[i], *candidates[j]) && candidates[i].play_count > 0 && candidates[j].play_count > 0
            && candidates[i].placement_total * candidates[j].play_count < candidates[j].placement_total
            * candidates[i].play_count ==> i < j,
        usage_change_equal(*candidates[i], *candidates[j]) && candidates[i].play_count > 0 && candidates[j].play_count > 0
            && candidates[i].placement_total * candidates[j].play_count == candidates[j].placement_total
            * candidates[i].play_count && candidates[i].play_count > candidates[j].play_count ==> i < j,
{
    let a = *candidates[i];
    let b = *candidates[j];
    if j < i {
        assert(CandidateOrder.precedes(candidates[j], candidates[i]));
        assert(!candidate_before(a, b));
    }
}


/// A family's usage rate grew: its plays over its window's plays exceed its
/// previous plays over the previous window's plays (a rate over an empty
/// window counts as infinite when its plays are not zero).
pub open spec fn rate_rose(s: CompositionSummary) -> bool {
    match s.usage_rate_change {
        None => false,
        Some(c) => {
            ||| s.window_play_count > 0 && c.previous_window_play_count > 0 && s.play_count
                * c.previous_window_play_count > c.previous_play_count * s.window_play_count
            ||| s.window_play_count == 0 && s.play_count > 0 && c.previous_window_play_count > 0
        },
    }
}

/// A family is emerging exactly when it was played at least twice, averaged
/// a placement of 4.5 or better, and its usage rate rose.
pub proof fn lemma_emerging_exactly(s: CompositionSummary)
    ensures
        is_emerging(s) <==> s.play_count >= 2 && s.placement_total * 10 <= s.play_count * 45 && rate_rose(s),
{
}

/// Every emerging family of the latest window is listed among the
/// candidates.
pub proof fn lemma_candidates_complete(summaries: Seq<CompositionSummary>, candidates: Seq<&CompositionSummary>, j: int)
    requires
        crate::sorting::stable_rearrangement(
            CandidateOrder,
            candidates,
            refs_where(summaries, |s: CompositionSummary| is_candidate(summaries, s)),
        ),
        0 <= j < summaries.len(),
        is_latest_window(summaries, summaries[j].window),
        summaries[j].play_count >= 2,
        summaries[j].placement_total * 10 <= summaries[j].play_count * 45,
        rate_rose(summaries[j]),
    ensures
        exists|i: int| 0 <= i < candidates.len() && *candidates[i] == summaries[j],
{
    broadcast use vstd::seq_lib::group_seq_properties;
    let pred = |s: CompositionSummary| is_candidate(summaries, s);
    let keep = |r: &CompositionSummary| pred(*r);
    let all = summaries.as_ref();
    let w = latest_window(summaries);
    assert(is_latest_window(summaries, w));
    let q = choose|q: int| 0 <= q < summaries.len() && #[trigger] summaries[q].window == w;
    assert(!window_before(w, summaries[j].window));
    assert(!window_before(summaries[j].window, summaries[q].window));
    assert(summaries[j].window == w);
    assert(keep(all[j]));
    all.lemma_filter_contains(keep, j);
    assert(refs_where(summaries, pred) == all.filter(keep));
    let f = all.filter(keep);
    let m = choose|m: int| 0 <= m < f.len() && f[m] == all[j];
    crate::sorting::lemma_rearrangement_keeps(CandidateOrder, candidates, f, m);
    let i = choose|i: int| 0 <= i < candidates.len() && candidates[i] == f[m];
    assert(*candidates[i] == summaries[j]);
}

/// Among candidates with equal usage-rate changes, equal average placements
/// and equal plays, the patch that comes first alphabetically comes first,
/// and within a patch the composition that comes first alphabetically.
pub proof fn lemma_candidates_tie_break(candidates: Seq<&CompositionSummary>, i: int, j: int)
    requires
        crate::sorting::sorted_under(CandidateOrder, candidates),
        0 <= i < candidates.len(),
        0 <= j < candidates.len(),
        finite_changes(*candidates[i], *candidates[j]),
        usage_change_equal(*candidates[i], *candidates[j]),
        candidates[i].play_count > 0,
        candidates[i].play_count == candidates[j].play_count,
        candidates[i].placement_total == candidates[j].placement_total,
    ensures
        crate::text::text_before(candidates[i].patch@, candidates[j].patch@) ==> i < j,
        candidates[i].patch@ == candidates[j].patch@ && crate::text::texts_before(
            candidates[i].composition@,
            candidates[j].composition@,
        ) ==> i < j,
{
    let a = *candidates[i];
    let b = *candidates[j];
    crate::text::lemma_text_irreflexive(a.patch@);
    crate::text::lemma_texts_irreflexive(a.composition@);
    if j < i {
        assert(CandidateOrder.precedes(candidates[j], candidates[i]));
        assert(!candidate_before(a, b));
        crate::text::lemma_text_asymmetric(a.patch@, b.patch@);
    }
}

} // verus!
