//! The write task's two-queue multiplexer, as a verified model.
//!
//! A writer consumes frames from two outbound queues — `internal` holds the
//! control plane, `external` the application plane — and emits them into one
//! sink.  Selection between the queues is non-biased: when both have a frame
//! ready, either may go first.  That free choice comes from the scheduler,
//! so here it enters as an explicit sequence of picks; every property below
//! holds for every pick sequence.  Within one queue the FIFO order is kept;
//! across the queues no order is promised.

use vstd::prelude::*;

use crate::frame::{Frame, FrameModel};

verus! {

/// The emission order of a writer that drains queue `a` (internal) and
/// queue `b` (external), deciding by `picks` whenever both are non-empty:
/// `true` takes the front of `a`, `false` the front of `b`.  When `picks`
/// runs out the writer falls back to the internal queue first.  Each
/// emitted frame is tagged `true` when it came from `a`.
pub open spec fn spec_multiplex(
    a: Seq<FrameModel>,
    b: Seq<FrameModel>,
    picks: Seq<bool>,
) -> Seq<(bool, FrameModel)>
    decreases a.len() + b.len(),
{
    if a.len() == 0 && b.len() == 0 {
        Seq::empty()
    } else if b.len() == 0 {
        seq![(true, a.first())] + spec_multiplex(a.drop_first(), b, picks)
    } else if a.len() == 0 {
        seq![(false, b.first())] + spec_multiplex(a, b.drop_first(), picks)
    } else {
        let take_internal = if picks.len() > 0 {
            picks.first()
        } else {
            true
        };
        let rest_picks = if picks.len() > 0 {
            picks.drop_first()
        } else {
            picks
        };
        if take_internal {
            seq![(true, a.first())] + spec_multiplex(a.drop_first(), b, rest_picks)
        } else {
            seq![(false, b.first())] + spec_multiplex(a, b.drop_first(), rest_picks)
        }
    }
}

/// The frames of one source, in emission order: those whose tag equals
/// `internal`.
pub open spec fn from_source(s: Seq<(bool, FrameModel)>, internal: bool) -> Seq<FrameModel>
    decreases s.len(),
{
    if s.len() == 0 {
        Seq::empty()
    } else if s.first().0 == internal {
        seq![s.first().1] + from_source(s.drop_first(), internal)
    } else {
        from_source(s.drop_first(), internal)
    }
}

/// The mathematical shadow of an emitted `(source, frame)` pair sequence.
pub open spec fn emissions_view(s: Seq<(bool, Frame)>) -> Seq<(bool, FrameModel)> {
    s.map_values(|p: (bool, Frame)| (p.0, p.1@))
}

/// No starvation, no loss, no reorder within a queue: however the picks
/// fall, the writer emits exactly the internal queue, in order, tagged
/// internal, and exactly the external queue, in order, tagged external —
/// one emission per queued frame, so it is done after finitely many steps.
pub proof fn lemma_multiplex_fair(a: Seq<FrameModel>, b: Seq<FrameModel>, picks: Seq<bool>)
    ensures
        from_source(spec_multiplex(a, b, picks), true) == a,
        from_source(spec_multiplex(a, b, picks), false) == b,
        spec_multiplex(a, b, picks).len() == a.len() + b.len(),
    decreases a.len() + b.len(),
{
    let out = spec_multiplex(a, b, picks);
    if a.len() == 0 && b.len() == 0 {
        assert(from_source(out, true) =~= a);
        assert(from_source(out, false) =~= b);
    } else if b.len() == 0 {
        lemma_multiplex_fair(a.drop_first(), b, picks);
        let rest = spec_multiplex(a.drop_first(), b, picks);
        assert(out.first() == (true, a.first()) && out.drop_first() =~= rest);
        assert(from_source(out, true) =~= seq![a.first()] + a.drop_first());
        assert(seq![a.first()] + a.drop_first() =~= a);
    } else if a.len() == 0 {
        lemma_multiplex_fair(a, b.drop_first(), picks);
        let rest = spec_multiplex(a, b.drop_first(), picks);
        assert(out.first() == (false, b.first()) && out.drop_first() =~= rest);
        assert(from_source(out, false) =~= seq![b.first()] + b.drop_first());
        assert(seq![b.first()] + b.drop_first() =~= b);
    } else {
        let take_internal = if picks.len() > 0 {
            picks.first()
        } else {
            true
        };
        let rest_picks = if picks.len() > 0 {
            picks.drop_first()
        } else {
            picks
        };
        if take_internal {
            lemma_multiplex_fair(a.drop_first(), b, rest_picks);
            let rest = spec_multiplex(a.drop_first(), b, rest_picks);
            assert(out.first() == (true, a.first()) && out.drop_first() =~= rest);
            assert(from_source(out, true) =~= seq![a.first()] + a.drop_first());
            assert(seq![a.first()] + a.drop_first() =~= a);
        } else {
            lemma_multiplex_fair(a, b.drop_first(), rest_picks);
            let rest = spec_multiplex(a, b.drop_first(), rest_picks);
            assert(out.first() == (false, b.first()) && out.drop_first() =~= rest);
            assert(from_source(out, false) =~= seq![b.first()] + b.drop_first());
            assert(seq![b.first()] + b.drop_first() =~= b);
        }
    }
}

/// Drains both outbound queues into one emission order, deciding by
/// `picks` wherever both are non-empty, exactly as [`spec_multiplex`]
/// lays it out.  The writer terminates once both queues are empty; each
/// pair tags its frame with `true` when it came from the internal queue.
pub fn multiplex(
    internal: Vec<Frame>,
    external: Vec<Frame>,
    picks: &Vec<bool>,
) -> (out: Vec<(bool, Frame)>)
    ensures
        emissions_view(out@) == spec_multiplex(
            internal@.map_values(|f: Frame| f@),
            external@.map_values(|f: Frame| f@),
            picks@,
        ),
        out@.len() == internal@.len() + external@.len(),
{
    let ghost a0 = internal@.map_values(|f: Frame| f@);
    let ghost b0 = external@.map_values(|f: Frame| f@);
    proof {
        lemma_multiplex_fair(a0, b0, picks@);
    }
    let mut internal = internal;
    let mut external = external;
    let mut k: usize = 0;
    let mut out: Vec<(bool, Frame)> = Vec::new();
    proof {
        assert(picks@.skip(0) =~= picks@);
        assert(emissions_view(out@) =~= Seq::<(bool, FrameModel)>::empty());
        assert(Seq::<(bool, FrameModel)>::empty() + spec_multiplex(a0, b0, picks@)
            =~= spec_multiplex(a0, b0, picks@));
    }
    while internal.len() > 0 || external.len() > 0
        invariant
            k <= picks@.len(),
            spec_multiplex(a0, b0, picks@) == emissions_view(out@) + spec_multiplex(
                internal@.map_values(|f: Frame| f@),
                external@.map_values(|f: Frame| f@),
                picks@.skip(k as int),
            ),
            out@.len() + internal@.len() + external@.len() == a0.len() + b0.len(),
        decreases internal@.len() + external@.len(),
    {
        let ghost am = internal@.map_values(|f: Frame| f@);
        let ghost bm = external@.map_values(|f: Frame| f@);
        let ghost pr = picks@.skip(k as int);
        let take_internal = if internal.len() == 0 {
            false
        } else if external.len() == 0 {
            true
        } else if k < picks.len() {
            let p = picks[k];
            k = k + 1;
            p
        } else {
            true
        };
        proof {
            if internal@.len() > 0 && external@.len() > 0 && pr.len() > 0 {
                assert(pr.first() == picks@[k - 1]);
                assert(pr.drop_first() =~= picks@.skip(k as int));
            }
        }
        if take_internal {
            let f = internal.remove(0);
            proof {
                assert(internal@.map_values(|g: Frame| g@) =~= am.drop_first());
                assert(am.first() == f@);
                assert(spec_multiplex(am, bm, pr) == seq![(true, f@)] + spec_multiplex(
                    am.drop_first(),
                    bm,
                    picks@.skip(k as int),
                ));
                assert(emissions_view(out@.push((true, f))) =~= emissions_view(out@).push(
                    (true, f@),
                ));
                assert(emissions_view(out@) + (seq![(true, f@)] + spec_multiplex(
                    am.drop_first(),
                    bm,
                    picks@.skip(k as int),
                )) =~= emissions_view(out@).push((true, f@)) + spec_multiplex(
                    am.drop_first(),
                    bm,
                    picks@.skip(k as int),
                ));
            }
            out.push((true, f));
        } else {
            let f = external.remove(0);
            proof {
                assert(external@.map_values(|g: Frame| g@) =~= bm.drop_first());
                assert(bm.first() == f@);
                assert(spec_multiplex(am, bm, pr) == seq![(false, f@)] + spec_multiplex(
                    am,
                    bm.drop_first(),
                    picks@.skip(k as int),
                ));
                assert(emissions_view(out@.push((false, f))) =~= emissions_view(out@).push(
                    (false, f@),
                ));
                assert(emissions_view(out@) + (seq![(false, f@)] + spec_multiplex(
                    am,
                    bm.drop_first(),
                    picks@.skip(k as int),
                )) =~= emissions_view(out@).push((false, f@)) + spec_multiplex(
                    am,
                    bm.drop_first(),
                    picks@.skip(k as int),
                ));
            }
            out.push((false, f));
        }
    }
    proof {
        assert(emissions_view(out@) + spec_multiplex(
            internal@.map_values(|f: Frame| f@),
            external@.map_values(|f: Frame| f@),
            picks@.skip(k as int),
        ) =~= emissions_view(out@));
    }
    out
}

} // verus!
