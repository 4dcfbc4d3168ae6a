//! Laws of the ingestion protocol, stated over the specification model and
//! proved once and for all.

use crate::cloud::{
    is_noop_line, register_view, spec_apply_line, spec_ingest, spec_read, spec_validate,
    CloudErrorView, CloudView, EmitterView,
};
use crate::hydrogen::hydrogen_sum_is_unity;
use vstd::prelude::*;

verus! {

/// Whenever every line parses, ingestion succeeds exactly when the hydrogen
/// bookkeeping invariant holds of the parsed composition; on success the
/// derived composition quantities are marked computed, and the heat capacity
/// exactly when a gas temperature is set.
pub proof fn law_ingestion_success(c0: CloudView, lines: Seq<Seq<char>>, c1: CloudView)
    requires
        spec_ingest(c0, lines) == Result::Ok::<CloudView, CloudErrorView>(c1),
    ensures
        (spec_read(c0, lines) is Ok) == hydrogen_sum_is_unity(
            c1.comp.xHI,
            c1.comp.xHplus,
            c1.comp.xpH2,
            c1.comp.xoH2,
        ),
        spec_read(c0, lines) is Ok ==> {
            let c2 = spec_read(c0, lines)->Ok_0;
            &&& c2.comp.derived_ready
            &&& c2.comp.cv_ready == c2.Tg.is_positive()
        },
{
}

/// Whenever every line parses but the hydrogen abundances do not sum to one,
/// the whole ingestion fails with the invariant violation: no usable state.
pub proof fn law_invariant_violation(c0: CloudView, lines: Seq<Seq<char>>, c1: CloudView)
    requires
        spec_ingest(c0, lines) == Result::Ok::<CloudView, CloudErrorView>(c1),
        !hydrogen_sum_is_unity(c1.comp.xHI, c1.comp.xHplus, c1.comp.xpH2, c1.comp.xoH2),
    ensures
        spec_read(c0, lines) == Result::Err::<CloudView, CloudErrorView>(
            CloudErrorView::InvariantViolation,
        ),
{
}

/// The lines of a descriptor with the blank and comment lines removed.
pub open spec fn strip_noops(lines: Seq<Seq<char>>) -> Seq<Seq<char>>
    decreases lines.len(),
{
    if lines.len() == 0 {
        Seq::empty()
    } else if is_noop_line(lines[0]) {
        strip_noops(lines.drop_first())
    } else {
        seq![lines[0]] + strip_noops(lines.drop_first())
    }
}

/// Blank lines and comment lines are no-ops: a descriptor gives the same
/// outcome as the same descriptor with them removed.
pub proof fn law_noop_lines(c: CloudView, lines: Seq<Seq<char>>)
    ensures
        spec_ingest(c, strip_noops(lines)) == spec_ingest(c, lines),
        spec_read(c, strip_noops(lines)) == spec_read(c, lines),
    decreases lines.len(),
{
    if lines.len() == 0 {
    } else if is_noop_line(lines[0]) {
        assert(spec_apply_line(c, lines[0]) == Result::Ok::<CloudView, CloudErrorView>(c));
        law_noop_lines(c, lines.drop_first());
    } else {
        match spec_apply_line(c, lines[0]) {
            Result::Ok(c2) => {
                law_noop_lines(c2, lines.drop_first());
                let st = seq![lines[0]] + strip_noops(lines.drop_first());
                assert(st[0] == lines[0]);
                assert(st.drop_first() =~= strip_noops(lines.drop_first()));
            },
            Result::Err(_) => {
                let st = seq![lines[0]] + strip_noops(lines.drop_first());
                assert(st[0] == lines[0]);
            },
        }
    }
}

/// Re-declaring an emitter name replaces the earlier registration entirely:
/// registering twice under one name is registering the second alone.
pub proof fn law_emitter_last_write_wins(c: CloudView, e1: EmitterView, e2: EmitterView)
    requires
        e1.name == e2.name,
    ensures
        register_view(register_view(c, e1), e2) == register_view(c, e2),
{
    assert(c.emitters.insert(e1.name, e1).insert(e2.name, e2) =~= c.emitters.insert(
        e2.name,
        e2,
    ));
    assert(register_view(register_view(c, e1), e2) =~= register_view(c, e2));
}

/// A failed validation is always the invariant violation, and a successful
/// one changes nothing but the readiness marks.
pub proof fn law_validation_shape(c: CloudView)
    ensures
        spec_validate(c) is Err ==> spec_validate(c) == Result::Err::<
            CloudView,
            CloudErrorView,
        >(CloudErrorView::InvariantViolation),
        spec_validate(c) is Ok ==> {
            let c2 = spec_validate(c)->Ok_0;
            &&& c2 == (CloudView {
                comp: crate::cloud::Composition {
                    derived_ready: true,
                    cv_ready: c.Tg.is_positive(),
                    ..c.comp
                },
                ..c
            })
        },
{
}

} // verus!
