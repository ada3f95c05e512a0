//! What holds of the accessories that a vehicle is fitted with.

use crate::sii::UnitView;
use crate::text::debug_text;
use crate::tree::{file_in, spelled, Nodes};
use crate::vehicle::{
    all_slots, beginnings, defaults_of, filled, fitted, fitted_by, hunt_step, hunted,
    lemma_start_sound, lemma_step_sound, lemma_unmet, reachable, shape_for, sound, unmet, Hunt,
    VehicleView,
};
use vstd::prelude::*;

verus! {

/// Whether no slot is filled twice.
pub open spec fn once_each(c: Seq<(Seq<char>, UnitView)>) -> bool {
    forall|i: int, j: int| 0 <= i < j < c.len() ==> (#[trigger] c[i]).0 != (#[trigger] c[j]).0
}

proof fn lemma_push_once(c: Seq<(Seq<char>, UnitView)>, slot: Seq<char>, u: UnitView)
    requires
        once_each(c),
        !filled(c, slot),
    ensures
        once_each(c.push((slot, u))),
{
    let d = c.push((slot, u));
    assert forall|i: int, j: int| 0 <= i < j < d.len() implies (#[trigger] d[i]).0
        != (#[trigger] d[j]).0 by {
        assert(d[i] == c[i]);
        if j < c.len() {
            assert(d[j] == c[j]);
        }
    }
}

proof fn lemma_hunted_once(
    t: Nodes,
    dir: Seq<Seq<char>>,
    name: Seq<char>,
    start: Seq<Seq<Seq<char>>>,
    h: Hunt,
)
    requires
        sound(t, dir, start, h),
        once_each(h.chosen),
    ensures
        once_each(hunted(t, dir, name, start, h).chosen),
    decreases unmet(reachable(t, dir, start), h.seen), h.queue.len(),
{
    if h.queue.len() > 0 {
        let p = h.queue.last();
        let rest = Hunt { queue: h.queue.drop_last(), ..h };
        assert(reachable(t, dir, start).contains(spelled(h.queue[h.queue.len() - 1])));
        lemma_unmet(reachable(t, dir, start), h.seen, spelled(p));
        assert forall|i: int| 0 <= i < rest.queue.len() implies reachable(t, dir, start).contains(
            spelled(#[trigger] rest.queue[i]),
        ) by {
            assert(rest.queue[i] == h.queue[i]);
        }
        if h.seen.contains(spelled(p)) {
            lemma_hunted_once(t, dir, name, start, rest);
        } else {
            match file_in(t, Seq::empty(), p) {
                None => {
                    lemma_hunted_once(
                        t,
                        dir,
                        name,
                        start,
                        Hunt { seen: h.seen.insert(spelled(p)), ..rest },
                    );
                },
                Some(f) => {
                    lemma_step_sound(t, dir, name, start, h, f.0);
                    let n = hunt_step(t, dir, name, h, f.0);
                    let slot = crate::vehicle::slot_of(p);
                    if !filled(h.chosen, slot) {
                        lemma_push_once(h.chosen, slot, crate::sii::unit_at(t, f.0));
                    }
                    lemma_hunted_once(t, dir, name, start, n);
                },
            }
        }
    }
}

proof fn lemma_fitted_once(
    t: Nodes,
    v: VehicleView,
    chosen: Seq<(Seq<char>, UnitView)>,
    slots: Seq<Seq<char>>,
)
    requires
        once_each(chosen),
    ensures
        once_each(fitted(t, v, chosen, slots).chosen),
    decreases slots.len(),
{
    if slots.len() > 0 {
        lemma_fitted_once(t, v, chosen, slots.drop_last());
        let f = fitted(t, v, chosen, slots.drop_last());
        let slot = slots.last();
        if !filled(f.chosen, slot) && shape_for(t, v, slot) is Some {
            lemma_push_once(f.chosen, slot, shape_for(t, v, slot)->0);
        }
    }
}

/// What is fitted at a vehicle's slots.
pub open spec fn fittings_of(
    t: Nodes,
    v: VehicleView,
    cabin: Seq<char>,
    chassis: Seq<char>,
) -> Seq<(Seq<char>, UnitView)> {
    fitted(t, v, defaults_of(t, v, cabin, chassis), all_slots(t, v)).chosen
}

/// Each slot of a vehicle is filled once: what a default shape fills is not
/// filled again.
pub proof fn each_slot_is_filled_once(
    t: Nodes,
    v: VehicleView,
    cabin: Seq<char>,
    chassis: Seq<char>,
)
    ensures
        once_each(fittings_of(t, v, cabin, chassis)),
{
    let start = beginnings(v.def_dir, cabin, chassis);
    lemma_start_sound(t, v.def_dir, start);
    lemma_hunted_once(
        t,
        v.def_dir,
        v.name,
        start,
        Hunt { queue: start, seen: Set::empty(), chosen: Seq::empty() },
    );
    lemma_fitted_once(t, v, defaults_of(t, v, cabin, chassis), all_slots(t, v));
}

/// Every slot that a mod ships a model for gets one, not just the slots marked as
/// required.
pub proof fn every_slot_with_a_model_is_filled(
    t: Nodes,
    v: VehicleView,
    chosen: Seq<(Seq<char>, UnitView)>,
    slots: Seq<Seq<char>>,
    slot: Seq<char>,
)
    requires
        slots.contains(slot),
        shape_for(t, v, slot) is Some,
    ensures
        filled(fitted(t, v, chosen, slots).chosen, slot),
    decreases slots.len(),
{
    let f = fitted(t, v, chosen, slots.drop_last());
    let r = fitted(t, v, chosen, slots);
    if slots.last() == slot {
        if !filled(f.chosen, slot) {
            assert(r.chosen[f.chosen.len() as int].0 == slot);
        }
    } else {
        let i = slots.index_of(slot);
        assert(slots.drop_last()[i] == slot);
        every_slot_with_a_model_is_filled(t, v, chosen, slots.drop_last(), slot);
        let k = choose|k: int| 0 <= k < f.chosen.len() && (#[trigger] f.chosen[k]).0 == slot;
        assert(r.chosen[k] == f.chosen[k]);
    }
}

/// A required slot that stays empty is complained about.
pub proof fn an_empty_required_slot_is_noted(
    t: Nodes,
    v: VehicleView,
    chosen: Seq<(Seq<char>, UnitView)>,
    slots: Seq<Seq<char>>,
    slot: Seq<char>,
)
    requires
        slots.contains(slot),
        v.required.contains(slot),
        !filled(fitted(t, v, chosen, slots).chosen, slot),
    ensures
        fitted(t, v, chosen, slots).warnings.contains(
            "required slot "@ + debug_text(slot) + " has no model"@,
        ),
    decreases slots.len(),
{
    let f = fitted(t, v, chosen, slots.drop_last());
    let r = fitted(t, v, chosen, slots);
    let w = "required slot "@ + debug_text(slot) + " has no model"@;
    if filled(f.chosen, slot) {
        let k = choose|k: int| 0 <= k < f.chosen.len() && (#[trigger] f.chosen[k]).0 == slot;
        assert(r.chosen[k] == f.chosen[k]);
    }
    if slots.last() == slot {
        if shape_for(t, v, slot) is Some {
            assert(r.chosen[f.chosen.len() as int].0 == slot);
        }
        assert(r.warnings[f.warnings.len() as int] == w);
    } else {
        let i = slots.index_of(slot);
        assert(slots.drop_last()[i] == slot);
        an_empty_required_slot_is_noted(t, v, chosen, slots.drop_last(), slot);
        let k = f.warnings.index_of(w);
        assert(r.warnings[k] == w);
    }
}

/// A slot never mounts one file twice, on the outside and on the inside.
pub proof fn a_slot_mounts_a_file_once(slot: Seq<char>, u: UnitView, i: int, j: int)
    requires
        0 <= i < j < fitted_by(slot, u).len(),
    ensures
        fitted_by(slot, u)[i].model != fitted_by(slot, u)[j].model,
        fitted_by(slot, u)[i].kind != fitted_by(slot, u)[j].kind,
{
    reveal_strlit("exterior");
    reveal_strlit("interior");
    assert("exterior"@[0] != "interior"@[0]);
}

} // verus!
