// SPDX-License-Identifier: GPL-3.0-only

//! Histories: what a sequence of operations does to the binding table, and
//! which events it sends on the way.

use crate::binding::{
    created, created_event, destroyed, has_keymap, observed, refresh_events, refreshed, BindingId,
    GroupEvent, KeymapBinding,
};
use crate::keyboard::{KeyboardId, Layout};
use vstd::prelude::*;

verus! {

/// One operation on the binding table, with the keyboards as they are when
/// it happens. What goes on between two operations, a layout that a
/// request or the user changed, shows in the keyboards of the next one.
pub enum Step {
    /// A client asked for the new binding `keymap` to `keyboard`.
    Create { keymap: BindingId, keyboard: Option<KeyboardId>, keyboards: Map<KeyboardId, Layout> },
    /// The protocol object `keymap` was destroyed.
    Destroy { keymap: BindingId },
    /// A refresh pass.
    Refresh { keyboards: Map<KeyboardId, Layout> },
}

impl Step {
    /// Whether the step creates or destroys the protocol object `keymap`.
    pub open spec fn concerns(self, keymap: BindingId) -> bool {
        match self {
            Step::Create { keymap: k, .. } => k == keymap,
            Step::Destroy { keymap: k } => k == keymap,
            Step::Refresh { .. } => false,
        }
    }

    /// Whether the step creates the protocol object `keymap`.
    pub open spec fn creates(self, keymap: BindingId) -> bool {
        self matches Step::Create { keymap: k, .. } && k == keymap
    }
}

/// The step in which a client asks for the new binding `keymap` to
/// `keyboard` while the keyboards are as in `keyboards`.
pub open spec fn creation(
    keymap: BindingId,
    keyboard: Option<KeyboardId>,
    keyboards: Map<KeyboardId, Layout>,
) -> Step {
    Step::Create { keymap, keyboard, keyboards }
}

/// The table after `step`.
pub open spec fn step_table(table: Seq<KeymapBinding>, step: Step) -> Seq<KeymapBinding> {
    match step {
        Step::Create { keymap, keyboard, keyboards } => created(table, keymap, keyboard, keyboards),
        Step::Destroy { keymap } => destroyed(table, keymap),
        Step::Refresh { keyboards } => refreshed(table, keyboards),
    }
}

/// The events that `step` sends when it starts from `table`.
pub open spec fn step_events(table: Seq<KeymapBinding>, step: Step) -> Seq<GroupEvent> {
    match step {
        Step::Create { keymap, keyboard, keyboards } => match created_event(
            keymap,
            keyboard,
            keyboards,
        ) {
            Some(event) => seq![event],
            None => Seq::empty(),
        },
        Step::Destroy { .. } => Seq::empty(),
        Step::Refresh { keyboards } => refresh_events(table, keyboards),
    }
}

/// The table after `steps`, taken in order from `table`.
pub open spec fn run_table(table: Seq<KeymapBinding>, steps: Seq<Step>) -> Seq<KeymapBinding>
    decreases steps.len(),
{
    if steps.len() == 0 {
        table
    } else {
        step_table(run_table(table, steps.drop_last()), steps.last())
    }
}

/// All events that `steps` send, in order, when they start from `table`.
pub open spec fn run_events(table: Seq<KeymapBinding>, steps: Seq<Step>) -> Seq<GroupEvent>
    decreases steps.len(),
{
    if steps.len() == 0 {
        Seq::empty()
    } else {
        run_events(table, steps.drop_last()) + step_events(
            run_table(table, steps.drop_last()),
            steps.last(),
        )
    }
}

/// The protocol objects that have an entry in `table`.
pub open spec fn keymaps_of(table: Seq<KeymapBinding>) -> Set<BindingId> {
    Set::new(|keymap: BindingId| has_keymap(table, keymap))
}

/// The protocol objects that are live after `step`, those of `live` having
/// been live before it.
pub open spec fn step_live(live: Set<BindingId>, step: Step) -> Set<BindingId> {
    match step {
        Step::Create { keymap, .. } => live.insert(keymap),
        Step::Destroy { keymap } => live.remove(keymap),
        Step::Refresh { .. } => live,
    }
}

/// The protocol objects that are live after `steps`: those that were live
/// before or were created, and were not destroyed since.
pub open spec fn run_live(live: Set<BindingId>, steps: Seq<Step>) -> Set<BindingId>
    decreases steps.len(),
{
    if steps.len() == 0 {
        live
    } else {
        step_live(run_live(live, steps.drop_last()), steps.last())
    }
}

/// Whether `steps` create only protocol objects that are not live at that
/// moment, as the display guarantees of every new object.
pub open spec fn creates_fresh(live: Set<BindingId>, steps: Seq<Step>) -> bool
    decreases steps.len(),
{
    steps.len() == 0 || {
        &&& creates_fresh(live, steps.drop_last())
        &&& steps.last() matches Step::Create { keymap, .. } ==> !run_live(
            live,
            steps.drop_last(),
        ).contains(keymap)
    }
}

/// Running `first` and then `rest` is running the two one after the other.
pub proof fn lemma_run_split(table: Seq<KeymapBinding>, first: Seq<Step>, rest: Seq<Step>)
    ensures
        run_table(table, first + rest) == run_table(run_table(table, first), rest),
        run_events(table, first + rest) == run_events(table, first) + run_events(
            run_table(table, first),
            rest,
        ),
    decreases rest.len(),
{
    if rest.len() == 0 {
        assert(first + rest == first);
    } else {
        lemma_run_split(table, first, rest.drop_last());
        assert((first + rest).drop_last() == first + rest.drop_last());
        assert((first + rest).last() == rest.last());
    }
}

/// What a client sees of a single event: its group if the event is sent to
/// that client's binding.
pub proof fn lemma_observed_one(event: GroupEvent, keymap: BindingId)
    ensures
        event.keymap == keymap ==> observed(seq![event], keymap) == seq![event.group],
        event.keymap != keymap ==> observed(seq![event], keymap) == Seq::<u32>::empty(),
{
    let none = seq![event].drop_last();
    assert(none == Seq::<GroupEvent>::empty());
    assert(observed(none, keymap) == Seq::<u32>::empty());
    assert(Seq::<u32>::empty().push(event.group) == seq![event.group]);
}

/// A client sees of two runs of events what it sees of the first, then what
/// it sees of the second.
pub proof fn lemma_observed_concat(first: Seq<GroupEvent>, rest: Seq<GroupEvent>, keymap: BindingId)
    ensures
        observed(first + rest, keymap) == observed(first, keymap) + observed(rest, keymap),
    decreases rest.len(),
{
    if rest.len() == 0 {
        assert(first + rest == first);
    } else {
        lemma_observed_concat(first, rest.drop_last(), keymap);
        assert((first + rest).drop_last() == first + rest.drop_last());
        assert((first + rest).last() == rest.last());
    }
}

} // verus!
