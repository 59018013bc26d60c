// SPDX-License-Identifier: GPL-3.0-only

//! What holds of the protocol whatever the clients and the keyboards do.

use crate::binding::{
    created, created_binding, created_event, destroyed, distinct_keymaps, first_at, groups_of,
    has_keymap, lemma_destroyed_at, lemma_destroyed_distinct, lemma_first_at_exists, observed,
    refresh_event, refresh_events, refreshed, refreshed_binding, BindingId, GroupEvent,
    KeymapBinding,
};
use crate::history::{
    creates_fresh, creation, keymaps_of, lemma_observed_concat, lemma_observed_one, lemma_run_split,
    run_events, run_live, run_table, step_events, step_live, step_table, Step,
};
use crate::keyboard::{resolve, KeyboardId, Layout, SetLayout};
use crate::request::{keymap_command, set_group, KeymapRequest};
use vstd::prelude::*;

verus! {

/// A binding without keyboard is inert: a refresh pass neither changes it
/// nor sends an event for it, and no request on its protocol object asks
/// anything of the keyboards.
pub proof fn binding_without_keyboard_is_inert(
    binding: KeymapBinding,
    keyboards: Map<KeyboardId, Layout>,
    request: KeymapRequest,
)
    requires
        binding.data.keyboard is None,
    ensures
        refreshed_binding(binding, keyboards) == binding,
        refresh_event(binding, keyboards) is None,
        keymap_command(binding.data, request) is None,
{
}

/// A refresh pass that follows another with the keyboards unchanged sends
/// nothing and leaves the table as the first pass left it.
pub proof fn refresh_is_idempotent(table: Seq<KeymapBinding>, keyboards: Map<KeyboardId, Layout>)
    ensures
        refresh_events(refreshed(table, keyboards), keyboards) == Seq::<GroupEvent>::empty(),
        refreshed(refreshed(table, keyboards), keyboards) == refreshed(table, keyboards),
    decreases table.len(),
{
    let once = refreshed(table, keyboards);
    assert(refreshed(once, keyboards) == once);
    if table.len() > 0 {
        refresh_is_idempotent(table.drop_last(), keyboards);
        assert(once.drop_last() == refreshed(table.drop_last(), keyboards));
        assert(once.last() == refreshed_binding(table.last(), keyboards));
    }
}

/// Destroying a protocol object takes exactly its entry out of the table:
/// the entries of all other objects stay, in their order. Destroying it a
/// second time changes nothing.
pub proof fn destroy_removes_one_entry(table: Seq<KeymapBinding>, keymap: BindingId)
    requires
        distinct_keymaps(table),
    ensures
        has_keymap(table, keymap) ==> exists|i: int|
            0 <= i < table.len() && #[trigger] table[i].keymap == keymap && destroyed(table, keymap)
                == table.remove(i),
        !has_keymap(table, keymap) ==> destroyed(table, keymap) == table,
        !has_keymap(destroyed(table, keymap), keymap),
        destroyed(destroyed(table, keymap), keymap) == destroyed(table, keymap),
{
    lemma_destroyed_distinct(table, keymap);
    if has_keymap(table, keymap) {
        let i = lemma_first_at_exists(table, keymap);
        lemma_destroyed_at(table, keymap, i);
    }
}

/// What a refresh pass shows to the client of a protocol object that has
/// no entry in the table: nothing.
proof fn lemma_pass_skips_absent(
    table: Seq<KeymapBinding>,
    keyboards: Map<KeyboardId, Layout>,
    keymap: BindingId,
)
    requires
        !has_keymap(table, keymap),
    ensures
        observed(refresh_events(table, keyboards), keymap) == Seq::<u32>::empty(),
    decreases table.len(),
{
    if table.len() > 0 {
        let front = table.drop_last();
        assert forall|j: int| 0 <= j < front.len() implies #[trigger] front[j].keymap != keymap by {
            assert(front[j] == table[j]);
        }
        lemma_pass_skips_absent(front, keyboards, keymap);
        assert(table[table.len() - 1].keymap != keymap);
        let before = refresh_events(front, keyboards);
        match refresh_event(table.last(), keyboards) {
            Some(event) => {
                assert(before.push(event).drop_last() == before);
            },
            None => {},
        }
    }
}

/// A refresh pass shows to the client of each binding the one event that the
/// pass sends for that binding, or nothing: never two events, and never an
/// event that was meant for another binding.
pub proof fn refresh_shows_each_client_its_own_event(
    table: Seq<KeymapBinding>,
    keyboards: Map<KeyboardId, Layout>,
    i: int,
)
    requires
        distinct_keymaps(table),
        0 <= i < table.len(),
    ensures
        observed(refresh_events(table, keyboards), table[i].keymap) == groups_of(
            refresh_event(table[i], keyboards),
        ),
    decreases table.len(),
{
    let keymap = table[i].keymap;
    let front = table.drop_last();
    let before = refresh_events(front, keyboards);
    assert forall|a: int, b: int| 0 <= a < b < front.len() implies #[trigger] front[a].keymap
        != #[trigger] front[b].keymap by {
        assert(front[a] == table[a]);
        assert(front[b] == table[b]);
    }
    if i == table.len() - 1 {
        assert forall|j: int| 0 <= j < front.len() implies #[trigger] front[j].keymap != keymap by {
            assert(front[j] == table[j]);
        }
        lemma_pass_skips_absent(front, keyboards, keymap);
        match refresh_event(table.last(), keyboards) {
            Some(event) => {
                assert(before.push(event).drop_last() == before);
                assert(observed(before, keymap).push(event.group) == seq![event.group]);
            },
            None => {},
        }
    } else {
        assert(front[i] == table[i]);
        refresh_shows_each_client_its_own_event(front, keyboards, i);
        assert(table[table.len() - 1].keymap != keymap);
        match refresh_event(table.last(), keyboards) {
            Some(event) => {
                assert(before.push(event).drop_last() == before);
            },
            None => {},
        }
    }
}

/// When the layout of a keyboard changes between two refresh passes, the
/// second pass shows the new layout to the client of every binding to that
/// keyboard exactly once, and a third pass shows nothing more of it.
pub proof fn layout_change_shows_once(
    table: Seq<KeymapBinding>,
    before: Map<KeyboardId, Layout>,
    after: Map<KeyboardId, Layout>,
    keyboard: KeyboardId,
    i: int,
)
    requires
        distinct_keymaps(table),
        0 <= i < table.len(),
        table[i].data.keyboard == Some(keyboard),
        before.contains_key(keyboard),
        after.contains_key(keyboard),
        before[keyboard] != after[keyboard],
    ensures
        observed(refresh_events(refreshed(table, before), after), table[i].keymap) == seq![
            after[keyboard].0,
        ],
        observed(
            refresh_events(refreshed(refreshed(table, before), after), after),
            table[i].keymap,
        ) == Seq::<u32>::empty(),
{
    let first = refreshed(table, before);
    assert(first[i] == refreshed_binding(table[i], before));
    refresh_shows_each_client_its_own_event(first, after, i);
    refresh_is_idempotent(first, after);
}

/// `SetGroup` on a binding with a keyboard asks that keyboard for the group.
/// Once the keyboard reports the group, a refresh pass shows it to the
/// binding's client once if the client had been told something else, and
/// not at all if that group is what it had been told last. The pass after
/// that shows nothing: the group is never reported twice.
pub proof fn set_group_shows_at_most_once(
    table: Seq<KeymapBinding>,
    keyboards: Map<KeyboardId, Layout>,
    i: int,
    keyboard: KeyboardId,
    group: u32,
)
    requires
        distinct_keymaps(table),
        0 <= i < table.len(),
        table[i].data.keyboard == Some(keyboard),
        keyboards.contains_key(keyboard),
        keyboards[keyboard] == Layout(group),
    ensures
        keymap_command(table[i].data, set_group(group)) == Some(
            (SetLayout { keyboard, layout: Layout(group) }),
        ),
        table[i].last_layout != Some(Layout(group)) ==> observed(
            refresh_events(table, keyboards),
            table[i].keymap,
        ) == seq![group],
        table[i].last_layout == Some(Layout(group)) ==> observed(
            refresh_events(table, keyboards),
            table[i].keymap,
        ) == Seq::<u32>::empty(),
        observed(refresh_events(refreshed(table, keyboards), keyboards), table[i].keymap)
            == Seq::<u32>::empty(),
{
    refresh_shows_each_client_its_own_event(table, keyboards, i);
    refresh_is_idempotent(table, keyboards);
}

/// Whether every entry that `table` has for `keymap` is without keyboard.
spec fn inert_in(table: Seq<KeymapBinding>, keymap: BindingId) -> bool {
    forall|i: int|
        0 <= i < table.len() && #[trigger] table[i].keymap == keymap
            ==> table[i].data.keyboard is None
}

/// A refresh pass shows nothing to a client whose binding has no keyboard.
proof fn lemma_pass_skips_inert(
    table: Seq<KeymapBinding>,
    keyboards: Map<KeyboardId, Layout>,
    keymap: BindingId,
)
    requires
        inert_in(table, keymap),
    ensures
        observed(refresh_events(table, keyboards), keymap) == Seq::<u32>::empty(),
    decreases table.len(),
{
    if table.len() > 0 {
        let front = table.drop_last();
        assert forall|j: int| 0 <= j < front.len() && #[trigger] front[j].keymap
            == keymap implies front[j].data.keyboard is None by {
            assert(front[j] == table[j]);
        }
        lemma_pass_skips_inert(front, keyboards, keymap);
        let before = refresh_events(front, keyboards);
        let last = table[table.len() - 1];
        match refresh_event(table.last(), keyboards) {
            Some(event) => {
                assert(before.push(event).drop_last() == before);
                assert(last.keymap != keymap);
            },
            None => {},
        }
    }
}

/// One step that does not create `keymap` keeps its bindings without
/// keyboard and shows nothing to its client.
proof fn lemma_inert_step(table: Seq<KeymapBinding>, step: Step, keymap: BindingId)
    requires
        inert_in(table, keymap),
        !step.creates(keymap),
    ensures
        inert_in(step_table(table, step), keymap),
        observed(step_events(table, step), keymap) == Seq::<u32>::empty(),
{
    let after = step_table(table, step);
    match step {
        Step::Create { keymap: other, keyboard, keyboards } => {
            assert forall|j: int| 0 <= j < after.len() && #[trigger] after[j].keymap
                == keymap implies after[j].data.keyboard is None by {
                if j < table.len() {
                    assert(after[j] == table[j]);
                }
            }
            match created_event(other, keyboard, keyboards) {
                Some(event) => {
                    lemma_observed_one(event, keymap);
                },
                None => {},
            }
        },
        Step::Destroy { keymap: other } => {
            if has_keymap(table, other) {
                let i = lemma_first_at_exists(table, other);
                lemma_destroyed_at(table, other, i);
                assert forall|j: int| 0 <= j < after.len() && #[trigger] after[j].keymap
                    == keymap implies after[j].data.keyboard is None by {
                    if j < i {
                        assert(after[j] == table[j]);
                    } else {
                        assert(after[j] == table[j + 1]);
                    }
                }
            }
        },
        Step::Refresh { keyboards } => {
            assert forall|j: int| 0 <= j < after.len() && #[trigger] after[j].keymap
                == keymap implies after[j].data.keyboard is None by {
                assert(after[j] == refreshed_binding(table[j], keyboards));
                assert(table[j].keymap == keymap);
            }
            lemma_pass_skips_inert(table, keyboards, keymap);
        },
    }
}

/// Steps that never create `keymap` show nothing to its client as long as
/// its bindings are without keyboard.
proof fn lemma_inert_run(table: Seq<KeymapBinding>, steps: Seq<Step>, keymap: BindingId)
    requires
        inert_in(table, keymap),
        forall|k: int| 0 <= k < steps.len() ==> !(#[trigger] steps[k]).creates(keymap),
    ensures
        inert_in(run_table(table, steps), keymap),
        observed(run_events(table, steps), keymap) == Seq::<u32>::empty(),
    decreases steps.len(),
{
    if steps.len() > 0 {
        let front = steps.drop_last();
        assert forall|k: int| 0 <= k < front.len() implies !(#[trigger] front[k]).creates(
            keymap,
        ) by {
            assert(front[k] == steps[k]);
        }
        lemma_inert_run(table, front, keymap);
        assert(!steps[steps.len() - 1].creates(keymap));
        lemma_inert_step(run_table(table, front), steps.last(), keymap);
        lemma_observed_concat(
            run_events(table, front),
            step_events(run_table(table, front), steps.last()),
            keymap,
        );
    }
}

/// A history of one step is that step.
proof fn lemma_run_one(table: Seq<KeymapBinding>, step: Step)
    ensures
        run_table(table, seq![step]) == step_table(table, step),
        run_events(table, seq![step]) == step_events(table, step),
{
    assert(seq![step].drop_last() == Seq::<Step>::empty());
    assert(run_table(table, seq![step].drop_last()) == table);
    assert(run_events(table, seq![step].drop_last()) == Seq::<GroupEvent>::empty());
}

/// The first group that the client of a new binding sees is the layout that
/// the keyboard had when the binding was created, whatever happens later.
pub proof fn first_event_is_layout_at_creation(
    table: Seq<KeymapBinding>,
    keymap: BindingId,
    keyboard: KeyboardId,
    keyboards: Map<KeyboardId, Layout>,
    later: Seq<Step>,
)
    requires
        keyboards.contains_key(keyboard),
    ensures
        observed(
            run_events(table, seq![creation(keymap, Some(keyboard), keyboards)] + later),
            keymap,
        ).len() >= 1,
        observed(
            run_events(table, seq![creation(keymap, Some(keyboard), keyboards)] + later),
            keymap,
        )[0] == keyboards[keyboard].0,
{
    let create = creation(keymap, Some(keyboard), keyboards);
    lemma_run_split(table, seq![create], later);
    lemma_run_one(table, create);
    let first = step_events(table, create);
    let rest = run_events(step_table(table, create), later);
    lemma_observed_concat(first, rest, keymap);
    let event = GroupEvent { keymap, group: keyboards[keyboard].0 };
    assert(first == seq![event]);
    lemma_observed_one(event, keymap);
}

/// The client of a binding that was created without a keyboard that
/// resolves sees no event for as long as the binding lives: not at
/// creation, and in no later step.
pub proof fn binding_without_keyboard_sees_nothing(
    table: Seq<KeymapBinding>,
    keymap: BindingId,
    keyboard: Option<KeyboardId>,
    keyboards: Map<KeyboardId, Layout>,
    later: Seq<Step>,
)
    requires
        !has_keymap(table, keymap),
        resolve(keyboard, keyboards) is None,
        forall|k: int| 0 <= k < later.len() ==> !(#[trigger] later[k]).creates(keymap),
    ensures
        observed(run_events(table, seq![creation(keymap, keyboard, keyboards)] + later), keymap)
            == Seq::<u32>::empty(),
{
    let create = creation(keymap, keyboard, keyboards);
    lemma_run_split(table, seq![create], later);
    lemma_run_one(table, create);
    let made = step_table(table, create);
    assert forall|j: int| 0 <= j < made.len() && #[trigger] made[j].keymap
        == keymap implies made[j].data.keyboard is None by {
        if j < table.len() {
            assert(made[j] == table[j]);
        }
    }
    lemma_inert_run(made, later, keymap);
    lemma_observed_concat(step_events(table, create), run_events(made, later), keymap);
}

/// Once a protocol object is destroyed its binding is never used again:
/// the client sees no further event, whatever happens later, unless the
/// display hands the identity out anew.
pub proof fn destroyed_binding_sees_nothing(
    table: Seq<KeymapBinding>,
    keymap: BindingId,
    later: Seq<Step>,
)
    requires
        distinct_keymaps(table),
        forall|k: int| 0 <= k < later.len() ==> !(#[trigger] later[k]).creates(keymap),
    ensures
        observed(run_events(destroyed(table, keymap), later), keymap) == Seq::<u32>::empty(),
{
    lemma_destroyed_distinct(table, keymap);
    lemma_inert_run(destroyed(table, keymap), later, keymap);
}

/// Whether `with` is `table` with the one entry `extra` put in at place `at`,
/// `extra` being the only entry for its protocol object.
spec fn one_more(
    with: Seq<KeymapBinding>,
    table: Seq<KeymapBinding>,
    at: int,
    extra: KeymapBinding,
) -> bool {
    &&& 0 <= at <= table.len()
    &&& with == table.insert(at, extra)
    &&& !has_keymap(table, extra.keymap)
}

/// Destroying the protocol object of the one entry that a table has more
/// than another gives that other table.
proof fn lemma_one_more_destroyed(
    with: Seq<KeymapBinding>,
    table: Seq<KeymapBinding>,
    at: int,
    extra: KeymapBinding,
)
    requires
        one_more(with, table, at, extra),
    ensures
        destroyed(with, extra.keymap) == table,
{
    assert(with[at] == extra);
    assert forall|j: int| 0 <= j < at implies #[trigger] with[j].keymap != extra.keymap by {
        assert(with[j] == table[j]);
    }
    assert(first_at(with, extra.keymap, at));
    lemma_destroyed_at(with, extra.keymap, at);
    assert(with.remove(at) == table);
}

/// A step that leaves the protocol object of the extra entry alone does to
/// the table with that entry what it does to the table without it. Returns
/// where the extra entry stands afterwards, and what it then holds.
proof fn lemma_one_more_step(
    with: Seq<KeymapBinding>,
    table: Seq<KeymapBinding>,
    at: int,
    extra: KeymapBinding,
    step: Step,
) -> (next: (int, KeymapBinding))
    requires
        one_more(with, table, at, extra),
        !step.concerns(extra.keymap),
    ensures
        one_more(step_table(with, step), step_table(table, step), next.0, next.1),
        next.1.keymap == extra.keymap,
{
    let keymap = extra.keymap;
    assert forall|j: int| 0 <= j < with.len() implies #[trigger] with[j] == (if j < at {
        table[j]
    } else if j == at {
        extra
    } else {
        table[j - 1]
    }) by {}
    match step {
        Step::Create { keymap: other, keyboard, keyboards } => {
            let made = created_binding(other, keyboard, keyboards);
            assert(with.push(made) == table.push(made).insert(at, extra));
            let after = table.push(made);
            assert forall|j: int| 0 <= j < after.len() implies #[trigger] after[j].keymap
                != keymap by {
                if j < table.len() {
                    assert(after[j] == table[j]);
                }
            }
            (at, extra)
        },
        Step::Destroy { keymap: other } => {
            if has_keymap(table, other) {
                let i = lemma_first_at_exists(table, other);
                lemma_destroyed_at(table, other, i);
                let after = table.remove(i);
                assert forall|j: int| 0 <= j < after.len() implies #[trigger] after[j].keymap
                    != keymap by {
                    if j < i {
                        assert(after[j] == table[j]);
                    } else {
                        assert(after[j] == table[j + 1]);
                    }
                }
                if i < at {
                    assert(with[i] == table[i]);
                    assert forall|j: int| 0 <= j < i implies #[trigger] with[j].keymap
                        != other by {
                        assert(with[j] == table[j]);
                    }
                    assert(first_at(with, other, i));
                    lemma_destroyed_at(with, other, i);
                    assert(with.remove(i) == after.insert(at - 1, extra));
                    (at - 1, extra)
                } else {
                    assert(with[i + 1] == table[i]);
                    assert forall|j: int| 0 <= j < i + 1 implies #[trigger] with[j].keymap
                        != other by {
                        if j < at {
                            assert(with[j] == table[j]);
                        } else if j > at {
                            assert(with[j] == table[j - 1]);
                        }
                    }
                    assert(first_at(with, other, i + 1));
                    lemma_destroyed_at(with, other, i + 1);
                    assert(with.remove(i + 1) == after.insert(at, extra));
                    (at, extra)
                }
            } else {
                assert forall|j: int| 0 <= j < with.len() implies #[trigger] with[j].keymap
                    != other by {
                    if j < at {
                        assert(with[j] == table[j]);
                    } else if j > at {
                        assert(with[j] == table[j - 1]);
                    }
                }
                (at, extra)
            }
        },
        Step::Refresh { keyboards } => {
            let after = refreshed(table, keyboards);
            let kept = refreshed_binding(extra, keyboards);
            assert(refreshed(with, keyboards) == after.insert(at, kept));
            assert forall|j: int| 0 <= j < after.len() implies #[trigger] after[j].keymap
                != keymap by {
                assert(after[j] == refreshed_binding(table[j], keyboards));
                assert(table[j].keymap != keymap);
            }
            (at, kept)
        },
    }
}

/// Steps that leave the protocol object of the extra entry alone do to the
/// table with that entry what they do to the table without it.
proof fn lemma_one_more_run(
    with: Seq<KeymapBinding>,
    table: Seq<KeymapBinding>,
    at: int,
    extra: KeymapBinding,
    steps: Seq<Step>,
) -> (last: (int, KeymapBinding))
    requires
        one_more(with, table, at, extra),
        forall|k: int| 0 <= k < steps.len() ==> !(#[trigger] steps[k]).concerns(extra.keymap),
    ensures
        one_more(run_table(with, steps), run_table(table, steps), last.0, last.1),
        last.1.keymap == extra.keymap,
    decreases steps.len(),
{
    if steps.len() == 0 {
        (at, extra)
    } else {
        let front = steps.drop_last();
        assert forall|k: int| 0 <= k < front.len() implies !(#[trigger] front[k]).concerns(
            extra.keymap,
        ) by {
            assert(front[k] == steps[k]);
        }
        let before = lemma_one_more_run(with, table, at, extra, front);
        assert(!steps[steps.len() - 1].concerns(extra.keymap));
        lemma_one_more_step(
            run_table(with, front),
            run_table(table, front),
            before.0,
            before.1,
            steps.last(),
        )
    }
}

/// Creating a binding and destroying it again leaves the table as if the
/// binding had never been there, whatever is done to other bindings in
/// between: they may be created, destroyed and refreshed in any order. In
/// particular the table has as many entries as it would have had without
/// the pair, and as many as before the creation when nothing else
/// happened.
pub proof fn create_then_destroy_restores_table(
    table: Seq<KeymapBinding>,
    keymap: BindingId,
    keyboard: Option<KeyboardId>,
    keyboards: Map<KeyboardId, Layout>,
    between: Seq<Step>,
)
    requires
        !has_keymap(table, keymap),
        forall|k: int| 0 <= k < between.len() ==> !(#[trigger] between[k]).concerns(keymap),
    ensures
        destroyed(run_table(created(table, keymap, keyboard, keyboards), between), keymap)
            == run_table(table, between),
        destroyed(run_table(created(table, keymap, keyboard, keyboards), between), keymap).len()
            == run_table(table, between).len(),
        destroyed(created(table, keymap, keyboard, keyboards), keymap) == table,
        destroyed(created(table, keymap, keyboard, keyboards), keymap).len() == table.len(),
{
    let extra = created_binding(keymap, keyboard, keyboards);
    let with = created(table, keymap, keyboard, keyboards);
    let at = table.len() as int;
    assert(with == table.insert(at, extra));
    let last = lemma_one_more_run(with, table, at, extra, between);
    lemma_one_more_destroyed(
        run_table(with, between),
        run_table(table, between),
        last.0,
        last.1,
    );
    lemma_one_more_destroyed(with, table, at, extra);
}

/// One step that creates no live protocol object keeps the table in step
/// with the live objects.
proof fn lemma_live_step(table: Seq<KeymapBinding>, step: Step)
    requires
        distinct_keymaps(table),
        step matches Step::Create { keymap, .. } ==> !has_keymap(table, keymap),
    ensures
        distinct_keymaps(step_table(table, step)),
        keymaps_of(step_table(table, step)) == step_live(keymaps_of(table), step),
{
    let after = step_table(table, step);
    match step {
        Step::Create { keymap, keyboard, keyboards } => {
            assert(after[table.len() as int].keymap == keymap);
            assert forall|k: BindingId| has_keymap(after, k) <==> (has_keymap(table, k) || k
                == keymap) by {
                if has_keymap(after, k) {
                    let i = choose|i: int| 0 <= i < after.len() && #[trigger] after[i].keymap == k;
                    if i < table.len() {
                        assert(table[i].keymap == k);
                    }
                }
                if has_keymap(table, k) {
                    let i = choose|i: int| 0 <= i < table.len() && #[trigger] table[i].keymap == k;
                    assert(after[i].keymap == k);
                }
            }
            assert(keymaps_of(after) =~= keymaps_of(table).insert(keymap));
        },
        Step::Destroy { keymap } => {
            lemma_destroyed_distinct(table, keymap);
            if has_keymap(table, keymap) {
                let at = lemma_first_at_exists(table, keymap);
                lemma_destroyed_at(table, keymap, at);
                assert forall|k: BindingId| has_keymap(after, k) <==> (has_keymap(table, k) && k
                    != keymap) by {
                    if has_keymap(after, k) {
                        let i = choose|i: int|
                            0 <= i < after.len() && #[trigger] after[i].keymap == k;
                        let j = if i < at { i } else { i + 1 };
                        assert(table[j].keymap == k);
                    }
                    if has_keymap(table, k) && k != keymap {
                        let i = choose|i: int|
                            0 <= i < table.len() && #[trigger] table[i].keymap == k;
                        let j = if i < at { i } else { i - 1 };
                        assert(after[j].keymap == k);
                    }
                }
            }
            assert(keymaps_of(after) =~= keymaps_of(table).remove(keymap));
        },
        Step::Refresh { keyboards } => {
            assert forall|k: BindingId| has_keymap(after, k) <==> has_keymap(table, k) by {
                if has_keymap(after, k) {
                    let i = choose|i: int| 0 <= i < after.len() && #[trigger] after[i].keymap == k;
                    assert(table[i].keymap == k);
                }
                if has_keymap(table, k) {
                    let i = choose|i: int| 0 <= i < table.len() && #[trigger] table[i].keymap == k;
                    assert(after[i].keymap == k);
                }
            }
            assert forall|a: int, b: int| 0 <= a < b < after.len() implies #[trigger] after[a].keymap
                != #[trigger] after[b].keymap by {
                assert(table[a].keymap != table[b].keymap);
            }
            assert(keymaps_of(after) =~= keymaps_of(table));
        },
    }
}

/// The table holds exactly the bindings that were created and not yet
/// destroyed, each of them once: whatever is done, as long as every new
/// protocol object is one that is not live at that moment.
pub proof fn table_holds_the_live_bindings(table: Seq<KeymapBinding>, steps: Seq<Step>)
    requires
        distinct_keymaps(table),
        creates_fresh(keymaps_of(table), steps),
    ensures
        distinct_keymaps(run_table(table, steps)),
        keymaps_of(run_table(table, steps)) == run_live(keymaps_of(table), steps),
    decreases steps.len(),
{
    if steps.len() > 0 {
        table_holds_the_live_bindings(table, steps.drop_last());
        lemma_live_step(run_table(table, steps.drop_last()), steps.last());
    }
}

} // verus!
