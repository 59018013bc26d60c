// SPDX-License-Identifier: GPL-3.0-only

//! Keymap bindings and the table that holds them, as plain values.
//!
//! A binding ties one protocol object of a client to at most one keyboard and
//! remembers the layout group that the client was told last. The functions
//! here say, over sequences of bindings, what each operation of the protocol
//! does to the table and which `group` events it sends.

use crate::keyboard::{resolve, KeyboardId, Layout};
use vstd::prelude::*;

verus! {

/// Identity of a keymap protocol object: unique among the live objects and
/// stable for as long as the object lives.
#[derive(Clone, Copy, Debug, PartialEq, Eq, Structural, Hash)]
pub struct BindingId(pub u64);

/// What a keymap protocol object carries: the keyboard it refers to, if that
/// keyboard resolved when the object was created.
#[derive(Clone, Copy, Debug, PartialEq, Eq, Structural)]
pub struct KeymapUserData {
    pub keyboard: Option<KeyboardId>,
}

/// One entry of the binding table.
#[derive(Clone, Copy, Debug, PartialEq, Eq, Structural)]
pub struct KeymapBinding {
    /// The protocol object this entry stands for.
    pub keymap: BindingId,
    /// What that object carries.
    pub data: KeymapUserData,
    /// The layout that was sent to the client last, if any was.
    pub last_layout: Option<Layout>,
}

/// A `group` event: `keymap`'s client is told that `group` is now active.
#[derive(Clone, Copy, Debug, PartialEq, Eq, Structural)]
pub struct GroupEvent {
    pub keymap: BindingId,
    pub group: u32,
}

/// Whether `table` has an entry for `keymap`.
pub open spec fn has_keymap(table: Seq<KeymapBinding>, keymap: BindingId) -> bool {
    exists|i: int| 0 <= i < table.len() && #[trigger] table[i].keymap == keymap
}

/// No two entries of `table` stand for the same protocol object.
pub open spec fn distinct_keymaps(table: Seq<KeymapBinding>) -> bool {
    forall|i: int, j: int|
        0 <= i < j < table.len() ==> #[trigger] table[i].keymap != #[trigger] table[j].keymap
}

/// Whether `i` is the place of the first entry for `keymap` in `table`.
pub open spec fn first_at(table: Seq<KeymapBinding>, keymap: BindingId, i: int) -> bool {
    &&& 0 <= i < table.len()
    &&& table[i].keymap == keymap
    &&& forall|j: int| 0 <= j < i ==> #[trigger] table[j].keymap != keymap
}

/// The first entry that `table` has for `keymap`, if it has one.
pub open spec fn lookup(table: Seq<KeymapBinding>, keymap: BindingId) -> Option<KeymapBinding> {
    if has_keymap(table, keymap) {
        Some(table[choose|i: int| first_at(table, keymap, i)])
    } else {
        None
    }
}

/// The entry made for a new protocol object `keymap` that asks for `keyboard`
/// while the keyboards are as in `keyboards`. A keyboard that does not
/// resolve leaves the entry without keyboard and without layout.
pub open spec fn created_binding(
    keymap: BindingId,
    keyboard: Option<KeyboardId>,
    keyboards: Map<KeyboardId, Layout>,
) -> KeymapBinding {
    match resolve(keyboard, keyboards) {
        Some(layout) => KeymapBinding {
            keymap,
            data: KeymapUserData { keyboard },
            last_layout: Some(layout),
        },
        None => KeymapBinding {
            keymap,
            data: KeymapUserData { keyboard: None },
            last_layout: None,
        },
    }
}

/// The event that creating `keymap` sends: the keyboard's layout at that
/// moment, or nothing when the keyboard does not resolve.
pub open spec fn created_event(
    keymap: BindingId,
    keyboard: Option<KeyboardId>,
    keyboards: Map<KeyboardId, Layout>,
) -> Option<GroupEvent> {
    match resolve(keyboard, keyboards) {
        Some(layout) => Some(GroupEvent { keymap, group: layout.0 }),
        None => None,
    }
}

/// The table after a new entry was made for `keymap`.
pub open spec fn created(
    table: Seq<KeymapBinding>,
    keymap: BindingId,
    keyboard: Option<KeyboardId>,
    keyboards: Map<KeyboardId, Layout>,
) -> Seq<KeymapBinding> {
    table.push(created_binding(keymap, keyboard, keyboards))
}

/// The table after the protocol object `keymap` was destroyed: its first
/// entry is gone, and a table without such an entry is left as it is.
pub open spec fn destroyed(table: Seq<KeymapBinding>, keymap: BindingId) -> Seq<KeymapBinding> {
    if has_keymap(table, keymap) {
        table.remove(choose|i: int| first_at(table, keymap, i))
    } else {
        table
    }
}

/// The event that a refresh pass sends for `binding`: the layout of its
/// keyboard if that differs from what the client was told last.
pub open spec fn refresh_event(binding: KeymapBinding, keyboards: Map<KeyboardId, Layout>) -> Option<
    GroupEvent,
> {
    match resolve(binding.data.keyboard, keyboards) {
        Some(layout) => if binding.last_layout != Some(layout) {
            Some(GroupEvent { keymap: binding.keymap, group: layout.0 })
        } else {
            None
        },
        None => None,
    }
}

/// `binding` after a refresh pass: it remembers the layout of its keyboard.
/// A binding whose keyboard does not resolve is left as it is.
pub open spec fn refreshed_binding(
    binding: KeymapBinding,
    keyboards: Map<KeyboardId, Layout>,
) -> KeymapBinding {
    match resolve(binding.data.keyboard, keyboards) {
        Some(layout) => KeymapBinding { last_layout: Some(layout), ..binding },
        None => binding,
    }
}

/// The table after a refresh pass.
pub open spec fn refreshed(table: Seq<KeymapBinding>, keyboards: Map<KeyboardId, Layout>) -> Seq<
    KeymapBinding,
> {
    Seq::new(table.len(), |i: int| refreshed_binding(table[i], keyboards))
}

/// The events of a refresh pass, in the order of the table.
pub open spec fn refresh_events(
    table: Seq<KeymapBinding>,
    keyboards: Map<KeyboardId, Layout>,
) -> Seq<GroupEvent>
    decreases table.len(),
{
    if table.len() == 0 {
        Seq::empty()
    } else {
        let before = refresh_events(table.drop_last(), keyboards);
        match refresh_event(table.last(), keyboards) {
            Some(event) => before.push(event),
            None => before,
        }
    }
}

/// The groups that an event carries to its client, if there is an event.
pub open spec fn groups_of(event: Option<GroupEvent>) -> Seq<u32> {
    match event {
        Some(event) => seq![event.group],
        None => Seq::empty(),
    }
}

/// The groups that `keymap`'s client sees when `events` are sent, in order.
pub open spec fn observed(events: Seq<GroupEvent>, keymap: BindingId) -> Seq<u32>
    decreases events.len(),
{
    if events.len() == 0 {
        Seq::empty()
    } else {
        let before = observed(events.drop_last(), keymap);
        if events.last().keymap == keymap {
            before.push(events.last().group)
        } else {
            before
        }
    }
}

/// The first entry for a protocol object is the only place `first_at` holds.
pub proof fn lemma_first_at_unique(table: Seq<KeymapBinding>, keymap: BindingId, i: int, j: int)
    requires
        first_at(table, keymap, i),
        first_at(table, keymap, j),
    ensures
        i == j,
{
    if i < j {
        assert(table[i].keymap != keymap);
    } else if j < i {
        assert(table[j].keymap != keymap);
    }
}

/// A table with an entry for `keymap` has a first one.
pub proof fn lemma_first_at_exists(table: Seq<KeymapBinding>, keymap: BindingId) -> (i: int)
    requires
        has_keymap(table, keymap),
    ensures
        first_at(table, keymap, i),
    decreases table.len(),
{
    let k = choose|k: int| 0 <= k < table.len() && #[trigger] table[k].keymap == keymap;
    let front = table.take(k);
    if has_keymap(front, keymap) {
        let i = lemma_first_at_exists(front, keymap);
        assert(front[i] == table[i]);
        assert forall|j: int| 0 <= j < i implies #[trigger] table[j].keymap != keymap by {
            assert(front[j] == table[j]);
        }
        i
    } else {
        assert forall|j: int| 0 <= j < k implies #[trigger] table[j].keymap != keymap by {
            assert(front[j] == table[j]);
        }
        k
    }
}

/// What `destroyed` gives when the first entry for `keymap` is known.
pub proof fn lemma_destroyed_at(table: Seq<KeymapBinding>, keymap: BindingId, i: int)
    requires
        first_at(table, keymap, i),
    ensures
        destroyed(table, keymap) == table.remove(i),
{
    let c = choose|c: int| first_at(table, keymap, c);
    lemma_first_at_unique(table, keymap, i, c);
}

/// Destroying a protocol object in a table that holds each object once
/// leaves such a table, and one that holds the object no more.
pub proof fn lemma_destroyed_distinct(table: Seq<KeymapBinding>, keymap: BindingId)
    requires
        distinct_keymaps(table),
    ensures
        distinct_keymaps(destroyed(table, keymap)),
        !has_keymap(destroyed(table, keymap), keymap),
{
    if has_keymap(table, keymap) {
        let i = lemma_first_at_exists(table, keymap);
        lemma_destroyed_at(table, keymap, i);
        let after = table.remove(i);
        assert forall|j: int| 0 <= j < after.len() implies #[trigger] after[j].keymap != keymap by {
            if j < i {
                assert(after[j] == table[j]);
            } else {
                assert(after[j] == table[j + 1]);
            }
        }
        assert forall|a: int, b: int| 0 <= a < b < after.len() implies #[trigger] after[a].keymap
            != #[trigger] after[b].keymap by {
            let a0 = if a < i { a } else { a + 1 };
            let b0 = if b < i { b } else { b + 1 };
            assert(after[a] == table[a0]);
            assert(after[b] == table[b0]);
        }
    }
}

} // verus!
