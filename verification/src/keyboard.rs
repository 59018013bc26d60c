// SPDX-License-Identifier: GPL-3.0-only

//! The keyboard side of the protocol: layout groups, device identities and a
//! view of the layouts that the host's keyboards have active.

use std::collections::HashMap;
use vstd::prelude::*;

verus! {

broadcast use vstd::std_specs::hash::group_hash_axioms;

/// Index of one of a keyboard's configured layouts, also called a layout
/// group. Two layouts are either the same or different; no order is implied.
#[derive(Clone, Copy, Debug, PartialEq, Eq, Structural, Hash)]
pub struct Layout(pub u32);

/// Identity of a keyboard device, as handed out by the host.
#[derive(Clone, Copy, Debug, PartialEq, Eq, Structural, Hash)]
pub struct KeyboardId(pub u64);

/// Instruction to the host: make `layout` the active layout of `keyboard`.
#[derive(Clone, Copy, Debug, PartialEq, Eq, Structural)]
pub struct SetLayout {
    pub keyboard: KeyboardId,
    pub layout: Layout,
}

/// The active layout of every keyboard that is live at one moment.
///
/// A keyboard that is missing here does not resolve: whoever refers to it
/// is treated as referring to no keyboard at all.
#[derive(Debug)]
pub struct Keyboards {
    layouts: HashMap<u64, Layout>,
}

impl Keyboards {
    /// The live keyboards with their active layouts.
    pub closed spec fn view(&self) -> Map<KeyboardId, Layout> {
        Map::new(
            |keyboard: KeyboardId| self.layouts@.contains_key(keyboard.0),
            |keyboard: KeyboardId| self.layouts@[keyboard.0],
        )
    }

    /// No keyboard is live.
    pub fn new() -> (keyboards: Keyboards)
        ensures
            keyboards@ == Map::<KeyboardId, Layout>::empty(),
    {
        let keyboards = Keyboards { layouts: HashMap::new() };
        assert(keyboards@ =~= Map::<KeyboardId, Layout>::empty());
        keyboards
    }

    /// Records that `keyboard` is live with `layout` active, replacing what
    /// was recorded for it before.
    pub fn insert(&mut self, keyboard: KeyboardId, layout: Layout)
        ensures
            final(self)@ == old(self)@.insert(keyboard, layout),
    {
        self.layouts.insert(keyboard.0, layout);
        assert(self@ =~= old(self)@.insert(keyboard, layout));
    }

    /// Records that `keyboard` is gone.
    pub fn remove(&mut self, keyboard: KeyboardId)
        ensures
            final(self)@ == old(self)@.remove(keyboard),
    {
        self.layouts.remove(&keyboard.0);
        assert(self@ =~= old(self)@.remove(keyboard));
    }

    /// The active layout of `keyboard`, or `None` when it is not live.
    pub fn active_layout(&self, keyboard: KeyboardId) -> (layout: Option<Layout>)
        ensures
            layout == resolve(Some(keyboard), self@),
    {
        match self.layouts.get(&keyboard.0) {
            Some(layout) => Some(*layout),
            None => None,
        }
    }
}

/// The layout that a reference to a keyboard reads at one moment: that of the
/// keyboard it names if that keyboard is live, nothing otherwise.
pub open spec fn resolve(keyboard: Option<KeyboardId>, keyboards: Map<KeyboardId, Layout>) -> Option<
    Layout,
> {
    match keyboard {
        Some(k) => if keyboards.contains_key(k) {
            Some(keyboards[k])
        } else {
            None
        },
        None => None,
    }
}

} // verus!
