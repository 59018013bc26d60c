// SPDX-License-Identifier: GPL-3.0-only

//! The state of the protocol on the server: the manager global and the table
//! of live keymap bindings, with the handlers that the host calls.

use crate::binding::{
    destroyed, distinct_keymaps, first_at, has_keymap, lemma_destroyed_at, lemma_destroyed_distinct,
    lemma_first_at_unique, lookup, refresh_events, refreshed, refreshed_binding, BindingId,
    GroupEvent, KeymapBinding, KeymapUserData,
};
use crate::global::KeymapGlobalData;
use crate::keyboard::{Keyboards, Layout, SetLayout};
use crate::request::{
    brings_new_keymap, keymap_command, manager_reply, manager_table, KeymapRequest, ManagerRequest,
    NewKeymap,
};
use vstd::prelude::*;
use wayland_backend::server::GlobalId;

verus! {

/// Gives the handlers access to the protocol state that the host keeps.
pub trait KeymapHandler {
    fn keymap_state(&mut self) -> &mut KeymapState;
}

/// The manager global and the table of live keymap bindings.
#[derive(Debug)]
pub struct KeymapState {
    pub global: GlobalId,
    keymaps: Vec<KeymapBinding>,
}

impl KeymapState {
    /// The binding table, oldest binding first.
    pub closed spec fn view(&self) -> Seq<KeymapBinding> {
        self.keymaps@
    }

    /// The identity of the manager global.
    pub closed spec fn global_id(&self) -> GlobalId {
        self.global
    }

    /// The table holds each live protocol object once.
    pub open spec fn wf(&self) -> bool {
        distinct_keymaps(self@)
    }

    /// The state for a manager global that the display registered as
    /// `global`: no binding is live yet.
    pub fn new(global: GlobalId) -> (state: KeymapState)
        ensures
            state.wf(),
            state.global_id() == global,
            state@ == Seq::<KeymapBinding>::empty(),
    {
        KeymapState { global, keymaps: Vec::new() }
    }

    /// How many bindings are live.
    pub fn len(&self) -> (len: usize)
        ensures
            len == self@.len(),
    {
        self.keymaps.len()
    }

    /// Whether no binding is live.
    pub fn is_empty(&self) -> (empty: bool)
        ensures
            empty == (self@.len() == 0),
    {
        self.keymaps.len() == 0
    }

    /// Whether the protocol object `keymap` has a live binding.
    pub fn contains(&self, keymap: BindingId) -> (found: bool)
        ensures
            found == has_keymap(self@, keymap),
    {
        self.binding(keymap).is_some()
    }

    /// The binding of the protocol object `keymap`, if it is live.
    pub fn binding(&self, keymap: BindingId) -> (binding: Option<KeymapBinding>)
        ensures
            binding == lookup(self@, keymap),
    {
        let mut i: usize = 0;
        while i < self.keymaps.len()
            invariant
                0 <= i <= self.keymaps.len(),
                forall|j: int| 0 <= j < i ==> #[trigger] self.keymaps@[j].keymap != keymap,
            decreases self.keymaps.len() - i,
        {
            if self.keymaps[i].keymap == keymap {
                proof {
                    assert(first_at(self@, keymap, i as int));
                    let c = choose|c: int| first_at(self@, keymap, c);
                    lemma_first_at_unique(self@, keymap, i as int, c);
                }
                return Some(self.keymaps[i]);
            }
            i += 1;
        }
        None
    }

    /// The live bindings, oldest first.
    pub fn bindings(&self) -> (bindings: Vec<KeymapBinding>)
        ensures
            bindings@ == self@,
    {
        let mut bindings: Vec<KeymapBinding> = Vec::new();
        let mut i: usize = 0;
        while i < self.keymaps.len()
            invariant
                0 <= i <= self.keymaps.len(),
                bindings@ == self.keymaps@.take(i as int),
            decreases self.keymaps.len() - i,
        {
            bindings.push(self.keymaps[i]);
            proof {
                assert(self.keymaps@.take(i + 1) == self.keymaps@.take(i as int).push(
                    self.keymaps@[i as int],
                ));
            }
            i += 1;
        }
        proof {
            assert(self.keymaps@.take(i as int) == self.keymaps@);
        }
        bindings
    }

    /// One refresh pass: every binding whose keyboard resolves in `keyboards`
    /// is brought up to the layout that is active there. Returns the `group`
    /// events to send, one for each binding whose client had been told
    /// something else or nothing yet, in the order of the table.
    pub fn refresh(&mut self, keyboards: &Keyboards) -> (events: Vec<GroupEvent>)
        requires
            old(self).wf(),
        ensures
            final(self).wf(),
            final(self).global_id() == old(self).global_id(),
            final(self)@ == refreshed(old(self)@, keyboards@),
            events@ == refresh_events(old(self)@, keyboards@),
    {
        let mut events: Vec<GroupEvent> = Vec::new();
        let mut i: usize = 0;
        while i < self.keymaps.len()
            invariant
                0 <= i <= self.keymaps.len(),
                self.keymaps.len() == old(self).keymaps.len(),
                self.global == old(self).global,
                forall|j: int|
                    0 <= j < i ==> #[trigger] self.keymaps@[j] == refreshed_binding(
                        old(self).keymaps@[j],
                        keyboards@,
                    ),
                forall|j: int|
                    i <= j < self.keymaps.len() ==> #[trigger] self.keymaps@[j] == old(
                        self,
                    ).keymaps@[j],
                events@ == refresh_events(old(self).keymaps@.take(i as int), keyboards@),
            decreases self.keymaps.len() - i,
        {
            let binding = self.keymaps[i];
            proof {
                let table = old(self).keymaps@;
                assert(table.take(i + 1).drop_last() == table.take(i as int));
                assert(table.take(i + 1).last() == binding);
            }
            if let Some(keyboard) = binding.data.keyboard {
                if let Some(active_layout) = keyboards.active_layout(keyboard) {
                    if !same_layout(binding.last_layout, active_layout) {
                        events.push(GroupEvent { keymap: binding.keymap, group: active_layout.0 });
                        self.keymaps.set(
                            i,
                            KeymapBinding { last_layout: Some(active_layout), ..binding },
                        );
                    }
                }
            }
            i += 1;
        }
        proof {
            assert(old(self).keymaps@.take(i as int) == old(self).keymaps@);
            assert(self@ == refreshed(old(self)@, keyboards@));
        }
        events
    }

    /// Whether `client` may see the manager global: what the host's filter
    /// says of it.
    pub fn can_view<C, F: Fn(&C) -> bool>(client: C, global_data: &KeymapGlobalData<F>) -> (visible:
        bool)
        requires
            call_requires(global_data.filter(), (&client,)),
        ensures
            call_ensures(global_data.filter(), (&client,), visible),
    {
        global_data.ask(&client)
    }

    /// Serves a request on a manager object.
    ///
    /// `GetKeymap` resolves the keyboard in `keyboards`, appends the binding
    /// to the table and answers with what the new object carries and with
    /// the event that tells the client the keyboard's layout. For a keyboard
    /// that does not resolve the binding is made all the same, without
    /// keyboard, and no event is sent. `Destroy` changes nothing.
    ///
    /// The protocol object of a `GetKeymap` has to be a new one, as the
    /// display makes sure: `contains` tells whether an identity is taken.
    pub fn manager_request(&mut self, request: ManagerRequest, keyboards: &Keyboards) -> (reply:
        Option<NewKeymap>)
        requires
            old(self).wf(),
            brings_new_keymap(request, old(self)@),
        ensures
            final(self).wf(),
            final(self).global_id() == old(self).global_id(),
            final(self)@ == manager_table(old(self)@, request, keyboards@),
            reply == manager_reply(request, keyboards@),
    {
        match request {
            ManagerRequest::GetKeymap { keymap, keyboard } => {
                let active_layout = match keyboard {
                    Some(keyboard) => keyboards.active_layout(keyboard),
                    None => None,
                };
                let (data, event) = match active_layout {
                    Some(layout) => (
                        KeymapUserData { keyboard },
                        Some(GroupEvent { keymap, group: layout.0 }),
                    ),
                    None => (KeymapUserData { keyboard: None }, None),
                };
                self.keymaps.push(KeymapBinding { keymap, data, last_layout: active_layout });
                Some(NewKeymap { data, event })
            },
            ManagerRequest::Destroy => None,
        }
    }

    /// Serves a request on a keymap object that carries `data`. The table is
    /// not involved: the layout that `SetGroup` asks for reaches the client
    /// through the next refresh pass, once the keyboard reports it.
    pub fn keymap_request(data: &KeymapUserData, request: KeymapRequest) -> (command: Option<
        SetLayout,
    >)
        ensures
            command == keymap_command(*data, request),
    {
        match request {
            KeymapRequest::SetGroup { group } => match data.keyboard {
                Some(keyboard) => Some(SetLayout { keyboard, layout: Layout(group) }),
                None => None,
            },
            KeymapRequest::Destroy => None,
        }
    }

    /// The protocol object `keymap` is gone, released by its client or lost
    /// with it: its entry leaves the table. Without such an entry nothing
    /// happens.
    pub fn destroyed(&mut self, keymap: BindingId)
        requires
            old(self).wf(),
        ensures
            final(self).wf(),
            final(self).global_id() == old(self).global_id(),
            final(self)@ == destroyed(old(self)@, keymap),
            !has_keymap(final(self)@, keymap),
    {
        proof {
            lemma_destroyed_distinct(self@, keymap);
        }
        let mut i: usize = 0;
        while i < self.keymaps.len()
            invariant
                0 <= i <= self.keymaps.len(),
                *self == *old(self),
                distinct_keymaps(destroyed(old(self)@, keymap)),
                !has_keymap(destroyed(old(self)@, keymap), keymap),
                forall|j: int| 0 <= j < i ==> #[trigger] self.keymaps@[j].keymap != keymap,
            decreases self.keymaps.len() - i,
        {
            if self.keymaps[i].keymap == keymap {
                proof {
                    assert(first_at(self@, keymap, i as int));
                    lemma_destroyed_at(self@, keymap, i as int);
                }
                self.keymaps.remove(i);
                return ;
            }
            i += 1;
        }
    }
}

/// Whether the layout that a client was told last is `layout`.
fn same_layout(last_layout: Option<Layout>, layout: Layout) -> (same: bool)
    ensures
        same == (last_layout == Some(layout)),
{
    match last_layout {
        Some(last) => last.0 == layout.0,
        None => false,
    }
}

} // verus!
