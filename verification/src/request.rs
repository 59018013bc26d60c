// SPDX-License-Identifier: GPL-3.0-only

//! The requests of the two protocol interfaces, and what the server answers.

use crate::binding::{
    created, created_binding, created_event, has_keymap, BindingId, GroupEvent, KeymapBinding,
    KeymapUserData,
};
use crate::keyboard::{KeyboardId, Layout, SetLayout};
use vstd::prelude::*;

verus! {

/// A request on a manager object.
#[derive(Clone, Copy, Debug, PartialEq, Eq, Structural)]
pub enum ManagerRequest {
    /// Make the new protocol object `keymap` a binding to `keyboard`;
    /// `keyboard` is `None` when the client's reference names no device.
    GetKeymap { keymap: BindingId, keyboard: Option<KeyboardId> },
    /// Release the manager object.
    Destroy,
}

/// A request on a keymap object.
#[derive(Clone, Copy, Debug, PartialEq, Eq, Structural)]
pub enum KeymapRequest {
    /// Make `group` the active layout of the keyboard.
    SetGroup { group: u32 },
    /// Release the keymap object.
    Destroy,
}

/// Answer to `GetKeymap`: what the new protocol object carries, and the
/// event to send to it at once, if any.
#[derive(Clone, Copy, Debug, PartialEq, Eq, Structural)]
pub struct NewKeymap {
    pub data: KeymapUserData,
    pub event: Option<GroupEvent>,
}

/// Whether `request` asks for nothing that `table` holds already: the
/// protocol object of a `GetKeymap` is a new one, without entry so far.
pub open spec fn brings_new_keymap(request: ManagerRequest, table: Seq<KeymapBinding>) -> bool {
    match request {
        ManagerRequest::GetKeymap { keymap, .. } => !has_keymap(table, keymap),
        ManagerRequest::Destroy => true,
    }
}

/// The table after `request` on a manager object. Only `GetKeymap` touches
/// it; releasing the manager leaves every binding in place.
pub open spec fn manager_table(
    table: Seq<KeymapBinding>,
    request: ManagerRequest,
    keyboards: Map<KeyboardId, Layout>,
) -> Seq<KeymapBinding> {
    match request {
        ManagerRequest::GetKeymap { keymap, keyboard } => created(
            table,
            keymap,
            keyboard,
            keyboards,
        ),
        ManagerRequest::Destroy => table,
    }
}

/// The answer to `request` on a manager object.
pub open spec fn manager_reply(request: ManagerRequest, keyboards: Map<KeyboardId, Layout>) -> Option<
    NewKeymap,
> {
    match request {
        ManagerRequest::GetKeymap { keymap, keyboard } => Some(
            NewKeymap {
                data: created_binding(keymap, keyboard, keyboards).data,
                event: created_event(keymap, keyboard, keyboards),
            },
        ),
        ManagerRequest::Destroy => None,
    }
}

/// The request `SetGroup` for `group`.
pub open spec fn set_group(group: u32) -> KeymapRequest {
    KeymapRequest::SetGroup { group }
}

/// What `request` on a keymap object that carries `data` asks of the
/// keyboards: `SetGroup` on an object with a keyboard sets that keyboard's
/// layout, and everything else asks nothing.
pub open spec fn keymap_command(data: KeymapUserData, request: KeymapRequest) -> Option<SetLayout> {
    match request {
        KeymapRequest::SetGroup { group } => match data.keyboard {
            Some(keyboard) => Some(SetLayout { keyboard, layout: Layout(group) }),
            None => None,
        },
        KeymapRequest::Destroy => None,
    }
}

} // verus!
