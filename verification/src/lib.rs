// SPDX-License-Identifier: GPL-3.0-only

//! Server side of a small protocol extension through which privileged clients
//! follow, and change, the layout group that is active on a keyboard.
//!
//! The crate holds the decisions only. The host owns the protocol objects and
//! the keyboards: it hands requests and the keyboards' layouts in, and carries
//! out what comes back, the `group` events to send and the layout to set.

pub mod keyboard;
pub mod binding;
pub mod global;
pub mod history;
pub mod request;
pub mod state;
pub mod theorems;

pub use crate::binding::{BindingId, GroupEvent, KeymapBinding, KeymapUserData};
pub use crate::global::{KeymapGlobalData, MANAGER_VERSION};
pub use crate::keyboard::{KeyboardId, Keyboards, Layout, SetLayout};
pub use crate::request::{KeymapRequest, ManagerRequest, NewKeymap};
pub use crate::state::{KeymapHandler, KeymapState};
