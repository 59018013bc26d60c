// SPDX-License-Identifier: GPL-3.0-only

//! The manager global: the entry point that the host advertises, and the
//! filter that decides which clients get to see it.

use vstd::prelude::*;
use wayland_backend::server::GlobalId;

verus! {

/// `wayland_backend::server::GlobalId`, the identity that the display gives
/// a global when it is registered. Nothing is known of its inside: it is
/// kept so that the host can withdraw the global later.
#[verifier::external_type_specification]
#[verifier::external_body]
pub struct ExGlobalId(GlobalId);

/// The version of the manager interface that the global is advertised with.
pub const MANAGER_VERSION: u32 = 1;

/// What the manager global carries: the host's filter, fixed when the global
/// is made and asked each time a client lists or binds globals.
pub struct KeymapGlobalData<F> {
    filter: F,
}

impl<F> KeymapGlobalData<F> {
    /// The filter that was handed in.
    pub closed spec fn filter(&self) -> F {
        self.filter
    }

    /// Global data that answers with `client_filter`.
    pub fn new(client_filter: F) -> (data: Self)
        ensures
            data.filter() == client_filter,
    {
        KeymapGlobalData { filter: client_filter }
    }

    /// Asks the filter about `client`.
    pub(crate) fn ask<C>(&self, client: &C) -> (visible: bool) where F: Fn(&C) -> bool
        requires
            call_requires(self.filter(), (client,)),
        ensures
            call_ensures(self.filter(), (client,), visible),
    {
        (self.filter)(client)
    }
}

} // verus!
