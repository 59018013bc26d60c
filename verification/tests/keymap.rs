// SPDX-License-Identifier: GPL-3.0-only

use cosmic_keymap::{
    BindingId, GroupEvent, KeyboardId, Keyboards, KeymapBinding, KeymapGlobalData, KeymapHandler,
    KeymapRequest, KeymapState, KeymapUserData, Layout, ManagerRequest, NewKeymap, SetLayout,
};
use std::sync::Arc;
use wayland_backend::protocol::ANONYMOUS_INTERFACE;
use wayland_backend::server::{
    Backend, ClientId, GlobalHandler, GlobalId, Handle, ObjectData, ObjectId,
};

struct NeverBound;

impl GlobalHandler<()> for NeverBound {
    fn bind(
        self: Arc<Self>,
        _handle: &Handle,
        _data: &mut (),
        _client_id: ClientId,
        _global_id: GlobalId,
        _object_id: ObjectId,
    ) -> Arc<dyn ObjectData<()>> {
        unreachable!()
    }
}

fn register(backend: &Backend<()>) -> GlobalId {
    backend.handle().create_global::<()>(&ANONYMOUS_INTERFACE, 0, Arc::new(NeverBound))
}

fn empty_state() -> KeymapState {
    let backend = Backend::<()>::new().unwrap();
    KeymapState::new(register(&backend))
}

fn keyboards(layouts: &[(u64, u32)]) -> Keyboards {
    let mut keyboards = Keyboards::new();
    for (keyboard, layout) in layouts {
        keyboards.insert(KeyboardId(*keyboard), Layout(*layout));
    }
    keyboards
}

fn get_keymap(
    state: &mut KeymapState,
    keymap: u64,
    keyboard: Option<u64>,
    keyboards: &Keyboards,
) -> NewKeymap {
    let request =
        ManagerRequest::GetKeymap { keymap: BindingId(keymap), keyboard: keyboard.map(KeyboardId) };
    state.manager_request(request, keyboards).unwrap()
}

fn group(keymap: u64, group: u32) -> GroupEvent {
    GroupEvent { keymap: BindingId(keymap), group }
}

fn bound(keymap: u64, keyboard: u64, last: Option<u32>) -> KeymapBinding {
    KeymapBinding {
        keymap: BindingId(keymap),
        data: KeymapUserData { keyboard: Some(KeyboardId(keyboard)) },
        last_layout: last.map(Layout),
    }
}

fn inert(keymap: u64) -> KeymapBinding {
    KeymapBinding {
        keymap: BindingId(keymap),
        data: KeymapUserData { keyboard: None },
        last_layout: None,
    }
}

#[test]
fn new_state_has_no_bindings() {
    let backend = Backend::<()>::new().unwrap();
    let global = register(&backend);
    let state = KeymapState::new(global.clone());
    assert_eq!(state.global, global);
    assert_eq!(state.len(), 0);
    assert!(state.is_empty());
    assert_eq!(state.bindings(), vec![]);
    assert!(!state.contains(BindingId(1)));
    assert_eq!(state.binding(BindingId(1)), None);
}

#[test]
fn new_state_keeps_the_global_it_was_given() {
    let backend = Backend::<()>::new().unwrap();
    let first = register(&backend);
    let second = register(&backend);
    assert_ne!(first, second);
    let state = KeymapState::new(second.clone());
    assert_eq!(state.global, second);
    assert_ne!(state.global, first);
}

#[test]
fn get_keymap_with_live_keyboard_sends_its_layout() {
    let mut state = empty_state();
    let keyboards = keyboards(&[(7, 2)]);
    let reply = get_keymap(&mut state, 1, Some(7), &keyboards);
    assert_eq!(
        reply,
        NewKeymap {
            data: KeymapUserData { keyboard: Some(KeyboardId(7)) },
            event: Some(group(1, 2)),
        }
    );
    assert_eq!(state.len(), 1);
    assert!(state.contains(BindingId(1)));
    assert_eq!(state.binding(BindingId(1)), Some(bound(1, 7, Some(2))));
}

#[test]
fn get_keymap_with_layout_zero_still_sends_an_event() {
    let mut state = empty_state();
    let keyboards = keyboards(&[(7, 0)]);
    let reply = get_keymap(&mut state, 1, Some(7), &keyboards);
    assert_eq!(reply.event, Some(group(1, 0)));
    assert_eq!(state.binding(BindingId(1)), Some(bound(1, 7, Some(0))));
}

#[test]
fn get_keymap_with_largest_group_keeps_the_value() {
    let mut state = empty_state();
    let keyboards = keyboards(&[(u64::MAX, u32::MAX)]);
    let reply = get_keymap(&mut state, u64::MAX, Some(u64::MAX), &keyboards);
    assert_eq!(reply.event, Some(group(u64::MAX, u32::MAX)));
    assert_eq!(state.refresh(&keyboards), vec![]);
}

#[test]
fn get_keymap_with_keyboard_that_is_gone_makes_an_inert_binding() {
    let mut state = empty_state();
    let keyboards = keyboards(&[(7, 2)]);
    let reply = get_keymap(&mut state, 1, Some(8), &keyboards);
    assert_eq!(reply, NewKeymap { data: KeymapUserData { keyboard: None }, event: None });
    assert_eq!(state.bindings(), vec![inert(1)]);
}

#[test]
fn get_keymap_without_keyboard_makes_an_inert_binding() {
    let mut state = empty_state();
    let keyboards = keyboards(&[(7, 2)]);
    let reply = get_keymap(&mut state, 1, None, &keyboards);
    assert_eq!(reply, NewKeymap { data: KeymapUserData { keyboard: None }, event: None });
    assert_eq!(state.len(), 1);
    assert_eq!(state.binding(BindingId(1)), Some(inert(1)));
}

#[test]
fn bindings_are_kept_in_order_of_creation() {
    let mut state = empty_state();
    let keyboards = keyboards(&[(7, 2), (9, 0)]);
    get_keymap(&mut state, 30, Some(9), &keyboards);
    get_keymap(&mut state, 10, None, &keyboards);
    get_keymap(&mut state, 20, Some(7), &keyboards);
    assert_eq!(state.bindings(), vec![bound(30, 9, Some(0)), inert(10), bound(20, 7, Some(2))]);
}

#[test]
fn manager_destroy_leaves_the_bindings_alone() {
    let mut state = empty_state();
    let keyboards = keyboards(&[(7, 2)]);
    get_keymap(&mut state, 1, Some(7), &keyboards);
    get_keymap(&mut state, 2, None, &keyboards);
    let before = state.bindings();
    assert_eq!(state.manager_request(ManagerRequest::Destroy, &keyboards), None);
    assert_eq!(state.bindings(), before);
}

#[test]
fn refresh_of_empty_table_sends_nothing() {
    let mut state = empty_state();
    assert_eq!(state.refresh(&keyboards(&[(7, 2)])), vec![]);
    assert_eq!(state.len(), 0);
}

#[test]
fn refresh_sends_nothing_while_the_layout_stays() {
    let mut state = empty_state();
    let keyboards = keyboards(&[(7, 2)]);
    get_keymap(&mut state, 1, Some(7), &keyboards);
    assert_eq!(state.refresh(&keyboards), vec![]);
    assert_eq!(state.binding(BindingId(1)), Some(bound(1, 7, Some(2))));
}

#[test]
fn refresh_twice_sends_nothing_the_second_time() {
    let mut state = empty_state();
    let before = keyboards(&[(7, 2), (8, 1)]);
    get_keymap(&mut state, 1, Some(7), &before);
    get_keymap(&mut state, 2, Some(8), &before);
    get_keymap(&mut state, 3, None, &before);
    let after = keyboards(&[(7, 0), (8, 3)]);
    assert_eq!(state.refresh(&after), vec![group(1, 0), group(2, 3)]);
    let table = state.bindings();
    assert_eq!(state.refresh(&after), vec![]);
    assert_eq!(state.bindings(), table);
}

#[test]
fn changed_layout_reaches_each_binding_of_the_keyboard_once() {
    let mut state = empty_state();
    let before = keyboards(&[(7, 2), (8, 5)]);
    get_keymap(&mut state, 1, Some(7), &before);
    get_keymap(&mut state, 2, Some(8), &before);
    get_keymap(&mut state, 3, Some(7), &before);
    assert_eq!(state.refresh(&before), vec![]);
    let after = keyboards(&[(7, 4), (8, 5)]);
    assert_eq!(state.refresh(&after), vec![group(1, 4), group(3, 4)]);
    assert_eq!(
        state.bindings(),
        vec![bound(1, 7, Some(4)), bound(2, 8, Some(5)), bound(3, 7, Some(4))]
    );
    assert_eq!(state.refresh(&after), vec![]);
}

#[test]
fn layout_that_changes_back_is_reported_again() {
    let mut state = empty_state();
    let two = keyboards(&[(7, 2)]);
    let zero = keyboards(&[(7, 0)]);
    get_keymap(&mut state, 1, Some(7), &two);
    assert_eq!(state.refresh(&zero), vec![group(1, 0)]);
    assert_eq!(state.refresh(&two), vec![group(1, 2)]);
    assert_eq!(state.refresh(&two), vec![]);
}

#[test]
fn refresh_skips_bindings_without_keyboard() {
    let mut state = empty_state();
    let none = Keyboards::new();
    get_keymap(&mut state, 1, Some(7), &none);
    get_keymap(&mut state, 2, None, &none);
    let keyboards = keyboards(&[(7, 2)]);
    assert_eq!(state.refresh(&keyboards), vec![]);
    assert_eq!(state.bindings(), vec![inert(1), inert(2)]);
}

#[test]
fn refresh_skips_binding_whose_keyboard_is_gone() {
    let mut state = empty_state();
    let both = keyboards(&[(7, 2), (8, 1)]);
    get_keymap(&mut state, 1, Some(7), &both);
    get_keymap(&mut state, 2, Some(8), &both);
    let mut left = keyboards(&[(7, 2), (8, 3)]);
    left.remove(KeyboardId(7));
    assert_eq!(state.refresh(&left), vec![group(2, 3)]);
    assert_eq!(state.bindings(), vec![bound(1, 7, Some(2)), bound(2, 8, Some(3))]);
    let back = keyboards(&[(7, 6), (8, 3)]);
    assert_eq!(state.refresh(&back), vec![group(1, 6)]);
}

#[test]
fn set_group_asks_the_keyboard_of_the_binding() {
    let data = KeymapUserData { keyboard: Some(KeyboardId(7)) };
    assert_eq!(
        KeymapState::keymap_request(&data, KeymapRequest::SetGroup { group: 3 }),
        Some(SetLayout { keyboard: KeyboardId(7), layout: Layout(3) })
    );
    assert_eq!(
        KeymapState::keymap_request(&data, KeymapRequest::SetGroup { group: 0 }),
        Some(SetLayout { keyboard: KeyboardId(7), layout: Layout(0) })
    );
}

#[test]
fn set_group_on_inert_binding_is_ignored() {
    let data = KeymapUserData { keyboard: None };
    assert_eq!(KeymapState::keymap_request(&data, KeymapRequest::SetGroup { group: 3 }), None);
}

#[test]
fn keymap_destroy_asks_nothing_of_the_keyboards() {
    let with = KeymapUserData { keyboard: Some(KeyboardId(7)) };
    let without = KeymapUserData { keyboard: None };
    assert_eq!(KeymapState::keymap_request(&with, KeymapRequest::Destroy), None);
    assert_eq!(KeymapState::keymap_request(&without, KeymapRequest::Destroy), None);
}

#[test]
fn set_group_does_not_touch_the_table() {
    let mut state = empty_state();
    let keyboards = keyboards(&[(7, 2)]);
    let reply = get_keymap(&mut state, 1, Some(7), &keyboards);
    let before = state.bindings();
    KeymapState::keymap_request(&reply.data, KeymapRequest::SetGroup { group: 5 });
    assert_eq!(state.bindings(), before);
    assert_eq!(state.refresh(&keyboards), vec![]);
}

#[test]
fn set_group_is_reported_once_when_the_keyboard_follows() {
    let mut state = empty_state();
    let mut keyboards = keyboards(&[(7, 2)]);
    let reply = get_keymap(&mut state, 1, Some(7), &keyboards);
    let command =
        KeymapState::keymap_request(&reply.data, KeymapRequest::SetGroup { group: 5 }).unwrap();
    keyboards.insert(command.keyboard, command.layout);
    assert_eq!(state.refresh(&keyboards), vec![group(1, 5)]);
    assert_eq!(state.refresh(&keyboards), vec![]);
}

#[test]
fn set_group_to_the_known_layout_is_not_reported() {
    let mut state = empty_state();
    let mut keyboards = keyboards(&[(7, 2)]);
    let reply = get_keymap(&mut state, 1, Some(7), &keyboards);
    let command =
        KeymapState::keymap_request(&reply.data, KeymapRequest::SetGroup { group: 2 }).unwrap();
    keyboards.insert(command.keyboard, command.layout);
    assert_eq!(state.refresh(&keyboards), vec![]);
}

#[test]
fn destroyed_removes_the_entry_of_that_object_only() {
    let mut state = empty_state();
    let keyboards = keyboards(&[(7, 2)]);
    get_keymap(&mut state, 1, Some(7), &keyboards);
    get_keymap(&mut state, 2, None, &keyboards);
    get_keymap(&mut state, 3, Some(7), &keyboards);
    state.destroyed(BindingId(2));
    assert_eq!(state.bindings(), vec![bound(1, 7, Some(2)), bound(3, 7, Some(2))]);
    assert!(!state.contains(BindingId(2)));
    assert!(state.contains(BindingId(1)));
    assert!(state.contains(BindingId(3)));
}

#[test]
fn destroyed_twice_is_the_same_as_once() {
    let mut state = empty_state();
    let keyboards = keyboards(&[(7, 2)]);
    get_keymap(&mut state, 1, Some(7), &keyboards);
    get_keymap(&mut state, 2, Some(7), &keyboards);
    state.destroyed(BindingId(1));
    let once = state.bindings();
    assert_eq!(once, vec![bound(2, 7, Some(2))]);
    state.destroyed(BindingId(1));
    assert_eq!(state.bindings(), once);
}

#[test]
fn destroyed_of_unknown_object_changes_nothing() {
    let mut state = empty_state();
    state.destroyed(BindingId(4));
    assert_eq!(state.len(), 0);
    let keyboards = keyboards(&[(7, 2)]);
    get_keymap(&mut state, 1, Some(7), &keyboards);
    state.destroyed(BindingId(4));
    assert_eq!(state.bindings(), vec![bound(1, 7, Some(2))]);
}

#[test]
fn destroyed_binding_gets_no_more_events() {
    let mut state = empty_state();
    get_keymap(&mut state, 1, Some(7), &keyboards(&[(7, 2)]));
    get_keymap(&mut state, 2, Some(7), &keyboards(&[(7, 2)]));
    state.destroyed(BindingId(1));
    assert_eq!(state.refresh(&keyboards(&[(7, 3)])), vec![group(2, 3)]);
}

#[test]
fn create_then_destroy_gives_back_the_size() {
    let mut state = empty_state();
    let keyboards = keyboards(&[(7, 2)]);
    get_keymap(&mut state, 1, Some(7), &keyboards);
    let before = state.len();
    get_keymap(&mut state, 2, Some(7), &keyboards);
    assert_eq!(state.len(), before + 1);
    state.destroyed(BindingId(2));
    assert_eq!(state.len(), before);
    assert_eq!(state.bindings(), vec![bound(1, 7, Some(2))]);
}

#[test]
fn create_then_destroy_among_other_bindings_gives_back_the_table() {
    let keyboards = keyboards(&[(7, 2), (8, 1)]);
    let later = self::keyboards(&[(7, 3), (8, 1)]);

    let mut with = empty_state();
    get_keymap(&mut with, 1, Some(7), &keyboards);
    get_keymap(&mut with, 50, Some(8), &keyboards);
    get_keymap(&mut with, 2, None, &keyboards);
    with.destroyed(BindingId(1));
    with.refresh(&later);
    get_keymap(&mut with, 3, Some(7), &later);
    with.destroyed(BindingId(50));

    let mut without = empty_state();
    get_keymap(&mut without, 1, Some(7), &keyboards);
    get_keymap(&mut without, 2, None, &keyboards);
    without.destroyed(BindingId(1));
    without.refresh(&later);
    get_keymap(&mut without, 3, Some(7), &later);

    assert_eq!(with.bindings(), without.bindings());
    assert_eq!(with.len(), 2);
}

#[test]
fn identity_can_be_used_again_after_destroy() {
    let mut state = empty_state();
    get_keymap(&mut state, 1, Some(7), &keyboards(&[(7, 2)]));
    state.destroyed(BindingId(1));
    assert!(!state.contains(BindingId(1)));
    let reply = get_keymap(&mut state, 1, None, &keyboards(&[(7, 2)]));
    assert_eq!(reply.event, None);
    assert_eq!(state.bindings(), vec![inert(1)]);
}

#[test]
fn inert_binding_never_gets_an_event() {
    let mut state = empty_state();
    let reply = get_keymap(&mut state, 1, Some(7), &Keyboards::new());
    assert_eq!(reply.event, None);
    get_keymap(&mut state, 2, Some(7), &keyboards(&[(7, 0)]));
    for layout in 0..4 {
        let events = state.refresh(&keyboards(&[(7, layout)]));
        assert!(events.iter().all(|event| event.keymap != BindingId(1)));
    }
    assert_eq!(KeymapState::keymap_request(&reply.data, KeymapRequest::SetGroup { group: 1 }), None);
    assert_eq!(state.binding(BindingId(1)), Some(inert(1)));
}

#[test]
fn can_view_is_what_the_filter_says() {
    let data = KeymapGlobalData::new(|client: &u32| *client % 2 == 0);
    assert!(KeymapState::can_view(4u32, &data));
    assert!(!KeymapState::can_view(5u32, &data));
    assert!(KeymapState::can_view(0u32, &data));
    assert!(!KeymapState::can_view(1u32, &data));
}

#[test]
fn can_view_asks_the_filter_every_time() {
    let privileged = vec![String::from("panel"), String::from("settings")];
    let data = KeymapGlobalData::new(move |client: &String| privileged.contains(client));
    assert!(KeymapState::can_view(String::from("panel"), &data));
    assert!(!KeymapState::can_view(String::from("game"), &data));
    assert!(KeymapState::can_view(String::from("settings"), &data));
    assert!(!KeymapState::can_view(String::from("game"), &data));
}

#[test]
fn can_view_works_with_a_boxed_filter() {
    let filter: Box<dyn for<'a> Fn(&'a u8) -> bool + Send + Sync> = Box::new(|client| *client == 1);
    let data = KeymapGlobalData::new(filter);
    assert!(KeymapState::can_view(1u8, &data));
    assert!(!KeymapState::can_view(2u8, &data));
}

struct Host {
    keymap: KeymapState,
}

impl KeymapHandler for Host {
    fn keymap_state(&mut self) -> &mut KeymapState {
        &mut self.keymap
    }
}

#[test]
fn handler_gives_access_to_the_state() {
    let mut host = Host { keymap: empty_state() };
    let keyboards = keyboards(&[(7, 2)]);
    get_keymap(host.keymap_state(), 1, Some(7), &keyboards);
    assert_eq!(host.keymap_state().len(), 1);
    assert_eq!(host.keymap_state().refresh(&self::keyboards(&[(7, 1)])), vec![group(1, 1)]);
}

#[test]
fn keyboards_report_the_active_layout() {
    let mut keyboards = Keyboards::new();
    assert_eq!(keyboards.active_layout(KeyboardId(7)), None);
    keyboards.insert(KeyboardId(7), Layout(2));
    keyboards.insert(KeyboardId(8), Layout(0));
    assert_eq!(keyboards.active_layout(KeyboardId(7)), Some(Layout(2)));
    assert_eq!(keyboards.active_layout(KeyboardId(8)), Some(Layout(0)));
    assert_eq!(keyboards.active_layout(KeyboardId(9)), None);
    keyboards.insert(KeyboardId(7), Layout(5));
    assert_eq!(keyboards.active_layout(KeyboardId(7)), Some(Layout(5)));
    keyboards.remove(KeyboardId(7));
    assert_eq!(keyboards.active_layout(KeyboardId(7)), None);
    assert_eq!(keyboards.active_layout(KeyboardId(8)), Some(Layout(0)));
    keyboards.remove(KeyboardId(7));
    assert_eq!(keyboards.active_layout(KeyboardId(7)), None);
}

#[test]
fn session_of_one_client() {
    let allowed = KeymapGlobalData::new(|client: &u32| *client == 1);
    assert!(KeymapState::can_view(1u32, &allowed));

    let mut state = empty_state();
    let mut keyboards = keyboards(&[(7, 2)]);
    let reply = get_keymap(&mut state, 1, Some(7), &keyboards);
    assert_eq!(reply.event, Some(group(1, 2)));

    keyboards.insert(KeyboardId(7), Layout(0));
    assert_eq!(state.refresh(&keyboards), vec![group(1, 0)]);

    let command =
        KeymapState::keymap_request(&reply.data, KeymapRequest::SetGroup { group: 1 }).unwrap();
    assert_eq!(command, SetLayout { keyboard: KeyboardId(7), layout: Layout(1) });
    assert_eq!(state.binding(BindingId(1)), Some(bound(1, 7, Some(0))));

    keyboards.insert(command.keyboard, command.layout);
    let events = state.refresh(&keyboards);
    assert!(events.len() <= 1);
    assert_eq!(events, vec![group(1, 1)]);
    assert_eq!(state.binding(BindingId(1)), Some(bound(1, 7, Some(1))));
    assert_eq!(state.refresh(&keyboards), vec![]);

    state.destroyed(BindingId(1));
    assert!(state.is_empty());
}
