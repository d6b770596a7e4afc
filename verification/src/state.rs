use vstd::prelude::*;
use crate::models::ModState;
use crate::table::ModTable;

verus! {

/// The local record of pulled mods, keyed by mod identifier.
pub type StateTable = ModTable<ModState>;

/// `s` with its `loaded` flag replaced.
pub open spec fn with_loaded(s: ModState, loaded: bool) -> ModState {
    ModState { version: s.version, is_explicit: s.is_explicit, loaded }
}

/// `s` with its `is_explicit` flag replaced.
pub open spec fn with_explicit(s: ModState, is_explicit: bool) -> ModState {
    ModState { version: s.version, is_explicit, loaded: s.loaded }
}

/// Sets the `loaded` flag of `mod_id`, if the state records it.
pub fn set_loaded(state: &mut StateTable, mod_id: &str, loaded: bool)
    ensures
        old(state)@.dom().contains(mod_id@) ==> final(state)@ == old(state)@.insert(
            mod_id@,
            with_loaded(old(state)@[mod_id@], loaded),
        ),
        !old(state)@.dom().contains(mod_id@) ==> final(state)@ == old(state)@,
        final(state).key_seq() == old(state).key_seq(),
{
    match state.find(mod_id) {
        Some(i) => {
            let key = state.key_at(i).clone();
            let old_value = state.value_at(i);
            let value = ModState {
                version: old_value.version.clone(),
                is_explicit: old_value.is_explicit,
                loaded,
            };
            state.insert(key, value);
        },
        None => {},
    }
}

/// Sets the `is_explicit` flag of `mod_id`, if the state records it.
pub fn set_explicit(state: &mut StateTable, mod_id: &str, is_explicit: bool)
    ensures
        old(state)@.dom().contains(mod_id@) ==> final(state)@ == old(state)@.insert(
            mod_id@,
            with_explicit(old(state)@[mod_id@], is_explicit),
        ),
        !old(state)@.dom().contains(mod_id@) ==> final(state)@ == old(state)@,
        final(state).key_seq() == old(state).key_seq(),
{
    match state.find(mod_id) {
        Some(i) => {
            let key = state.key_at(i).clone();
            let old_value = state.value_at(i);
            let value = ModState {
                version: old_value.version.clone(),
                is_explicit,
                loaded: old_value.loaded,
            };
            state.insert(key, value);
        },
        None => {},
    }
}

} // verus!
