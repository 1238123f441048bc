use vstd::prelude::*;

verus! {

// The property panel model: the host frontend shows one property per
// input mode and reports activations back by property key and state.
// Here a property is plain data; the host glue owns the rendering.

pub const IBusPropState_PROP_STATE_UNCHECKED: u32 = 0;

pub const IBusPropState_PROP_STATE_CHECKED: u32 = 1;

pub const IBusPropState_PROP_STATE_INCONSISTENT: u32 = 2;

pub const IBusPropType_PROP_TYPE_NORMAL: u32 = 0;

pub const IBusPropType_PROP_TYPE_TOGGLE: u32 = 1;

pub const IBusPropType_PROP_TYPE_RADIO: u32 = 2;

pub const IBusPropType_PROP_TYPE_MENU: u32 = 3;

pub const IBusPropType_PROP_TYPE_SEPARATOR: u32 = 4;

/// Marker for per-property private data the host may attach; it carries
/// nothing here.
pub struct IBusPropertyPrivate {}

/// One entry of the property panel.
pub struct IBusProperty {
    pub key: String,
    pub prop_type: u32,
    pub label: String,
    pub icon: String,
    pub tooltip: String,
    pub sensitive: bool,
    pub visible: bool,
    pub state: u32,
}

impl IBusProperty {
    /// A fresh property with the given key, type and state, visible and
    /// sensitive, with empty texts.
    pub fn new(key: String, prop_type: u32, state: u32) -> (r: IBusProperty)
        ensures
            r.key@ == key@,
            r.prop_type == prop_type,
            r.state == state,
            r.sensitive,
            r.visible,
            r.label@.len() == 0,
            r.icon@.len() == 0,
            r.tooltip@.len() == 0,
    {
        IBusProperty {
            key,
            prop_type,
            label: String::new(),
            icon: String::new(),
            tooltip: String::new(),
            sensitive: true,
            visible: true,
            state,
        }
    }

    /// Flip a toggle property's state between checked and unchecked.
    pub fn toggle(&mut self)
        ensures
            final(self).key@ == old(self).key@,
            final(self).prop_type == old(self).prop_type,
            old(self).state == IBusPropState_PROP_STATE_CHECKED ==> final(self).state
                == IBusPropState_PROP_STATE_UNCHECKED,
            old(self).state != IBusPropState_PROP_STATE_CHECKED ==> final(self).state
                == IBusPropState_PROP_STATE_CHECKED,
    {
        if self.state == IBusPropState_PROP_STATE_CHECKED {
            self.state = IBusPropState_PROP_STATE_UNCHECKED;
        } else {
            self.state = IBusPropState_PROP_STATE_CHECKED;
        }
    }
}

} // verus!
