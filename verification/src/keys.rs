use vstd::prelude::*;

verus! {

/// The argument carried by a keybinding: nothing, an integer, one program
/// name, or a full argv. An argv is executed as given, never through a
/// shell, so its words are taken literally.
pub enum ActionArg {
    NoArg,
    IntArg(i64),
    StrArg(String),
    ArrayArg(Vec<String>),
}

/// What a key press does.
#[derive(Clone, Copy, Debug, PartialEq, Eq, Structural)]
pub enum KeyAction {
    /// Launch an external program, detached.
    Spawn,
    /// Ask the focused client to close.
    KillClient,
    /// Flip the monitor's gap toggle.
    ToggleGaps,
    /// Move focus through the focus stack by the argument.
    FocusStack,
    /// Show exactly the tag given by the argument.
    ViewTag,
    /// Give the focused client exactly the tag given by the argument.
    MoveToTag,
    /// Leave the manager.
    Quit,
    /// Rebuild the configured binary and restart into it.
    Recompile,
}

/// One keybinding: a modifier mask and keycode mapped to an action with
/// its argument. The table is built once at startup and only read
/// afterwards.
pub struct KeyBinding {
    pub mods: u16,
    pub keycode: u8,
    pub action: KeyAction,
    pub arg: ActionArg,
}

/// True when binding `b` is for the pressed combination.
pub open spec fn binding_matches(b: KeyBinding, mods: u16, keycode: u8) -> bool {
    b.mods == mods && b.keycode == keycode
}

/// The first binding for the pressed modifier mask and keycode, if any.
/// Unmatched combinations are reported as such and ignored by the caller.
pub fn lookup(bindings: &Vec<KeyBinding>, mods: u16, keycode: u8) -> (r: Option<usize>)
    ensures
        match r {
            Some(i) => i < bindings@.len() && binding_matches(bindings@[i as int], mods, keycode)
                && forall|j: int|
                0 <= j < i ==> !binding_matches(#[trigger] bindings@[j], mods, keycode),
            None => forall|j: int|
                0 <= j < bindings@.len() ==> !binding_matches(
                    #[trigger] bindings@[j],
                    mods,
                    keycode,
                ),
        },
{
    let mut i: usize = 0;
    while i < bindings.len()
        invariant
            i <= bindings@.len(),
            forall|j: int| 0 <= j < i ==> !binding_matches(#[trigger] bindings@[j], mods, keycode),
        decreases bindings@.len() - i,
    {
        if bindings[i].mods == mods && bindings[i].keycode == keycode {
            return Some(i);
        }
        i = i + 1;
    }
    None
}

} // verus!
