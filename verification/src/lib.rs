use vstd::prelude::*;

pub mod bar;
pub mod geometry;
pub mod keys;
pub mod layout;
pub mod recompile;
pub mod stack;
pub mod tags;
pub mod wm;

pub use bar::BarPosition;
pub use bar::BarScheduler;
pub use bar::ColorScheme;
pub use bar::SegmentSource;
pub use bar::StatusSegment;
pub use geometry::GapConfig;
pub use geometry::Rect;
pub use keys::ActionArg;
pub use keys::KeyAction;
pub use keys::KeyBinding;
pub use layout::tile;
pub use recompile::CompileResult;
pub use recompile::Recompiler;
pub use stack::FocusStack;
pub use tags::TAG_COUNT;
pub use tags::TagSet;
pub use wm::Core;
pub use wm::CoreRequest;
pub use wm::DisplayEvent;
pub use wm::ManagedClient;
pub use wm::Monitor;
pub use wm::RunState;

verus! {

// A tiling window manager's core, stated and proved: the management of
// clients, tags and focus (`wm`), the master-stack layout (`layout`), the
// keybinding table (`keys`), the status-bar scheduler (`bar`) and the
// rebuild collaborator's decisions (`recompile`). Everything that talks
// to the display server, the file system or child processes stays with
// the caller: the core consumes plain events and returns plain requests.

} // verus!
