use vstd::prelude::*;

use crate::geometry::GapConfig;
use crate::geometry::Rect;
use crate::stack::FocusStack;
use crate::stack::rotated_backward;
use crate::stack::rotated_forward;
use crate::keys::ActionArg;
use crate::keys::KeyAction;
use crate::keys::KeyBinding;
use crate::keys::binding_matches;
use crate::keys::lookup;
use crate::tags::TAG_COUNT;
use crate::tags::TagSet;

verus! {

// The window-management core: the single authority over managed clients,
// tag visibility and focus order. Every public operation requires and
// re-establishes `Core::wf`, so the stated invariants hold in every
// reachable state: client tag sets are never empty, the visible tag set is
// never empty, and the focus stack holds a handle at most once and only
// while a visible client with that handle is managed.

/// The management record of one mapped top-level window. The handle is an
/// opaque identifier issued by the display server; it is only compared and
/// stored, never interpreted.
#[derive(Clone, Copy, Debug, PartialEq, Eq, Structural)]
pub struct ManagedClient {
    pub handle: u32,
    pub tags: TagSet,
    pub geometry: Rect,
    pub saved_geometry: Rect,
    pub border_width: u32,
    pub floating: bool,
    pub urgent: bool,
    pub fixed_size: bool,
}

/// Lifecycle of the manager process itself.
#[derive(Clone, Copy, Debug, PartialEq, Eq, Structural)]
pub enum RunState {
    Running,
    /// Shutting down for good.
    Quitting,
    /// Shutting down so that the caller can replace the process image with
    /// a freshly built binary; managed state is re-adopted from the
    /// display server by the new process.
    Restarting,
}

/// One physical output: its usable rectangle, which tags it shows, its
/// clients in insertion (stacking) order, its focus history and its layout
/// parameters.
pub struct Monitor {
    pub usable: Rect,
    pub visible: TagSet,
    pub order: Vec<u32>,
    pub focus: FocusStack,
    pub gaps: GapConfig,
    pub master_permille: u32,
}

/// The whole window-management state.
pub struct Core {
    pub clients: Vec<ManagedClient>,
    pub monitor: Monitor,
    pub state: RunState,
}

/// True when some client with handle `h` is managed.
pub open spec fn has_client(cs: Seq<ManagedClient>, h: u32) -> bool {
    exists|i: int| 0 <= i < cs.len() && cs[i].handle == h
}

/// The managed client with handle `h` (meaningful under `has_client` and
/// duplicate-free handles).
pub open spec fn client_of(cs: Seq<ManagedClient>, h: u32) -> ManagedClient {
    cs[choose|i: int| 0 <= i < cs.len() && cs[i].handle == h]
}

/// True when a client with handle `h` is managed and shown under the
/// visible tag set `vis`.
pub open spec fn visible_client(cs: Seq<ManagedClient>, vis: TagSet, h: u32) -> bool {
    has_client(cs, h) && client_of(cs, h).tags.bits & vis.bits != 0
}

/// The handles of `order` whose clients are visible under `vis`, in
/// unchanged order.
pub open spec fn visible_handles(cs: Seq<ManagedClient>, vis: TagSet, order: Seq<u32>) -> Seq<u32> {
    filter_by(order, |x: u32| visible_client(cs, vis, x))
}

/// The handles of `order` whose clients are visible under `vis` and not
/// floating: the clients the tiling layout places.
pub open spec fn tiled_handles(cs: Seq<ManagedClient>, vis: TagSet, order: Seq<u32>) -> Seq<u32> {
    filter_by(order, |x: u32| visible_client(cs, vis, x) && !client_of(cs, x).floating)
}

/// The subsequence of `s` whose elements satisfy `p`, in unchanged order.
pub open spec fn filter_by(s: Seq<u32>, p: spec_fn(u32) -> bool) -> Seq<u32>
    decreases s.len(),
{
    if s.len() == 0 {
        Seq::empty()
    } else if p(s[0]) {
        seq![s[0]] + filter_by(s.drop_first(), p)
    } else {
        filter_by(s.drop_first(), p)
    }
}

/// `filter_by` distributes over concatenation.
proof fn lemma_filter_by_append(a: Seq<u32>, b: Seq<u32>, p: spec_fn(u32) -> bool)
    ensures
        filter_by(a + b, p) == filter_by(a, p) + filter_by(b, p),
    decreases a.len(),
{
    if a.len() == 0 {
        assert(a + b =~= b);
        assert(filter_by(a, p) + filter_by(b, p) =~= filter_by(b, p));
    } else {
        lemma_filter_by_append(a.drop_first(), b, p);
        assert((a + b).drop_first() =~= a.drop_first() + b);
        if p(a[0]) {
            assert(seq![a[0]] + (filter_by(a.drop_first(), p) + filter_by(b, p)) =~= (seq![a[0]]
                + filter_by(a.drop_first(), p)) + filter_by(b, p));
        }
    }
}

/// A filtered sequence holds exactly the elements of `s` that satisfy `p`
/// and stays duplicate-free.
proof fn lemma_filter_by_properties(s: Seq<u32>, p: spec_fn(u32) -> bool)
    ensures
        forall|x: u32| #[trigger] filter_by(s, p).contains(x) ==> s.contains(x) && p(x),
        forall|x: u32| s.contains(x) && p(x) ==> #[trigger] filter_by(s, p).contains(x),
        s.no_duplicates() ==> filter_by(s, p).no_duplicates(),
        filter_by(s, p).len() <= s.len(),
    decreases s.len(),
{
    let f = filter_by(s, p);
    if s.len() == 0 {
        assert(forall|x: u32| !f.contains(x) && !s.contains(x));
    } else {
        let rest = s.drop_first();
        lemma_filter_by_properties(rest, p);
        let fr = filter_by(rest, p);
        assert forall|x: u32| #[trigger] f.contains(x) implies s.contains(x) && p(x) by {
            let k = choose|k: int| 0 <= k < f.len() && f[k] == x;
            if p(s[0]) && k == 0 {
                assert(s[0] == x && s.contains(x));
            } else {
                if p(s[0]) {
                    assert(f[k] == fr[k - 1]);
                    assert(fr.contains(x));
                } else {
                    assert(f == fr);
                    assert(fr.contains(x));
                }
                assert(rest.contains(x) && p(x));
                let m = choose|m: int| 0 <= m < rest.len() && rest[m] == x;
                assert(rest[m] == s[m + 1]);
                assert(s.contains(x));
            }
        }
        assert forall|x: u32| s.contains(x) && p(x) implies #[trigger] f.contains(x) by {
            let k = choose|k: int| 0 <= k < s.len() && s[k] == x;
            if k == 0 {
                assert(p(s[0]));
                assert(f[0] == x);
            } else {
                assert(rest[k - 1] == s[k]);
                assert(rest.contains(x));
                assert(fr.contains(x));
                let m = choose|m: int| 0 <= m < fr.len() && fr[m] == x;
                if p(s[0]) {
                    assert(f[m + 1] == x);
                } else {
                    assert(f == fr);
                }
            }
        }
        if s.no_duplicates() {
            assert(rest.no_duplicates()) by {
                assert forall|i: int, j: int|
                    0 <= i < j < rest.len() implies rest[i] != rest[j] by {
                    assert(rest[i] == s[i + 1] && rest[j] == s[j + 1]);
                }
            }
            if p(s[0]) {
                assert(!rest.contains(s[0])) by {
                    if rest.contains(s[0]) {
                        let m = choose|m: int| 0 <= m < rest.len() && rest[m] == s[0];
                        assert(s[m + 1] == s[0]);
                    }
                }
                assert(!filter_by(rest, p).contains(s[0]));
                assert forall|i: int, j: int| 0 <= i < j < f.len() implies f[i] != f[j] by {
                    if i == 0 {
                        assert(filter_by(rest, p)[j - 1] == f[j]);
                        assert(filter_by(rest, p).contains(f[j]));
                    } else {
                        assert(f[i] == filter_by(rest, p)[i - 1] && f[j] == filter_by(rest, p)[j
                            - 1]);
                    }
                }
            }
        }
    }
}

impl Core {
    /// No two managed clients share a handle.
    pub open spec fn clients_nodup(self) -> bool {
        forall|i: int, j: int|
            0 <= i < j < self.clients@.len() ==> self.clients@[i].handle != self.clients@[j].handle
    }

    /// Every managed client belongs to at least one tag.
    pub open spec fn tags_nonempty(self) -> bool {
        forall|i: int| 0 <= i < self.clients@.len() ==> (#[trigger] self.clients@[i]).tags.bits != 0
    }

    /// The monitor's client list holds exactly the managed handles, each
    /// once.
    pub open spec fn order_inv(self) -> bool {
        &&& self.monitor.order@.no_duplicates()
        &&& forall|h: u32| #[trigger]
            self.monitor.order@.contains(h) ==> has_client(self.clients@, h)
        &&& forall|i: int|
            0 <= i < self.clients@.len() ==> self.monitor.order@.contains(
                (#[trigger] self.clients@[i]).handle,
            )
    }

    /// A handle appears in the focus stack at most once, and only while a
    /// client with that handle is managed and visible under the monitor's
    /// current tag set.
    pub open spec fn focus_inv(self) -> bool {
        &&& self.monitor.focus.order@.no_duplicates()
        &&& forall|h: u32| #[trigger]
            self.monitor.focus.order@.contains(h) ==> visible_client(
                self.clients@,
                self.monitor.visible,
                h,
            ) && self.monitor.order@.contains(h)
    }

    /// Bounds that keep the layout arithmetic inside machine integers.
    pub open spec fn bounds_inv(self) -> bool {
        &&& self.monitor.master_permille <= 1000
        &&& self.monitor.usable.x + self.monitor.usable.width <= i32::MAX
        &&& self.monitor.usable.y + self.monitor.usable.height <= i32::MAX
        &&& self.clients@.len() <= u32::MAX
    }

    /// Well-formedness: holds of the initial state and is preserved by
    /// every operation, so it holds in every reachable state.
    pub open spec fn wf(self) -> bool {
        &&& self.clients_nodup()
        &&& self.tags_nonempty()
        &&& self.monitor.visible.bits != 0
        &&& self.order_inv()
        &&& self.focus_inv()
        &&& self.bounds_inv()
    }

    /// The focused client: the head of the focus stack, if any.
    pub open spec fn spec_focused(self) -> Option<u32> {
        if self.monitor.focus.order@.len() == 0 {
            None
        } else {
            Some(self.monitor.focus.order@[0])
        }
    }

    /// A fresh core for one monitor, showing the first tag, with no
    /// clients yet.
    pub fn new(screen: Rect, master_permille: u32, gaps: GapConfig) -> (r: Core)
        requires
            master_permille <= 1000,
            screen.x + screen.width <= i32::MAX,
            screen.y + screen.height <= i32::MAX,
        ensures
            r.wf(),
            r.state == RunState::Running,
            r.clients@.len() == 0,
            r.monitor.order@.len() == 0,
            r.monitor.focus.order@.len() == 0,
            r.monitor.visible.bits == 1u32,
            r.monitor.usable == screen,
            r.monitor.gaps == gaps,
            r.monitor.master_permille == master_permille,
    {
        let visible = TagSet::single(0);
        proof {
            assert(1u32 << 0u32 == 1u32) by (bit_vector);
        }
        Core {
            clients: Vec::new(),
            monitor: Monitor {
                usable: screen,
                visible,
                order: Vec::new(),
                focus: FocusStack::new(),
                gaps,
                master_permille,
            },
            state: RunState::Running,
        }
    }

    /// Index of the managed client with handle `h`, if any.
    pub fn find_client(&self, h: u32) -> (r: Option<usize>)
        ensures
            match r {
                Some(i) => i < self.clients@.len() && self.clients@[i as int].handle == h,
                None => !has_client(self.clients@, h),
            },
    {
        let mut i: usize = 0;
        while i < self.clients.len()
            invariant
                i <= self.clients@.len(),
                forall|j: int| 0 <= j < i ==> self.clients@[j].handle != h,
            decreases self.clients@.len() - i,
        {
            if self.clients[i].handle == h {
                return Some(i);
            }
            i = i + 1;
        }
        proof {
            if has_client(self.clients@, h) {
                let k = choose|k: int| 0 <= k < self.clients@.len() && self.clients@[k].handle == h;
                assert(self.clients@[k].handle != h);
            }
        }
        None
    }

    /// The focused client's handle, if any.
    pub fn focused(&self) -> (r: Option<u32>)
        ensures
            r == self.spec_focused(),
    {
        self.monitor.focus.head()
    }

    /// Adopt a new top-level window: create its management record with the
    /// currently visible tag set, put it at the head of the client list
    /// and of the focus stack, and give it focus. A handle that is already
    /// managed is left exactly as it was.
    pub fn manage(&mut self, h: u32, geometry: Rect, floating: bool, border_width: u32) -> (managed:
        bool)
        requires
            old(self).wf(),
            old(self).clients@.len() < u32::MAX,
        ensures
            final(self).wf(),
            managed == !has_client(old(self).clients@, h),
            !managed ==> *final(self) == *old(self),
            managed ==> final(self).clients@ == old(self).clients@.push(
                ManagedClient {
                    handle: h,
                    tags: old(self).monitor.visible,
                    geometry,
                    saved_geometry: geometry,
                    border_width,
                    floating,
                    urgent: false,
                    fixed_size: false,
                },
            ),
            managed ==> final(self).monitor.order@ == seq![h] + old(self).monitor.order@,
            managed ==> final(self).monitor.focus.order@ == seq![h] + old(self).monitor.focus.order@,
            managed ==> final(self).spec_focused() == Some(h),
            final(self).monitor.visible == old(self).monitor.visible,
            final(self).monitor.usable == old(self).monitor.usable,
            final(self).monitor.gaps == old(self).monitor.gaps,
            final(self).monitor.master_permille == old(self).monitor.master_permille,
            final(self).state == old(self).state,
    {
        match self.find_client(h) {
            Some(_) => false,
            None => {
                let c = ManagedClient {
                    handle: h,
                    tags: self.monitor.visible,
                    geometry,
                    saved_geometry: geometry,
                    border_width,
                    floating,
                    urgent: false,
                    fixed_size: false,
                };
                proof {
                    if self.monitor.order@.contains(h) {
                        assert(has_client(self.clients@, h));
                    }
                    if self.monitor.focus.order@.contains(h) {
                        assert(visible_client(self.clients@, self.monitor.visible, h));
                    }
                }
                self.clients.push(c);
                self.monitor.order.insert(0, h);
                self.monitor.focus.push_front(h);
                proof {
                    let oldc = old(self).clients@;
                    let newc = self.clients@;
                    assert(newc == oldc.push(c));
                    assert(newc.len() == oldc.len() + 1);
                    assert(newc[oldc.len() as int] == c);
                    assert(newc[oldc.len() as int].handle == h);
                    assert(has_client(newc, h));
                    assert(self.monitor.order@ =~= seq![h] + old(self).monitor.order@);
                    assert forall|x: u32|
                        self.monitor.order@.contains(x) implies has_client(newc, x) by {
                        if x == h {
                            assert(newc[newc.len() - 1].handle == h);
                        } else {
                            let m = choose|m: int|
                                0 <= m < self.monitor.order@.len() && self.monitor.order@[m] == x;
                            assert(m >= 1);
                            assert(old(self).monitor.order@[m - 1] == x);
                            assert(old(self).monitor.order@.contains(x));
                            assert(has_client(old(self).clients@, x));
                            let i = choose|i: int| 0 <= i < oldc.len() && oldc[i].handle == x;
                            assert(newc[i].handle == x);
                            assert(has_client(newc, x));
                        }
                    }
                    assert forall|i: int|
                        0 <= i < newc.len() implies self.monitor.order@.contains(
                        (#[trigger] newc[i]).handle,
                    ) by {
                        if i < oldc.len() {
                            assert(old(self).monitor.order@.contains(oldc[i].handle));
                            let m = choose|m: int|
                                0 <= m < old(self).monitor.order@.len() && old(self).monitor.order@[m] == oldc[i].handle;
                            assert(self.monitor.order@[m + 1] == oldc[i].handle);
                        } else {
                            assert(self.monitor.order@[0] == h);
                        }
                    }
                    assert(self.monitor.order@.no_duplicates()) by {
                        assert forall|i: int, j: int|
                            0 <= i < j < self.monitor.order@.len() implies self.monitor.order@[i]
                            != self.monitor.order@[j] by {
                            if i == 0 {
                                assert(old(self).monitor.order@[j - 1] == self.monitor.order@[j]);
                                assert(old(self).monitor.order@.contains(self.monitor.order@[j]));
                                if self.monitor.order@[j] == h {
                                    assert(has_client(oldc, h));
                                }
                            }
                        }
                    }
                    assert forall|p: int| 0 <= p < oldc.len() implies (#[trigger] oldc[p]).handle
                        != c.handle by {
                        if oldc[p].handle == h {
                            assert(has_client(oldc, h));
                        }
                    }
                    assert forall|p: int, q: int|
                        0 <= p < q < newc.len() implies newc[p].handle != newc[q].handle by {
                        if q == oldc.len() {
                            assert(newc[p] == oldc[p] && newc[q] == c);
                        } else {
                            assert(newc[p] == oldc[p] && newc[q] == oldc[q]);
                        }
                    }
                    let vb = self.monitor.visible.bits;
                    assert(vb & vb == vb) by (bit_vector);
                    assert forall|x: u32|
                        self.monitor.focus.order@.contains(x) implies visible_client(
                        newc,
                        self.monitor.visible,
                        x,
                    ) && self.monitor.order@.contains(x) by {
                        if x == h {
                            let i = newc.len() - 1;
                            assert(newc[i].handle == h);
                            lemma_client_of_unique(newc, i, h);
                            assert(client_of(newc, h) == c);
                            assert(c.tags.bits & self.monitor.visible.bits == vb);
                            assert(self.monitor.order@[0] == h);
                        } else {
                            let m = choose|m: int|
                                0 <= m < self.monitor.focus.order@.len()
                                    && self.monitor.focus.order@[m] == x;
                            assert(m >= 1);
                            assert(old(self).monitor.focus.order@[m - 1] == x);
                            assert(old(self).monitor.focus.order@.contains(x));
                            assert(visible_client(old(self).clients@, old(self).monitor.visible, x));
                            assert(visible_client(oldc, old(self).monitor.visible, x));
                            assert(old(self).monitor.visible == self.monitor.visible);
                            lemma_visible_client_push(oldc, c, self.monitor.visible, x);
                            assert(old(self).monitor.order@.contains(x));
                            let q = choose|q: int|
                                0 <= q < old(self).monitor.order@.len() && old(self).monitor.order@[q] == x;
                            assert(self.monitor.order@[q + 1] == x);
                        }
                    }
                }
                true
            },
        }
    }

    /// Forget a window that was unmapped or destroyed: drop its record and
    /// remove it from the client list and the focus stack. If it held
    /// focus, the next entry of the focus stack is promoted (or focus is
    /// cleared when none is left). An unmanaged handle is ignored.
    pub fn unmanage(&mut self, h: u32) -> (removed: bool)
        requires
            old(self).wf(),
        ensures
            final(self).wf(),
            removed == has_client(old(self).clients@, h),
            !removed ==> *final(self) == *old(self),
            removed ==> exists|i: int|
                0 <= i < old(self).clients@.len() && old(self).clients@[i].handle == h
                    && final(self).clients@ == old(self).clients@.remove(i),
            !has_client(final(self).clients@, h),
            !final(self).monitor.order@.contains(h),
            !final(self).monitor.focus.order@.contains(h),
            old(self).monitor.focus.order@.len() > 0 && old(self).monitor.focus.order@[0] == h
                ==> final(self).monitor.focus.order@ == old(self).monitor.focus.order@.subrange(
                1,
                old(self).monitor.focus.order@.len() as int,
            ),
            forall|x: u32|
                x != h ==> #[trigger] final(self).monitor.focus.order@.contains(x) == old(self).monitor.focus.order@.contains(x),
            final(self).monitor.visible == old(self).monitor.visible,
            final(self).monitor.usable == old(self).monitor.usable,
            final(self).monitor.gaps == old(self).monitor.gaps,
            final(self).monitor.master_permille == old(self).monitor.master_permille,
            final(self).state == old(self).state,
    {
        match self.find_client(h) {
            None => {
                proof {
                    if self.monitor.order@.contains(h) {
                        assert(has_client(self.clients@, h));
                    }
                    if self.monitor.focus.order@.contains(h) {
                        assert(visible_client(self.clients@, self.monitor.visible, h));
                    }
                }
                false
            },
            Some(i) => {
                let ghost oldc = self.clients@;
                let ghost oldorder = self.monitor.order@;
                let ghost oldfocus = self.monitor.focus.order@;
                self.clients.remove(i);
                remove_handle(&mut self.monitor.order, h);
                self.monitor.focus.remove(h);
                proof {
                    let newc = self.clients@;
                    assert(newc == oldc.remove(i as int));
                    lemma_client_remove(oldc, i as int);
                    assert(!self.monitor.order@.contains(h));
                    assert forall|x: u32|
                        #[trigger] self.monitor.order@.contains(x) implies has_client(newc, x) by {
                        assert(oldorder.contains(x));
                        assert(has_client(oldc, x));
                        assert(x != h);
                    }
                    assert forall|p: int|
                        0 <= p < newc.len() implies self.monitor.order@.contains(
                        (#[trigger] newc[p]).handle,
                    ) by {
                        let q: int = if p < i { p } else { p + 1 };
                        assert(newc[p] == oldc[q]);
                        assert(oldorder.contains(oldc[q].handle));
                        assert(oldc[q].handle != oldc[i as int].handle);
                    }
                    assert forall|x: u32|
                        #[trigger] self.monitor.focus.order@.contains(x) implies visible_client(
                        newc,
                        self.monitor.visible,
                        x,
                    ) && self.monitor.order@.contains(x) by {
                        assert(oldfocus.contains(x));
                        assert(visible_client(oldc, old(self).monitor.visible, x));
                        assert(x != h);
                        assert(has_client(oldc, x));
                        assert(oldorder.contains(x));
                    }
                    assert forall|x: u32|
                        x != h implies #[trigger] self.monitor.focus.order@.contains(x)
                        == oldfocus.contains(x) by {
                        if oldfocus.contains(h) {
                            let j = choose|j: int|
                                0 <= j < oldfocus.len() && oldfocus[j] == h
                                    && self.monitor.focus.order@ == oldfocus.remove(j);
                            if oldfocus.contains(x) {
                                let q = choose|q: int| 0 <= q < oldfocus.len() && oldfocus[q] == x;
                                if q < j {
                                    assert(self.monitor.focus.order@[q] == x);
                                } else {
                                    assert(q > j);
                                    assert(self.monitor.focus.order@[q - 1] == x);
                                }
                            }
                        }
                    }
                }
                true
            },
        }
    }

    /// Move focus one step through the focus stack (positive delta:
    /// forward, negative: backward, wrapping around). With fewer than two
    /// entries nothing changes.
    pub fn focus_cycle(&mut self, delta: i32)
        requires
            old(self).wf(),
        ensures
            final(self).wf(),
            delta > 0 ==> final(self).monitor.focus.order@ == rotated_forward(
                old(self).monitor.focus.order@,
            ),
            delta < 0 ==> final(self).monitor.focus.order@ == rotated_backward(
                old(self).monitor.focus.order@,
            ),
            delta == 0 ==> final(self).monitor.focus.order@ == old(self).monitor.focus.order@,
            final(self).clients@ == old(self).clients@,
            final(self).monitor.order@ == old(self).monitor.order@,
            final(self).monitor.visible == old(self).monitor.visible,
            final(self).monitor.usable == old(self).monitor.usable,
            final(self).monitor.gaps == old(self).monitor.gaps,
            final(self).monitor.master_permille == old(self).monitor.master_permille,
            final(self).state == old(self).state,
    {
        self.monitor.focus.cycle(delta);
    }

    /// Flip the monitor's gap toggle; nothing else changes.
    pub fn toggle_gaps(&mut self)
        requires
            old(self).wf(),
        ensures
            final(self).wf(),
            final(self).monitor.gaps.enabled == !old(self).monitor.gaps.enabled,
            final(self).monitor.gaps.inner_horizontal == old(self).monitor.gaps.inner_horizontal,
            final(self).monitor.gaps.inner_vertical == old(self).monitor.gaps.inner_vertical,
            final(self).monitor.gaps.outer_horizontal == old(self).monitor.gaps.outer_horizontal,
            final(self).monitor.gaps.outer_vertical == old(self).monitor.gaps.outer_vertical,
            final(self).clients@ == old(self).clients@,
            final(self).monitor.order@ == old(self).monitor.order@,
            final(self).monitor.focus.order@ == old(self).monitor.focus.order@,
            final(self).monitor.visible == old(self).monitor.visible,
            final(self).monitor.usable == old(self).monitor.usable,
            final(self).monitor.master_permille == old(self).monitor.master_permille,
            final(self).state == old(self).state,
    {
        self.monitor.gaps.enabled = !self.monitor.gaps.enabled;
    }

    /// Turn one display-server event into state changes and requests.
    /// Events are handled strictly one at a time, in arrival order, and
    /// no single event can abort the loop: unmatched key presses and
    /// events for windows that are not (or no longer) managed are
    /// ignored. Windows that bypass the manager (override-redirect) are
    /// never managed.
    pub fn handle_event(&mut self, ev: &DisplayEvent, bindings: &Vec<KeyBinding>) -> (r: Vec<
        CoreRequest,
    >)
        requires
            old(self).wf(),
            old(self).clients@.len() < u32::MAX,
        ensures
            final(self).wf(),
            ((*ev) matches DisplayEvent::MapRequest { override_redirect, .. } ==> (override_redirect
                ==> *final(self) == *old(self) && r@.len() == 0)),
            ((*ev) matches DisplayEvent::MapRequest { window, geometry, override_redirect, border_width }
                ==> (!override_redirect && !has_client(old(self).clients@, window) ==> final(self).clients@ == old(self).clients@.push(
                (ManagedClient {
                    handle: window,
                    tags: old(self).monitor.visible,
                    geometry,
                    saved_geometry: geometry,
                    border_width,
                    floating: false,
                    urgent: false,
                    fixed_size: false,
                }),
            ) && final(self).spec_focused() == Some(window) && final(self).monitor.focus.order@
                == seq![window] + old(self).monitor.focus.order@ && r@ == seq![
                CoreRequest::ShowWindow(window),
                CoreRequest::Relayout,
            ])),
            ((*ev) matches DisplayEvent::MapRequest { window, override_redirect, .. } ==> (
            !override_redirect && has_client(old(self).clients@, window) ==> *final(self) == *old(self) && r@.len() == 0)),
            ((*ev) matches DisplayEvent::UnmapNotify { window } ==> !has_client(
                final(self).clients@,
                window,
            ) && !final(self).monitor.focus.order@.contains(window) && (old(self).monitor.focus.order@.len() > 0 && old(self).monitor.focus.order@[0] == window
                ==> final(self).monitor.focus.order@ == old(self).monitor.focus.order@.subrange(
                1,
                old(self).monitor.focus.order@.len() as int,
            ))),
            ((*ev) matches DisplayEvent::DestroyNotify { window } ==> !has_client(
                final(self).clients@,
                window,
            ) && !final(self).monitor.focus.order@.contains(window) && (old(self).monitor.focus.order@.len() > 0 && old(self).monitor.focus.order@[0] == window
                ==> final(self).monitor.focus.order@ == old(self).monitor.focus.order@.subrange(
                1,
                old(self).monitor.focus.order@.len() as int,
            ))),
            ((*ev) matches DisplayEvent::ConfigureRequest { window, geometry, border_width } ==> (
            has_client(old(self).clients@, window) && client_of(old(self).clients@, window).floating
                ==> has_client(final(self).clients@, window) && client_of(
                final(self).clients@,
                window,
            ).geometry == geometry) && (!(has_client(old(self).clients@, window) && client_of(
                old(self).clients@,
                window,
            ).floating) ==> *final(self) == *old(self))),
            ((*ev) matches DisplayEvent::KeyPress { mods, keycode } ==> ((forall|j: int|
                0 <= j < bindings@.len() ==> !binding_matches(#[trigger] bindings@[j], mods, keycode))
                ==> *final(self) == *old(self) && r@.len() == 0)),
    {
        match ev {
            DisplayEvent::MapRequest { window, geometry, override_redirect, border_width } => {
                let mut out: Vec<CoreRequest> = Vec::new();
                if !*override_redirect {
                    let managed = self.manage(*window, *geometry, false, *border_width);
                    if managed {
                        out.push(CoreRequest::ShowWindow(*window));
                        out.push(CoreRequest::Relayout);
                        proof {
                            assert(out@ =~= seq![
                                CoreRequest::ShowWindow(*window),
                                CoreRequest::Relayout,
                            ]);
                        }
                    }
                }
                out
            },
            DisplayEvent::UnmapNotify { window } => {
                let mut out: Vec<CoreRequest> = Vec::new();
                let removed = self.unmanage(*window);
                if removed {
                    out.push(CoreRequest::Relayout);
                }
                out
            },
            DisplayEvent::DestroyNotify { window } => {
                let mut out: Vec<CoreRequest> = Vec::new();
                let removed = self.unmanage(*window);
                if removed {
                    out.push(CoreRequest::Relayout);
                }
                out
            },
            DisplayEvent::ConfigureRequest { window, geometry, border_width } => {
                let mut out: Vec<CoreRequest> = Vec::new();
                let ghost oldc = self.clients@;
                let honored = self.configure_request(*window, *geometry, *border_width);
                if honored {
                    out.push(CoreRequest::Relayout);
                }
                proof {
                    if has_client(oldc, *window) && client_of(oldc, *window).floating {
                        let q = choose|q: int|
                            0 <= q < oldc.len() && oldc[q].handle == *window;
                        assert(self.clients@[q].handle == *window);
                        lemma_client_of_unique(self.clients@, q, *window);
                    }
                }
                out
            },
            DisplayEvent::KeyPress { mods, keycode } => {
                match lookup(bindings, *mods, *keycode) {
                    Some(i) => {
                        let action = bindings[i].action;
                        let reqs = self.dispatch(action, &bindings[i].arg);
                        reqs
                    },
                    None => Vec::new(),
                }
            },
        }
    }

    /// Leave the event loop for good.
    pub fn quit(&mut self)
        requires
            old(self).wf(),
        ensures
            final(self).wf(),
            final(self).state == RunState::Quitting,
            final(self).clients@ == old(self).clients@,
            final(self).monitor == old(self).monitor,
    {
        self.state = RunState::Quitting;
    }

    /// Show exactly the tag at `index`: replace the monitor's visible tag
    /// set with that single tag and rebuild the focus stack from the
    /// client list, keeping only the clients visible under the new set.
    /// Viewing the tag that is already the whole visible set changes
    /// nothing and reports no change, so repeating the action is
    /// idempotent and signals no layout churn the second time.
    #[verifier::loop_isolation(false)]
    pub fn view_tag(&mut self, index: u32) -> (changed: bool)
        requires
            old(self).wf(),
            index < TAG_COUNT,
        ensures
            final(self).wf(),
            changed == (old(self).monitor.visible.bits != 1u32 << index),
            !changed ==> *final(self) == *old(self),
            final(self).monitor.visible.bits == 1u32 << index,
            changed ==> final(self).monitor.focus.order@ == visible_handles(
                old(self).clients@,
                (TagSet { bits: 1u32 << index }),
                old(self).monitor.order@,
            ),
            final(self).clients@ == old(self).clients@,
            final(self).monitor.order@ == old(self).monitor.order@,
            final(self).monitor.usable == old(self).monitor.usable,
            final(self).monitor.gaps == old(self).monitor.gaps,
            final(self).monitor.master_permille == old(self).monitor.master_permille,
            final(self).state == old(self).state,
    {
        let target = TagSet::single(index);
        if self.monitor.visible.bits == target.bits {
            return false;
        }
        self.monitor.visible = target;
        let ghost oldc = self.clients@;
        let ghost oldorder = self.monitor.order@;
        let ghost pred = |x: u32| visible_client(oldc, target, x);
        let mut fresh: Vec<u32> = Vec::new();
        let mut i: usize = 0;
        while i < self.monitor.order.len()
            invariant
                i <= oldorder.len(),
                fresh@ == filter_by(oldorder.subrange(0, i as int), pred),
            decreases oldorder.len() - i,
        {
            let h = self.monitor.order[i];
            let ghost prevsub = oldorder.subrange(0, i as int);
            let mut keep = false;
            match self.find_client(h) {
                Some(ci) => {
                    proof {
                        lemma_client_of_unique(oldc, ci as int, h);
                    }
                    if self.clients[ci].tags.bits & target.bits != 0 {
                        keep = true;
                    }
                },
                None => {},
            }
            if keep {
                fresh.push(h);
            }
            proof {
                reveal_with_fuel(filter_by, 3);
                assert(keep == pred(h));
                assert(oldorder.subrange(0, i as int + 1) =~= prevsub + seq![h]);
                lemma_filter_by_append(prevsub, seq![h], pred);
                if pred(h) {
                    assert(filter_by(seq![h], pred) =~= seq![h]);
                    assert(fresh@ =~= filter_by(prevsub, pred) + seq![h]);
                } else {
                    assert(filter_by(seq![h], pred) =~= Seq::<u32>::empty());
                    assert(fresh@ =~= filter_by(prevsub, pred) + filter_by(seq![h], pred));
                }
            }
            i = i + 1;
        }
        self.monitor.focus = FocusStack { order: fresh };
        proof {
            assert(oldorder.subrange(0, oldorder.len() as int) =~= oldorder);
            assert(self.monitor.focus.order@ == visible_handles(oldc, target, oldorder));
            lemma_filter_by_properties(oldorder, pred);
            assert forall|x: u32|
                #[trigger] self.monitor.focus.order@.contains(x) implies visible_client(
                self.clients@,
                self.monitor.visible,
                x,
            ) && self.monitor.order@.contains(x) by {
                assert(oldorder.contains(x) && pred(x));
            }
        }
        true
    }

    /// Set a managed client's tag membership. A client must always belong
    /// to at least one tag: a request that would clear every tag bit is a
    /// lifecycle bug and assigns the currently visible tag set instead.
    /// A client whose new tags are not visible leaves the focus stack.
    pub fn assign_tags(&mut self, h: u32, tags: TagSet)
        requires
            old(self).wf(),
        ensures
            final(self).wf(),
            !has_client(old(self).clients@, h) ==> *final(self) == *old(self),
            has_client(old(self).clients@, h) ==> {
                let applied = if tags.bits == 0 {
                    old(self).monitor.visible
                } else {
                    tags
                };
                &&& final(self).clients@.len() == old(self).clients@.len()
                &&& forall|p: int|
                    0 <= p < old(self).clients@.len() ==> #[trigger] final(self).clients@[p] == (
                    if old(self).clients@[p].handle == h {
                        (ManagedClient { tags: applied, ..old(self).clients@[p] })
                    } else {
                        old(self).clients@[p]
                    })
                &&& applied.bits & old(self).monitor.visible.bits == 0 ==> !final(self).monitor.focus.order@.contains(h)
                &&& applied.bits & old(self).monitor.visible.bits != 0 ==> final(self).monitor.focus.order@ == old(self).monitor.focus.order@
            },
            final(self).monitor.order@ == old(self).monitor.order@,
            final(self).monitor.visible == old(self).monitor.visible,
            final(self).monitor.usable == old(self).monitor.usable,
            final(self).monitor.gaps == old(self).monitor.gaps,
            final(self).monitor.master_permille == old(self).monitor.master_permille,
            final(self).state == old(self).state,
    {
        match self.find_client(h) {
            None => {},
            Some(ci) => {
                let ghost oldc = self.clients@;
                let ghost oldfocus = self.monitor.focus.order@;
                proof {
                    lemma_client_of_unique(oldc, ci as int, h);
                }
                let applied = if tags.bits == 0 {
                    self.monitor.visible
                } else {
                    tags
                };
                let mut c = self.clients[ci];
                c.tags = applied;
                self.clients.set(ci, c);
                proof {
                    lemma_client_update(oldc, ci as int, c);
                }
                if applied.bits & self.monitor.visible.bits == 0 {
                    self.monitor.focus.remove(h);
                }
                proof {
                    let newc = self.clients@;
                    assert forall|x: u32|
                        #[trigger] self.monitor.order@.contains(x) implies has_client(newc, x) by {
                        assert(has_client(oldc, x));
                        if x == h {
                            assert(newc[ci as int].handle == h);
                        } else {
                            assert(has_client(newc, x));
                        }
                    }
                    assert forall|p: int|
                        0 <= p < newc.len() implies self.monitor.order@.contains(
                        (#[trigger] newc[p]).handle,
                    ) by {
                        assert(newc[p].handle == oldc[p].handle);
                        assert(self.monitor.order@.contains(oldc[p].handle));
                    }
                    assert forall|x: u32|
                        #[trigger] self.monitor.focus.order@.contains(x) implies visible_client(
                        newc,
                        self.monitor.visible,
                        x,
                    ) && self.monitor.order@.contains(x) by {
                        assert(oldfocus.contains(x));
                        assert(visible_client(oldc, self.monitor.visible, x));
                        if x == h {
                            assert(applied.bits & self.monitor.visible.bits != 0);
                            assert(client_of(newc, h) == c);
                        } else {
                            assert(has_client(oldc, x));
                            assert(client_of(newc, x) == client_of(oldc, x));
                        }
                    }
                }
            },
        }
    }

    /// Give the focused client exactly the tag at `index`. When that tag
    /// is not among the visible ones, the client disappears from the
    /// current view: it leaves the focus stack, and only viewing its new
    /// tag shows it again. With no focused client nothing changes.
    pub fn move_to_tag(&mut self, index: u32)
        requires
            old(self).wf(),
            index < TAG_COUNT,
        ensures
            final(self).wf(),
            old(self).spec_focused() is None ==> *final(self) == *old(self),
            old(self).spec_focused() is Some ==> {
                let h = old(self).spec_focused()->0;
                &&& final(self).clients@.len() == old(self).clients@.len()
                &&& forall|p: int|
                    0 <= p < old(self).clients@.len() ==> #[trigger] final(self).clients@[p] == (
                    if old(self).clients@[p].handle == h {
                        (ManagedClient {
                            tags: (TagSet { bits: 1u32 << index }),
                            ..old(self).clients@[p]
                        })
                    } else {
                        old(self).clients@[p]
                    })
                &&& (1u32 << index) & old(self).monitor.visible.bits == 0 ==> !final(self).monitor.focus.order@.contains(h) && final(self).monitor.focus.order@ == old(self).monitor.focus.order@.subrange(1, old(self).monitor.focus.order@.len() as int)
                &&& (1u32 << index) & old(self).monitor.visible.bits != 0 ==> final(self).monitor.focus.order@ == old(self).monitor.focus.order@
            },
            final(self).monitor.order@ == old(self).monitor.order@,
            final(self).monitor.visible == old(self).monitor.visible,
            final(self).monitor.usable == old(self).monitor.usable,
            final(self).monitor.gaps == old(self).monitor.gaps,
            final(self).monitor.master_permille == old(self).monitor.master_permille,
            final(self).state == old(self).state,
    {
        let foc = self.monitor.focus.head();
        match foc {
            None => {},
            Some(h) => {
                proof {
                    assert(self.monitor.focus.order@.contains(h));
                }
                match self.find_client(h) {
                    None => {
                        proof {
                            assert(visible_client(self.clients@, self.monitor.visible, h));
                            assert(false);
                        }
                    },
                    Some(ci) => {
                        let ghost oldc = self.clients@;
                        let ghost oldfocus = self.monitor.focus.order@;
                        proof {
                            lemma_client_of_unique(oldc, ci as int, h);
                        }
                        let tags = TagSet::single(index);
                        let mut c = self.clients[ci];
                        c.tags = tags;
                        self.clients.set(ci, c);
                        proof {
                            lemma_client_update(oldc, ci as int, c);
                        }
                        if tags.bits & self.monitor.visible.bits == 0 {
                            self.monitor.focus.remove(h);
                        }
                        proof {
                            let newc = self.clients@;
                            assert forall|x: u32|
                                #[trigger] self.monitor.order@.contains(x) implies has_client(
                                newc,
                                x,
                            ) by {
                                assert(has_client(oldc, x));
                                if x == h {
                                    assert(newc[ci as int].handle == h);
                                } else {
                                    assert(has_client(newc, x));
                                }
                            }
                            assert forall|p: int|
                                0 <= p < newc.len() implies self.monitor.order@.contains(
                                (#[trigger] newc[p]).handle,
                            ) by {
                                assert(newc[p].handle == oldc[p].handle);
                                assert(self.monitor.order@.contains(oldc[p].handle));
                            }
                            assert forall|x: u32|
                                #[trigger] self.monitor.focus.order@.contains(x) implies
                                visible_client(newc, self.monitor.visible, x)
                                    && self.monitor.order@.contains(x) by {
                                assert(oldfocus.contains(x));
                                assert(visible_client(oldc, self.monitor.visible, x));
                                if x == h {
                                    assert(tags.bits & self.monitor.visible.bits != 0);
                                    assert(client_of(newc, h) == c);
                                } else {
                                    assert(has_client(oldc, x));
                                    assert(client_of(newc, x) == client_of(oldc, x));
                                }
                            }
                        }
                    },
                }
            },
        }
    }

    /// Answer a client's request to set its own geometry. While floating,
    /// the request is honored: current and saved geometry follow it.
    /// While tiled, the tiling layout overrides client wishes: the
    /// request is acknowledged without effect. A request for a window
    /// that has since disappeared is ignored; that race is expected.
    pub fn configure_request(&mut self, h: u32, geometry: Rect, border_width: u32) -> (honored:
        bool)
        requires
            old(self).wf(),
        ensures
            final(self).wf(),
            honored == (has_client(old(self).clients@, h) && client_of(
                old(self).clients@,
                h,
            ).floating),
            !honored ==> *final(self) == *old(self),
            honored ==> final(self).clients@.len() == old(self).clients@.len() && forall|p: int|
                0 <= p < old(self).clients@.len() ==> #[trigger] final(self).clients@[p] == (if old(self).clients@[p].handle == h {
                    (ManagedClient {
                        geometry,
                        saved_geometry: geometry,
                        border_width,
                        ..old(self).clients@[p]
                    })
                } else {
                    old(self).clients@[p]
                }),
            final(self).monitor == old(self).monitor,
            final(self).state == old(self).state,
    {
        match self.find_client(h) {
            None => false,
            Some(ci) => {
                let ghost oldc = self.clients@;
                proof {
                    lemma_client_of_unique(oldc, ci as int, h);
                }
                if !self.clients[ci].floating {
                    return false;
                }
                let mut c = self.clients[ci];
                c.geometry = geometry;
                c.saved_geometry = geometry;
                c.border_width = border_width;
                self.clients.set(ci, c);
                proof {
                    lemma_client_update(oldc, ci as int, c);
                    let newc = self.clients@;
                    assert forall|x: u32|
                        #[trigger] self.monitor.order@.contains(x) implies has_client(newc, x) by {
                        assert(has_client(oldc, x));
                        if x == h {
                            assert(newc[ci as int].handle == h);
                        }
                    }
                    assert forall|p: int|
                        0 <= p < newc.len() implies self.monitor.order@.contains(
                        (#[trigger] newc[p]).handle,
                    ) by {
                        assert(newc[p].handle == oldc[p].handle);
                        assert(self.monitor.order@.contains(oldc[p].handle));
                    }
                    assert forall|x: u32|
                        #[trigger] self.monitor.focus.order@.contains(x) implies visible_client(
                        newc,
                        self.monitor.visible,
                        x,
                    ) && self.monitor.order@.contains(x) by {
                        assert(visible_client(oldc, self.monitor.visible, x));
                        if x == h {
                            assert(client_of(newc, h) == c);
                        } else {
                            assert(client_of(newc, x) == client_of(oldc, x));
                        }
                    }
                }
                true
            },
        }
    }

    /// Dispatch one keybinding action. The returned requests are the side
    /// effects the caller performs; the core only mutates its own state.
    /// An argument of the wrong shape for the action, or a tag index
    /// outside the tag count, leaves the state unchanged.
    pub fn dispatch(&mut self, action: KeyAction, arg: &ActionArg) -> (r: Vec<CoreRequest>)
        requires
            old(self).wf(),
        ensures
            final(self).wf(),
            action == KeyAction::Quit ==> final(self).state == RunState::Quitting && final(self).monitor == old(self).monitor && final(self).clients@ == old(self).clients@,
            action == KeyAction::Recompile ==> final(self).state == RunState::Restarting && final(self).monitor == old(self).monitor && final(self).clients@ == old(self).clients@,
            action == KeyAction::ToggleGaps ==> final(self).monitor.gaps.enabled == !old(self).monitor.gaps.enabled && final(self).clients@ == old(self).clients@ && final(self).monitor.focus.order@ == old(self).monitor.focus.order@,
            action == KeyAction::FocusStack ==> final(self).clients@ == old(self).clients@ && final(self).monitor.visible == old(self).monitor.visible && final(self).monitor.order@ == old(self).monitor.order@,
            action == KeyAction::FocusStack ==> (arg matches ActionArg::IntArg(d) ==> ((*d > 0
                ==> final(self).monitor.focus.order@ == rotated_forward(
                old(self).monitor.focus.order@,
            )) && (*d < 0 ==> final(self).monitor.focus.order@ == rotated_backward(
                old(self).monitor.focus.order@,
            )))),
            action == KeyAction::ViewTag ==> (arg matches ActionArg::IntArg(t) ==> (0 <= *t
                < TAG_COUNT ==> final(self).monitor.visible.bits == 1u32 << (*t as u32) && (old(self).monitor.visible.bits == 1u32 << (*t as u32) ==> *final(self) == *old(self)))),
            action == KeyAction::MoveToTag ==> (arg matches ActionArg::IntArg(t) ==> ((0 <= *t
                < TAG_COUNT && old(self).spec_focused() is Some) ==> has_client(
                final(self).clients@,
                old(self).spec_focused()->0,
            ) && client_of(final(self).clients@, old(self).spec_focused()->0).tags.bits == 1u32 << (
            *t as u32))),
            action == KeyAction::Spawn || action == KeyAction::KillClient ==> *final(self) == *old(self),
            action == KeyAction::Spawn ==> (arg matches ActionArg::StrArg(p) ==> r@.len() == 1 && (
            r@[0] matches CoreRequest::SpawnProgram(q) && q@ == p@)),
            action == KeyAction::Spawn ==> (arg matches ActionArg::ArrayArg(v) ==> r@.len() == 1
                && (r@[0] matches CoreRequest::SpawnArgv(w) && w@ == v@)),
            action == KeyAction::KillClient ==> (old(self).spec_focused() matches Some(h)
                ==> r@.len() == 1 && r@[0] == CoreRequest::CloseClient(h)),
            action == KeyAction::KillClient && old(self).spec_focused() is None ==> r@.len() == 0,
    {
        let mut out: Vec<CoreRequest> = Vec::new();
        match action {
            KeyAction::Quit => {
                self.quit();
            },
            KeyAction::Recompile => {
                self.request_restart();
            },
            KeyAction::ToggleGaps => {
                self.toggle_gaps();
                out.push(CoreRequest::Relayout);
            },
            KeyAction::FocusStack => {
                match arg {
                    ActionArg::IntArg(d) => {
                        let delta: i32 = if *d > 0 {
                            1
                        } else if *d < 0 {
                            -1
                        } else {
                            0
                        };
                        self.focus_cycle(delta);
                    },
                    _ => {},
                }
            },
            KeyAction::ViewTag => {
                match arg {
                    ActionArg::IntArg(t) => {
                        if 0 <= *t && *t < TAG_COUNT as i64 {
                            let changed = self.view_tag(*t as u32);
                            if changed {
                                out.push(CoreRequest::Relayout);
                            }
                        }
                    },
                    _ => {},
                }
            },
            KeyAction::MoveToTag => {
                match arg {
                    ActionArg::IntArg(t) => {
                        if 0 <= *t && *t < TAG_COUNT as i64 {
                            proof {
                                if old(self).spec_focused() is Some {
                                    let h = old(self).spec_focused()->0;
                                    assert(self.monitor.focus.order@.contains(h));
                                }
                            }
                            self.move_to_tag(*t as u32);
                            out.push(CoreRequest::Relayout);
                        }
                    },
                    _ => {},
                }
            },
            KeyAction::Spawn => {
                match arg {
                    ActionArg::StrArg(p) => {
                        out.push(CoreRequest::SpawnProgram(p.clone()));
                    },
                    ActionArg::ArrayArg(v) => {
                        out.push(CoreRequest::SpawnArgv(clone_strings(v)));
                    },
                    _ => {},
                }
            },
            KeyAction::KillClient => {
                match self.focused() {
                    Some(h) => {
                        out.push(CoreRequest::CloseClient(h));
                    },
                    None => {},
                }
            },
        }
        out
    }

    /// Geometry for the clients the tiling layout places: every visible,
    /// non-floating client in client-list order, paired with its
    /// master-stack rectangle. Floating clients keep their own geometry
    /// and do not appear here. The result is a pure function of the
    /// state, so re-running it without a state change yields the same
    /// rectangles.
    #[verifier::loop_isolation(false)]
    pub fn arrange(&self) -> (r: Vec<(u32, Rect)>)
        requires
            self.wf(),
        ensures
            r@.len() == tiled_handles(
                self.clients@,
                self.monitor.visible,
                self.monitor.order@,
            ).len(),
            forall|i: int|
                0 <= i < r@.len() ==> (#[trigger] r@[i]).0 == tiled_handles(
                    self.clients@,
                    self.monitor.visible,
                    self.monitor.order@,
                )[i],
            forall|i: int|
                0 <= i < r@.len() ==> (#[trigger] r@[i]).1.x == crate::layout::tiled_x(
                    i,
                    r@.len() as int,
                    self.monitor.usable,
                    self.monitor.master_permille,
                    self.monitor.gaps,
                ),
            forall|i: int|
                0 <= i < r@.len() ==> (#[trigger] r@[i]).1.y == crate::layout::tiled_y(
                    i,
                    r@.len() as int,
                    self.monitor.usable,
                    self.monitor.master_permille,
                    self.monitor.gaps,
                ),
            forall|i: int|
                0 <= i < r@.len() ==> (#[trigger] r@[i]).1.width == crate::layout::tiled_w(
                    i,
                    r@.len() as int,
                    self.monitor.usable,
                    self.monitor.master_permille,
                    self.monitor.gaps,
                ),
            forall|i: int|
                0 <= i < r@.len() ==> (#[trigger] r@[i]).1.height == crate::layout::tiled_h(
                    i,
                    r@.len() as int,
                    self.monitor.usable,
                    self.monitor.master_permille,
                    self.monitor.gaps,
                ),
    {
        let ghost cs = self.clients@;
        let ghost vis = self.monitor.visible;
        let ghost oldorder = self.monitor.order@;
        let ghost pred = |x: u32| visible_client(cs, vis, x) && !client_of(cs, x).floating;
        let mut handles: Vec<u32> = Vec::new();
        let mut i: usize = 0;
        while i < self.monitor.order.len()
            invariant
                i <= oldorder.len(),
                handles@ == filter_by(oldorder.subrange(0, i as int), pred),
            decreases oldorder.len() - i,
        {
            let h = self.monitor.order[i];
            let ghost prevsub = oldorder.subrange(0, i as int);
            let mut keep = false;
            match self.find_client(h) {
                Some(ci) => {
                    proof {
                        lemma_client_of_unique(cs, ci as int, h);
                    }
                    if self.clients[ci].tags.bits & self.monitor.visible.bits != 0
                        && !self.clients[ci].floating {
                        keep = true;
                    }
                },
                None => {},
            }
            if keep {
                handles.push(h);
            }
            proof {
                reveal_with_fuel(filter_by, 3);
                assert(keep == pred(h));
                assert(oldorder.subrange(0, i as int + 1) =~= prevsub + seq![h]);
                lemma_filter_by_append(prevsub, seq![h], pred);
                if pred(h) {
                    assert(filter_by(seq![h], pred) =~= seq![h]);
                    assert(handles@ =~= filter_by(prevsub, pred) + seq![h]);
                } else {
                    assert(filter_by(seq![h], pred) =~= Seq::<u32>::empty());
                    assert(handles@ =~= filter_by(prevsub, pred) + filter_by(seq![h], pred));
                }
            }
            i = i + 1;
        }
        proof {
            assert(oldorder.subrange(0, oldorder.len() as int) =~= oldorder);
            assert(handles@ == tiled_handles(cs, vis, oldorder));
            lemma_filter_by_properties(oldorder, pred);
            assert forall|x: u32| #[trigger] handles@.contains(x) implies has_client(cs, x) by {
                assert(oldorder.contains(x) && pred(x));
            }
            lemma_handle_list_len(handles@, cs);
        }
        let rects = crate::layout::tile(
            handles.len(),
            &self.monitor.usable,
            self.monitor.master_permille,
            &self.monitor.gaps,
        );
        let mut out: Vec<(u32, Rect)> = Vec::new();
        let mut j: usize = 0;
        while j < handles.len()
            invariant
                j <= handles@.len(),
                out@.len() == j,
                forall|q: int|
                    0 <= q < j ==> (#[trigger] out@[q]).0 == handles@[q] && out@[q].1 == rects@[q],
            decreases handles@.len() - j,
        {
            out.push((handles[j], rects[j]));
            j = j + 1;
        }
        out
    }

    /// Leave the event loop so that the caller can replace the process
    /// image with a freshly built binary.
    pub fn request_restart(&mut self)
        requires
            old(self).wf(),
        ensures
            final(self).wf(),
            final(self).state == RunState::Restarting,
            final(self).clients@ == old(self).clients@,
            final(self).monitor == old(self).monitor,
    {
        self.state = RunState::Restarting;
    }
}

/// A side effect the caller must carry out after an event was handled:
/// the core mutates only its own state and never touches the display
/// connection, spawns processes or blocks.
pub enum CoreRequest {
    /// Ask the display server to show this window.
    ShowWindow(u32),
    /// Run this program, detached; a launch failure is reported and never
    /// fatal.
    SpawnProgram(String),
    /// Run this argv exactly as given, never through a shell.
    SpawnArgv(Vec<String>),
    /// Ask this client to terminate, politely first.
    CloseClient(u32),
    /// Geometry-affecting state changed: apply `arrange` and redraw.
    Relayout,
}

/// One display-server event, as the core sees it. The transport that
/// decodes the wire protocol stays outside; it hands the core plain
/// values.
pub enum DisplayEvent {
    /// A mappable top-level window asks to be shown.
    MapRequest { window: u32, geometry: Rect, override_redirect: bool, border_width: u32 },
    /// A window was hidden.
    UnmapNotify { window: u32 },
    /// A window is gone.
    DestroyNotify { window: u32 },
    /// A client asks for geometry of its own choosing.
    ConfigureRequest { window: u32, geometry: Rect, border_width: u32 },
    /// A grabbed key combination was pressed on the root window.
    KeyPress { mods: u16, keycode: u8 },
}

/// Copies of the strings of `v`, in order.
fn clone_strings(v: &Vec<String>) -> (r: Vec<String>)
    ensures
        r@ == v@,
{
    let mut out: Vec<String> = Vec::new();
    let mut i: usize = 0;
    while i < v.len()
        invariant
            i <= v@.len(),
            out@ == v@.subrange(0, i as int),
        decreases v@.len() - i,
    {
        out.push(v[i].clone());
        proof {
            assert(out@ =~= v@.subrange(0, i as int + 1));
        }
        i = i + 1;
    }
    proof {
        assert(v@.subrange(0, v@.len() as int) =~= v@);
    }
    out
}

/// Under duplicate-free handles, looking a handle up yields the very
/// client stored at its index.
proof fn lemma_client_of_unique(cs: Seq<ManagedClient>, i: int, h: u32)
    requires
        0 <= i < cs.len(),
        cs[i].handle == h,
        forall|p: int, q: int| 0 <= p < q < cs.len() ==> cs[p].handle != cs[q].handle,
    ensures
        has_client(cs, h),
        client_of(cs, h) == cs[i],
{
    assert(has_client(cs, h));
    let j = choose|j: int| 0 <= j < cs.len() && cs[j].handle == h;
    if i < j {
        assert(cs[i].handle != cs[j].handle);
    } else if j < i {
        assert(cs[j].handle != cs[i].handle);
    }
}

/// Appending a new client with a fresh handle does not change whether and
/// how another handle is visible.
proof fn lemma_visible_client_push(cs: Seq<ManagedClient>, c: ManagedClient, vis: TagSet, x: u32)
    requires
        visible_client(cs, vis, x),
        c.handle != x,
        forall|p: int, q: int| 0 <= p < q < cs.len() ==> cs[p].handle != cs[q].handle,
        forall|p: int| 0 <= p < cs.len() ==> (#[trigger] cs[p]).handle != c.handle,
    ensures
        visible_client(cs.push(c), vis, x),
{
    let k = choose|k: int| 0 <= k < cs.len() && cs[k].handle == x;
    lemma_client_of_unique(cs, k, x);
    let d = cs.push(c);
    assert(d[k].handle == x);
    assert forall|p: int, q: int| 0 <= p < q < d.len() implies d[p].handle != d[q].handle by {
        if q == cs.len() {
            assert(d[p] == cs[p] && d[q] == c);
        } else {
            assert(d[p] == cs[p] && d[q] == cs[q]);
        }
    }
    lemma_client_of_unique(d, k, x);
}

/// Removing the client at index `i` keeps every other client (with its
/// record unchanged), keeps handles duplicate-free, and unmanages the
/// removed handle.
proof fn lemma_client_remove(cs: Seq<ManagedClient>, i: int)
    requires
        0 <= i < cs.len(),
        forall|p: int, q: int| 0 <= p < q < cs.len() ==> cs[p].handle != cs[q].handle,
    ensures
        forall|p: int, q: int|
            0 <= p < q < cs.remove(i).len() ==> cs.remove(i)[p].handle != cs.remove(i)[q].handle,
        !has_client(cs.remove(i), cs[i].handle),
        forall|x: u32|
            x != cs[i].handle && #[trigger] has_client(cs, x) ==> has_client(cs.remove(i), x)
                && client_of(cs.remove(i), x) == client_of(cs, x),
{
    let r = cs.remove(i);
    assert forall|p: int, q: int| 0 <= p < q < r.len() implies r[p].handle != r[q].handle by {
        let sp: int = if p < i { p } else { p + 1 };
        let sq: int = if q < i { q } else { q + 1 };
        assert(r[p] == cs[sp] && r[q] == cs[sq] && sp < sq);
    }
    assert(!has_client(r, cs[i].handle)) by {
        if has_client(r, cs[i].handle) {
            let p = choose|p: int| 0 <= p < r.len() && r[p].handle == cs[i].handle;
            let sp: int = if p < i { p } else { p + 1 };
            assert(r[p] == cs[sp]);
        }
    }
    assert forall|x: u32|
        x != cs[i].handle && #[trigger] has_client(cs, x) implies has_client(r, x) && client_of(
        r,
        x,
    ) == client_of(cs, x) by {
        let q = choose|q: int| 0 <= q < cs.len() && cs[q].handle == x;
        lemma_client_of_unique(cs, q, x);
        if q < i {
            assert(r[q] == cs[q]);
            lemma_client_of_unique(r, q, x);
        } else {
            assert(q > i);
            assert(r[q - 1] == cs[q]);
            lemma_client_of_unique(r, q - 1, x);
        }
    }
}

/// Remove one occurrence of `h` from a handle list, keeping the order of
/// the remaining entries.
fn remove_handle(v: &mut Vec<u32>, h: u32) -> (removed: bool)
    ensures
        removed == old(v)@.contains(h),
        !removed ==> final(v)@ == old(v)@,
        removed ==> exists|i: int|
            0 <= i < old(v)@.len() && old(v)@[i] == h && final(v)@ == old(v)@.remove(i),
        old(v)@.no_duplicates() ==> final(v)@.no_duplicates() && !final(v)@.contains(h),
        forall|x: u32| #[trigger] final(v)@.contains(x) ==> old(v)@.contains(x),
        forall|x: u32| x != h && #[trigger] old(v)@.contains(x) ==> final(v)@.contains(x),
{
    let ghost orig = v@;
    let mut i: usize = 0;
    while i < v.len()
        invariant
            v@ == orig,
            orig == old(v)@,
            i <= orig.len(),
            forall|j: int| 0 <= j < i ==> orig[j] != h,
        decreases orig.len() - i,
    {
        if v[i] == h {
            v.remove(i);
            proof {
                assert(v@ == orig.remove(i as int));
                assert(orig.contains(h));
                crate::stack::lemma_remove_properties(orig, i as int, h);
                assert forall|x: u32|
                    x != h && #[trigger] orig.contains(x) implies v@.contains(x) by {
                    let q = choose|q: int| 0 <= q < orig.len() && orig[q] == x;
                    if q < i {
                        assert(v@[q] == x);
                    } else {
                        assert(q > i);
                        assert(v@[q - 1] == x);
                    }
                }
            }
            return true;
        }
        i = i + 1;
    }
    proof {
        assert(!orig.contains(h)) by {
            if orig.contains(h) {
                let k = choose|k: int| 0 <= k < orig.len() && orig[k] == h;
                assert(orig[k] != h);
            }
        }
    }
    false
}

/// Replacing the record at index `ci` by one with the same handle keeps
/// handles duplicate-free and leaves every other client's record
/// untouched.
proof fn lemma_client_update(cs: Seq<ManagedClient>, ci: int, c2: ManagedClient)
    requires
        0 <= ci < cs.len(),
        c2.handle == cs[ci].handle,
        forall|p: int, q: int| 0 <= p < q < cs.len() ==> cs[p].handle != cs[q].handle,
    ensures
        forall|p: int, q: int|
            0 <= p < q < cs.update(ci, c2).len() ==> cs.update(ci, c2)[p].handle != cs.update(
                ci,
                c2,
            )[q].handle,
        forall|x: u32|
            x != c2.handle ==> #[trigger] has_client(cs.update(ci, c2), x) == has_client(cs, x),
        forall|x: u32|
            x != c2.handle && has_client(cs, x) ==> #[trigger] client_of(cs.update(ci, c2), x)
                == client_of(cs, x),
        has_client(cs.update(ci, c2), c2.handle),
        client_of(cs.update(ci, c2), c2.handle) == c2,
{
    let d = cs.update(ci, c2);
    assert forall|p: int, q: int|
        0 <= p < q < d.len() implies d[p].handle != d[q].handle by {
        assert(d[p].handle == cs[p].handle && d[q].handle == cs[q].handle);
    }
    assert(d[ci].handle == c2.handle);
    lemma_client_of_unique(d, ci, c2.handle);
    assert forall|x: u32|
        x != c2.handle implies #[trigger] has_client(d, x) == has_client(cs, x) by {
        if has_client(d, x) {
            let q = choose|q: int| 0 <= q < d.len() && d[q].handle == x;
            assert(cs[q].handle == x);
        }
        if has_client(cs, x) {
            let q = choose|q: int| 0 <= q < cs.len() && cs[q].handle == x;
            assert(d[q].handle == x);
        }
    }
    assert forall|x: u32|
        x != c2.handle && has_client(cs, x) implies #[trigger] client_of(d, x) == client_of(
        cs,
        x,
    ) by {
        let q = choose|q: int| 0 <= q < cs.len() && cs[q].handle == x;
        lemma_client_of_unique(cs, q, x);
        assert(q != ci);
        assert(d[q] == cs[q]);
        lemma_client_of_unique(d, q, x);
    }
}

/// A duplicate-free list of handles that all belong to managed clients is
/// no longer than the client registry.
proof fn lemma_handle_list_len(order: Seq<u32>, cs: Seq<ManagedClient>)
    requires
        order.no_duplicates(),
        forall|h: u32| order.contains(h) ==> has_client(cs, h),
    ensures
        order.len() <= cs.len(),
{
    broadcast use vstd::seq_lib::group_seq_properties;
    broadcast use vstd::set_lib::group_set_properties;

    let hs = Seq::new(cs.len() as nat, |i: int| cs[i].handle);
    order.unique_seq_to_set();
    hs.lemma_cardinality_of_set();
    assert(order.to_set() <= hs.to_set()) by {
        assert forall|x: u32| order.to_set().contains(x) implies hs.to_set().contains(x) by {
            assert(order.contains(x));
            assert(has_client(cs, x));
            let i = choose|i: int| 0 <= i < cs.len() && cs[i].handle == x;
            assert(hs[i] == x);
            assert(hs.contains(x));
        }
    }
    vstd::set_lib::lemma_len_subset(order.to_set(), hs.to_set());
}

/// Tag invariant: in a well-formed core every managed client belongs to
/// at least one tag. Every operation of `Core` requires and re-establishes
/// `wf`, so this holds in every reachable state; a record that would lose
/// its last tag is never created, and adoption assigns the (never empty)
/// visible tag set.
pub proof fn lemma_tag_invariant(c: Core)
    requires
        c.wf(),
    ensures
        forall|i: int| 0 <= i < c.clients@.len() ==> (#[trigger] c.clients@[i]).tags.bits != 0,
{
}

/// Moving focus one step forward and then one step back returns focus to
/// the client that had it, as long as the visible set did not change in
/// between: `focus_cycle` pins the stack to a rotation of the old one,
/// and the two rotations cancel. The hypotheses are exactly what
/// `focus_cycle` with a positive and then a negative delta ensure.
pub proof fn lemma_focus_round_trip(a: Core, b: Core, c: Core)
    requires
        b.monitor.focus.order@ == rotated_forward(a.monitor.focus.order@),
        c.monitor.focus.order@ == rotated_backward(b.monitor.focus.order@),
    ensures
        c.monitor.focus.order@ == a.monitor.focus.order@,
        c.spec_focused() == a.spec_focused(),
{
    crate::stack::lemma_rotation_round_trip(a.monitor.focus.order@);
}

/// Focus-stack invariant: in a well-formed core a handle appears in the
/// focus stack at most once, and only while a client with that handle is
/// managed, on the monitor's client list, and visible under the current
/// tag set. As every operation requires and re-establishes `wf`, this
/// holds in every reachable state.
pub proof fn lemma_focus_stack_invariant(c: Core)
    requires
        c.wf(),
    ensures
        c.monitor.focus.order@.no_duplicates(),
        forall|h: u32|
            #[trigger] c.monitor.focus.order@.contains(h) ==> visible_client(
                c.clients@,
                c.monitor.visible,
                h,
            ) && c.monitor.order@.contains(h),
{
}

} // verus!
