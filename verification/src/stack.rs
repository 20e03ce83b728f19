use vstd::prelude::*;

verus! {

/// One step of forward rotation: the head moves to the back. Sequences
/// shorter than two elements are unchanged.
pub open spec fn rotated_forward(s: Seq<u32>) -> Seq<u32> {
    if s.len() < 2 {
        s
    } else {
        s.subrange(1, s.len() as int) + seq![s[0]]
    }
}

/// One step of backward rotation: the last element moves to the front.
/// Sequences shorter than two elements are unchanged.
pub open spec fn rotated_backward(s: Seq<u32>) -> Seq<u32> {
    if s.len() < 2 {
        s
    } else {
        seq![s[s.len() - 1]] + s.subrange(0, s.len() - 1)
    }
}

/// Rotating forward and then backward restores the order, and the
/// other way round.
pub proof fn lemma_rotation_round_trip(s: Seq<u32>)
    ensures
        rotated_backward(rotated_forward(s)) == s,
        rotated_forward(rotated_backward(s)) == s,
{
    if s.len() < 2 {
    } else {
        assert(rotated_backward(rotated_forward(s)) =~= s);
        assert(rotated_forward(rotated_backward(s)) =~= s);
    }
}

/// A monitor's focus history: window handles in most-recently-focused-first
/// order. The head, when present, is the focused window.
pub struct FocusStack {
    pub order: Vec<u32>,
}

impl FocusStack {
    /// An empty focus stack.
    pub fn new() -> (r: FocusStack)
        ensures
            r.order@ == Seq::<u32>::empty(),
    {
        FocusStack { order: Vec::new() }
    }

    /// Number of entries.
    pub fn len(&self) -> (r: usize)
        ensures
            r == self.order@.len(),
    {
        self.order.len()
    }

    /// The focused window: the most recent entry, if any.
    pub fn head(&self) -> (r: Option<u32>)
        ensures
            self.order@.len() == 0 ==> r is None,
            self.order@.len() > 0 ==> r == Some(self.order@[0]),
    {
        if self.order.len() == 0 {
            None
        } else {
            Some(self.order[0])
        }
    }

    /// Membership test.
    pub fn contains(&self, h: u32) -> (r: bool)
        ensures
            r == self.order@.contains(h),
    {
        let mut i: usize = 0;
        while i < self.order.len()
            invariant
                i <= self.order@.len(),
                forall|j: int| 0 <= j < i ==> self.order@[j] != h,
            decreases self.order@.len() - i,
        {
            if self.order[i] == h {
                return true;
            }
            i = i + 1;
        }
        false
    }

    /// Push a handle that is not yet present to the front: it becomes the
    /// focused window.
    pub fn push_front(&mut self, h: u32)
        requires
            !old(self).order@.contains(h),
        ensures
            final(self).order@ == seq![h] + old(self).order@,
            old(self).order@.no_duplicates() ==> final(self).order@.no_duplicates(),
    {
        self.order.insert(0, h);
        proof {
            assert(self.order@ =~= seq![h] + old(self).order@);
            if old(self).order@.no_duplicates() {
                assert forall|i: int, j: int|
                    0 <= i < j < self.order@.len() implies self.order@[i] != self.order@[j] by {
                    if i == 0 {
                        assert(old(self).order@[j - 1] == self.order@[j]);
                        assert(old(self).order@.contains(self.order@[j]));
                    }
                }
            }
        }
    }

    /// Remove a handle if present. The relative order of the remaining
    /// entries is unchanged; in particular, removing the focused head
    /// promotes the next entry.
    pub fn remove(&mut self, h: u32) -> (removed: bool)
        ensures
            removed == old(self).order@.contains(h),
            !removed ==> final(self).order@ == old(self).order@,
            removed ==> exists|i: int|
                0 <= i < old(self).order@.len() && old(self).order@[i] == h
                    && final(self).order@ == old(self).order@.remove(i),
            removed && old(self).order@[0] == h ==> final(self).order@
                == old(self).order@.subrange(1, old(self).order@.len() as int),
            forall|x: u32| final(self).order@.contains(x) ==> old(self).order@.contains(x),
            old(self).order@.no_duplicates() ==> final(self).order@.no_duplicates()
                && !final(self).order@.contains(h),
    {
        let ghost orig = self.order@;
        let mut i: usize = 0;
        while i < self.order.len()
            invariant
                self.order@ == orig,
                orig == old(self).order@,
                i <= orig.len(),
                forall|j: int| 0 <= j < i ==> orig[j] != h,
            decreases orig.len() - i,
        {
            if self.order[i] == h {
                self.order.remove(i);
                proof {
                    assert(self.order@ == orig.remove(i as int));
                    assert(orig.contains(h));
                    lemma_remove_properties(orig, i as int, h);
                    if i == 0 {
                        assert(self.order@ =~= orig.subrange(1, orig.len() as int));
                    }
                }
                return true;
            }
            i = i + 1;
        }
        proof {
            assert(!orig.contains(h)) by {
                if orig.contains(h) {
                    let k = choose|k: int| 0 <= k < orig.len() && orig[k] == h;
                    assert(orig[k] != h);
                }
            }
        }
        false
    }

    /// Move focus one step through the stack. A positive delta cycles
    /// forward (head to back), a negative delta cycles backward (back to
    /// head), zero does nothing. With fewer than two entries this is a
    /// no-op.
    pub fn cycle(&mut self, delta: i32)
        ensures
            delta > 0 ==> final(self).order@ == rotated_forward(old(self).order@),
            delta < 0 ==> final(self).order@ == rotated_backward(old(self).order@),
            delta == 0 ==> final(self).order@ == old(self).order@,
            old(self).order@.no_duplicates() ==> final(self).order@.no_duplicates(),
            forall|x: u32| final(self).order@.contains(x) == old(self).order@.contains(x),
    {
        let ghost orig = self.order@;
        if delta != 0 && self.order.len() >= 2 {
            if delta > 0 {
                let h = self.order.remove(0);
                self.order.push(h);
                proof {
                    assert(self.order@ =~= rotated_forward(orig));
                }
            } else {
                let h = self.order.remove(self.order.len() - 1);
                self.order.insert(0, h);
                proof {
                    assert(self.order@ =~= rotated_backward(orig));
                }
            }
            proof {
                lemma_rotation_preserves_membership(orig, self.order@);
            }
        }
    }
}

/// Removing index `i` from a sequence keeps every other element, keeps
/// freedom from duplicates, and, when the sequence had no duplicates and
/// `s[i] == h`, removes every occurrence of `h`.
pub(crate) proof fn lemma_remove_properties(s: Seq<u32>, i: int, h: u32)
    requires
        0 <= i < s.len(),
        s[i] == h,
    ensures
        forall|x: u32| s.remove(i).contains(x) ==> s.contains(x),
        s.no_duplicates() ==> s.remove(i).no_duplicates() && !s.remove(i).contains(h),
{
    let r = s.remove(i);
    assert forall|x: u32| r.contains(x) implies s.contains(x) by {
        let k = choose|k: int| 0 <= k < r.len() && r[k] == x;
        if k < i {
            assert(s[k] == x);
        } else {
            assert(s[k + 1] == x);
        }
    }
    if s.no_duplicates() {
        assert forall|p: int, q: int| 0 <= p < q < r.len() implies r[p] != r[q] by {
            let sp: int = if p < i { p } else { p + 1 };
            let sq: int = if q < i { q } else { q + 1 };
            assert(r[p] == s[sp] && r[q] == s[sq] && sp < sq);
        }
        assert(!r.contains(h)) by {
            if r.contains(h) {
                let k = choose|k: int| 0 <= k < r.len() && r[k] == h;
                if k < i {
                    assert(s[k] == h && s[i] == h);
                } else {
                    assert(s[k + 1] == h && s[i] == h);
                }
            }
        }
    }
}

/// A rotated sequence holds the same handles and stays duplicate-free.
proof fn lemma_rotation_preserves_membership(s: Seq<u32>, r: Seq<u32>)
    requires
        r == rotated_forward(s) || r == rotated_backward(s),
    ensures
        forall|x: u32| r.contains(x) == s.contains(x),
        s.no_duplicates() ==> r.no_duplicates(),
{
    if s.len() < 2 {
    } else {
        if r == rotated_forward(s) {
            assert forall|x: u32| r.contains(x) == s.contains(x) by {
                if r.contains(x) {
                    let k = choose|k: int| 0 <= k < r.len() && r[k] == x;
                    if k == s.len() - 1 {
                        assert(s[0] == x);
                    } else {
                        assert(s[k + 1] == x);
                    }
                    assert(s.contains(x));
                }
                if s.contains(x) {
                    let k = choose|k: int| 0 <= k < s.len() && s[k] == x;
                    if k == 0 {
                        assert(r[s.len() - 1] == x);
                    } else {
                        assert(r[k - 1] == x);
                    }
                    assert(r.contains(x));
                }
            }
            if s.no_duplicates() {
                assert forall|p: int, q: int| 0 <= p < q < r.len() implies r[p] != r[q] by {
                    let sp: int = if p == s.len() - 1 { 0 } else { p + 1 };
                    let sq: int = if q == s.len() - 1 { 0 } else { q + 1 };
                    assert(r[p] == s[sp] && r[q] == s[sq] && sp != sq);
                }
            }
        } else {
            assert forall|x: u32| r.contains(x) == s.contains(x) by {
                if r.contains(x) {
                    let k = choose|k: int| 0 <= k < r.len() && r[k] == x;
                    if k == 0 {
                        assert(s[s.len() - 1] == x);
                    } else {
                        assert(s[k - 1] == x);
                    }
                    assert(s.contains(x));
                }
                if s.contains(x) {
                    let k = choose|k: int| 0 <= k < s.len() && s[k] == x;
                    if k == s.len() - 1 {
                        assert(r[0] == x);
                    } else {
                        assert(r[k + 1] == x);
                    }
                    assert(r.contains(x));
                }
            }
            if s.no_duplicates() {
                assert forall|p: int, q: int| 0 <= p < q < r.len() implies r[p] != r[q] by {
                    let sp: int = if p == 0 { s.len() - 1 } else { p - 1 };
                    let sq: int = if q == 0 { s.len() - 1 } else { q - 1 };
                    assert(r[p] == s[sp] && r[q] == s[sq] && sp != sq);
                }
            }
        }
    }
}

} // verus!
