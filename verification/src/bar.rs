use vstd::prelude::*;
use vstd::string::StringExecFns;

verus! {

// The status-bar scheduler. It owns an ordered list of segments, each with
// its own refresh interval and deadline, and composes the bar text. All
// sampling (shell commands, OS counters, the clock) happens outside, off
// the event path: the caller runs it and hands the outcome back through
// `apply_result`, so a slow or failing source can never stall the bar.
// A failed refresh keeps the segment's previous text, and deadlines
// advance from the scheduled instant, not from completion, so intervals
// do not drift under slow sources.

/// Where the status bar sits on the screen.
#[derive(Debug, Clone, Copy)]
pub enum BarPosition {
    Top,
    Bottom,
}

/// The colors of one rendered piece of the bar.
#[derive(Clone, Copy, Debug, PartialEq, Eq, Structural)]
pub struct ColorScheme {
    pub foreground: u32,
    pub background: u32,
    pub underline: u32,
}

/// Where a segment's value comes from. Everything but `StaticText` is
/// sampled outside the scheduler.
pub enum SegmentSource {
    /// A constant value.
    StaticText(String),
    /// The captured output of a shell command line.
    Shell(String),
    /// Battery charge, with templates for charging, discharging and full.
    Battery(String, String, String),
    /// Memory usage.
    Ram,
    /// The current time, rendered with this format.
    DateTime(String),
}

/// One independently refreshed piece of the bar.
pub struct StatusSegment {
    /// Format text placed before the value.
    pub prefix: String,
    /// Format text placed after the value.
    pub suffix: String,
    pub source: SegmentSource,
    /// Refresh interval in ticks.
    pub interval: u64,
    /// The value most recently rendered (or the initial placeholder).
    pub rendered: String,
    /// The instant the next refresh is due.
    pub next_due: u64,
    pub color: u32,
    pub underline: bool,
}

/// The text a segment contributes to the bar.
pub open spec fn segment_text(s: StatusSegment) -> Seq<char> {
    s.prefix@ + s.rendered@ + s.suffix@
}

/// The bar text contributed by the first `i` segments, in order.
pub open spec fn composed_upto(segs: Seq<StatusSegment>, i: int) -> Seq<char>
    decreases i,
{
    if i <= 0 {
        Seq::empty()
    } else {
        composed_upto(segs, i - 1) + segment_text(segs[i - 1])
    }
}

/// The whole bar text: the ordered concatenation of every segment's
/// prefix, latest rendered value and suffix.
pub open spec fn composed(segs: Seq<StatusSegment>) -> Seq<char> {
    composed_upto(segs, segs.len() as int)
}

/// The status-bar scheduler: the ordered segments of the bar.
pub struct BarScheduler {
    pub segments: Vec<StatusSegment>,
}

impl BarScheduler {
    /// A scheduler with no segments.
    pub fn new() -> (r: BarScheduler)
        ensures
            r.segments@.len() == 0,
    {
        BarScheduler { segments: Vec::new() }
    }

    /// Append a segment to the end of the bar.
    pub fn add_segment(&mut self, seg: StatusSegment)
        ensures
            final(self).segments@ == old(self).segments@.push(seg),
    {
        self.segments.push(seg);
    }

    /// The earliest deadline among all segments: the instant the
    /// scheduler next needs to wake up.
    pub fn next_deadline(&self) -> (r: Option<u64>)
        ensures
            match r {
                Some(d) => (exists|i: int|
                    0 <= i < self.segments@.len() && (#[trigger] self.segments@[i]).next_due == d)
                    && forall|i: int|
                    0 <= i < self.segments@.len() ==> (#[trigger] self.segments@[i]).next_due >= d,
                None => self.segments@.len() == 0,
            },
    {
        if self.segments.len() == 0 {
            return None;
        }
        let mut best: u64 = self.segments[0].next_due;
        let mut i: usize = 1;
        while i < self.segments.len()
            invariant
                1 <= i <= self.segments@.len(),
                exists|j: int|
                    0 <= j < i && (#[trigger] self.segments@[j]).next_due == best,
                forall|j: int| 0 <= j < i ==> (#[trigger] self.segments@[j]).next_due >= best,
            decreases self.segments@.len() - i,
        {
            if self.segments[i].next_due < best {
                best = self.segments[i].next_due;
            }
            i = i + 1;
        }
        Some(best)
    }

    /// The first segment whose deadline has been reached, if any.
    pub fn due_segment(&self, now: u64) -> (r: Option<usize>)
        ensures
            match r {
                Some(i) => i < self.segments@.len() && self.segments@[i as int].next_due <= now
                    && forall|j: int|
                    0 <= j < i ==> (#[trigger] self.segments@[j]).next_due > now,
                None => forall|j: int|
                    0 <= j < self.segments@.len() ==> (#[trigger] self.segments@[j]).next_due
                        > now,
            },
    {
        let mut i: usize = 0;
        while i < self.segments.len()
            invariant
                i <= self.segments@.len(),
                forall|j: int| 0 <= j < i ==> (#[trigger] self.segments@[j]).next_due > now,
            decreases self.segments@.len() - i,
        {
            if self.segments[i].next_due <= now {
                return Some(i);
            }
            i = i + 1;
        }
        None
    }

    /// Move a segment's deadline one interval onward, from the scheduled
    /// instant (never from when its refresh finished), saturating at the
    /// largest representable instant. Nothing else changes, so a slow
    /// source cannot make intervals drift.
    pub fn advance(&mut self, i: usize)
        requires
            i < old(self).segments@.len(),
        ensures
            final(self).segments@.len() == old(self).segments@.len(),
            final(self).segments@[i as int].next_due == (if old(self).segments@[i as int].next_due
                + old(self).segments@[i as int].interval <= u64::MAX {
                old(self).segments@[i as int].next_due + old(self).segments@[i as int].interval
            } else {
                u64::MAX as int
            }),
            final(self).segments@[i as int].prefix == old(self).segments@[i as int].prefix,
            final(self).segments@[i as int].suffix == old(self).segments@[i as int].suffix,
            final(self).segments@[i as int].rendered == old(self).segments@[i as int].rendered,
            final(self).segments@[i as int].interval == old(self).segments@[i as int].interval,
            final(self).segments@[i as int].color == old(self).segments@[i as int].color,
            final(self).segments@[i as int].underline == old(self).segments@[i as int].underline,
            forall|j: int|
                0 <= j < old(self).segments@.len() && j != i ==> final(self).segments@[j] == old(
                    self,
                ).segments@[j],
    {
        let due = self.segments[i].next_due;
        let step = self.segments[i].interval;
        let bumped: u64 = if due <= u64::MAX - step {
            due + step
        } else {
            u64::MAX
        };
        let seg = &mut self.segments[i];
        seg.next_due = bumped;
    }

    /// Take the outcome of one refresh. A successful sample replaces the
    /// rendered text; a failed or timed-out one (`None`) keeps the
    /// previous text in place, indefinitely if the source never
    /// recovers. Deadlines and every other segment are untouched.
    pub fn apply_result(&mut self, i: usize, outcome: Option<String>)
        requires
            i < old(self).segments@.len(),
        ensures
            final(self).segments@.len() == old(self).segments@.len(),
            match outcome {
                Some(text) => final(self).segments@[i as int].rendered == text,
                None => final(self).segments@[i as int].rendered == old(self).segments@[i
                    as int].rendered,
            },
            final(self).segments@[i as int].prefix == old(self).segments@[i as int].prefix,
            final(self).segments@[i as int].suffix == old(self).segments@[i as int].suffix,
            final(self).segments@[i as int].next_due == old(self).segments@[i as int].next_due,
            final(self).segments@[i as int].interval == old(self).segments@[i as int].interval,
            final(self).segments@[i as int].color == old(self).segments@[i as int].color,
            final(self).segments@[i as int].underline == old(self).segments@[i as int].underline,
            forall|j: int|
                0 <= j < old(self).segments@.len() && j != i ==> final(self).segments@[j] == old(
                    self,
                ).segments@[j],
    {
        match outcome {
            Some(text) => {
                let seg = &mut self.segments[i];
                seg.rendered = text;
            },
            None => {},
        }
    }

    /// The composed bar text: every segment's prefix, latest value and
    /// suffix, in bar order. Cheap enough to recompute on every tick.
    pub fn compose(&self) -> (r: String)
        ensures
            r@ == composed(self.segments@),
    {
        let mut acc = String::new();
        let mut i: usize = 0;
        while i < self.segments.len()
            invariant
                i <= self.segments@.len(),
                acc@ == composed_upto(self.segments@, i as int),
            decreases self.segments@.len() - i,
        {
            acc.append(self.segments[i].prefix.as_str());
            acc.append(self.segments[i].rendered.as_str());
            acc.append(self.segments[i].suffix.as_str());
            i = i + 1;
        }
        acc
    }
}

} // verus!
