//! Recording which `$`-names a piece of evaluation reads.
//!
//! While the body of a module call runs whose result may be remembered, a capture notes every
//! `$`-name that the body reads from at or above the frame that the call was entered in, with
//! what it meant. Captures nest like the calls do.

use vstd::prelude::*;

use crate::ast::{is_special, special, Name};
use crate::scope::{
    find, frame_at, links_ok, meaning, onward, scope_ok, store_ok, Cell, Node, Scope, Store,
};
use crate::value::{Val, Value};

verus! {

/// What a `$`-name meant when it was read. Being unbound is its own outcome, apart from being
/// bound to `undef`.
#[derive(Debug)]
pub enum ReadValue {
    Bound(Value),
    Unbound,
}

impl View for ReadValue {
    type V = Option<Val>;

    open spec fn view(&self) -> Option<Val> {
        match *self {
            ReadValue::Bound(v) => Some(v@),
            ReadValue::Unbound => None,
        }
    }
}

impl Clone for ReadValue {
    fn clone(&self) -> (r: Self)
        ensures
            r == *self,
    {
        match self {
            ReadValue::Bound(v) => ReadValue::Bound(v.clone()),
            ReadValue::Unbound => ReadValue::Unbound,
        }
    }
}

/// One capture: the frame of the call, and the reads so far.
#[derive(Debug)]
pub struct Capture {
    pub entry: usize,
    pub reads: Vec<(Name, ReadValue)>,
}

/// Some reads, mathematically.
pub open spec fn reads_of(rs: Seq<(Name, ReadValue)>) -> Seq<(Seq<char>, Option<Val>)> {
    Seq::new(rs.len(), |i: int| (rs[i].0@, rs[i].1@))
}

/// A capture, mathematically.
pub struct Cap {
    pub entry: usize,
    pub reads: Seq<(Seq<char>, Option<Val>)>,
}

impl View for Capture {
    type V = Cap;

    open spec fn view(&self) -> Cap {
        Cap { entry: self.entry, reads: reads_of(self.reads@) }
    }
}

/// The open captures, innermost last. Nothing is recorded while `suppress` is above zero.
#[derive(Debug)]
pub struct CaptureStack {
    pub caps: Vec<Capture>,
    pub suppress: u32,
}

/// The open captures, mathematically.
pub struct Recorder {
    pub caps: Seq<Cap>,
    pub suppress: u32,
}

impl View for CaptureStack {
    type V = Recorder;

    open spec fn view(&self) -> Recorder {
        Recorder {
            caps: Seq::new(self.caps@.len(), |i: int| self.caps@[i]@),
            suppress: self.suppress,
        }
    }
}

/// Whether reads are recorded at all.
pub open spec fn live(rec: Recorder) -> bool {
    rec.caps.len() > 0 && rec.suppress == 0
}

/// How many captures a walk has crossed once it passes the frame `boundary`, innermost first.
pub open spec fn cross(caps: Seq<Cap>, seen: nat, boundary: usize) -> nat
    decreases caps.len() - seen,
{
    if seen < caps.len() && caps[caps.len() - 1 - seen].entry == boundary {
        cross(caps, seen + 1, boundary)
    } else {
        seen
    }
}

/// The walk of a lookup from `at`: what it finds, and how many captures it has crossed by then.
/// `last` is the frame that was passed last, `seen` the captures crossed so far.
pub open spec fn walk(
    st: Seq<Cell>,
    caps: Seq<Cap>,
    at: int,
    name: Seq<char>,
    last: Option<usize>,
    seen: nat,
) -> (Option<Val>, nat)
    decreases at,
{
    if !(0 <= at < st.len()) {
        (None, seen)
    } else {
        let frame = frame_at(st, at);
        let now = if last == Some(frame) {
            seen
        } else {
            cross(caps, seen, frame)
        };
        if st[at] is Var && st[at]->name == name {
            (Some(st[at]->value), now)
        } else {
            match onward(st[at], name) {
                Some(p) => if p < at {
                    walk(st, caps, p as int, name, Some(frame), now)
                } else {
                    (None, now)
                },
                None => (None, now),
            }
        }
    }
}

/// Whether a name is among some reads.
pub open spec fn is_read(reads: Seq<(Seq<char>, Option<Val>)>, name: Seq<char>) -> bool {
    exists|i: int| 0 <= i < reads.len() && (#[trigger] reads[i]).0 == name
}

/// A capture after one more read: the first read of a name is the one that counts.
pub open spec fn noted(c: Cap, name: Seq<char>, value: Option<Val>) -> Cap {
    if is_read(c.reads, name) {
        c
    } else {
        Cap { entry: c.entry, reads: c.reads.push((name, value)) }
    }
}

/// The captures after a read that crossed the innermost `seen` of them.
pub open spec fn recorded(caps: Seq<Cap>, seen: nat, name: Seq<char>, value: Option<Val>) -> Seq<Cap> {
    Seq::new(
        caps.len(),
        |i: int|
            if i >= caps.len() - seen {
                noted(caps[i], name, value)
            } else {
                caps[i]
            },
    )
}

/// The captures after a name was read in a scope.
pub open spec fn after_read(st: Seq<Cell>, rec: Recorder, s: Scope, name: Seq<char>) -> Recorder {
    if special(name) && live(rec) {
        let (value, seen) = walk(st, rec.caps, s.at as int, name, None, 0);
        Recorder { caps: recorded(rec.caps, seen, name, value), suppress: rec.suppress }
    } else {
        rec
    }
}

proof fn lemma_cross_bound(caps: Seq<Cap>, seen: nat, boundary: usize)
    requires
        seen <= caps.len(),
    ensures
        seen <= cross(caps, seen, boundary) <= caps.len(),
    decreases caps.len() - seen,
{
    if seen < caps.len() && caps[caps.len() - 1 - seen].entry == boundary {
        lemma_cross_bound(caps, seen + 1, boundary);
    }
}

/// Recording does not change what a lookup finds.
pub proof fn law_recording_is_invisible(
    st: Seq<Cell>,
    caps: Seq<Cap>,
    at: int,
    name: Seq<char>,
    last: Option<usize>,
    seen: nat,
)
    ensures
        walk(st, caps, at, name, last, seen).0 == find(st, at, name),
    decreases at,
{
    if 0 <= at < st.len() {
        let frame = frame_at(st, at);
        let now = if last == Some(frame) {
            seen
        } else {
            cross(caps, seen, frame)
        };
        if !(st[at] is Var && st[at]->name == name) {
            match onward(st[at], name) {
                Some(p) => if p < at {
                    law_recording_is_invisible(st, caps, p as int, name, Some(frame), now);
                },
                None => {},
            }
        }
    }
}

/// The first read of a name wins: reading it again changes nothing.
pub proof fn law_first_read_wins(caps: Seq<Cap>, seen: nat, name: Seq<char>, a: Option<Val>, b: Option<Val>)
    requires
        seen <= caps.len(),
    ensures
        recorded(recorded(caps, seen, name, a), seen, name, b) == recorded(caps, seen, name, a),
{
    let once = recorded(caps, seen, name, a);
    assert forall|i: int| 0 <= i < caps.len() && i >= caps.len() - seen implies is_read(
        (#[trigger] once[i]).reads,
        name,
    ) by {
        if !is_read(caps[i].reads, name) {
            assert(once[i].reads[caps[i].reads.len() as int].0 == name);
        }
    }
    assert(recorded(once, seen, name, b) =~= once);
}

impl Capture {
    fn note(&mut self, name: &str, value: &ReadValue)
        ensures
            final(self)@ == noted(old(self)@, name@, value@),
    {
        let ghost before = self@;
        let wanted: String = name.to_owned();
        let mut i: usize = 0;
        while i < self.reads.len()
            invariant
                self@ == before,
                i <= self.reads@.len(),
                wanted@ == name@,
                forall|k: int| 0 <= k < i ==> (#[trigger] before.reads[k]).0 != name@,
            decreases self.reads@.len() - i,
        {
            assert(before.reads[i as int].0 == self.reads@[i as int].0@);
            if *self.reads[i].0 == wanted {
                assert(is_read(before.reads, name@));
                return ;
            }
            i += 1;
        }
        self.reads.push((std::rc::Rc::new(wanted), value.clone()));
        assert(self@.reads =~= before.reads.push((name@, value@)));
    }
}

impl CaptureStack {
    /// No captures.
    pub fn new() -> (r: CaptureStack)
        ensures
            r@.caps == Seq::<Cap>::empty(),
            r@.suppress == 0,
    {
        let r = CaptureStack { caps: Vec::new(), suppress: 0 };
        assert(r@.caps =~= Seq::<Cap>::empty());
        r
    }

    /// Opens a capture for the call whose frame is `entry`.
    pub fn open_capture(&mut self, entry: usize)
        ensures
            final(self)@ == (Recorder {
                caps: old(self)@.caps.push(Cap { entry, reads: Seq::empty() }),
                suppress: old(self)@.suppress,
            }),
    {
        let c = Capture { entry, reads: Vec::new() };
        assert(c@.reads =~= Seq::<(Seq<char>, Option<Val>)>::empty());
        self.caps.push(c);
        assert(self@.caps =~= old(self)@.caps.push(Cap { entry, reads: Seq::empty() }));
    }

    /// Closes the innermost capture, where it is the one for `entry`.
    pub fn close_capture(&mut self, entry: usize)
        ensures
            final(self)@.suppress == old(self)@.suppress,
            final(self)@.caps == if old(self)@.caps.len() > 0 && old(self)@.caps.last().entry
                == entry {
                old(self)@.caps.drop_last()
            } else {
                old(self)@.caps
            },
    {
        let n: usize = self.caps.len();
        if n > 0 {
            assert(self@.caps.last() == self.caps@[n - 1]@);
            if self.caps[n - 1].entry == entry {
                self.caps.pop();
                assert(self@.caps =~= old(self)@.caps.drop_last());
            }
        }
    }

    /// The reads of the innermost capture, where it is the one for `entry`.
    pub fn capture_reads(&self, entry: usize) -> (r: Option<Vec<(Name, ReadValue)>>)
        ensures
            match r {
                Some(v) => self@.caps.len() > 0 && self@.caps.last().entry == entry && reads_of(v@)
                    == self@.caps.last().reads,
                None => self@.caps.len() == 0 || self@.caps.last().entry != entry,
            },
    {
        let n: usize = self.caps.len();
        if n == 0 {
            return None;
        }
        assert(self@.caps.last() == self.caps@[n - 1]@);
        if self.caps[n - 1].entry != entry {
            return None;
        }
        let top: &Capture = &self.caps[n - 1];
        let mut out: Vec<(Name, ReadValue)> = Vec::new();
        let mut i: usize = 0;
        while i < top.reads.len()
            invariant
                i <= top.reads@.len(),
                out@.len() == i,
                forall|k: int| 0 <= k < i ==> (#[trigger] out@[k]) == top.reads@[k],
            decreases top.reads@.len() - i,
        {
            out.push((top.reads[i].0.clone(), top.reads[i].1.clone()));
            i += 1;
        }
        assert(reads_of(out@) =~= top@.reads);
        Some(out)
    }

    /// Whether a capture is open.
    pub fn captures_active(&self) -> (r: bool)
        ensures
            r == (self@.caps.len() > 0),
    {
        self.caps.len() > 0
    }

    /// Stops recording, until the matching [`CaptureStack::resume`].
    pub fn suppressed(&mut self)
        requires
            old(self)@.suppress < u32::MAX,
        ensures
            final(self)@ == (Recorder {
                caps: old(self)@.caps,
                suppress: (old(self)@.suppress + 1) as u32,
            }),
    {
        self.suppress = self.suppress + 1;
        assert(self@.caps =~= old(self)@.caps);
    }

    /// Ends one stop of the recording.
    pub fn resume(&mut self)
        requires
            old(self)@.suppress > 0,
        ensures
            final(self)@ == (Recorder {
                caps: old(self)@.caps,
                suppress: (old(self)@.suppress - 1) as u32,
            }),
    {
        self.suppress = self.suppress - 1;
        assert(self@.caps =~= old(self)@.caps);
    }

    /// Forgets all captures and ends all stops.
    pub fn reset_thread_state(&mut self)
        ensures
            final(self)@.caps == Seq::<Cap>::empty(),
            final(self)@.suppress == 0,
    {
        self.caps = Vec::new();
        self.suppress = 0;
        assert(self@.caps =~= Seq::<Cap>::empty());
    }

    /// Reads a name in a scope, and records it where it is a `$`-name and a capture is crossed.
    pub fn read(&mut self, store: &Store, scope: Scope, name: &str) -> (r: Option<Value>)
        requires
            store_ok(store@),
            scope_ok(store@, scope),
        ensures
            match r {
                Some(v) => meaning(store@, scope, name@) == Some(v@),
                None => meaning(store@, scope, name@) is None,
            },
            final(self)@ == after_read(store@, old(self)@, scope, name@),
    {
        let r: Option<Value> = scope.lookup_opt(store, name);
        if !is_special(name) {
            return r;
        }
        let mut w: ReadWalk = ReadWalk::begin(self);
        if !w.live {
            return r;
        }
        let wanted: String = name.to_owned();
        let mut at: usize = scope.at;
        let mut last: Option<usize> = None;
        let ghost caps = self@.caps;
        proof {
            law_recording_is_invisible(store@, caps, at as int, name@, None, 0);
        }
        loop
            invariant_except_break
                store_ok(store@),
                at < store@.len(),
                special(name@),
                wanted@ == name@,
                caps == self@.caps,
                w.n == caps.len(),
                w.live,
                w.seen <= caps.len(),
                *self == *old(self),
                walk(store@, caps, at as int, name@, last, w.seen as nat) == walk(
                    store@,
                    caps,
                    scope.at as int,
                    name@,
                    None,
                    0,
                ),
            ensures
                *self == *old(self),
                w.n == caps.len(),
                w.live,
                w.seen <= caps.len(),
                w.seen == walk(store@, caps, scope.at as int, name@, None, 0).1,
            decreases at,
        {
            assert(links_ok(store@, at as int));
            let frame: usize = (Scope { at }).boundary_id(store);
            let fresh: bool = match last {
                Some(l) => l != frame,
                None => true,
            };
            if fresh {
                w.visit(self, frame);
            }
            last = Some(frame);
            let next: Option<usize> = match &store.nodes[at] {
                Node::Var { name: n, next, .. } => {
                    if **n == wanted {
                        None
                    } else {
                        Some(*next)
                    }
                },
                Node::Frame { dynamic, .. } => *dynamic,
            };
            match next {
                Some(p) => {
                    at = p;
                },
                None => {
                    break ;
                },
            }
        }
        let value: ReadValue = match &r {
            Some(v) => ReadValue::Bound(v.clone()),
            None => ReadValue::Unbound,
        };
        w.record(self, name, &value);
        r
    }
}

/// One walk over the frames of a lookup: how many captures were open when it began, how many it
/// has crossed, and whether reads are recorded.
#[derive(Debug)]
pub struct ReadWalk {
    pub n: usize,
    pub seen: usize,
    pub live: bool,
}

impl ReadWalk {
    /// Begins a walk.
    pub fn begin(stack: &CaptureStack) -> (r: ReadWalk)
        ensures
            r.n == stack@.caps.len(),
            r.seen == 0,
            r.live == live(stack@),
    {
        ReadWalk { n: stack.caps.len(), seen: 0, live: stack.caps.len() > 0 && stack.suppress == 0 }
    }

    /// Passes a frame.
    pub fn visit(&mut self, stack: &CaptureStack, boundary: usize)
        requires
            old(self).n == stack@.caps.len(),
            old(self).seen <= old(self).n,
        ensures
            final(self).n == old(self).n,
            final(self).live == old(self).live,
            final(self).seen == if old(self).live {
                cross(stack@.caps, old(self).seen as nat, boundary)
            } else {
                old(self).seen as nat
            },
            final(self).seen <= final(self).n,
    {
        if !self.live {
            return ;
        }
        let ghost caps = stack@.caps;
        let ghost target = cross(caps, self.seen as nat, boundary);
        proof {
            lemma_cross_bound(caps, self.seen as nat, boundary);
        }
        while self.seen < self.n && stack.caps[self.n - 1 - self.seen].entry == boundary
            invariant
                caps == stack@.caps,
                self.n == caps.len(),
                self.n == old(self).n,
                self.live == old(self).live,
                self.seen <= self.n,
                cross(caps, self.seen as nat, boundary) == target,
            decreases self.n - self.seen,
        {
            assert(caps[self.n - 1 - self.seen] == stack.caps@[self.n - 1 - self.seen]@);
            self.seen = self.seen + 1;
        }
        if self.seen < self.n {
            assert(caps[self.n - 1 - self.seen] == stack.caps@[self.n - 1 - self.seen]@);
        }
    }

    /// Records what the walk found in every capture that it crossed.
    pub fn record(&self, stack: &mut CaptureStack, name: &str, value: &ReadValue)
        requires
            self.n == old(stack)@.caps.len(),
            self.seen <= self.n,
        ensures
            final(stack)@ == (Recorder {
                caps: if self.live {
                    recorded(old(stack)@.caps, self.seen as nat, name@, value@)
                } else {
                    old(stack)@.caps
                },
                suppress: old(stack)@.suppress,
            }),
    {
        if !self.live {
            return ;
        }
        let ghost caps = stack@.caps;
        let from: usize = self.n - self.seen;
        let mut i: usize = from;
        let n: usize = stack.caps.len();
        while i < n
            invariant
                from <= i <= n,
                n == caps.len(),
                from == caps.len() - self.seen,
                stack@.suppress == old(stack)@.suppress,
                stack@.caps.len() == caps.len(),
                forall|k: int|
                    0 <= k < n ==> #[trigger] stack@.caps[k] == if from <= k < i {
                        noted(caps[k], name@, value@)
                    } else {
                        caps[k]
                    },
            decreases n - i,
        {
            assert(stack@.caps[i as int] == stack.caps@[i as int]@);
            let ghost was = stack@.caps;
            let ghost raw = stack.caps@;
            stack.caps[i].note(name, value);
            assert(forall|k: int|
                0 <= k < n && k != i ==> #[trigger] stack@.caps[k] == was[k]) by {
                assert(forall|k: int| 0 <= k < n && k != i ==> stack.caps@[k] == raw[k]);
            }
            assert(stack@.caps[i as int] == stack.caps@[i as int]@);
            i += 1;
        }
        assert(stack@.caps =~= recorded(caps, self.seen as nat, name@, value@));
    }
}

/// Only reads of `$`-names are recorded, and only while nothing suppresses it. A read is recorded with the captures that
/// it crosses, which are the innermost ones, under its name and with what it found; the others stay as they are.
pub proof fn law_reads_are_recorded(
    st: Seq<Cell>,
    rec: Recorder,
    s: Scope,
    caps: Seq<Cap>,
    seen: nat,
    name: Seq<char>,
    value: Option<Val>,
    i: int,
)
    requires
        seen <= caps.len(),
        0 <= i < caps.len(),
    ensures
        !special(name) || rec.suppress != 0 || rec.caps.len() == 0 ==> after_read(st, rec, s, name) == rec,
        i < caps.len() - seen ==> recorded(caps, seen, name, value)[i] == caps[i],
        i >= caps.len() - seen ==> is_read(recorded(caps, seen, name, value)[i].reads, name) && recorded(
            caps,
            seen,
            name,
            value,
        )[i].entry == caps[i].entry,
        i >= caps.len() - seen && !is_read(caps[i].reads, name) ==> recorded(caps, seen, name, value)[i].reads
            == caps[i].reads.push((name, value)),
{
    let c = recorded(caps, seen, name, value)[i];
    if i >= caps.len() - seen && !is_read(caps[i].reads, name) {
        assert(c.reads[caps[i].reads.len() as int].0 == name);
    }
}

}
