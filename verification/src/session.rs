//! The decisions the front ends take while a scan streams in: the command-line
//! client's reading of frames, the GUI's handling of scan messages, and the
//! batching of entries between the transport thread and the GUI.

use crate::human::{decimal, human, human_text, lemma_decimal_numeral, numeral_of, push_decimal};
use crate::model::{extend_ok, is_root, kids, push_ok, Tree};
use crate::wire::{Entry, Frame, Summary, KIND_DIR};
use vstd::prelude::*;

verus! {

broadcast use vstd::string::group_string_axioms;

/// Entries are handed from the transport thread to the GUI in batches of this size.
pub const BATCH_SIZE: usize = 512;

/// A message from the transport thread to the GUI.
pub enum Msg {
    Status(String),
    Log(String),
    Header { root: String },
    Batch(Vec<Entry>),
    Done(Summary),
    Error(String),
}

/// Whether reading goes on after a frame.
#[derive(Debug, Clone, Copy, PartialEq, Eq, Structural)]
pub enum Step {
    Continue,
    Stop,
}

/// The stream ended without a header frame.
#[derive(Debug, Clone, Copy, PartialEq, Eq, Structural)]
pub enum StreamError {
    NoHeader,
}

/// The status line for a finished scan.
pub open spec fn done_text(s: Summary) -> Seq<char> {
    "done: "@ + decimal(s.entries as nat) + " entries, "@ + human_text(s.bytes) + ", "@ + decimal(
        s.errors as nat,
    ) + " errors, "@ + decimal(s.elapsed_ms as nat) + "ms"@
}

/// The status line of a finished scan gives the entry count, the byte count
/// in human form, the error count and the elapsed milliseconds, each number
/// written out in full as its usual decimal numeral.
pub proof fn lemma_done_text_numbers(s: Summary)
    ensures
        exists|d1: Seq<char>, d2: Seq<char>, d3: Seq<char>|
            #![trigger numeral_of(d1, s.entries as int), numeral_of(d2, s.errors as int), numeral_of(d3, s.elapsed_ms as int)]
            {
                &&& numeral_of(d1, s.entries as int)
                &&& numeral_of(d2, s.errors as int)
                &&& numeral_of(d3, s.elapsed_ms as int)
                &&& done_text(s) == "done: "@ + d1 + " entries, "@ + human_text(s.bytes) + ", "@ + d2
                    + " errors, "@ + d3 + "ms"@
            },
{
    lemma_decimal_numeral(s.entries as nat);
    lemma_decimal_numeral(s.errors as nat);
    lemma_decimal_numeral(s.elapsed_ms as nat);
}

/// `done: <entries> entries, <bytes>, <errors> errors, <elapsed>ms`.
pub fn done_status(s: &Summary) -> (r: String)
    ensures
        r@ == done_text(*s),
{
    let mut out = String::new();
    out.append("done: ");
    push_decimal(&mut out, s.entries as u128);
    out.append(" entries, ");
    let h = human(s.bytes);
    out.append(h.as_str());
    out.append(", ");
    push_decimal(&mut out, s.errors as u128);
    out.append(" errors, ");
    push_decimal(&mut out, s.elapsed_ms as u128);
    out.append("ms");
    out
}

/// The command-line client's state while it reads the stream.
pub struct StreamState {
    pub tree: Tree,
    pub header_seen: bool,
}

impl StreamState {
    pub fn new() -> (r: StreamState)
        ensures
            r.tree.wf(),
            r.tree.entries@.len() == 0,
            !r.header_seen,
    {
        StreamState { tree: Tree::new(), header_seen: false }
    }

    /// Takes one frame: a header is noted, an entry is pushed into the tree,
    /// a summary ends the reading.
    pub fn on_frame(&mut self, frame: Frame) -> (step: Step)
        requires
            old(self).tree.wf(),
            frame matches Frame::Entry(e) ==> old(self).tree.entries@.len() < usize::MAX && push_ok(
                old(self).tree.entries@,
                e,
            ),
        ensures
            final(self).tree.wf(),
            match frame {
                Frame::Header(_) => {
                    &&& step == Step::Continue
                    &&& final(self).header_seen
                    &&& final(self).tree.entries@ == old(self).tree.entries@
                },
                Frame::Entry(e) => {
                    &&& step == Step::Continue
                    &&& final(self).header_seen == old(self).header_seen
                    &&& final(self).tree.entries@ == old(self).tree.entries@.push(e)
                },
                Frame::Summary(_) => {
                    &&& step == Step::Stop
                    &&& final(self).header_seen == old(self).header_seen
                    &&& final(self).tree.entries@ == old(self).tree.entries@
                },
            },
    {
        match frame {
            Frame::Header(_) => {
                self.header_seen = true;
                Step::Continue
            },
            Frame::Entry(e) => {
                self.tree.push(e);
                Step::Continue
            },
            Frame::Summary(_) => Step::Stop,
        }
    }

    /// At the end of the stream: an error when no header came.
    pub fn finish(&self) -> (r: Result<(), StreamError>)
        ensures
            r == (if self.header_seen {
                Ok::<(), StreamError>(())
            } else {
                Err(StreamError::NoHeader)
            }),
    {
        if self.header_seen {
            Ok(())
        } else {
            Err(StreamError::NoHeader)
        }
    }
}

/// The entries carried by the batches among `msgs`, in order.
pub open spec fn handed_out(msgs: Seq<Msg>) -> Seq<Entry>
    decreases msgs.len(),
{
    if msgs.len() == 0 {
        Seq::empty()
    } else {
        handed_out(msgs.drop_last()) + match msgs.last() {
            Msg::Batch(b) => b@,
            _ => Seq::empty(),
        }
    }
}

/// `m` is a batch holding `b`.
pub open spec fn is_batch(m: Msg, b: Seq<Entry>) -> bool {
    m matches Msg::Batch(v) && v@ == b
}

/// How many batches flushing `b` sends: one unless it is empty.
pub open spec fn flushed(b: Seq<Entry>) -> nat {
    if b.len() > 0 {
        1
    } else {
        0
    }
}

/// The entry that a read brought, if it brought one.
pub open spec fn entries_read(read: Result<Option<Frame>, String>) -> Seq<Entry> {
    match read {
        Ok(Some(Frame::Entry(e))) => seq![e],
        _ => Seq::empty(),
    }
}

/// Reading goes on after a header or an entry, and stops otherwise.
pub open spec fn step_after(read: Result<Option<Frame>, String>) -> Step {
    match read {
        Ok(Some(Frame::Header(_))) => Step::Continue,
        Ok(Some(Frame::Entry(_))) => Step::Continue,
        _ => Step::Stop,
    }
}

proof fn lemma_handed_out_push_other(msgs: Seq<Msg>, m: Msg)
    requires
        !(m is Batch),
    ensures
        handed_out(msgs.push(m)) == handed_out(msgs),
{
    assert(msgs.push(m).drop_last() =~= msgs);
    assert(handed_out(msgs) + Seq::<Entry>::empty() =~= handed_out(msgs));
}

/// Entries collected by the transport thread until a batch is full.
pub struct Batcher {
    pub batch: Vec<Entry>,
}

impl Batcher {
    pub fn new() -> (b: Batcher)
        ensures
            b.batch@.len() == 0,
    {
        Batcher { batch: Vec::new() }
    }

    /// Adds an entry; hands back the batch once it holds `BATCH_SIZE` entries.
    pub fn on_entry(&mut self, e: Entry) -> (r: Option<Vec<Entry>>)
        requires
            old(self).batch@.len() < BATCH_SIZE,
        ensures
            final(self).batch@.len() < BATCH_SIZE,
            old(self).batch@.len() + 1 >= BATCH_SIZE ==> (r matches Some(full) && full@ == old(
                self,
            ).batch@.push(e) && final(self).batch@.len() == 0),
            old(self).batch@.len() + 1 < BATCH_SIZE ==> (r is None && final(self).batch@ == old(
                self,
            ).batch@.push(e)),
    {
        self.batch.push(e);
        if self.batch.len() >= BATCH_SIZE {
            let mut full: Vec<Entry> = Vec::new();
            std::mem::swap(&mut full, &mut self.batch);
            Some(full)
        } else {
            None
        }
    }

    /// At the summary: hands back what is left, if anything.
    pub fn take_rest(&mut self) -> (r: Option<Vec<Entry>>)
        ensures
            final(self).batch@.len() == 0,
            old(self).batch@.len() > 0 ==> (r matches Some(rest) && rest@ == old(self).batch@),
            old(self).batch@.len() == 0 ==> r is None,
    {
        if self.batch.len() > 0 {
            let mut rest: Vec<Entry> = Vec::new();
            std::mem::swap(&mut rest, &mut self.batch);
            Some(rest)
        } else {
            None
        }
    }

    /// Takes the outcome of reading one frame and returns the messages to send
    /// on, with whether reading goes on. A header is passed on; an entry joins
    /// the batch, which is sent once full; when the stream ends (a summary, its
    /// clean end, or a read error) the entries still held are sent first, then
    /// the summary or the error. Every entry read is sent on exactly once, in
    /// the order read.
    pub fn on_read(&mut self, read: Result<Option<Frame>, String>) -> (r: (Vec<Msg>, Step))
        requires
            old(self).batch@.len() < BATCH_SIZE,
        ensures
            final(self).batch@.len() < BATCH_SIZE,
            handed_out(r.0@) + final(self).batch@ == old(self).batch@ + entries_read(read),
            r.1 == step_after(read),
            r.1 == Step::Stop ==> final(self).batch@.len() == 0,
            read matches Ok(Some(Frame::Header(h))) ==> {
                &&& r.0@.len() == 1
                &&& r.0@[0] matches Msg::Header { root } && root@ == h.root@
            },
            read matches Ok(Some(Frame::Entry(e))) ==> if old(self).batch@.len() + 1 >= BATCH_SIZE {
                &&& r.0@.len() == 1
                &&& is_batch(r.0@[0], old(self).batch@.push(e))
            } else {
                r.0@.len() == 0
            },
            read matches Ok(Some(Frame::Summary(sm))) ==> {
                &&& r.0@.len() == flushed(old(self).batch@) + 1
                &&& old(self).batch@.len() > 0 ==> is_batch(r.0@[0], old(self).batch@)
                &&& r.0@.last() == Msg::Done(sm)
            },
            read is Ok && read->Ok_0 is None ==> {
                &&& r.0@.len() == flushed(old(self).batch@)
                &&& old(self).batch@.len() > 0 ==> is_batch(r.0@[0], old(self).batch@)
            },
            read matches Err(t) ==> {
                &&& r.0@.len() == flushed(old(self).batch@) + 1
                &&& old(self).batch@.len() > 0 ==> is_batch(r.0@[0], old(self).batch@)
                &&& r.0@.last() matches Msg::Error(m) && m@ == t@
            },
    {
        let ghost b0 = self.batch@;
        let mut out: Vec<Msg> = Vec::new();
        match read {
            Ok(Some(Frame::Header(h))) => {
                out.push(Msg::Header { root: h.root });
                proof {
                    reveal_with_fuel(handed_out, 2);
                    assert(handed_out(out@) + self.batch@ =~= b0 + Seq::<Entry>::empty());
                }
                (out, Step::Continue)
            },
            Ok(Some(Frame::Entry(e))) => {
                let ghost ev = e;
                match self.on_entry(e) {
                    Some(full) => {
                        out.push(Msg::Batch(full));
                        proof {
                            reveal_with_fuel(handed_out, 2);
                            assert(handed_out(out@) =~= b0.push(ev));
                        }
                    },
                    None => {
                        assert(handed_out(out@) + self.batch@ =~= b0 + seq![ev]);
                    },
                }
                proof {
                    assert(handed_out(out@) + self.batch@ =~= b0 + seq![ev]);
                }
                (out, Step::Continue)
            },
            Ok(Some(Frame::Summary(sm))) => {
                self.flush_into(&mut out);
                let ghost before = out@;
                out.push(Msg::Done(sm));
                proof {
                    assert(before.push(out@.last()) =~= out@);
                    lemma_handed_out_push_other(before, out@.last());
                    assert(handed_out(out@) + self.batch@ =~= b0 + Seq::<Entry>::empty());
                }
                (out, Step::Stop)
            },
            Ok(None) => {
                self.flush_into(&mut out);
                assert(handed_out(out@) + self.batch@ =~= b0 + Seq::<Entry>::empty());
                (out, Step::Stop)
            },
            Err(t) => {
                self.flush_into(&mut out);
                let ghost before = out@;
                out.push(Msg::Error(t));
                proof {
                    assert(before.push(out@.last()) =~= out@);
                    lemma_handed_out_push_other(before, out@.last());
                    assert(handed_out(out@) + self.batch@ =~= b0 + Seq::<Entry>::empty());
                }
                (out, Step::Stop)
            },
        }
    }

    /// Moves the entries still held, if any, into `out` as one batch.
    fn flush_into(&mut self, out: &mut Vec<Msg>)
        requires
            old(out)@.len() == 0,
        ensures
            final(self).batch@.len() == 0,
            final(out)@.len() == flushed(old(self).batch@),
            old(self).batch@.len() > 0 ==> is_batch(final(out)@[0], old(self).batch@),
            handed_out(final(out)@) == old(self).batch@,
    {
        let ghost b0 = self.batch@;
        match self.take_rest() {
            Some(rest) => {
                out.push(Msg::Batch(rest));
                proof {
                    reveal_with_fuel(handed_out, 2);
                    assert(handed_out(out@) =~= b0);
                }
            },
            None => {
                proof {
                    assert(out@ =~= Seq::<Msg>::empty());
                    assert(b0 =~= Seq::<Entry>::empty());
                }
            },
        }
    }
}

/// What the GUI shows while a scan streams in.
pub struct ViewState {
    pub tree: Tree,
    pub zoom: Vec<usize>,
    pub status: String,
}

/// The status line while a scan of `root` runs.
pub open spec fn scanning_text(root: Seq<char>) -> Seq<char> {
    "scanning "@ + root + "…"@
}

/// The status line after an error.
pub open spec fn error_text(e: Seq<char>) -> Seq<char> {
    "error: "@ + e
}

/// The message may be applied: a batch must be one the tree can take.
pub open spec fn msg_ok(tree: Tree, msg: Msg) -> bool {
    match msg {
        Msg::Batch(b) => tree.entries@.len() + b@.len() <= usize::MAX && extend_ok(tree.entries@, b@),
        _ => true,
    }
}

impl ViewState {
    pub fn new() -> (v: ViewState)
        ensures
            v.tree.wf(),
            v.tree.entries@.len() == 0,
            v.zoom@.len() == 0,
            v.status@.len() == 0,
    {
        ViewState { tree: Tree::new(), zoom: Vec::new(), status: String::new() }
    }

    /// Applies one message from the scan; returns whether the scan is over.
    /// A status replaces the status line; a header shows what is scanned; a
    /// batch is pushed into the tree, and the first root found becomes the
    /// zoom target when there is none yet; a summary or an error ends the
    /// scan with its status line; a log line changes nothing.
    pub fn apply(&mut self, msg: Msg) -> (done: bool)
        requires
            old(self).tree.wf(),
            msg_ok(old(self).tree, msg),
        ensures
            final(self).tree.wf(),
            applied(*old(self), msg, *final(self), done),
    {
        match msg {
            Msg::Status(s) => {
                self.status = s;
                false
            },
            Msg::Log(_) => false,
            Msg::Header { root } => {
                let mut t = String::new();
                t.append("scanning ");
                t.append(root.as_str());
                t.append("…");
                self.status = t;
                false
            },
            Msg::Batch(b) => {
                let ghost bv = b@;
                self.tree.extend(b);
                assert(self.tree.entries@ == old(self).tree.entries@ + bv);
                self.settle_zoom();
                false
            },
            Msg::Done(s) => {
                self.status = done_status(&s);
                true
            },
            Msg::Error(e) => {
                let mut t = String::new();
                t.append("error: ");
                t.append(e.as_str());
                self.status = t;
                true
            },
        }
    }

    /// Like [`ViewState::apply`], but a batch is checked entry by entry: at
    /// the first entry the tree cannot take (its parent chain loops, a size
    /// sum would overflow, or the tree is full) the batch stops there, the
    /// entries before it stay pushed, and its index in the batch comes back as
    /// the error.
    pub fn apply_checked(&mut self, msg: Msg) -> (r: Result<bool, usize>)
        requires
            old(self).tree.wf(),
        ensures
            final(self).tree.wf(),
            r is Ok <==> msg_ok(old(self).tree, msg),
            r matches Ok(done) ==> applied(*old(self), msg, *final(self), done),
            r matches Err(k) ==> {
                &&& msg matches Msg::Batch(b) && {
                    &&& k < b@.len()
                    &&& final(self).tree.entries@ == old(self).tree.entries@ + b@.take(k as int)
                    &&& final(self).tree.entries@.len() == usize::MAX || !push_ok(
                        final(self).tree.entries@,
                        b@[k as int],
                    )
                }
                &&& final(self).status@ == old(self).status@
                &&& final(self).zoom@ == old(self).zoom@
            },
    {
        match msg {
            Msg::Batch(b) => {
                let ghost bv = b@;
                match self.tree.try_extend(b) {
                    Ok(()) => {
                        self.settle_zoom();
                        Ok(false)
                    },
                    Err(k) => {
                        proof {
                            if extend_ok(old(self).tree.entries@, bv) {
                                crate::tree_laws::lemma_extend_ok_split(
                                    old(self).tree.entries@,
                                    bv.take(k as int),
                                    bv.skip(k as int),
                                );
                                assert(bv.take(k as int) + bv.skip(k as int) =~= bv);
                                assert(bv.skip(k as int)[0] == bv[k as int]);
                            }
                        }
                        Err(k)
                    },
                }
            },
            _ => Ok(self.apply(msg)),
        }
    }

    /// Makes the first root the zoom target when there is none yet.
    fn settle_zoom(&mut self)
        ensures
            final(self).tree == old(self).tree,
            final(self).status == old(self).status,
            settled_zoom(old(self).zoom@, final(self).tree.entries@, final(self).zoom@),
    {
        if self.zoom.len() == 0 {
            match self.tree.root_idx() {
                Some(r) => {
                    self.zoom.push(r);
                    assert(self.zoom@[0] == r);
                },
                None => {},
            }
        }
    }

    /// Whether there is a level to go up to.
    pub fn can_zoom_out(&self) -> (r: bool)
        ensures
            r == (self.zoom@.len() > 1),
    {
        self.zoom.len() > 1
    }

    /// Goes up one level: drops the innermost zoom target while an outer one
    /// is left.
    pub fn zoom_out(&mut self)
        ensures
            final(self).tree == old(self).tree,
            final(self).status == old(self).status,
            final(self).zoom@ == if old(self).zoom@.len() > 1 {
                old(self).zoom@.drop_last()
            } else {
                old(self).zoom@
            },
    {
        if self.zoom.len() > 1 {
            self.zoom.pop();
        }
    }

    /// Zooms into entry `i` when it is a directory with children; returns
    /// whether it did.
    pub fn zoom_into(&mut self, i: usize) -> (r: bool)
        requires
            old(self).tree.wf(),
            i < old(self).tree.entries@.len(),
        ensures
            final(self).tree == old(self).tree,
            final(self).status == old(self).status,
            r == (old(self).tree.entries@[i as int].kind == KIND_DIR && kids(
                old(self).tree.entries@,
                old(self).tree.entries@[i as int].id,
            ).len() > 0),
            final(self).zoom@ == if r {
                old(self).zoom@.push(i)
            } else {
                old(self).zoom@
            },
    {
        if self.tree.is_dir(i) && self.tree.children_of(i).len() > 0 {
            self.zoom.push(i);
            true
        } else {
            false
        }
    }
}

/// The zoom after a batch: kept when there was one, else the first root of
/// the tree when it has one.
pub open spec fn settled_zoom(old_zoom: Seq<usize>, entries: Seq<Entry>, zoom: Seq<usize>) -> bool {
    &&& old_zoom.len() > 0 ==> zoom == old_zoom
    &&& old_zoom.len() == 0 ==> (if exists|j: int| 0 <= j < entries.len() && is_root(#[trigger] entries[j]) {
        &&& zoom.len() == 1
        &&& zoom[0] < entries.len()
        &&& is_root(entries[zoom[0] as int])
        &&& forall|j: int| 0 <= j < zoom[0] ==> !is_root(#[trigger] entries[j])
    } else {
        zoom.len() == 0
    })
}

/// `v1` and `done` are what applying `msg` to `v0` gives (see [`ViewState::apply`]).
pub open spec fn applied(v0: ViewState, msg: Msg, v1: ViewState, done: bool) -> bool {
    match msg {
        Msg::Status(s) => !done && v1.status@ == s@ && v1.tree.entries@ == v0.tree.entries@ && v1.zoom@
            == v0.zoom@,
        Msg::Log(_) => !done && v1.status@ == v0.status@ && v1.tree.entries@ == v0.tree.entries@
            && v1.zoom@ == v0.zoom@,
        Msg::Header { root } => !done && v1.status@ == scanning_text(root@) && v1.tree.entries@
            == v0.tree.entries@ && v1.zoom@ == v0.zoom@,
        Msg::Batch(b) => {
            &&& !done
            &&& v1.status@ == v0.status@
            &&& v1.tree.entries@ == v0.tree.entries@ + b@
            &&& settled_zoom(v0.zoom@, v1.tree.entries@, v1.zoom@)
        },
        Msg::Done(s) => done && v1.status@ == done_text(s) && v1.tree.entries@ == v0.tree.entries@
            && v1.zoom@ == v0.zoom@,
        Msg::Error(e) => done && v1.status@ == error_text(e@) && v1.tree.entries@ == v0.tree.entries@
            && v1.zoom@ == v0.zoom@,
    }
}

} // verus!
