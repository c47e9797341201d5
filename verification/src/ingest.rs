//! Ingestion: rows appended in batches wait in a buffer and are written to the target
//! file, one line each, when enough of them wait, on a commit, and at shutdown.
//! This module is the actor's decision logic: from its state and a command to its new
//! state and the bytes to write. Receiving commands and writing bytes is the caller's.
use vstd::prelude::*;
use vstd::utf8::encode_utf8;
use crate::text::strings_view;

verus! {

/// Rows that may wait before a flush is forced.
pub const INGEST_FLUSH_ROWS: usize = 50000;

/// A command sent to the ingestion actor.
pub enum IngestCmd {
    /// Append a batch of rows to the buffer.
    AppendBatch(Vec<String>),
    /// Write the buffered rows now.
    Commit,
    /// Write the buffered rows and stop.
    Shutdown,
}

pub enum IngestCmdView {
    AppendBatch(Seq<Seq<char>>),
    Commit,
    Shutdown,
}

impl View for IngestCmd {
    type V = IngestCmdView;

    open spec fn view(&self) -> IngestCmdView {
        match self {
            IngestCmd::AppendBatch(rows) => IngestCmdView::AppendBatch(strings_view(rows@)),
            IngestCmd::Commit => IngestCmdView::Commit,
            IngestCmd::Shutdown => IngestCmdView::Shutdown,
        }
    }
}

/// The bytes written for some rows: each row's UTF-8 encoding followed by `\n`.
pub open spec fn lines_bytes(rows: Seq<Seq<char>>) -> Seq<u8>
    decreases rows.len(),
{
    if rows.len() == 0 {
        Seq::empty()
    } else {
        lines_bytes(rows.drop_last()) + encode_utf8(rows.last()) + seq![0x0au8]
    }
}

/// The rows as the bytes of a text file, one row per line.
pub fn serialize_rows(rows: &[String]) -> (r: Vec<u8>)
    ensures
        r@ == lines_bytes(strings_view(rows@)),
{
    let mut out: Vec<u8> = Vec::new();
    let mut i: usize = 0;
    while i < rows.len()
        invariant
            i <= rows@.len(),
            out@ == lines_bytes(strings_view(rows@.take(i as int))),
        decreases rows@.len() - i,
    {
        let b = rows[i].as_str().as_bytes();
        let ghost before = out@;
        let mut j: usize = 0;
        while j < b.len()
            invariant
                j <= b@.len(),
                out@ == before + b@.take(j as int),
            decreases b@.len() - j,
        {
            out.push(b[j]);
            proof {
                assert(b@.take(j + 1) =~= b@.take(j as int).push(b@[j as int]));
            }
            j = j + 1;
        }
        out.push(0x0au8);
        proof {
            let t = strings_view(rows@.take(i + 1));
            assert(t.drop_last() =~= strings_view(rows@.take(i as int)));
            assert(t.last() == rows@[i as int]@);
            assert(b@.take(b@.len() as int) =~= b@);
            assert(out@ =~= lines_bytes(t));
        }
        i = i + 1;
    }
    proof {
        assert(rows@.take(rows@.len() as int) =~= rows@);
    }
    out
}

/// What the actor does after a command: write `flush` when there is something to
/// write, then stop when `stop`.
pub struct IngestAction {
    pub flush: Option<Vec<u8>>,
    pub stop: bool,
}

/// The actor's state: the rows waiting to be written and its running totals (each a
/// 64-bit counter that wraps).
pub struct IngestState {
    pending: Vec<String>,
    rows_ingested: u64,
    bytes_written: u64,
    batches_processed: u64,
}

pub struct IngestView {
    pub pending: Seq<Seq<char>>,
    pub rows_ingested: u64,
    pub bytes_written: u64,
    pub batches_processed: u64,
}

impl View for IngestState {
    type V = IngestView;

    closed spec fn view(&self) -> IngestView {
        IngestView {
            pending: strings_view(self.pending@),
            rows_ingested: self.rows_ingested,
            bytes_written: self.bytes_written,
            batches_processed: self.batches_processed,
        }
    }
}

pub open spec fn initial_ingest() -> IngestView {
    IngestView { pending: Seq::empty(), rows_ingested: 0, bytes_written: 0, batches_processed: 0 }
}

/// A flush: nothing when no row waits; else every waiting row is written and the
/// totals grow by the rows, the bytes and one batch.
pub open spec fn spec_flush(v: IngestView) -> (IngestView, Option<Seq<u8>>) {
    if v.pending.len() == 0 {
        (v, None)
    } else {
        let b = lines_bytes(v.pending);
        (
            IngestView {
                pending: Seq::empty(),
                rows_ingested: vstd::wrapping::u64_specs::wrapping_add(
                    v.rows_ingested,
                    v.pending.len() as u64,
                ),
                bytes_written: vstd::wrapping::u64_specs::wrapping_add(v.bytes_written, b.len() as u64),
                batches_processed: vstd::wrapping::u64_specs::wrapping_add(v.batches_processed, 1),
            },
            Some(b),
        )
    }
}

/// One command: a batch is buffered and flushed once `INGEST_FLUSH_ROWS` rows wait;
/// a commit flushes; a shutdown flushes and stops.
pub open spec fn spec_step(v: IngestView, c: IngestCmdView) -> (IngestView, Option<Seq<u8>>, bool) {
    match c {
        IngestCmdView::AppendBatch(rows) => {
            let w = IngestView { pending: v.pending + rows, ..v };
            if w.pending.len() >= INGEST_FLUSH_ROWS {
                (spec_flush(w).0, spec_flush(w).1, false)
            } else {
                (w, None, false)
            }
        },
        IngestCmdView::Commit => (spec_flush(v).0, spec_flush(v).1, false),
        IngestCmdView::Shutdown => (spec_flush(v).0, spec_flush(v).1, true),
    }
}

pub open spec fn action_view(a: IngestAction) -> (Option<Seq<u8>>, bool) {
    (
        match a.flush {
            Some(b) => Some(b@),
            None => None,
        },
        a.stop,
    )
}

impl IngestState {
    /// An actor with nothing buffered and all totals at zero.
    pub fn new() -> (r: Self)
        ensures
            r@ == initial_ingest(),
    {
        let r = IngestState { pending: Vec::new(), rows_ingested: 0, bytes_written: 0, batches_processed: 0 };
        proof {
            assert(strings_view(r.pending@) =~= Seq::<Seq<char>>::empty());
        }
        r
    }

    /// Rows written so far.
    pub fn rows_ingested(&self) -> (r: u64)
        ensures
            r == self@.rows_ingested,
    {
        self.rows_ingested
    }

    /// Bytes written so far.
    pub fn bytes_written(&self) -> (r: u64)
        ensures
            r == self@.bytes_written,
    {
        self.bytes_written
    }

    /// Flushes so far.
    pub fn batches_processed(&self) -> (r: u64)
        ensures
            r == self@.batches_processed,
    {
        self.batches_processed
    }

    /// Rows waiting to be written.
    pub fn pending_rows(&self) -> (r: usize)
        ensures
            r == self@.pending.len(),
    {
        self.pending.len()
    }

    fn flush(&mut self) -> (r: Option<Vec<u8>>)
        ensures
            (final(self)@, match r {
                Some(b) => Some(b@),
                None => None,
            }) == spec_flush(old(self)@),
    {
        if self.pending.len() == 0 {
            return None;
        }
        let bytes = serialize_rows(self.pending.as_slice());
        let n = self.pending.len() as u64;
        self.rows_ingested = self.rows_ingested.wrapping_add(n);
        self.bytes_written = self.bytes_written.wrapping_add(bytes.len() as u64);
        self.batches_processed = self.batches_processed.wrapping_add(1);
        self.pending = Vec::new();
        proof {
            assert(strings_view(self.pending@) =~= Seq::<Seq<char>>::empty());
        }
        Some(bytes)
    }

    /// Handle one command (see `spec_step`).
    pub fn step(&mut self, cmd: IngestCmd) -> (r: IngestAction)
        ensures
            (final(self)@, action_view(r).0, action_view(r).1) == spec_step(old(self)@, cmd@),
    {
        match cmd {
            IngestCmd::AppendBatch(rows) => {
                let ghost old_pending = strings_view(self.pending@);
                let ghost batch = rows@;
                let mut rows = rows;
                self.pending.append(&mut rows);
                proof {
                    assert(strings_view(self.pending@) =~= old_pending + strings_view(batch));
                }
                if self.pending.len() >= INGEST_FLUSH_ROWS {
                    IngestAction { flush: self.flush(), stop: false }
                } else {
                    IngestAction { flush: None, stop: false }
                }
            },
            IngestCmd::Commit => IngestAction { flush: self.flush(), stop: false },
            IngestCmd::Shutdown => IngestAction { flush: self.flush(), stop: true },
        }
    }
}

// -------------------------------------------------------------------- laws

/// Every row the commands append, in order.
pub open spec fn appended(cmds: Seq<IngestCmdView>) -> Seq<Seq<char>>
    decreases cmds.len(),
{
    if cmds.len() == 0 {
        Seq::empty()
    } else {
        appended(cmds.drop_last()) + match cmds.last() {
            IngestCmdView::AppendBatch(rows) => rows,
            _ => Seq::empty(),
        }
    }
}

/// The state after the commands, from a fresh actor, and all bytes written meanwhile.
pub open spec fn spec_run(cmds: Seq<IngestCmdView>) -> (IngestView, Seq<u8>)
    decreases cmds.len(),
{
    if cmds.len() == 0 {
        (initial_ingest(), Seq::empty())
    } else {
        let prev = spec_run(cmds.drop_last());
        let s = spec_step(prev.0, cmds.last());
        (
            s.0,
            prev.1 + match s.1 {
                Some(b) => b,
                None => Seq::empty(),
            },
        )
    }
}

proof fn lemma_lines_bytes_concat(a: Seq<Seq<char>>, b: Seq<Seq<char>>)
    ensures
        lines_bytes(a + b) == lines_bytes(a) + lines_bytes(b),
    decreases b.len(),
{
    if b.len() == 0 {
        assert(a + b =~= a);
        assert(lines_bytes(a) + lines_bytes(b) =~= lines_bytes(a));
    } else {
        lemma_lines_bytes_concat(a, b.drop_last());
        assert((a + b).drop_last() =~= a + b.drop_last());
        assert((a + b).last() == b.last());
        assert(lines_bytes(a + b) =~= lines_bytes(a) + lines_bytes(b));
    }
}

/// Law: no row is lost, reordered or written twice. After any commands, the bytes
/// written followed by the lines still waiting are exactly the lines of every row
/// appended, in order; fewer than `INGEST_FLUSH_ROWS` rows wait; and after a shutdown
/// nothing waits, so all appended rows have been written.
pub proof fn lemma_ingest_keeps_every_row(cmds: Seq<IngestCmdView>)
    ensures
        spec_run(cmds).1 + lines_bytes(spec_run(cmds).0.pending) == lines_bytes(appended(cmds)),
        spec_run(cmds).0.pending.len() < INGEST_FLUSH_ROWS,
        cmds.len() > 0 && cmds.last() is Shutdown ==> spec_run(cmds).0.pending.len() == 0,
    decreases cmds.len(),
{
    if cmds.len() == 0 {
        assert(spec_run(cmds).1 + lines_bytes(Seq::<Seq<char>>::empty()) =~= Seq::<u8>::empty());
    } else {
        let prev = spec_run(cmds.drop_last());
        lemma_ingest_keeps_every_row(cmds.drop_last());
        let v = prev.0;
        match cmds.last() {
            IngestCmdView::AppendBatch(rows) => {
                lemma_lines_bytes_concat(v.pending, rows);
                lemma_lines_bytes_concat(appended(cmds.drop_last()), rows);
                let w = IngestView { pending: v.pending + rows, ..v };
                if w.pending.len() >= INGEST_FLUSH_ROWS {
                    assert(spec_run(cmds).1 + lines_bytes(Seq::<Seq<char>>::empty()) =~= prev.1
                        + lines_bytes(w.pending));
                } else {
                    assert(spec_run(cmds).1 =~= prev.1 + Seq::<u8>::empty());
                }
            },
            _ => {
                assert(appended(cmds) =~= appended(cmds.drop_last()));
                if v.pending.len() == 0 {
                    assert(spec_run(cmds).1 =~= prev.1 + Seq::<u8>::empty());
                } else {
                    assert(spec_run(cmds).1 + lines_bytes(Seq::<Seq<char>>::empty()) =~= prev.1
                        + lines_bytes(v.pending));
                }
            },
        }
    }
}


/// While the totals fit in 64 bits, the rows counted as ingested are the rows appended
/// that no longer wait, and the bytes counted are the bytes written.
proof fn lemma_ingest_counts(cmds: Seq<IngestCmdView>)
    requires
        appended(cmds).len() <= u64::MAX,
        lines_bytes(appended(cmds)).len() <= u64::MAX,
    ensures
        spec_run(cmds).0.rows_ingested == appended(cmds).len() - spec_run(cmds).0.pending.len(),
        spec_run(cmds).0.bytes_written == spec_run(cmds).1.len(),
    decreases cmds.len(),
{
    lemma_ingest_keeps_every_row(cmds);
    if cmds.len() > 0 {
        let pre = cmds.drop_last();
        let extra = match cmds.last() {
            IngestCmdView::AppendBatch(rows) => rows,
            _ => Seq::empty(),
        };
        assert(appended(cmds) == appended(pre) + extra);
        lemma_lines_bytes_concat(appended(pre), extra);
        lemma_ingest_counts(pre);
        lemma_ingest_keeps_every_row(pre);
        let prev = spec_run(pre);
        let v = prev.0;
        match cmds.last() {
            IngestCmdView::AppendBatch(rows) => {
                let w = IngestView { pending: v.pending + rows, ..v };
                lemma_lines_bytes_concat(v.pending, rows);
                if w.pending.len() >= INGEST_FLUSH_ROWS {
                    assert(spec_run(cmds).1 == prev.1 + lines_bytes(w.pending));
                }
            },
            _ => {
                if v.pending.len() > 0 {
                    assert(spec_run(cmds).1 == prev.1 + lines_bytes(v.pending));
                }
            },
        }
    }
}

/// Law: a commit (or a shutdown) writes every row appended so far. After it nothing
/// waits, the bytes written are the lines of all appended rows in order, and while
/// the totals fit in 64 bits the progress counters read the number of those rows and
/// of those bytes.
pub proof fn lemma_commit_writes_everything(cmds: Seq<IngestCmdView>)
    requires
        cmds.len() > 0,
        cmds.last() is Commit || cmds.last() is Shutdown,
    ensures
        spec_run(cmds).0.pending.len() == 0,
        spec_run(cmds).1 == lines_bytes(appended(cmds)),
        appended(cmds).len() <= u64::MAX && lines_bytes(appended(cmds)).len() <= u64::MAX ==> {
            &&& spec_run(cmds).0.rows_ingested == appended(cmds).len()
            &&& spec_run(cmds).0.bytes_written == lines_bytes(appended(cmds)).len()
        },
{
    lemma_ingest_keeps_every_row(cmds);
    assert(lines_bytes(Seq::<Seq<char>>::empty()) == Seq::<u8>::empty());
    assert(spec_run(cmds).1 + Seq::<u8>::empty() =~= spec_run(cmds).1);
    if appended(cmds).len() <= u64::MAX && lines_bytes(appended(cmds)).len() <= u64::MAX {
        lemma_ingest_counts(cmds);
    }
}

} // verus!
