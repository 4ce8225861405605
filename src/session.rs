use vstd::prelude::*;
use std::collections::VecDeque;
use crate::command::{command_line, MiCommand};
use crate::grammar::{line_record, parse_line};
use crate::record::{
    AsyncKind, OutOfBandRecord, ParseError, Record, RecordModel, ResultRecord, StreamRecord,
};
use crate::text::same_text;
use vstd::string::StringExecFns;

verus! {

/// Why a command got no reply.
#[derive(Clone, Copy, Debug, PartialEq, Eq, Structural)]
pub enum ExecuteError {
    /// The debuggee is running: the command was not sent.
    Busy,
    /// The debugger's output has ended: no reply will come.
    Quit,
}

/// Receives the out-of-band records, from the context that reads the debugger's output.
pub trait OutOfBandRecordSink {
    fn send(&self, record: OutOfBandRecord);
}

/// The model of a session: whether the debuggee runs, the replies not yet taken, in the
/// order in which they arrived, and whether the debugger's output has ended.
pub struct SessionModel {
    pub running: bool,
    pub pending: Seq<RecordModel>,
    pub closed: bool,
}

/// Whether the debuggee runs after the record `rec`: an `Exec` record of class `running`
/// says it runs, one of class `stopped` says it has stopped; nothing else changes it.
pub open spec fn running_after(running: bool, rec: RecordModel) -> bool {
    match rec {
        RecordModel::OutOfBand(kind, class, _) => if kind == AsyncKind::Exec && class
            == seq!['r', 'u', 'n', 'n', 'i', 'n', 'g'] {
            true
        } else if kind == AsyncKind::Exec && class == seq!['s', 't', 'o', 'p', 'p', 'e', 'd'] {
            false
        } else {
            running
        },
        _ => running,
    }
}

/// The session after one line of output: a reply joins the end of the queue, an out-of-band
/// record may change whether the debuggee runs (never once the output has ended), and
/// anything else leaves it as it was.
pub open spec fn after_line(m: SessionModel, line: Seq<char>) -> SessionModel {
    match line_record(line) {
        Some(rec) => match rec {
            RecordModel::Result(_, _) => SessionModel { pending: m.pending.push(rec), ..m },
            RecordModel::OutOfBand(_, _, _) => SessionModel {
                running: !m.closed && running_after(m.running, rec),
                ..m
            },
            RecordModel::Stream(_, _) => m,
        },
        None => m,
    }
}

/// The session after the end of the output: no debuggee runs any more.
pub open spec fn after_eof(m: SessionModel) -> SessionModel {
    SessionModel { closed: true, running: false, ..m }
}

/// Taking a reply: the oldest one if any; `Quit` once none is left and none can come;
/// otherwise nothing yet (the caller waits for more output).
pub open spec fn after_take(m: SessionModel) -> (SessionModel, Option<Result<RecordModel, ExecuteError>>) {
    if m.pending.len() > 0 {
        (SessionModel { pending: m.pending.drop_first(), ..m }, Some(Ok(m.pending[0])))
    } else if m.closed {
        (m, Some(Err(ExecuteError::Quit)))
    } else {
        (m, None)
    }
}

/// The model of what `take_result` returns.
pub open spec fn taken_model(r: Option<Result<ResultRecord, ExecuteError>>) -> Option<
    Result<RecordModel, ExecuteError>,
> {
    match r {
        Some(Ok(rec)) => Some(Ok(rec@)),
        Some(Err(e)) => Some(Err(e)),
        None => None,
    }
}

/// What one line of output came to.
#[derive(Debug, PartialEq)]
pub enum LineOutcome {
    /// A reply, now queued for the command that waits for it.
    Queued,
    /// A notification, for the out-of-band sink.
    OutOfBand(OutOfBandRecord),
    /// Text for display or for the log.
    Stream(StreamRecord),
    /// A line that does not follow the grammar; it is dropped.
    Malformed(ParseError),
}

/// The state that the reader of the debugger's output and the sender of commands share.
pub struct SessionState {
    running: bool,
    pending: VecDeque<ResultRecord>,
    closed: bool,
}

impl View for SessionState {
    type V = SessionModel;

    closed spec fn view(&self) -> SessionModel {
        SessionModel {
            running: self.running,
            pending: self.pending@.map_values(|r: ResultRecord| r@),
            closed: self.closed,
        }
    }
}

impl SessionState {
    /// A session whose debuggee is idle, with no reply queued and its output open.
    pub fn new() -> (r: SessionState)
        ensures
            r@ == (SessionModel { running: false, pending: Seq::empty(), closed: false }),
    {
        let r = SessionState { running: false, pending: VecDeque::new(), closed: false };
        assert(r@.pending =~= Seq::empty());
        r
    }

    /// Whether the debuggee is running.
    pub fn is_running(&self) -> (r: bool)
        ensures
            r == self@.running,
    {
        self.running
    }

    /// Whether the debugger's output has ended.
    pub fn is_closed(&self) -> (r: bool)
        ensures
            r == self@.closed,
    {
        self.closed
    }

    /// The number of replies that wait to be taken.
    pub fn pending_len(&self) -> (r: usize)
        ensures
            r == self@.pending.len(),
    {
        self.pending.len()
    }

    /// Takes in one line of the debugger's output, given without its line break.
    pub fn handle_line(&mut self, line: &str) -> (r: LineOutcome)
        ensures
            final(self)@ == after_line(old(self)@, line@),
            match r {
                LineOutcome::Queued => line_record(line@) matches Some(RecordModel::Result(_, _)),
                LineOutcome::OutOfBand(rec) => line_record(line@) == Some(rec@),
                LineOutcome::Stream(rec) => line_record(line@) == Some(rec@),
                LineOutcome::Malformed(e) => line_record(line@) is None && e.line@ == line@,
            },
    {
        let ghost before = self@;
        match parse_line(line) {
            Ok(Record::Result(rec)) => {
                let ghost m = rec@;
                self.pending.push_back(rec);
                assert(self@.pending =~= before.pending.push(m));
                assert(self@ == after_line(before, line@));
                LineOutcome::Queued
            },
            Ok(Record::OutOfBand(rec)) => {
                proof {
                    reveal_strlit("running");
                    reveal_strlit("stopped");
                    assert("running"@ =~= seq!['r', 'u', 'n', 'n', 'i', 'n', 'g']);
                    assert("stopped"@ =~= seq!['s', 't', 'o', 'p', 'p', 'e', 'd']);
                }
                if self.closed {
                    self.running = false;
                } else if rec.kind == AsyncKind::Exec {
                    if same_text(rec.class.as_str(), "running") {
                        self.running = true;
                    } else if same_text(rec.class.as_str(), "stopped") {
                        self.running = false;
                    }
                }
                assert(self@.pending =~= before.pending);
                assert(self@.running == (!before.closed && running_after(before.running, rec@)));
                assert(self@ == after_line(before, line@));
                LineOutcome::OutOfBand(rec)
            },
            Ok(Record::Stream(rec)) => {
                assert(self@ == after_line(before, line@));
                LineOutcome::Stream(rec)
            },
            Err(e) => {
                assert(self@ == after_line(before, line@));
                LineOutcome::Malformed(e)
            },
        }
    }

    /// Records that the debugger's output has ended.
    pub fn handle_eof(&mut self)
        ensures
            final(self)@ == after_eof(old(self)@),
    {
        self.closed = true;
        self.running = false;
    }

    /// Starts a command: while the debuggee runs it is refused with `Busy`; once the output
    /// has ended and no reply is left it is refused with `Quit`; in both cases nothing is
    /// written. Otherwise its line is appended to `out`, the text for the debugger's input.
    pub fn start_execute(&self, command: &MiCommand, out: &mut String) -> (r: Result<(), ExecuteError>)
        ensures
            self@.running ==> r == Err::<(), ExecuteError>(ExecuteError::Busy),
            !self@.running && self@.closed && self@.pending.len() == 0 ==> r == Err::<
                (),
                ExecuteError,
            >(ExecuteError::Quit),
            r is Err ==> final(out)@ == old(out)@,
            r is Ok <==> !self@.running && !(self@.closed && self@.pending.len() == 0),
            r is Ok ==> final(out)@ == old(out)@ + command_line(command@),
    {
        if self.running {
            return Err(ExecuteError::Busy);
        }
        if self.closed && self.pending.len() == 0 {
            return Err(ExecuteError::Quit);
        }
        let line = command.to_interpreter_string();
        out.append(line.as_str());
        Ok(())
    }

    /// Takes the oldest reply; `Quit` once the output has ended and none is left; `None`
    /// while the caller has to wait for more output.
    pub fn take_result(&mut self) -> (r: Option<Result<ResultRecord, ExecuteError>>)
        ensures
            final(self)@ == after_take(old(self)@).0,
            taken_model(r) == after_take(old(self)@).1,
    {
        let ghost before = self@;
        match self.pending.pop_front() {
            Some(rec) => {
                assert(self@.pending =~= before.pending.drop_first());
                Some(Ok(rec))
            },
            None => if self.closed {
                Some(Err(ExecuteError::Quit))
            } else {
                None
            },
        }
    }
}

/// The records that a run of lines stands for, in order; lines that do not follow the
/// grammar stand for none.
pub open spec fn records_of(lines: Seq<Seq<char>>) -> Seq<RecordModel>
    decreases lines.len(),
{
    if lines.len() == 0 {
        Seq::empty()
    } else {
        match line_record(lines.last()) {
            Some(rec) => records_of(lines.drop_last()).push(rec),
            None => records_of(lines.drop_last()),
        }
    }
}

/// The record of each line of a run in which every line follows the grammar.
pub open spec fn well_formed_records(lines: Seq<Seq<char>>) -> Seq<RecordModel> {
    lines.map_values(|l: Seq<char>| line_record(l)->0)
}

pub open spec fn all_well_formed(lines: Seq<Seq<char>>) -> bool {
    forall|k: int| 0 <= k < lines.len() ==> (#[trigger] line_record(lines[k])) is Some
}

proof fn lemma_records_of_concat(a: Seq<Seq<char>>, b: Seq<Seq<char>>)
    ensures
        records_of(a + b) == records_of(a) + records_of(b),
    decreases b.len(),
{
    if b.len() == 0 {
        assert(a + b =~= a);
        assert(records_of(b) =~= Seq::empty());
        assert(records_of(a) + records_of(b) =~= records_of(a));
    } else {
        lemma_records_of_concat(a, b.drop_last());
        assert((a + b).drop_last() =~= a + b.drop_last());
        assert((a + b).last() == b.last());
        match line_record(b.last()) {
            Some(rec) => {
                assert(records_of(a) + records_of(b.drop_last()).push(rec) =~= (records_of(a)
                    + records_of(b.drop_last())).push(rec));
            },
            None => {},
        }
    }
}

proof fn lemma_records_of_well_formed(lines: Seq<Seq<char>>)
    requires
        all_well_formed(lines),
    ensures
        records_of(lines) == well_formed_records(lines),
    decreases lines.len(),
{
    if lines.len() > 0 {
        let init = lines.drop_last();
        assert forall|k: int| 0 <= k < init.len() implies (#[trigger] line_record(init[k])) is Some by {
            assert(init[k] == lines[k]);
        }
        lemma_records_of_well_formed(init);
        assert(line_record(lines[lines.len() - 1]) is Some);
        assert(well_formed_records(lines) =~= well_formed_records(init).push(
            line_record(lines.last())->0,
        ));
    }
}

/// A line that does not follow the grammar costs only itself: with well-formed lines
/// before and after it, the records are exactly those of the well-formed lines, in order.
pub proof fn lemma_resync(before: Seq<Seq<char>>, bad: Seq<char>, after: Seq<Seq<char>>)
    requires
        all_well_formed(before),
        all_well_formed(after),
        line_record(bad) is None,
    ensures
        records_of(before + seq![bad] + after) == well_formed_records(before)
            + well_formed_records(after),
        records_of(before + seq![bad] + after).len() == before.len() + after.len(),
{
    lemma_records_of_concat(before + seq![bad], after);
    lemma_records_of_concat(before, seq![bad]);
    assert(seq![bad].drop_last() =~= Seq::<Seq<char>>::empty());
    assert(seq![bad].last() == bad);
    assert(records_of(Seq::<Seq<char>>::empty()) =~= Seq::empty());
    assert(records_of(seq![bad]) =~= Seq::empty());
    assert(records_of(before) + records_of(seq![bad]) =~= records_of(before));
    lemma_records_of_well_formed(before);
    lemma_records_of_well_formed(after);
}

/// The session after a run of lines.
pub open spec fn feed(m: SessionModel, lines: Seq<Seq<char>>) -> SessionModel
    decreases lines.len(),
{
    if lines.len() == 0 {
        m
    } else {
        after_line(feed(m, lines.drop_last()), lines.last())
    }
}

/// The replies among the records of a run of lines, in order.
pub open spec fn replies_of(lines: Seq<Seq<char>>) -> Seq<RecordModel> {
    records_of(lines).filter(|r: RecordModel| r is Result)
}

/// What `n` takes in a row return.
pub open spec fn take_n(m: SessionModel, n: nat) -> Seq<Option<Result<RecordModel, ExecuteError>>>
    decreases n,
{
    if n == 0 {
        Seq::empty()
    } else {
        seq![after_take(m).1] + take_n(after_take(m).0, (n - 1) as nat)
    }
}

/// Each reply handed out, in order.
pub open spec fn handed_out(rs: Seq<RecordModel>) -> Seq<Option<Result<RecordModel, ExecuteError>>> {
    rs.map_values(|r: RecordModel| Some(Ok::<RecordModel, ExecuteError>(r)))
}

proof fn lemma_feed_pending(m: SessionModel, lines: Seq<Seq<char>>)
    ensures
        feed(m, lines).pending == m.pending + replies_of(lines),
        feed(m, lines).closed == m.closed,
    decreases lines.len(),
{
    if lines.len() == 0 {
        assert(records_of(lines) =~= Seq::empty());
        assert(replies_of(lines) =~= Seq::empty());
        assert(m.pending + replies_of(lines) =~= m.pending);
    } else {
        let init = lines.drop_last();
        lemma_feed_pending(m, init);
        match line_record(lines.last()) {
            Some(rec) => {
                assert(records_of(lines) == records_of(init).push(rec));
                records_of(init).lemma_filter_push(rec, |r: RecordModel| r is Result);
                if rec is Result {
                    assert(m.pending + replies_of(init).push(rec) =~= (m.pending + replies_of(
                        init,
                    )).push(rec));
                }
            },
            None => {},
        }
    }
}

proof fn lemma_take_pending(m: SessionModel, extra: nat)
    ensures
        take_n(m, m.pending.len() + extra) == handed_out(m.pending) + (if m.closed {
            Seq::new(extra, |k: int| Some(Err::<RecordModel, ExecuteError>(ExecuteError::Quit)))
        } else {
            Seq::new(extra, |k: int| None::<Result<RecordModel, ExecuteError>>)
        }),
    decreases m.pending.len() + extra,
{
    let tail = if m.closed {
        Seq::new(extra, |k: int| Some(Err::<RecordModel, ExecuteError>(ExecuteError::Quit)))
    } else {
        Seq::new(extra, |k: int| None::<Result<RecordModel, ExecuteError>>)
    };
    if m.pending.len() > 0 {
        let m2 = after_take(m).0;
        lemma_take_pending(m2, extra);
        assert(m2.pending == m.pending.drop_first());
        assert(handed_out(m.pending) =~= seq![Some(Ok::<RecordModel, ExecuteError>(m.pending[0]))]
            + handed_out(m2.pending));
        assert(take_n(m, m.pending.len() + extra) =~= handed_out(m.pending) + tail);
    } else if extra > 0 {
        lemma_take_pending(m, (extra - 1) as nat);
        assert(handed_out(m.pending) =~= Seq::empty());
        let tail1 = if m.closed {
            Seq::new((extra - 1) as nat, |k: int| Some(Err::<RecordModel, ExecuteError>(ExecuteError::Quit)))
        } else {
            Seq::new((extra - 1) as nat, |k: int| None::<Result<RecordModel, ExecuteError>>)
        };
        assert(take_n(m, extra) == seq![after_take(m).1] + take_n(m, (extra - 1) as nat));
        assert(tail =~= seq![after_take(m).1] + tail1);
        assert(take_n(m, m.pending.len() + extra) =~= handed_out(m.pending) + tail);
    } else {
        assert(take_n(m, 0) =~= Seq::empty());
        assert(handed_out(m.pending) =~= Seq::empty());
        assert(take_n(m, m.pending.len() + extra) =~= handed_out(m.pending) + tail);
    }
}

/// Replies reach the commands in the order in which they were read: after a run of lines,
/// as many takes as there were replies hand out exactly those replies, first read first.
pub proof fn lemma_fifo(m: SessionModel, lines: Seq<Seq<char>>)
    requires
        m.pending.len() == 0,
    ensures
        take_n(feed(m, lines), replies_of(lines).len()) == handed_out(replies_of(lines)),
{
    lemma_feed_pending(m, lines);
    let f = feed(m, lines);
    assert(f.pending =~= replies_of(lines));
    lemma_take_pending(f, 0);
    assert(handed_out(f.pending) + Seq::new(0, |k: int| None::<Result<RecordModel, ExecuteError>>)
        =~= handed_out(f.pending));
    assert(handed_out(f.pending) + Seq::new(0, |k: int| Some(Err::<RecordModel, ExecuteError>(ExecuteError::Quit)))
        =~= handed_out(f.pending));
}

/// Once the output has ended, the replies already read are still handed out in order, and
/// every take after them, as many as there are, returns `Quit`.
pub proof fn lemma_quit_after_eof(m: SessionModel, extra: nat)
    ensures
        take_n(after_eof(m), m.pending.len() + extra) == handed_out(m.pending) + Seq::new(
            extra,
            |k: int| Some(Err::<RecordModel, ExecuteError>(ExecuteError::Quit)),
        ),
{
    lemma_take_pending(after_eof(m), extra);
}

/// Whether a line is a reply to a command.
pub open spec fn is_reply_line(l: Seq<char>) -> bool {
    line_record(l) matches Some(RecordModel::Result(_, _))
}

/// Commands sent one after another, each answered by its own reply line before the next is
/// sent: what each take returns.
pub open spec fn exchanges(m: SessionModel, replies: Seq<Seq<char>>) -> Seq<
    Option<Result<RecordModel, ExecuteError>>,
>
    decreases replies.len(),
{
    if replies.len() == 0 {
        Seq::empty()
    } else {
        let step = after_take(after_line(m, replies[0]));
        seq![step.1] + exchanges(step.0, replies.drop_first())
    }
}

/// Each command sent one after another gets the reply at its own position: with no reply
/// waiting and the debuggee not running, every command may be sent (no `Busy`), and the
/// take that follows the `k`-th reply line returns exactly that reply.
pub proof fn lemma_fifo_one_by_one(m: SessionModel, replies: Seq<Seq<char>>)
    requires
        m.pending.len() == 0,
        !m.running,
        forall|k: int| 0 <= k < replies.len() ==> is_reply_line(#[trigger] replies[k]),
    ensures
        exchanges(m, replies) == replies.map_values(
            |l: Seq<char>| Some(Ok::<RecordModel, ExecuteError>(line_record(l)->0)),
        ),
    decreases replies.len(),
{
    if replies.len() > 0 {
        assert(is_reply_line(replies[0]));
        let m1 = after_line(m, replies[0]);
        assert(m1.pending =~= seq![line_record(replies[0])->0]);
        let step = after_take(m1);
        assert(step.0.pending =~= Seq::<RecordModel>::empty());
        let rest = replies.drop_first();
        assert forall|k: int| 0 <= k < rest.len() implies is_reply_line(#[trigger] rest[k]) by {
            assert(rest[k] == replies[k + 1]);
        }
        lemma_fifo_one_by_one(step.0, rest);
        assert(exchanges(m, replies) =~= replies.map_values(
            |l: Seq<char>| Some(Ok::<RecordModel, ExecuteError>(line_record(l)->0)),
        ));
    } else {
        assert(exchanges(m, replies) =~= replies.map_values(
            |l: Seq<char>| Some(Ok::<RecordModel, ExecuteError>(line_record(l)->0)),
        ));
    }
}

/// Once the output has ended the debuggee never counts as running again, whatever lines
/// follow: no command is refused with `Busy` after the end.
pub proof fn lemma_not_running_after_eof(m: SessionModel, lines: Seq<Seq<char>>)
    ensures
        !feed(after_eof(m), lines).running,
        feed(after_eof(m), lines).closed,
    decreases lines.len(),
{
    if lines.len() > 0 {
        lemma_not_running_after_eof(m, lines.drop_last());
    }
}

} // verus!
