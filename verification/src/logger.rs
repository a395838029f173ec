use vstd::prelude::*;

use crate::codec::{serialize_event, spec_serialize};
use crate::event::{Event, EventModel};
use crate::ext::now_rfc3339;
use crate::log;

verus! {

/// Hands out event ids: strictly increasing, one at a time, with no
/// gaps. Owned by the single writer; never shared.
pub struct Sequencer {
    pub last: i32,
}

impl Sequencer {
    pub fn new(last: i32) -> (s: Sequencer)
        ensures
            s.last == last,
    {
        Sequencer { last }
    }

    /// The next id: one more than the last one handed out.
    pub fn next_id(&mut self) -> (id: i32)
        requires
            old(self).last < i32::MAX,
        ensures
            id == old(self).last + 1,
            final(self).last == old(self).last + 1,
    {
        self.last = self.last + 1;
        self.last
    }
}

/// The event-logging core: the id sequencer together with the path of
/// the append-only log file. All mutation goes through the single
/// owner of this value.
pub struct Logger {
    pub path: String,
    pub seq: Sequencer,
}

impl Logger {
    pub fn new(path: &str) -> (l: Logger)
        ensures
            l.path@ == path@,
            l.seq.last == 0,
    {
        Logger { path: path.to_owned(), seq: Sequencer::new(0) }
    }

    /// The configured log file path.
    pub fn path(&self) -> (r: &str)
        ensures
            r@ == self.path@,
    {
        self.path.as_str()
    }

    /// Recover the id sequence from existing file content: the next
    /// id handed out will be one past the largest persisted id. The
    /// caller passes the file's text, or the empty string when the
    /// file does not exist.
    pub fn recover(&mut self, content: &str)
        ensures
            final(self).seq.last as int == log::spec_max_id(log::spec_parse_log(content@)),
            final(self).path == old(self).path,
    {
        let m: i32 = log::recover_last_id(content);
        self.seq = Sequencer::new(m);
    }

    /// The line for the next id, without spending it. The id is spent
    /// only when `commit_append` acknowledges a successful append, so
    /// a failed append consumes no id: the next prepared line carries
    /// the same id again, and the persisted ids stay contiguous.
    pub fn prepare(&self, name: &str, time: &str) -> (line: String)
        requires
            self.seq.last < i32::MAX,
        ensures
            line@ == spec_serialize(
                EventModel { id: self.seq.last + 1, name: name@, time: time@ },
            ),
    {
        let event = Event::new(self.seq.last + 1, name.to_owned(), time.to_owned());
        serialize_event(&event)
    }

    /// As `prepare`, stamping the event with the current instant. The
    /// timestamp is some non-empty string without a line break.
    pub fn prepare_now(&self, name: &str) -> (line: String)
        requires
            self.seq.last < i32::MAX,
        ensures
            exists|t: Seq<char>|
                t.len() > 0 && crate::codec::has_no_newline(t) && line@ == #[trigger] spec_serialize(
                    EventModel { id: self.seq.last + 1, name: name@, time: t },
                ),
    {
        let time: String = now_rfc3339();
        let line = self.prepare(name, time.as_str());
        proof {
            assert(crate::codec::has_no_newline(time@));
            assert(line@ == spec_serialize(
                EventModel { id: self.seq.last + 1, name: name@, time: time@ },
            ));
        }
        line
    }

    /// Acknowledge that the prepared line was durably appended: the
    /// id it carried is persisted, and the sequencer moves past it.
    pub fn commit_append(&mut self)
        requires
            old(self).seq.last < i32::MAX,
        ensures
            final(self).seq.last == old(self).seq.last + 1,
            final(self).path == old(self).path,
    {
        self.seq.next_id();
    }

    /// Prepare and commit in one step: assign the next id, build the
    /// event with the given timestamp, and hand back its serialized
    /// line. For callers that treat the append as certain (or handle
    /// its outcome in bulk); the writer loop itself uses `prepare` /
    /// `commit_append` so that a failed append leaves no id gap.
    pub fn log_event(&mut self, name: &str, time: &str) -> (line: String)
        requires
            old(self).seq.last < i32::MAX,
        ensures
            final(self).seq.last == old(self).seq.last + 1,
            final(self).path == old(self).path,
            line@ == spec_serialize(
                EventModel { id: old(self).seq.last + 1, name: name@, time: time@ },
            ),
    {
        let line = self.prepare(name, time);
        self.commit_append();
        line
    }

    /// As `log_event`, stamping the event with the current instant.
    pub fn log_event_now(&mut self, name: &str) -> (line: String)
        requires
            old(self).seq.last < i32::MAX,
        ensures
            final(self).seq.last == old(self).seq.last + 1,
            final(self).path == old(self).path,
            exists|t: Seq<char>|
                t.len() > 0 && crate::codec::has_no_newline(t) && line@ == #[trigger] spec_serialize(
                    EventModel { id: old(self).seq.last + 1, name: name@, time: t },
                ),
    {
        let line = self.prepare_now(name);
        self.commit_append();
        line
    }

    /// One step of the writer loop, from the message the queue hands
    /// back: a task name while the queue is open, or None once it is
    /// closed and drained. A task name yields the line for the next
    /// id, stamped with the current instant; the caller appends it
    /// and calls `commit_append` exactly when the append succeeded,
    /// so a failed append consumes no id and the persisted ids stay
    /// contiguous. None means the writer terminates.
    pub fn run_step(&self, msg: Option<String>) -> (r: Option<String>)
        requires
            self.seq.last < i32::MAX,
        ensures
            match msg {
                Some(nm) => match r {
                    Some(line) => exists|t: Seq<char>|
                        t.len() > 0 && crate::codec::has_no_newline(t) && line@
                            == #[trigger] spec_serialize(
                            EventModel { id: self.seq.last + 1, name: nm@, time: t },
                        ),
                    None => false,
                },
                None => r is None,
            },
    {
        match msg {
            Some(nm) => Some(self.prepare_now(nm.as_str())),
            None => None,
        }
    }

    /// Drain a buffer of pending task names: every buffered item is
    /// turned into a line, in order, with contiguous ids continuing
    /// the sequence. Nothing is lost.
    pub fn drain(&mut self, names: &Vec<String>, times: &Vec<String>) -> (lines: Vec<String>)
        requires
            names@.len() == times@.len(),
            old(self).seq.last + names@.len() <= i32::MAX,
        ensures
            lines@.len() == names@.len(),
            final(self).seq.last == old(self).seq.last + names@.len(),
            final(self).path == old(self).path,
            forall|k: int|
                0 <= k < names@.len() ==> lines@[k]@ == spec_serialize(
                    EventModel {
                        id: old(self).seq.last + 1 + k,
                        name: names@[k]@,
                        time: times@[k]@,
                    },
                ),
    {
        let mut lines: Vec<String> = Vec::new();
        let mut i: usize = 0;
        while i < names.len()
            invariant
                i <= names@.len(),
                names@.len() == times@.len(),
                old(self).seq.last + names@.len() <= i32::MAX,
                self.seq.last == old(self).seq.last + i,
                self.path == old(self).path,
                lines@.len() == i,
                forall|k: int|
                    0 <= k < i ==> lines@[k]@ == spec_serialize(
                        EventModel {
                            id: old(self).seq.last + 1 + k,
                            name: names@[k]@,
                            time: times@[k]@,
                        },
                    ),
            decreases names@.len() - i,
        {
            let line = self.log_event(names[i].as_str(), times[i].as_str());
            lines.push(line);
            i = i + 1;
        }
        lines
    }

    /// Read back the full history from the given file content; see
    /// `log::load_events`.
    pub fn load_events(&self, content: &str) -> (r: Vec<Event>)
        ensures
            r@.map_values(|e: Event| e@) == log::spec_parse_log(content@),
    {
        log::load_events(content)
    }
}

} // verus!

verus! {

use crate::codec::{has_no_newline, lemma_round_trip, lemma_serialize_no_newline, spec_parse_event};

/// Closing the queue with items still buffered loses nothing: the
/// lines that `drain` hands back, appended in order to a log whose
/// content ends at a line boundary, leave the log holding exactly the
/// old history followed by the drained events, with contiguous ids
/// continuing the sequence, in submission order.
///
/// With `last0` the recovered maximum id of the existing content,
/// this also says that resuming persists `last0 + 1, last0 + 2, ...`
/// contiguously.
pub proof fn lemma_drain_persists_all(
    content: Seq<char>,
    last0: int,
    names: Seq<Seq<char>>,
    times: Seq<Seq<char>>,
    lines: Seq<Seq<char>>,
)
    requires
        content.len() == 0 || content.last() == '\n',
        names.len() == times.len(),
        lines.len() == names.len(),
        0 <= last0,
        last0 + names.len() <= 2147483647,
        forall|k: int|
            0 <= k < lines.len() ==> lines[k] == spec_serialize(
                EventModel { id: last0 + 1 + k, name: names[k], time: times[k] },
            ),
    ensures
        log::spec_parse_log(content + log::join_lines(lines)) == log::spec_parse_log(content)
            + Seq::new(
            names.len(),
            |k: int| EventModel { id: last0 + 1 + k, name: names[k], time: times[k] },
        ),
{
    let evs = Seq::new(
        names.len(),
        |k: int| EventModel { id: last0 + 1 + k, name: names[k], time: times[k] },
    );
    assert forall|k: int| 0 <= k < lines.len() implies has_no_newline(#[trigger] lines[k]) by {
        lemma_serialize_no_newline(evs[k]);
    }
    assert forall|k: int|
        0 <= k < lines.len() implies spec_parse_event(#[trigger] lines[k]) == Some(evs[k]) by {
        lemma_round_trip(evs[k]);
    }
    log::lemma_split_join(lines);
    log::lemma_split_concat(content, log::join_lines(lines));
    log::lemma_parse_lines_concat(log::split_lines(content), lines);
    log::lemma_parse_lines_all_valid(lines, evs);
}

/// Resuming with a pre-existing log whose maximum id is M: the next
/// persisted event has id M + 1, and the following ones continue
/// contiguously, with the whole history preserved in front of them.
pub proof fn lemma_resume_contiguous(
    content: Seq<char>,
    names: Seq<Seq<char>>,
    times: Seq<Seq<char>>,
    lines: Seq<Seq<char>>,
)
    requires
        content.len() == 0 || content.last() == '\n',
        names.len() == times.len(),
        lines.len() == names.len(),
        log::spec_max_id(log::spec_parse_log(content)) + names.len() <= 2147483647,
        forall|k: int|
            0 <= k < lines.len() ==> lines[k] == spec_serialize(
                EventModel {
                    id: log::spec_max_id(log::spec_parse_log(content)) + 1 + k,
                    name: names[k],
                    time: times[k],
                },
            ),
    ensures
        log::spec_parse_log(content + log::join_lines(lines)) == log::spec_parse_log(content)
            + Seq::new(
            names.len(),
            |k: int| EventModel {
                id: log::spec_max_id(log::spec_parse_log(content)) + 1 + k,
                name: names[k],
                time: times[k],
            },
        ),
{
    log::lemma_max_id_nonneg(log::spec_parse_log(content));
    lemma_drain_persists_all(
        content,
        log::spec_max_id(log::spec_parse_log(content)),
        names,
        times,
        lines,
    );
}

/// Recovery across restarts: after draining N items onto a log whose
/// maximum id was M, the maximum id of the grown log is M + N, so a
/// later restart recovers the sequence exactly where this one
/// stopped.
pub proof fn lemma_restart_recovers(
    content: Seq<char>,
    names: Seq<Seq<char>>,
    times: Seq<Seq<char>>,
    lines: Seq<Seq<char>>,
)
    requires
        content.len() == 0 || content.last() == '\n',
        names.len() == times.len(),
        lines.len() == names.len(),
        names.len() >= 1,
        log::spec_max_id(log::spec_parse_log(content)) + names.len() <= 2147483647,
        forall|k: int|
            0 <= k < lines.len() ==> lines[k] == spec_serialize(
                EventModel {
                    id: log::spec_max_id(log::spec_parse_log(content)) + 1 + k,
                    name: names[k],
                    time: times[k],
                },
            ),
    ensures
        log::spec_max_id(log::spec_parse_log(content + log::join_lines(lines)))
            == log::spec_max_id(log::spec_parse_log(content)) + names.len(),
{
    let m = log::spec_max_id(log::spec_parse_log(content));
    log::lemma_max_id_nonneg(log::spec_parse_log(content));
    lemma_resume_contiguous(content, names, times, lines);
    let evs = Seq::new(
        names.len(),
        |k: int| EventModel { id: m + 1 + k, name: names[k], time: times[k] },
    );
    log::lemma_max_id_concat(log::spec_parse_log(content), evs);
    log::lemma_max_id_contiguous(evs, m);
}

/// One writer step never breaks the id chain: with the log's maximum
/// id equal to the sequencer value M, appending the prepared line
/// (which carries id M + 1) after a successful write and committing
/// re-establishes the invariant at M + 1; after a failed write
/// nothing is appended and nothing is committed, so the log and the
/// sequencer are unchanged and the next prepared line carries M + 1
/// again — no pattern of append failures leaves a gap or a duplicate
/// among the persisted ids.
pub proof fn lemma_append_step(
    content: Seq<char>,
    name: Seq<char>,
    time: Seq<char>,
    line: Seq<char>,
)
    requires
        content.len() == 0 || content.last() == '\n',
        log::spec_max_id(log::spec_parse_log(content)) + 1 <= 2147483647,
        line == spec_serialize(
            EventModel {
                id: log::spec_max_id(log::spec_parse_log(content)) + 1,
                name: name,
                time: time,
            },
        ),
    ensures
        log::spec_parse_log(content + line + seq!['\n']) == log::spec_parse_log(content).push(
            EventModel {
                id: log::spec_max_id(log::spec_parse_log(content)) + 1,
                name: name,
                time: time,
            },
        ),
        log::spec_max_id(log::spec_parse_log(content + line + seq!['\n'])) == log::spec_max_id(
            log::spec_parse_log(content),
        ) + 1,
{
    let m = log::spec_max_id(log::spec_parse_log(content));
    let names = seq![name];
    let times = seq![time];
    let lines = seq![line];
    let ev = EventModel { id: m + 1, name: name, time: time };
    assert(lines[0] == spec_serialize(EventModel { id: m + 1 + 0, name: names[0], time: times[0] }));
    lemma_resume_contiguous(content, names, times, lines);
    lemma_restart_recovers(content, names, times, lines);
    assert(log::join_lines(lines) =~= line + seq!['\n']) by {
        assert(lines.drop_first() =~= Seq::<Seq<char>>::empty());
        assert(log::join_lines(lines.drop_first()) == Seq::<char>::empty());
        assert(log::join_lines(lines) == lines[0] + seq!['\n'] + log::join_lines(
            lines.drop_first(),
        ));
    }
    assert(content + log::join_lines(lines) =~= content + line + seq!['\n']);
    assert(Seq::new(1nat, |k: int| EventModel { id: m + 1 + k, name: names[k], time: times[k] })
        =~= seq![ev]);
    assert(log::spec_parse_log(content) + seq![ev] =~= log::spec_parse_log(content).push(ev));
}

/// Submitting N task names to an initially empty log persists exactly
/// N records, with ids 1 through N, in submission order.
pub proof fn lemma_fresh_log_ids(names: Seq<Seq<char>>, times: Seq<Seq<char>>, lines: Seq<Seq<char>>)
    requires
        names.len() == times.len(),
        lines.len() == names.len(),
        names.len() <= 2147483647,
        forall|k: int|
            0 <= k < lines.len() ==> lines[k] == spec_serialize(
                EventModel { id: 1 + k, name: names[k], time: times[k] },
            ),
    ensures
        log::spec_parse_log(log::join_lines(lines)) == Seq::new(
            names.len(),
            |k: int| EventModel { id: 1 + k, name: names[k], time: times[k] },
        ),
{
    lemma_drain_persists_all(Seq::empty(), 0, names, times, lines);
    assert(Seq::empty() + log::join_lines(lines) =~= log::join_lines(lines));
    assert(log::split_lines(Seq::<char>::empty()) == Seq::<Seq<char>>::empty());
    assert(log::spec_parse_log(Seq::empty()) == Seq::<EventModel>::empty());
    assert(Seq::<EventModel>::empty() + Seq::new(
        names.len(),
        |j: int| EventModel { id: 0 + 1 + j, name: names[j], time: times[j] },
    ) =~= Seq::new(names.len(), |j: int| EventModel { id: 1 + j, name: names[j], time: times[j] }));
}

} // verus!
