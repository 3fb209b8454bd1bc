//! The streaming side of a query: candidates published into a bounded
//! channel, and the decisions of the interactive session loop.

use vstd::prelude::*;

use crate::format::{HistoryItem, SavedCommandItem};
use crate::store::{HistoryRecord, RecordModel, SavedCommand, SavedModel};
use crate::Mode;

verus! {

/// A ranked candidate handed to the external selector: either a history
/// row or a saved command.
pub enum Candidate {
    History(HistoryItem),
    Saved(SavedCommandItem),
}

/// The mathematical value of a candidate.
pub ghost enum CandidateModel {
    History(RecordModel),
    Saved(SavedModel),
}

impl View for Candidate {
    type V = CandidateModel;

    open spec fn view(&self) -> CandidateModel {
        match self {
            Candidate::History(i) => CandidateModel::History(i.record@),
            Candidate::Saved(i) => CandidateModel::Saved(i.command@),
        }
    }
}

impl Candidate {
    /// The raw payload: the command text itself.
    pub fn text(&self) -> (r: String)
        ensures
            r@ == (match self@ {
                CandidateModel::History(m) => m.command,
                CandidateModel::Saved(m) => m.command,
            }),
    {
        match self {
            Candidate::History(i) => i.text(),
            Candidate::Saved(i) => i.text(),
        }
    }

    /// The one-line label.
    pub fn label(&self, now: i64) -> (r: String)
        ensures
            r@ == (match self@ {
                CandidateModel::History(m) => crate::format::history_label(m, now as int),
                CandidateModel::Saved(m) => crate::format::saved_label(m),
            }),
    {
        match self {
            Candidate::History(i) => i.display(now),
            Candidate::Saved(i) => i.display(),
        }
    }

    /// The multi-line preview.
    pub fn preview(&self) -> (r: String)
        ensures
            ({
                match self@ {
                    CandidateModel::History(m) => (0 <= m.timestamp
                        <= crate::time::MAX_DATETIME_TS as int ==> r@
                        == crate::format::history_preview(
                        m,
                        crate::time::timestamp_text(m.timestamp),
                    )) && (r@ == crate::format::history_preview(
                        m,
                        crate::time::timestamp_text(m.timestamp),
                    ) || r@ == crate::format::history_preview(m, "Unknown"@)),
                    CandidateModel::Saved(m) => (0 <= m.created_at
                        <= crate::time::MAX_DATETIME_TS as int ==> r@
                        == crate::format::saved_preview(
                        m,
                        crate::time::timestamp_text(m.created_at),
                    )) && (r@ == crate::format::saved_preview(
                        m,
                        crate::time::timestamp_text(m.created_at),
                    ) || r@ == crate::format::saved_preview(m, "Unknown"@)),
                }
            }),
    {
        match self {
            Candidate::History(i) => i.preview(),
            Candidate::Saved(i) => i.preview(),
        }
    }
}

#[verifier::external_type_specification]
#[verifier::external_body]
#[verifier::reject_recursive_types(T)]
pub struct ExSender<T>(crossbeam_channel::Sender<T>);

/// The sending half of the candidate channel, together with a ghost log of
/// every candidate the channel has accepted, in order. The log lets the
/// publishers' contracts say exactly what was handed to the consumer.
pub struct CandidateSink {
    sender: crossbeam_channel::Sender<Candidate>,
    log: Ghost<Seq<CandidateModel>>,
}

impl View for CandidateSink {
    type V = Seq<CandidateModel>;

    closed spec fn view(&self) -> Seq<CandidateModel> {
        self.log@
    }
}

impl CandidateSink {
    /// Wraps the sending half of a candidate channel; nothing has been
    /// accepted yet.
    pub fn new(sender: crossbeam_channel::Sender<Candidate>) -> (r: CandidateSink)
        ensures
            r@ == Seq::<CandidateModel>::empty(),
    {
        CandidateSink { sender, log: Ghost(Seq::empty()) }
    }
}

/// Relies on crossbeam_channel::Sender::send: it returns `Ok` when the
/// message went into the channel, blocks while the channel is full and
/// still has a receiver, and returns `Err` once every receiver is dropped —
/// which is how a cancelled consumer stops the publisher. Whether a given
/// send is accepted depends on the consumer; the ghost log records exactly
/// the accepted candidates, in order.
#[verifier::external_body]
fn send_into(sink: &mut CandidateSink, c: Candidate) -> (ok: bool)
    ensures
        ok ==> final(sink)@ == old(sink)@.push(c@),
        !ok ==> final(sink)@ == old(sink)@,
{
    sink.sender.send(c).is_ok()
}

/// Publishes one candidate per history row, in query-result order: the sink
/// accepts exactly the first `sent` rows, each wrapped as a history
/// candidate, appended in order; publishing stops at the first refused
/// send.
pub fn publish_history(sink: &mut CandidateSink, records: Vec<HistoryRecord>) -> (sent: usize)
    ensures
        sent <= records@.len(),
        final(sink)@.len() == old(sink)@.len() + sent,
        forall|k: int| 0 <= k < old(sink)@.len() ==> #[trigger] final(sink)@[k] == old(sink)@[k],
        forall|k: int|
            0 <= k < sent ==> #[trigger] final(sink)@[old(sink)@.len() + k]
                == CandidateModel::History(records.deep_view()[k]),
{
    let total = records.len();
    let ghost rd = records.deep_view();
    let ghost base = old(sink)@;
    let mut work = records;
    let mut sent: usize = 0;
    while work.len() > 0
        invariant
            rd == records.deep_view(),
            total == rd.len(),
            sent + work@.len() == total,
            base == old(sink)@,
            forall|k: int| 0 <= k < work@.len() ==> (#[trigger] work@[k])@ == rd[sent + k],
            sink@.len() == base.len() + sent,
            forall|k: int| 0 <= k < base.len() ==> #[trigger] sink@[k] == base[k],
            forall|k: int|
                0 <= k < sent ==> #[trigger] sink@[base.len() + k] == CandidateModel::History(
                    rd[k],
                ),
        decreases work.len(),
    {
        let ghost wd = work@;
        let rec = work.remove(0);
        proof {
            assert(rec@ == rd[sent as int]);
            assert(forall|k: int| 0 <= k < work@.len() ==> #[trigger] work@[k] == wd[k + 1]);
        }
        let candidate = Candidate::History(HistoryItem { record: rec });
        proof {
            assert(candidate@ == CandidateModel::History(rd[sent as int]));
        }
        if !send_into(sink, candidate) {
            return sent;
        }
        sent += 1;
    }
    sent
}

/// Publishes one candidate per saved command, in listing order: the sink
/// accepts exactly the first `sent` entries, each wrapped as a saved
/// candidate, appended in order; publishing stops at the first refused
/// send.
pub fn publish_saved(sink: &mut CandidateSink, saved: Vec<SavedCommand>) -> (sent: usize)
    ensures
        sent <= saved@.len(),
        final(sink)@.len() == old(sink)@.len() + sent,
        forall|k: int| 0 <= k < old(sink)@.len() ==> #[trigger] final(sink)@[k] == old(sink)@[k],
        forall|k: int|
            0 <= k < sent ==> #[trigger] final(sink)@[old(sink)@.len() + k]
                == CandidateModel::Saved(saved.deep_view()[k]),
{
    let total = saved.len();
    let ghost sd = saved.deep_view();
    let ghost base = old(sink)@;
    let mut work = saved;
    let mut sent: usize = 0;
    while work.len() > 0
        invariant
            sd == saved.deep_view(),
            total == sd.len(),
            sent + work@.len() == total,
            base == old(sink)@,
            forall|k: int| 0 <= k < work@.len() ==> (#[trigger] work@[k])@ == sd[sent + k],
            sink@.len() == base.len() + sent,
            forall|k: int| 0 <= k < base.len() ==> #[trigger] sink@[k] == base[k],
            forall|k: int|
                0 <= k < sent ==> #[trigger] sink@[base.len() + k] == CandidateModel::Saved(sd[k]),
        decreases work.len(),
    {
        let ghost wd = work@;
        let entry = work.remove(0);
        proof {
            assert(entry@ == sd[sent as int]);
            assert(forall|k: int| 0 <= k < work@.len() ==> #[trigger] work@[k] == wd[k + 1]);
        }
        let candidate = Candidate::Saved(SavedCommandItem { command: entry });
        proof {
            assert(candidate@ == CandidateModel::Saved(sd[sent as int]));
        }
        if !send_into(sink, candidate) {
            return sent;
        }
        sent += 1;
    }
    sent
}

/// What the external selector reports when a session round ends.
pub enum SelectorEvent {
    /// Plain acceptance of the selected candidate, if any.
    Accept(Option<String>),
    /// Acceptance for editing of the selected candidate, if any.
    AcceptEdit(Option<String>),
    /// The user asked for the next mode.
    CycleMode,
    /// The user aborted.
    Abort,
}

/// What the session settles on when it finishes.
pub struct Selection {
    pub command: String,
    pub edit: bool,
}

/// What the control loop does next: restart the pipeline in another mode,
/// or finish with the final selection, if any.
pub enum LoopStep {
    Restart(Mode),
    Finish(Option<Selection>),
}

/// Decides the session loop's next move from the selector's report:
/// a mode-cycle request restarts in the successor mode, an acceptance
/// finishes with the selected command (marked for editing when accepted
/// that way), and everything else finishes empty-handed.
pub fn session_step(mode: Mode, event: SelectorEvent) -> (r: LoopStep)
    ensures
        ({
            match event {
                SelectorEvent::Accept(Some(c)) => r matches LoopStep::Finish(Some(s)) && s.command
                    == c && s.edit == false,
                SelectorEvent::Accept(None) => r == LoopStep::Finish(None),
                SelectorEvent::AcceptEdit(Some(c)) => r matches LoopStep::Finish(Some(s))
                    && s.command == c && s.edit == true,
                SelectorEvent::AcceptEdit(None) => r == LoopStep::Finish(None),
                SelectorEvent::CycleMode => r == LoopStep::Restart(
                    match mode {
                        Mode::Global => Mode::Session,
                        Mode::Session => Mode::Cwd,
                        Mode::Cwd => Mode::Saved,
                        Mode::Saved => Mode::Global,
                    },
                ),
                SelectorEvent::Abort => r == LoopStep::Finish(None),
            }
        }),
{
    match event {
        SelectorEvent::Accept(Some(c)) => LoopStep::Finish(
            Some(Selection { command: c, edit: false }),
        ),
        SelectorEvent::Accept(None) => LoopStep::Finish(None),
        SelectorEvent::AcceptEdit(Some(c)) => LoopStep::Finish(
            Some(Selection { command: c, edit: true }),
        ),
        SelectorEvent::AcceptEdit(None) => LoopStep::Finish(None),
        SelectorEvent::CycleMode => LoopStep::Restart(mode.next_in_cycle()),
        SelectorEvent::Abort => LoopStep::Finish(None),
    }
}

/// What the process prints for the shell wrapper: the mode marker, the edit
/// marker when the selection is meant for editing, then the command.
pub open spec fn spec_rendered_selection(mode: Mode, command: Seq<char>, edit: bool) -> Seq<char> {
    "__HINDSIGHT_MODE__"@ + crate::spec_mode_name(mode) + "__"@ + (if edit {
        "__HINDSIGHT_EDIT__"@
    } else {
        Seq::<char>::empty()
    }) + command
}

/// Renders the final selection for the shell wrapper.
pub fn render_selection(mode: Mode, selection: &Selection) -> (r: String)
    ensures
        r@ == spec_rendered_selection(mode, selection.command@, selection.edit),
{
    let mut r = String::from_str("__HINDSIGHT_MODE__");
    r.append(mode.name());
    r.append("__");
    if selection.edit {
        r.append("__HINDSIGHT_EDIT__");
    }
    r.append(selection.command.as_str());
    proof {
        assert(r@ =~= spec_rendered_selection(mode, selection.command@, selection.edit));
    }
    r
}

} // verus!
