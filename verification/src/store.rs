//! The record store: history events, saved commands and their query and
//! mutation operations, modelled over mathematical sequences.

use vstd::prelude::*;

use crate::Mode;
use crate::text::{opt_str_matches, str_eq};

verus! {

/// One recorded execution of a shell command.
pub struct HistoryEvent {
    pub command: String,
    pub exit_code: Option<i64>,
    pub cwd: Option<String>,
    pub hostname: Option<String>,
    pub session: Option<String>,
    pub start_ts: i64,
    pub duration: i64,
}

/// The mathematical value of a history event.
pub ghost struct EventModel {
    pub command: Seq<char>,
    pub exit_code: Option<int>,
    pub cwd: Option<Seq<char>>,
    pub hostname: Option<Seq<char>>,
    pub session: Option<Seq<char>>,
    pub start_ts: int,
    pub duration: int,
}

impl View for HistoryEvent {
    type V = EventModel;

    open spec fn view(&self) -> EventModel {
        EventModel {
            command: self.command@,
            exit_code: match self.exit_code {
                Some(c) => Some(c as int),
                None => None,
            },
            cwd: self.cwd.deep_view(),
            hostname: self.hostname.deep_view(),
            session: self.session.deep_view(),
            start_ts: self.start_ts as int,
            duration: self.duration as int,
        }
    }
}

impl DeepView for HistoryEvent {
    type V = EventModel;

    open spec fn deep_view(&self) -> EventModel {
        self.view()
    }
}

/// One row of a search result: a distinct command with the most recent
/// timestamp and the largest duration among its occurrences.
pub struct HistoryRecord {
    pub command: String,
    pub timestamp: i64,
    pub duration: i64,
}

/// The mathematical value of a search-result row.
pub ghost struct RecordModel {
    pub command: Seq<char>,
    pub timestamp: int,
    pub duration: int,
}

impl View for HistoryRecord {
    type V = RecordModel;

    open spec fn view(&self) -> RecordModel {
        RecordModel {
            command: self.command@,
            timestamp: self.timestamp as int,
            duration: self.duration as int,
        }
    }
}

impl DeepView for HistoryRecord {
    type V = RecordModel;

    open spec fn deep_view(&self) -> RecordModel {
        self.view()
    }
}

/// A user-curated command, unique by its text.
pub struct SavedCommand {
    pub id: i64,
    pub command: String,
    pub description: Option<String>,
    pub created_at: i64,
    pub tags: Vec<String>,
}

/// The mathematical value of a saved command.
pub ghost struct SavedModel {
    pub id: int,
    pub command: Seq<char>,
    pub description: Option<Seq<char>>,
    pub created_at: int,
    pub tags: Seq<Seq<char>>,
}

impl View for SavedCommand {
    type V = SavedModel;

    open spec fn view(&self) -> SavedModel {
        SavedModel {
            id: self.id as int,
            command: self.command@,
            description: self.description.deep_view(),
            created_at: self.created_at as int,
            tags: self.tags.deep_view(),
        }
    }
}

impl DeepView for SavedCommand {
    type V = SavedModel;

    open spec fn deep_view(&self) -> SavedModel {
        self.view()
    }
}

/// The store: all history events and all saved commands.
pub struct Database {
    history: Vec<HistoryEvent>,
    saved: Vec<SavedCommand>,
    next_saved_id: i64,
}

/// The mathematical value of the whole store.
pub ghost struct DbModel {
    pub history: Seq<EventModel>,
    pub saved: Seq<SavedModel>,
    pub next_saved_id: int,
}

impl View for Database {
    type V = DbModel;

    closed spec fn view(&self) -> DbModel {
        DbModel {
            history: self.history.deep_view(),
            saved: self.saved.deep_view(),
            next_saved_id: self.next_saved_id as int,
        }
    }
}

/// Finds the row that carries this command, if any.
fn find_row(agg: &Vec<HistoryRecord>, cmd: &str) -> (o: Option<usize>)
    ensures
        match o {
            Some(j) => j < agg@.len() && agg.deep_view()[j as int].command == cmd@,
            None => forall|k: int| 0 <= k < agg@.len() ==> #[trigger] agg.deep_view()[k].command != cmd@,
        },
{
    let n = agg.len();
    let mut j: usize = 0;
    while j < n
        invariant
            j <= n,
            n == agg@.len(),
            forall|k: int| 0 <= k < j ==> #[trigger] agg.deep_view()[k].command != cmd@,
        decreases n - j,
    {
        if str_eq(agg[j].command.as_str(), cmd) {
            proof {
                assert(agg.deep_view()[j as int].command == agg@[j as int]@.command);
            }
            return Some(j);
        }
        proof {
            assert(agg.deep_view()[j as int].command == agg@[j as int]@.command);
        }
        j += 1;
    }
    None
}

/// Whether some history event carries this exact `(command, start_ts)` pair,
/// the key that import deduplicates on.
pub open spec fn has_key(hist: Seq<EventModel>, cmd: Seq<char>, ts: int) -> bool {
    exists|i: int| 0 <= i < hist.len() && hist[i].command == cmd && hist[i].start_ts == ts
}

/// Whether an event falls inside the slice of history a mode looks at.
/// `Saved` does not query history at all, so it matches no event.
pub open spec fn event_matches(e: EventModel, mode: Mode, session: Seq<char>, cwd: Seq<char>) -> bool {
    match mode {
        Mode::Global => true,
        Mode::Session => e.session == Some(session),
        Mode::Cwd => e.cwd == Some(cwd),
        Mode::Saved => false,
    }
}

/// Whether `cmd` is the text of some matching event among the first `n`.
pub open spec fn cmd_occurs(
    hist: Seq<EventModel>,
    n: int,
    mode: Mode,
    session: Seq<char>,
    cwd: Seq<char>,
    cmd: Seq<char>,
) -> bool {
    exists|i: int|
        0 <= i < n && #[trigger] event_matches(hist[i], mode, session, cwd) && hist[i].command
            == cmd
}

/// Whether a result row carries a command of some matching event among the
/// first `n` events, together with the maximum `start_ts` and the maximum
/// `duration` over all matching events with that command.
pub open spec fn max_row(
    hist: Seq<EventModel>,
    n: int,
    mode: Mode,
    session: Seq<char>,
    cwd: Seq<char>,
    r: RecordModel,
) -> bool {
    &&& exists|i: int|
        0 <= i < n && #[trigger] event_matches(hist[i], mode, session, cwd) && hist[i].command
            == r.command && hist[i].start_ts == r.timestamp
    &&& exists|i: int|
        0 <= i < n && #[trigger] event_matches(hist[i], mode, session, cwd) && hist[i].command
            == r.command && hist[i].duration == r.duration
    &&& forall|i: int|
        0 <= i < n && #[trigger] event_matches(hist[i], mode, session, cwd) && hist[i].command
            == r.command ==> hist[i].start_ts <= r.timestamp && hist[i].duration <= r.duration
}

/// Whether some result row carries this command.
pub open spec fn rows_have(rs: Seq<RecordModel>, cmd: Seq<char>) -> bool {
    exists|k: int| 0 <= k < rs.len() && #[trigger] rs[k].command == cmd
}

/// The set of distinct command texts of the matching events.
pub open spec fn matching_commands(
    hist: Seq<EventModel>,
    mode: Mode,
    session: Seq<char>,
    cwd: Seq<char>,
) -> Set<Seq<char>>
    decreases hist.len(),
{
    if hist.len() == 0 {
        Set::empty()
    } else {
        let rest = matching_commands(hist.drop_last(), mode, session, cwd);
        if event_matches(hist.last(), mode, session, cwd) {
            rest.insert(hist.last().command)
        } else {
            rest
        }
    }
}

/// The matching-command set is finite and holds exactly the texts of the
/// matching events.
pub proof fn lemma_matching_commands(
    hist: Seq<EventModel>,
    mode: Mode,
    session: Seq<char>,
    cwd: Seq<char>,
)
    ensures
        matching_commands(hist, mode, session, cwd).finite(),
        forall|cmd: Seq<char>|
            #[trigger] matching_commands(hist, mode, session, cwd).contains(cmd) <==> cmd_occurs(
                hist,
                hist.len() as int,
                mode,
                session,
                cwd,
                cmd,
            ),
    decreases hist.len(),
{
    if hist.len() == 0 {
    } else {
        let pre = hist.drop_last();
        lemma_matching_commands(pre, mode, session, cwd);
        assert forall|cmd: Seq<char>|
            #[trigger] matching_commands(hist, mode, session, cwd).contains(cmd) implies cmd_occurs(
            hist,
            hist.len() as int,
            mode,
            session,
            cwd,
            cmd,
        ) by {
            if matching_commands(pre, mode, session, cwd).contains(cmd) {
                let i = choose|i: int|
                    0 <= i < pre.len() && #[trigger] event_matches(pre[i], mode, session, cwd)
                        && pre[i].command == cmd;
                assert(hist[i] == pre[i]);
                assert(event_matches(hist[i], mode, session, cwd));
            } else {
                assert(event_matches(hist.last(), mode, session, cwd) && hist.last().command
                    == cmd);
                assert(event_matches(hist[hist.len() - 1], mode, session, cwd));
            }
        }
        assert forall|cmd: Seq<char>|
            cmd_occurs(hist, hist.len() as int, mode, session, cwd, cmd) implies #[trigger]
        matching_commands(hist, mode, session, cwd).contains(cmd) by {
            let i = choose|i: int|
                0 <= i < hist.len() && #[trigger] event_matches(hist[i], mode, session, cwd)
                    && hist[i].command == cmd;
            if i < hist.len() - 1 {
                assert(pre[i] == hist[i]);
                assert(event_matches(pre[i], mode, session, cwd));
                assert(matching_commands(pre, mode, session, cwd).contains(cmd));
            }
        }
    }
}

/// When every stored event carrying a row's command has one and the same
/// timestamp, that is the timestamp the row carries: with the import dedup
/// law this pins the search row of a command whose occurrences all share
/// one `(command, start_ts)` key.
pub proof fn lemma_max_row_pins_timestamp(
    h: Seq<EventModel>,
    mode: Mode,
    ses: Seq<char>,
    cw: Seq<char>,
    r: RecordModel,
    t: int,
)
    requires
        max_row(h, h.len() as int, mode, ses, cw, r),
        forall|i: int|
            0 <= i < h.len() ==> ((#[trigger] h[i]).command == r.command ==> h[i].start_ts == t),
    ensures
        r.timestamp == t,
{
    let w = choose|i: int|
        0 <= i < h.len() && #[trigger] event_matches(h[i], mode, ses, cw) && h[i].command
            == r.command && h[i].start_ts == r.timestamp;
    assert(h[w].start_ts == t);
}

/// The aggregation invariant: after the first `nd` events are folded in,
/// the rows carry exactly the distinct matching commands seen so far, each
/// with its running maxima.
spec fn agg_inv(
    h: Seq<EventModel>,
    nd: int,
    mode: Mode,
    ses: Seq<char>,
    cw: Seq<char>,
    ad: Seq<RecordModel>,
) -> bool {
    &&& (forall|a: int, b: int|
        #![trigger ad[a], ad[b]]
        0 <= a < b < ad.len() ==> ad[a].command != ad[b].command)
    &&& (forall|a: int| 0 <= a < ad.len() ==> max_row(h, nd, mode, ses, cw, #[trigger] ad[a]))
    &&& (forall|i: int|
        0 <= i < nd && #[trigger] event_matches(h[i], mode, ses, cw) ==> rows_have(
            ad,
            h[i].command,
        ))
    &&& ad.len() == matching_commands(h.subrange(0, nd), mode, ses, cw).len()
}

/// The ordering invariant: rows are split between an ordered part and a
/// waiting part; both keep only maximal rows with pairwise distinct commands,
/// and together they still cover every matching command.
spec fn part_inv(
    h: Seq<EventModel>,
    mode: Mode,
    ses: Seq<char>,
    cw: Seq<char>,
    sd: Seq<RecordModel>,
    ad: Seq<RecordModel>,
) -> bool {
    &&& (forall|a: int, b: int|
        #![trigger sd[a], sd[b]]
        0 <= a < b < sd.len() ==> sd[a].timestamp >= sd[b].timestamp)
    &&& (forall|a: int, b: int|
        #![trigger sd[a], sd[b]]
        0 <= a < b < sd.len() ==> sd[a].command != sd[b].command)
    &&& (forall|a: int, b: int|
        #![trigger ad[a], ad[b]]
        0 <= a < b < ad.len() ==> ad[a].command != ad[b].command)
    &&& (forall|a: int, b: int|
        #![trigger sd[a], ad[b]]
        0 <= a < sd.len() && 0 <= b < ad.len() ==> sd[a].command != ad[b].command)
    &&& (forall|a: int|
        0 <= a < sd.len() ==> max_row(h, h.len() as int, mode, ses, cw, #[trigger] sd[a]))
    &&& (forall|a: int|
        0 <= a < ad.len() ==> max_row(h, h.len() as int, mode, ses, cw, #[trigger] ad[a]))
    &&& (forall|i: int|
        0 <= i < h.len() && #[trigger] event_matches(h[i], mode, ses, cw) ==> rows_have(
            sd,
            h[i].command,
        ) || rows_have(ad, h[i].command))
}

/// The first index among saved commands carrying this text, or -1.
pub open spec fn saved_index(s: Seq<SavedModel>, cmd: Seq<char>) -> int
    decreases s.len(),
{
    if s.len() == 0 {
        -1
    } else if s[0].command == cmd {
        0
    } else {
        let r = saved_index(s.drop_first(), cmd);
        if r == -1 {
            -1
        } else {
            r + 1
        }
    }
}

pub proof fn lemma_saved_index(s: Seq<SavedModel>, cmd: Seq<char>)
    ensures
        saved_index(s, cmd) == -1 ==> forall|k: int| 0 <= k < s.len() ==> (#[trigger] s[k]).command
            != cmd,
        saved_index(s, cmd) != -1 ==> 0 <= saved_index(s, cmd) < s.len() && s[saved_index(
            s,
            cmd,
        )].command == cmd && forall|k: int|
            0 <= k < saved_index(s, cmd) ==> (#[trigger] s[k]).command != cmd,
    decreases s.len(),
{
    if s.len() == 0 {
    } else if s[0].command == cmd {
    } else {
        let t = s.drop_first();
        lemma_saved_index(t, cmd);
        assert(forall|k: int| 0 <= k < t.len() ==> #[trigger] t[k] == s[k + 1]);
        let r = saved_index(t, cmd);
        if r == -1 {
            assert forall|k: int| 0 <= k < s.len() implies (#[trigger] s[k]).command != cmd by {
                if k > 0 {
                    assert(t[k - 1].command != cmd);
                }
            }
        } else {
            assert(s[r + 1].command == t[r].command);
            assert forall|k: int| 0 <= k < r + 1 implies (#[trigger] s[k]).command != cmd by {
                if k > 0 {
                    assert(t[k - 1].command != cmd);
                }
            }
        }
    }
}

/// The saved commands after an upsert, together with the id used and the
/// next free id: an existing entry with the same text is replaced in place
/// (its tag set is replaced, not merged), a new text is appended under a
/// fresh id.
pub open spec fn spec_upsert(
    s: Seq<SavedModel>,
    next_id: int,
    cmd: Seq<char>,
    desc: Option<Seq<char>>,
    tags: Seq<Seq<char>>,
    now: int,
) -> (Seq<SavedModel>, int, int) {
    let i = saved_index(s, cmd);
    if i >= 0 {
        (
            s.update(
                i,
                SavedModel { id: s[i].id, command: cmd, description: desc, created_at: now, tags },
            ),
            s[i].id,
            next_id,
        )
    } else {
        (
            s.push(
                SavedModel {
                    id: next_id,
                    command: cmd,
                    description: desc,
                    created_at: now,
                    tags,
                },
            ),
            next_id,
            next_id + 1,
        )
    }
}

/// The first index among saved commands carrying this id, or -1.
pub open spec fn saved_id_index(s: Seq<SavedModel>, id: int) -> int
    decreases s.len(),
{
    if s.len() == 0 {
        -1
    } else if s[0].id == id {
        0
    } else {
        let r = saved_id_index(s.drop_first(), id);
        if r == -1 {
            -1
        } else {
            r + 1
        }
    }
}

pub proof fn lemma_saved_id_index(s: Seq<SavedModel>, id: int)
    ensures
        saved_id_index(s, id) == -1 ==> forall|k: int| 0 <= k < s.len() ==> (#[trigger] s[k]).id
            != id,
        saved_id_index(s, id) != -1 ==> 0 <= saved_id_index(s, id) < s.len() && s[saved_id_index(
            s,
            id,
        )].id == id && forall|k: int|
            0 <= k < saved_id_index(s, id) ==> (#[trigger] s[k]).id != id,
    decreases s.len(),
{
    if s.len() == 0 {
    } else if s[0].id == id {
    } else {
        let t = s.drop_first();
        lemma_saved_id_index(t, id);
        assert(forall|k: int| 0 <= k < t.len() ==> #[trigger] t[k] == s[k + 1]);
        let r = saved_id_index(t, id);
        if r == -1 {
            assert forall|k: int| 0 <= k < s.len() implies (#[trigger] s[k]).id != id by {
                if k > 0 {
                    assert(t[k - 1].id != id);
                }
            }
        } else {
            assert(s[r + 1].id == t[r].id);
            assert forall|k: int| 0 <= k < r + 1 implies (#[trigger] s[k]).id != id by {
                if k > 0 {
                    assert(t[k - 1].id != id);
                }
            }
        }
    }
}

/// The saved commands after a deletion by id.
pub open spec fn spec_delete(s: Seq<SavedModel>, id: int) -> Seq<SavedModel> {
    let i = saved_id_index(s, id);
    if i >= 0 {
        s.remove(i)
    } else {
        s
    }
}

/// After an upsert on a store with unique command texts, exactly one entry
/// carries the saved text, and it holds exactly the description, tag set and
/// timestamp just given.
pub proof fn lemma_upsert_attaches(
    s: Seq<SavedModel>,
    next: int,
    cmd: Seq<char>,
    d: Option<Seq<char>>,
    t: Seq<Seq<char>>,
    n: int,
)
    requires
        forall|i: int, j: int|
            #![trigger s[i], s[j]]
            0 <= i < j < s.len() ==> s[i].command != s[j].command,
    ensures
        ({
            let r = spec_upsert(s, next, cmd, d, t, n).0;
            let w = saved_index(r, cmd);
            &&& 0 <= w < r.len()
            &&& r[w].command == cmd
            &&& r[w].description == d
            &&& r[w].tags == t
            &&& r[w].created_at == n
            &&& forall|x: int| 0 <= x < r.len() && x != w ==> (#[trigger] r[x]).command != cmd
            &&& forall|i: int, j: int|
                #![trigger r[i], r[j]]
                0 <= i < j < r.len() ==> r[i].command != r[j].command
        }),
{
    lemma_saved_index(s, cmd);
    let i1 = saved_index(s, cmd);
    let r = spec_upsert(s, next, cmd, d, t, n).0;
    if i1 >= 0 {
        assert(forall|x: int| 0 <= x < r.len() && x != i1 ==> #[trigger] r[x] == s[x]);
        assert(r[i1].command == cmd && s[i1].command == cmd);
        lemma_saved_index(r, cmd);
        let w = saved_index(r, cmd);
        assert(w != -1) by {
            if w == -1 {
                assert(r[i1].command != cmd);
            }
        }
        assert(w == i1) by {
            if w != i1 {
                assert(s[w].command == cmd);
                if w < i1 {
                    assert(s[w].command != s[i1].command);
                } else {
                    assert(s[i1].command != s[w].command);
                }
            }
        }
        assert(forall|x: int| 0 <= x < r.len() ==> (#[trigger] r[x]).command == s[x].command);
    } else {
        assert(r == s.push(
            SavedModel { id: next, command: cmd, description: d, created_at: n, tags: t },
        ));
        assert(r[s.len() as int].command == cmd);
        lemma_saved_index(r, cmd);
        let w = saved_index(r, cmd);
        assert(w != -1) by {
            if w == -1 {
                assert(r[s.len() as int].command != cmd);
            }
        }
        assert(w == s.len() as int) by {
            if w < s.len() {
                assert(r[w] == s[w]);
                assert(s[w].command != cmd);
            }
        }
        assert(forall|x: int| 0 <= x < s.len() ==> #[trigger] r[x] == s[x]);
    }
}

/// Saving the same command twice replaces its attachments rather than
/// merging them: after both upserts the store holds exactly one entry with
/// that text, and it carries exactly the second description and the second
/// tag set.
pub proof fn lemma_save_twice_replaces_tags(
    s: Seq<SavedModel>,
    next: int,
    cmd: Seq<char>,
    d1: Option<Seq<char>>,
    t1: Seq<Seq<char>>,
    n1: int,
    d2: Option<Seq<char>>,
    t2: Seq<Seq<char>>,
    n2: int,
)
    requires
        forall|i: int, j: int|
            #![trigger s[i], s[j]]
            0 <= i < j < s.len() ==> s[i].command != s[j].command,
    ensures
        ({
            let r1 = spec_upsert(s, next, cmd, d1, t1, n1);
            let r2 = spec_upsert(r1.0, r1.2, cmd, d2, t2, n2).0;
            let w = saved_index(r2, cmd);
            &&& 0 <= w < r2.len()
            &&& r2[w].command == cmd
            &&& r2[w].tags == t2
            &&& r2[w].description == d2
            &&& forall|x: int| 0 <= x < r2.len() && x != w ==> (#[trigger] r2[x]).command != cmd
        }),
{
    lemma_upsert_attaches(s, next, cmd, d1, t1, n1);
    let r1 = spec_upsert(s, next, cmd, d1, t1, n1);
    lemma_upsert_attaches(r1.0, r1.2, cmd, d2, t2, n2);
}

/// The view of an optional borrowed text.
pub open spec fn opt_text_view(o: Option<&str>) -> Option<Seq<char>> {
    match o {
        Some(d) => Some(d@),
        None => None,
    }
}

/// Whether one store state is the other after an upsert under this
/// timestamp, handing out this id.
pub open spec fn upsert_holds(
    pre: DbModel,
    post: DbModel,
    cmd: Seq<char>,
    desc: Option<Seq<char>>,
    tags: Seq<Seq<char>>,
    id: int,
    now: int,
) -> bool {
    let t = spec_upsert(pre.saved, pre.next_saved_id, cmd, desc, tags, now);
    &&& post.saved == t.0
    &&& id == t.1
    &&& post.next_saved_id == t.2
    &&& post.history == pre.history
}

/// Whether a saved command passes the tag filter: no filter keeps
/// everything, a non-empty filter asks for at least one shared tag, and an
/// empty filter set degrades to the well-defined empty result, so it keeps
/// nothing.
pub open spec fn saved_matches(e: SavedModel, filter: Option<Seq<Seq<char>>>) -> bool {
    match filter {
        None => true,
        Some(f) => exists|i: int, j: int|
            #![trigger e.tags[i], f[j]]
            0 <= i < e.tags.len() && 0 <= j < f.len() && e.tags[i] == f[j],
    }
}

/// How many saved commands pass the tag filter.
pub open spec fn matching_saved_count(s: Seq<SavedModel>, filter: Option<Seq<Seq<char>>>) -> nat
    decreases s.len(),
{
    if s.len() == 0 {
        0
    } else {
        matching_saved_count(s.drop_last(), filter) + (if saved_matches(s.last(), filter) {
            1nat
        } else {
            0nat
        })
    }
}

/// Whether this exact saved-command value occurs in the sequence.
pub open spec fn saved_has(s: Seq<SavedModel>, e: SavedModel) -> bool {
    exists|k: int| 0 <= k < s.len() && #[trigger] s[k] == e
}

/// The listing invariant: entries are split between an ordered part and a
/// waiting part; all of them pass the filter and come from the store, and
/// together they still cover every matching entry.
spec fn saved_part_inv(
    ss: Seq<SavedModel>,
    f: Option<Seq<Seq<char>>>,
    sd: Seq<SavedModel>,
    wd: Seq<SavedModel>,
) -> bool {
    &&& (forall|a: int, b: int|
        #![trigger sd[a], sd[b]]
        0 <= a < b < sd.len() ==> sd[a].created_at >= sd[b].created_at)
    &&& (forall|a: int|
        0 <= a < sd.len() ==> saved_matches(#[trigger] sd[a], f) && saved_has(ss, sd[a]))
    &&& (forall|a: int|
        0 <= a < wd.len() ==> saved_matches(#[trigger] wd[a], f) && saved_has(ss, wd[a]))
    &&& (forall|i: int|
        0 <= i < ss.len() && saved_matches(#[trigger] ss[i], f) ==> saved_has(sd, ss[i])
            || saved_has(wd, ss[i]))
}

/// Copies a vector of strings.
fn clone_strings(v: &Vec<String>) -> (r: Vec<String>)
    ensures
        r.deep_view() == v.deep_view(),
{
    let n = v.len();
    let mut r: Vec<String> = Vec::new();
    let mut i: usize = 0;
    while i < n
        invariant
            i <= n,
            n == v@.len(),
            r.deep_view().len() == i,
            forall|k: int| 0 <= k < i ==> #[trigger] r.deep_view()[k] == v.deep_view()[k],
        decreases n - i,
    {
        let ghost rd = r.deep_view();
        r.push(v[i].clone());
        proof {
            assert(r@[i as int]@ == v@[i as int]@);
            assert(r.deep_view() =~= rd.push(v.deep_view()[i as int]));
        }
        i += 1;
    }
    proof {
        assert(r.deep_view() =~= v.deep_view());
    }
    r
}

/// Copies a saved command.
fn duplicate_saved(e: &SavedCommand) -> (r: SavedCommand)
    ensures
        r@ == e@,
{
    SavedCommand {
        id: e.id,
        command: e.command.clone(),
        description: match &e.description {
            Some(d) => Some(d.clone()),
            None => None,
        },
        created_at: e.created_at,
        tags: clone_strings(&e.tags),
    }
}

/// Whether the two tag lists share an entry.
fn tags_intersect(tags: &Vec<String>, filter: &Vec<String>) -> (r: bool)
    ensures
        r == exists|i: int, j: int|
            #![trigger tags.deep_view()[i], filter.deep_view()[j]]
            0 <= i < tags.deep_view().len() && 0 <= j < filter.deep_view().len()
                && tags.deep_view()[i] == filter.deep_view()[j],
{
    let n = tags.len();
    let m = filter.len();
    let mut i: usize = 0;
    while i < n
        invariant
            i <= n,
            n == tags@.len(),
            m == filter@.len(),
            forall|a: int, b: int|
                #![trigger tags.deep_view()[a], filter.deep_view()[b]]
                0 <= a < i && 0 <= b < m ==> tags.deep_view()[a] != filter.deep_view()[b],
        decreases n - i,
    {
        let mut j: usize = 0;
        while j < m
            invariant
                i < n,
                j <= m,
                n == tags@.len(),
                m == filter@.len(),
                forall|b: int|
                    0 <= b < j ==> tags.deep_view()[i as int] != #[trigger] filter.deep_view()[b],
            decreases m - j,
        {
            proof {
                assert(tags.deep_view()[i as int] == tags@[i as int]@);
                assert(filter.deep_view()[j as int] == filter@[j as int]@);
            }
            if str_eq(tags[i].as_str(), filter[j].as_str()) {
                return true;
            }
            j += 1;
        }
        i += 1;
    }
    false
}

/// Whether a saved command passes the tag filter.
fn entry_matches(e: &SavedCommand, filter: &Option<Vec<String>>) -> (r: bool)
    ensures
        r == saved_matches(e@, filter.deep_view()),
{
    match filter {
        None => {
            proof {
                assert(filter.deep_view() == Option::<Seq<Seq<char>>>::None);
                assert(saved_matches(e@, filter.deep_view()));
            }
            true
        },
        Some(f) => {
            proof {
                assert(filter.deep_view() == Some(f.deep_view()));
            }
            if f.len() == 0 {
                proof {
                    assert(!saved_matches(e@, filter.deep_view()));
                }
                false
            } else {
                let ghost fd = f.deep_view();
                let r = tags_intersect(&e.tags, f);
                proof {
                    if r {
                        let (i, j) = choose|i: int, j: int|
                            0 <= i < e.tags.deep_view().len() && 0 <= j < fd.len()
                                && #[trigger] e.tags.deep_view()[i] == #[trigger] fd[j];
                        assert(e@.tags[i] == fd[j]);
                        assert(saved_matches(e@, filter.deep_view()));
                    } else {
                        assert(!saved_matches(e@, filter.deep_view())) by {
                            if saved_matches(e@, filter.deep_view()) {
                                let (i, j) = choose|i: int, j: int|
                                    0 <= i < e@.tags.len() && 0 <= j < fd.len()
                                        && #[trigger] e@.tags[i] == #[trigger] fd[j];
                                assert(e.tags.deep_view()[i] == f.deep_view()[j]);
                            }
                        }
                    }
                }
                r
            }
        },
    }
}

impl Database {
    /// Well-formedness: the `(command, start_ts)` pairs of history events are
    /// pairwise distinct, saved commands are unique by text and by id, and
    /// every saved id lies below the next id to hand out.
    pub open spec fn wf(&self) -> bool {
        &&& forall|i: int, j: int|
            0 <= i < j < self@.history.len() ==> !(self@.history[i].command
                == self@.history[j].command && self@.history[i].start_ts
                == self@.history[j].start_ts)
        &&& forall|i: int, j: int|
            0 <= i < j < self@.saved.len() ==> self@.saved[i].command != self@.saved[j].command
        &&& forall|i: int, j: int|
            0 <= i < j < self@.saved.len() ==> self@.saved[i].id != self@.saved[j].id
        &&& forall|i: int|
            0 <= i < self@.saved.len() ==> 1 <= #[trigger] self@.saved[i].id < self@.next_saved_id
        &&& 1 <= self@.next_saved_id
    }

    /// An empty store.
    pub fn new() -> (r: Database)
        ensures
            r.wf(),
            r@.history == Seq::<EventModel>::empty(),
            r@.saved == Seq::<SavedModel>::empty(),
            r@.next_saved_id == 1,
    {
        let r = Database { history: Vec::new(), saved: Vec::new(), next_saved_id: 1 };
        proof {
            assert(r@.history =~= Seq::<EventModel>::empty());
            assert(r@.saved =~= Seq::<SavedModel>::empty());
        }
        r
    }

    /// All stored history events, in insertion order.
    pub fn events(&self) -> (r: &Vec<HistoryEvent>)
        ensures
            r.deep_view() == self@.history,
    {
        &self.history
    }

    /// Whether another saved command can still get a fresh id.
    pub fn has_id_headroom(&self) -> (r: bool)
        ensures
            r == (self@.next_saved_id < i64::MAX),
    {
        self.next_saved_id < i64::MAX
    }

    /// Whether an event with this exact `(command, start_ts)` pair is stored.
    pub fn contains_event(&self, command: &str, ts: i64) -> (r: bool)
        ensures
            r == has_key(self@.history, command@, ts as int),
    {
        let n = self.history.len();
        let mut i: usize = 0;
        while i < n
            invariant
                i <= n,
                n == self@.history.len(),
                forall|k: int|
                    0 <= k < i ==> !(self@.history[k].command == command@
                        && self@.history[k].start_ts == ts as int),
            decreases n - i,
        {
            let e = &self.history[i];
            proof {
                assert(self@.history[i as int] == self.history@[i as int]@);
            }
            if e.start_ts == ts && str_eq(e.command.as_str(), command) {
                return true;
            }
            i += 1;
        }
        false
    }

    /// Searches history in the given mode: one row per distinct matching
    /// command, carrying the maximum start timestamp and the maximum duration
    /// over that command's matching occurrences, ordered by descending
    /// timestamp and capped at `limit`. Every matching command missing from
    /// the result lost against the cap: the result is full and no older row
    /// was kept over a newer one. The `Saved` mode does not query history,
    /// so there it yields nothing; saved commands come from
    /// `get_saved_commands`.
    pub fn search(&self, mode: Mode, limit: u32, session: &str, cwd: &str) -> (r: Vec<
        HistoryRecord,
    >)
        ensures
            ({
                let h = self@.history;
                let rs = r.deep_view();
                let total = matching_commands(h, mode, session@, cwd@).len() as int;
                &&& rs.len() == (if limit as int <= total {
                    limit as int
                } else {
                    total
                })
                &&& (forall|a: int, b: int|
                    #![trigger rs[a], rs[b]]
                    0 <= a < b < rs.len() ==> rs[a].command != rs[b].command)
                &&& (forall|a: int, b: int|
                    #![trigger rs[a], rs[b]]
                    0 <= a < b < rs.len() ==> rs[a].timestamp >= rs[b].timestamp)
                &&& (forall|a: int|
                    0 <= a < rs.len() ==> max_row(
                        h,
                        h.len() as int,
                        mode,
                        session@,
                        cwd@,
                        #[trigger] rs[a],
                    ))
                &&& (forall|i: int|
                    0 <= i < h.len() && #[trigger] event_matches(h[i], mode, session@, cwd@)
                        && !rows_have(rs, h[i].command) ==> rs.len() == limit as int && (rs.len()
                        > 0 ==> h[i].start_ts <= rs[rs.len() - 1].timestamp))
            }),
    {
        let ghost h = self@.history;
        let ghost ses = session@;
        let ghost cw = cwd@;
        let n = self.history.len();

        let mut agg: Vec<HistoryRecord> = Vec::new();
        let mut i: usize = 0;
        proof {
            assert(h.subrange(0, 0) =~= Seq::<EventModel>::empty());
        }
        while i < n
            invariant
                i <= n,
                n == h.len(),
                h == self@.history,
                ses == session@,
                cw == cwd@,
                agg_inv(h, i as int, mode, ses, cw, agg.deep_view()),
            decreases n - i,
        {
            let ghost ad = agg.deep_view();
            let ghost pre = h.subrange(0, i as int);
            let ghost post = h.subrange(0, i as int + 1);
            proof {
                assert(self@.history[i as int] == self.history@[i as int]@);
                assert(post.drop_last() =~= pre);
                assert(forall|k: int| 0 <= k < i ==> pre[k] == h[k]);
                lemma_matching_commands(pre, mode, ses, cw);
            }
            let e = &self.history[i];
            let m: bool = match mode {
                Mode::Global => true,
                Mode::Session => opt_str_matches(&e.session, session),
                Mode::Cwd => opt_str_matches(&e.cwd, cwd),
                Mode::Saved => false,
            };
            proof {
                assert(m == event_matches(h[i as int], mode, ses, cw));
            }
            if m {
                let ghost cmd = h[i as int].command;
                proof {
                    assert(matching_commands(post, mode, ses, cw) == matching_commands(
                        pre,
                        mode,
                        ses,
                        cw,
                    ).insert(cmd));
                }
                match find_row(&agg, e.command.as_str()) {
                    Some(j) => {
                        let old_rec = agg.remove(j);
                        let nts = if e.start_ts > old_rec.timestamp {
                            e.start_ts
                        } else {
                            old_rec.timestamp
                        };
                        let ndur = if e.duration > old_rec.duration {
                            e.duration
                        } else {
                            old_rec.duration
                        };
                        let newrec = HistoryRecord {
                            command: old_rec.command,
                            timestamp: nts,
                            duration: ndur,
                        };
                        agg.insert(j, newrec);
                        proof {
                            let ad2 = agg.deep_view();
                            assert(ad2 =~= ad.update(j as int, newrec@));
                            // the command was already counted
                            assert(cmd_occurs(pre, pre.len() as int, mode, ses, cw, cmd)) by {
                                let w = choose|w: int|
                                    0 <= w < i && #[trigger] event_matches(h[w], mode, ses, cw)
                                        && h[w].command == ad[j as int].command && h[w].start_ts
                                        == ad[j as int].timestamp;
                                assert(event_matches(pre[w], mode, ses, cw));
                            }
                            assert(matching_commands(pre, mode, ses, cw).contains(cmd));
                            assert(matching_commands(pre, mode, ses, cw).insert(cmd)
                                =~= matching_commands(pre, mode, ses, cw));
                            assert(ad2.len() == matching_commands(post, mode, ses, cw).len());
                            // rows keep their commands
                            assert(forall|a: int|
                                0 <= a < ad2.len() ==> #[trigger] ad2[a].command
                                    == ad[a].command);
                            assert forall|a: int| 0 <= a < ad2.len() implies max_row(
                                h,
                                i as int + 1,
                                mode,
                                ses,
                                cw,
                                #[trigger] ad2[a],
                            ) by {
                                if a == j as int {
                                    assert(max_row(h, i as int, mode, ses, cw, ad[a]));
                                    if e.start_ts > old_rec.timestamp {
                                        assert(event_matches(h[i as int], mode, ses, cw)
                                            && h[i as int].command == ad2[a].command
                                            && h[i as int].start_ts == ad2[a].timestamp);
                                    }
                                    if e.duration > old_rec.duration {
                                        assert(event_matches(h[i as int], mode, ses, cw)
                                            && h[i as int].command == ad2[a].command
                                            && h[i as int].duration == ad2[a].duration);
                                    }
                                } else {
                                    assert(max_row(h, i as int, mode, ses, cw, ad[a]));
                                    assert(ad2[a].command != cmd) by {
                                        if a < j as int {
                                            assert(ad[a].command != ad[j as int].command);
                                        } else {
                                            assert(ad[j as int].command != ad[a].command);
                                        }
                                    }
                                }
                            }
                            assert forall|k: int|
                                0 <= k < i as int + 1 && #[trigger] event_matches(
                                    h[k],
                                    mode,
                                    ses,
                                    cw,
                                ) implies rows_have(ad2, h[k].command) by {
                                if k < i as int {
                                    let w = choose|w: int|
                                        0 <= w < ad.len() && #[trigger] ad[w].command
                                            == h[k].command;
                                    assert(ad2[w].command == h[k].command);
                                } else {
                                    assert(ad2[j as int].command == cmd);
                                }
                            }
                        }
                    },
                    None => {
                        let newrec = HistoryRecord {
                            command: e.command.clone(),
                            timestamp: e.start_ts,
                            duration: e.duration,
                        };
                        agg.push(newrec);
                        proof {
                            let ad2 = agg.deep_view();
                            assert(ad2 =~= ad.push(newrec@));
                            // the command is new: it cannot occur in the prefix
                            assert(!cmd_occurs(pre, pre.len() as int, mode, ses, cw, cmd)) by {
                                if cmd_occurs(pre, pre.len() as int, mode, ses, cw, cmd) {
                                    let w = choose|w: int|
                                        0 <= w < pre.len() && #[trigger] event_matches(
                                            pre[w],
                                            mode,
                                            ses,
                                            cw,
                                        ) && pre[w].command == cmd;
                                    assert(event_matches(h[w], mode, ses, cw));
                                    assert(rows_have(ad, cmd));
                                }
                            }
                            assert(!matching_commands(pre, mode, ses, cw).contains(cmd));
                            broadcast use vstd::set::axiom_set_insert_len;

                            assert(ad2.len() == matching_commands(post, mode, ses, cw).len());
                            assert forall|a: int| 0 <= a < ad2.len() implies max_row(
                                h,
                                i as int + 1,
                                mode,
                                ses,
                                cw,
                                #[trigger] ad2[a],
                            ) by {
                                if a < ad.len() {
                                    assert(max_row(h, i as int, mode, ses, cw, ad[a]));
                                    assert(ad2[a].command != cmd);
                                } else {
                                    assert(ad2[a] == newrec@);
                                    assert(event_matches(h[i as int], mode, ses, cw)
                                        && h[i as int].command == ad2[a].command
                                        && h[i as int].start_ts == ad2[a].timestamp
                                        && h[i as int].duration == ad2[a].duration);
                                    assert forall|w: int|
                                        0 <= w < i as int + 1 && #[trigger] event_matches(
                                            h[w],
                                            mode,
                                            ses,
                                            cw,
                                        ) && h[w].command == ad2[a].command implies h[w].start_ts
                                        <= ad2[a].timestamp && h[w].duration
                                        <= ad2[a].duration by {
                                        if w < i as int {
                                            assert(rows_have(ad, h[w].command));
                                            assert(false);
                                        }
                                    }
                                }
                            }
                            assert forall|k: int|
                                0 <= k < i as int + 1 && #[trigger] event_matches(
                                    h[k],
                                    mode,
                                    ses,
                                    cw,
                                ) implies rows_have(ad2, h[k].command) by {
                                if k < i as int {
                                    let w = choose|w: int|
                                        0 <= w < ad.len() && #[trigger] ad[w].command
                                            == h[k].command;
                                    assert(ad2[w].command == h[k].command);
                                } else {
                                    assert(ad2[ad.len() as int].command == cmd);
                                }
                            }
                        }
                    },
                }
            } else {
                proof {
                    assert(matching_commands(post, mode, ses, cw) == matching_commands(
                        pre,
                        mode,
                        ses,
                        cw,
                    ));
                    assert(agg_inv(h, i as int + 1, mode, ses, cw, agg.deep_view()));
                }
            }
            i += 1;
        }
        proof {
            assert(h.subrange(0, n as int) =~= h);
        }

        self.order_and_cap(mode, limit, Ghost(ses), Ghost(cw), agg)
    }

    /// Orders aggregated rows by descending timestamp and keeps the first
    /// `limit` of them.
    fn order_and_cap(
        &self,
        mode: Mode,
        limit: u32,
        Ghost(ses): Ghost<Seq<char>>,
        Ghost(cw): Ghost<Seq<char>>,
        agg: Vec<HistoryRecord>,
    ) -> (r: Vec<HistoryRecord>)
        requires
            agg_inv(
                self@.history,
                self@.history.len() as int,
                mode,
                ses,
                cw,
                agg.deep_view(),
            ),
        ensures
            ({
                let h = self@.history;
                let rs = r.deep_view();
                let total = matching_commands(h, mode, ses, cw).len() as int;
                &&& rs.len() == (if limit as int <= total {
                    limit as int
                } else {
                    total
                })
                &&& (forall|a: int, b: int|
                    #![trigger rs[a], rs[b]]
                    0 <= a < b < rs.len() ==> rs[a].command != rs[b].command)
                &&& (forall|a: int, b: int|
                    #![trigger rs[a], rs[b]]
                    0 <= a < b < rs.len() ==> rs[a].timestamp >= rs[b].timestamp)
                &&& (forall|a: int|
                    0 <= a < rs.len() ==> max_row(h, h.len() as int, mode, ses, cw, #[trigger] rs[a]))
                &&& (forall|i: int|
                    0 <= i < h.len() && #[trigger] event_matches(h[i], mode, ses, cw)
                        && !rows_have(rs, h[i].command) ==> rs.len() == limit as int && (rs.len() > 0
                        ==> h[i].start_ts <= rs[rs.len() - 1].timestamp))
            }),
    {
        let ghost h = self@.history;
        let ghost htotal = matching_commands(h, mode, ses, cw).len() as int;
        proof {
            assert(h.subrange(0, h.len() as int) =~= h);
        }

        let mut sorted: Vec<HistoryRecord> = Vec::new();
        let mut work = agg;
        while work.len() > 0
            invariant
                h == self@.history,
                part_inv(h, mode, ses, cw, sorted.deep_view(), work.deep_view()),
                sorted.deep_view().len() + work.deep_view().len() == htotal,
            decreases work.len(),
        {
            let ghost sd = sorted.deep_view();
            let ghost wd = work.deep_view();
            let rec = work.remove(0);
            proof {
                assert(rec@ == wd[0]);
                assert(work.deep_view() =~= wd.drop_first());
            }
            let ghost wd2 = work.deep_view();
            let slen = sorted.len();
            let mut pos: usize = 0;
            while pos < slen && sorted[pos].timestamp >= rec.timestamp
                invariant
                    pos <= slen,
                    slen == sd.len(),
                    sorted.deep_view() == sd,
                    sorted@.len() == sd.len(),
                    forall|k: int| 0 <= k < pos ==> #[trigger] sd[k].timestamp >= rec@.timestamp,
                decreases slen - pos,
            {
                proof {
                    assert(sd[pos as int] == sorted@[pos as int]@);
                }
                pos += 1;
            }
            proof {
                if (pos as int) < sd.len() {
                    assert(sd[pos as int] == sorted@[pos as int]@);
                    assert(sd[pos as int].timestamp < rec@.timestamp);
                }
            }
            let ghost svec = sorted@;
            sorted.insert(pos, rec);
            proof {
                let sd2 = sorted.deep_view();
                svec.insert_ensures(pos as int, rec);
                assert(sd2 =~= sd.insert(pos as int, rec@));
                sd.insert_ensures(pos as int, rec@);
                // ordering
                assert forall|a: int, b: int|
                    #![trigger sd2[a], sd2[b]]
                    0 <= a < b < sd2.len() implies sd2[a].timestamp >= sd2[b].timestamp by {
                    if b < pos as int {
                        assert(sd2[a] == sd[a] && sd2[b] == sd[b]);
                    } else if b == pos as int {
                        assert(sd2[a] == sd[a] && sd2[b] == rec@);
                    } else if a < pos as int {
                        assert(sd2[a] == sd[a] && sd2[b] == sd[b - 1]);
                        if a < b - 1 {
                        } else {
                            assert(a == pos as int - 1 && b == pos as int + 1);
                        }
                    } else if a == pos as int {
                        assert(sd2[a] == rec@ && sd2[b] == sd[b - 1]);
                        assert(sd[pos as int].timestamp < rec@.timestamp);
                        if (pos as int) < b - 1 {
                            assert(sd[pos as int].timestamp >= sd[b - 1].timestamp);
                        }
                    } else {
                        assert(sd2[a] == sd[a - 1] && sd2[b] == sd[b - 1]);
                    }
                }
                // distinct commands, within and across
                assert forall|a: int, b: int|
                    #![trigger sd2[a], sd2[b]]
                    0 <= a < b < sd2.len() implies sd2[a].command != sd2[b].command by {
                    if a == pos as int || b == pos as int {
                        assert(forall|k: int|
                            0 <= k < sd.len() ==> #[trigger] sd[k].command != wd[0].command);
                    }
                }
                assert forall|a: int, b: int|
                    #![trigger sd2[a], wd2[b]]
                    0 <= a < sd2.len() && 0 <= b < wd2.len() implies sd2[a].command
                    != wd2[b].command by {
                    assert(wd2[b] == wd[b + 1]);
                    if a == pos as int {
                        assert(sd2[a] == wd[0]);
                    }
                }
                // every row is still a maximal row
                assert forall|a: int| 0 <= a < sd2.len() implies max_row(
                    h,
                    h.len() as int,
                    mode,
                    ses,
                    cw,
                    #[trigger] sd2[a],
                ) by {
                    if a < pos as int {
                        assert(sd2[a] == sd[a]);
                    } else if a == pos as int {
                        assert(sd2[a] == wd[0]);
                    } else {
                        assert(sd2[a] == sd[a - 1]);
                    }
                }
                // coverage
                assert forall|i: int|
                    0 <= i < h.len() && #[trigger] event_matches(h[i], mode, ses, cw) implies
                    rows_have(sd2, h[i].command) || rows_have(wd2, h[i].command) by {
                    if rows_have(sd, h[i].command) {
                        let k = choose|k: int|
                            0 <= k < sd.len() && #[trigger] sd[k].command == h[i].command;
                        if k < pos as int {
                            assert(sd2[k].command == h[i].command);
                        } else {
                            assert(sd2[k + 1].command == h[i].command);
                        }
                    } else {
                        let k = choose|k: int|
                            0 <= k < wd.len() && #[trigger] wd[k].command == h[i].command;
                        if k == 0 {
                            assert(sd2[pos as int].command == h[i].command);
                        } else {
                            assert(wd2[k - 1].command == h[i].command);
                        }
                    }
                }
            }
        }
        proof {
            assert(sorted.deep_view().len() == htotal);
        }

        let lim = limit as usize;
        let ghost full = sorted.deep_view();
        if sorted.len() > lim {
            sorted.truncate(lim);
            proof {
                assert(sorted.deep_view() =~= full.subrange(0, lim as int));
            }
        }
        proof {
            let rs = sorted.deep_view();
            assert(forall|k: int| 0 <= k < rs.len() ==> rs[k] == full[k]);
            assert forall|i: int|
                0 <= i < h.len() && #[trigger] event_matches(h[i], mode, ses, cw) && !rows_have(
                    rs,
                    h[i].command,
                ) implies rs.len() == limit as int && (rs.len() > 0 ==> h[i].start_ts <= rs[rs.len()
                - 1].timestamp) by {
                assert(rows_have(full, h[i].command));
                let k = choose|k: int|
                    0 <= k < full.len() && #[trigger] full[k].command == h[i].command;
                assert(k >= rs.len()) by {
                    if k < rs.len() {
                        assert(rs[k].command == h[i].command);
                    }
                }
                assert(rs.len() == lim as int);
                if rs.len() > 0 {
                    assert(max_row(h, h.len() as int, mode, ses, cw, full[k]));
                    assert(h[i].start_ts <= full[k].timestamp);
                    assert(full[lim - 1].timestamp >= full[k].timestamp);
                    assert(rs[rs.len() - 1] == full[lim - 1]);
                }
            }
        }
        sorted
    }

    /// Saves a command under the given timestamp: an existing entry with the
    /// same text is updated in place, keeping its id and replacing its whole
    /// tag set; a new text gets a fresh id. Returns the id.
    pub fn save_command_at(
        &mut self,
        command: &str,
        description: Option<&str>,
        tags: Vec<String>,
        now: i64,
    ) -> (id: i64)
        requires
            old(self).wf(),
            old(self)@.next_saved_id < i64::MAX,
        ensures
            final(self).wf(),
            ({
                let t = spec_upsert(
                    old(self)@.saved,
                    old(self)@.next_saved_id,
                    command@,
                    match description {
                        Some(d) => Some(d@),
                        None => None,
                    },
                    tags.deep_view(),
                    now as int,
                );
                &&& final(self)@.saved == t.0
                &&& id as int == t.1
                &&& final(self)@.next_saved_id == t.2
                &&& final(self)@.history == old(self)@.history
            }),
    {
        let ghost ss = self@.saved;
        let ghost cmd = command@;
        let ghost dd: Option<Seq<char>> = match description {
            Some(d) => Some(d@),
            None => None,
        };
        let ghost tgs = tags.deep_view();
        proof {
            lemma_saved_index(ss, cmd);
        }
        let desc_owned: Option<String> = match description {
            Some(d) => Some(d.to_owned()),
            None => None,
        };
        proof {
            assert(desc_owned.deep_view() == dd);
        }
        let n = self.saved.len();
        let mut j: usize = 0;
        while j < n
            invariant
                j <= n,
                n == ss.len(),
                self@ == old(self)@,
                ss == self@.saved,
                old(self).wf(),
                cmd == command@,
                dd == desc_owned.deep_view(),
                dd == (match description {
                    Some(d) => Some(d@),
                    None => None,
                }),
                tgs == tags.deep_view(),
                forall|k: int| 0 <= k < j ==> (#[trigger] ss[k]).command != cmd,
            decreases n - j,
        {
            proof {
                assert(ss[j as int] == self.saved@[j as int]@);
            }
            if str_eq(self.saved[j].command.as_str(), command) {
                proof {
                    lemma_saved_index(ss, cmd);
                    let idx = saved_index(ss, cmd);
                    assert(idx != -1) by {
                        if idx == -1 {
                            assert(ss[j as int].command != cmd);
                        }
                    }
                    assert(idx == j as int) by {
                        if idx < j as int {
                            assert(ss[idx].command != cmd);
                        }
                        if idx > j as int {
                            assert(ss[j as int].command != cmd);
                        }
                    }
                }
                // replace in place, keeping the id
                let prior = self.saved.remove(j);
                let updated = SavedCommand {
                    id: prior.id,
                    command: command.to_owned(),
                    description: desc_owned,
                    created_at: now,
                    tags,
                };
                let id = updated.id;
                proof {
                    assert(updated@ == SavedModel {
                        id: ss[j as int].id,
                        command: cmd,
                        description: dd,
                        created_at: now as int,
                        tags: tgs,
                    });
                }
                self.saved.insert(j, updated);
                proof {
                    let upd = spec_upsert(ss, old(self)@.next_saved_id, cmd, dd, tgs, now as int);
                    assert(self@.saved =~= ss.update(j as int, updated@));
                    assert(self@.saved =~= upd.0);
                    assert forall|x: int| 0 <= x < self@.saved.len() implies (
                    #[trigger] self@.saved[x]).command == ss[x].command && self@.saved[x].id
                        == ss[x].id by {}
                }
                return id;
            }
            j += 1;
        }
        proof {
            assert(saved_index(ss, cmd) == -1) by {
                if saved_index(ss, cmd) != -1 {
                    assert(ss[saved_index(ss, cmd)].command == cmd);
                }
            }
        }
        let id = self.next_saved_id;
        let entry = SavedCommand {
            id,
            command: command.to_owned(),
            description: desc_owned,
            created_at: now,
            tags,
        };
        proof {
            assert(entry@ == SavedModel {
                id: old(self)@.next_saved_id,
                command: cmd,
                description: dd,
                created_at: now as int,
                tags: tgs,
            });
        }
        self.saved.push(entry);
        self.next_saved_id = self.next_saved_id + 1;
        proof {
            let upd = spec_upsert(ss, old(self)@.next_saved_id, cmd, dd, tgs, now as int);
            assert(self@.saved =~= ss.push(entry@));
            assert(self@.saved =~= upd.0);
        }
        id
    }

    /// Saves a command stamped with the current wall-clock time; otherwise
    /// exactly like `save_command_at`.
    pub fn save_command(
        &mut self,
        command: &str,
        description: Option<&str>,
        tags: Vec<String>,
    ) -> (id: i64)
        requires
            old(self).wf(),
            old(self)@.next_saved_id < i64::MAX,
        ensures
            final(self).wf(),
            exists|now: int|
                #[trigger] upsert_holds(
                    old(self)@,
                    final(self)@,
                    command@,
                    opt_text_view(description),
                    tags.deep_view(),
                    id as int,
                    now,
                ),
    {
        let now = crate::time::now_timestamp();
        let ghost dd: Option<Seq<char>> = match description {
            Some(d) => Some(d@),
            None => None,
        };
        let ghost tgs = tags.deep_view();
        let id = self.save_command_at(command, description, tags, now);
        proof {
            assert(upsert_holds(old(self)@, self@, command@, dd, tgs, id as int, now as int));
        }
        id
    }

    /// Removes the saved command with this id, reporting whether it existed.
    pub fn delete_saved_command(&mut self, id: i64) -> (found: bool)
        requires
            old(self).wf(),
        ensures
            final(self).wf(),
            final(self)@.saved == spec_delete(old(self)@.saved, id as int),
            found == (saved_id_index(old(self)@.saved, id as int) >= 0),
            final(self)@.history == old(self)@.history,
            final(self)@.next_saved_id == old(self)@.next_saved_id,
    {
        let ghost ss = self@.saved;
        proof {
            lemma_saved_id_index(ss, id as int);
        }
        let n = self.saved.len();
        let mut j: usize = 0;
        while j < n
            invariant
                j <= n,
                n == ss.len(),
                self@ == old(self)@,
                ss == self@.saved,
                old(self).wf(),
                forall|k: int| 0 <= k < j ==> (#[trigger] ss[k]).id != id as int,
            decreases n - j,
        {
            proof {
                assert(ss[j as int] == self.saved@[j as int]@);
            }
            if self.saved[j].id == id {
                proof {
                    lemma_saved_id_index(ss, id as int);
                    let idx = saved_id_index(ss, id as int);
                    assert(idx != -1) by {
                        if idx == -1 {
                            assert(ss[j as int].id != id as int);
                        }
                    }
                    assert(idx == j as int) by {
                        if idx < j as int {
                            assert(ss[idx].id != id as int);
                        }
                        if idx > j as int {
                            assert(ss[j as int].id != id as int);
                        }
                    }
                }
                self.saved.remove(j);
                proof {
                    assert(self@.saved =~= ss.remove(j as int));
                    ss.remove_ensures(j as int);
                }
                return true;
            }
            j += 1;
        }
        proof {
            assert(saved_id_index(ss, id as int) == -1) by {
                if saved_id_index(ss, id as int) != -1 {
                    assert(ss[saved_id_index(ss, id as int)].id == id as int);
                }
            }
        }
        false
    }

    /// Lists saved commands: with no filter all of them, with a non-empty
    /// tag filter those sharing at least one tag, and with an empty filter
    /// set none (an empty filter degrades to the empty result); always
    /// ordered by descending creation time and carrying their full tag
    /// lists.
    #[verifier::rlimit(60)]
    pub fn get_saved_commands(&self, tag_filter: Option<Vec<String>>) -> (r: Vec<SavedCommand>)
        requires
            self.wf(),
        ensures
            ({
                let ss = self@.saved;
                let f = tag_filter.deep_view();
                let rs = r.deep_view();
                &&& rs.len() == matching_saved_count(ss, f)
                &&& (forall|a: int, b: int|
                    #![trigger rs[a], rs[b]]
                    0 <= a < b < rs.len() ==> rs[a].created_at >= rs[b].created_at)
                &&& (forall|a: int|
                    0 <= a < rs.len() ==> saved_matches(#[trigger] rs[a], f) && saved_has(
                        ss,
                        rs[a],
                    ))
                &&& (forall|i: int|
                    0 <= i < ss.len() && saved_matches(#[trigger] ss[i], f) ==> saved_has(
                        rs,
                        ss[i],
                    ))
            }),
    {
        let ghost ss = self@.saved;
        let ghost f = tag_filter.deep_view();
        let n = self.saved.len();

        let mut work: Vec<SavedCommand> = Vec::new();
        let mut i: usize = 0;
        proof {
            assert(ss.subrange(0, 0) =~= Seq::<SavedModel>::empty());
        }
        while i < n
            invariant
                i <= n,
                n == ss.len(),
                ss == self@.saved,
                f == tag_filter.deep_view(),
                work.deep_view().len() == matching_saved_count(ss.subrange(0, i as int), f),
                forall|a: int|
                    0 <= a < work.deep_view().len() ==> saved_matches(
                        #[trigger] work.deep_view()[a],
                        f,
                    ) && saved_has(ss, work.deep_view()[a]),
                forall|k: int|
                    0 <= k < i && saved_matches(#[trigger] ss[k], f) ==> saved_has(
                        work.deep_view(),
                        ss[k],
                    ),
            decreases n - i,
        {
            let ghost wd = work.deep_view();
            let ghost pre = ss.subrange(0, i as int);
            let ghost post = ss.subrange(0, i as int + 1);
            proof {
                assert(ss[i as int] == self.saved@[i as int]@);
                assert(post.drop_last() =~= pre);
                assert(post.last() == ss[i as int]);
            }
            let e = &self.saved[i];
            if entry_matches(e, &tag_filter) {
                let copy = duplicate_saved(e);
                work.push(copy);
                proof {
                    assert(work.deep_view() =~= wd.push(ss[i as int]));
                    assert forall|k: int|
                        0 <= k < i as int + 1 && saved_matches(#[trigger] ss[k], f) implies
                    saved_has(work.deep_view(), ss[k]) by {
                        if k < i as int {
                            let w = choose|w: int|
                                0 <= w < wd.len() && #[trigger] wd[w] == ss[k];
                            assert(work.deep_view()[w] == ss[k]);
                        } else {
                            assert(work.deep_view()[wd.len() as int] == ss[k]);
                        }
                    }
                }
            } else {
                proof {
                    assert(work.deep_view() =~= wd);
                }
            }
            i += 1;
        }
        proof {
            assert(ss.subrange(0, n as int) =~= ss);
        }
        let ghost total = matching_saved_count(ss, f) as int;

        let mut sorted: Vec<SavedCommand> = Vec::new();
        while work.len() > 0
            invariant
                ss == self@.saved,
                f == tag_filter.deep_view(),
                saved_part_inv(ss, f, sorted.deep_view(), work.deep_view()),
                sorted.deep_view().len() + work.deep_view().len() == total,
            decreases work.len(),
        {
            let ghost sd = sorted.deep_view();
            let ghost wd = work.deep_view();
            let rec = work.remove(0);
            proof {
                assert(rec@ == wd[0]);
                assert(work.deep_view() =~= wd.drop_first());
            }
            let ghost wd2 = work.deep_view();
            let slen = sorted.len();
            let mut pos: usize = 0;
            while pos < slen && sorted[pos].created_at >= rec.created_at
                invariant
                    pos <= slen,
                    slen == sd.len(),
                    sorted.deep_view() == sd,
                    sorted@.len() == sd.len(),
                    forall|k: int| 0 <= k < pos ==> #[trigger] sd[k].created_at >= rec@.created_at,
                decreases slen - pos,
            {
                proof {
                    assert(sd[pos as int] == sorted@[pos as int]@);
                }
                pos += 1;
            }
            proof {
                if (pos as int) < sd.len() {
                    assert(sd[pos as int] == sorted@[pos as int]@);
                    assert(sd[pos as int].created_at < rec@.created_at);
                }
            }
            let ghost svec = sorted@;
            sorted.insert(pos, rec);
            proof {
                let sd2 = sorted.deep_view();
                svec.insert_ensures(pos as int, rec);
                assert(sd2 =~= sd.insert(pos as int, rec@));
                sd.insert_ensures(pos as int, rec@);
                assert forall|a: int, b: int|
                    #![trigger sd2[a], sd2[b]]
                    0 <= a < b < sd2.len() implies sd2[a].created_at >= sd2[b].created_at by {
                    if b < pos as int {
                        assert(sd2[a] == sd[a] && sd2[b] == sd[b]);
                    } else if b == pos as int {
                        assert(sd2[a] == sd[a] && sd2[b] == rec@);
                    } else if a < pos as int {
                        assert(sd2[a] == sd[a] && sd2[b] == sd[b - 1]);
                        if a < b - 1 {
                        } else {
                            assert(a == pos as int - 1 && b == pos as int + 1);
                        }
                    } else if a == pos as int {
                        assert(sd2[a] == rec@ && sd2[b] == sd[b - 1]);
                        assert(sd[pos as int].created_at < rec@.created_at);
                        if (pos as int) < b - 1 {
                            assert(sd[pos as int].created_at >= sd[b - 1].created_at);
                        }
                    } else {
                        assert(sd2[a] == sd[a - 1] && sd2[b] == sd[b - 1]);
                    }
                }
                assert forall|a: int| 0 <= a < sd2.len() implies saved_matches(
                    #[trigger] sd2[a],
                    f,
                ) && saved_has(ss, sd2[a]) by {
                    if a < pos as int {
                        assert(sd2[a] == sd[a]);
                    } else if a == pos as int {
                        assert(sd2[a] == wd[0]);
                    } else {
                        assert(sd2[a] == sd[a - 1]);
                    }
                }
                assert forall|k: int|
                    0 <= k < ss.len() && saved_matches(#[trigger] ss[k], f) implies saved_has(
                    sd2,
                    ss[k],
                ) || saved_has(wd2, ss[k]) by {
                    if saved_has(sd, ss[k]) {
                        let w = choose|w: int| 0 <= w < sd.len() && #[trigger] sd[w] == ss[k];
                        if w < pos as int {
                            assert(sd2[w] == ss[k]);
                        } else {
                            assert(sd2[w + 1] == ss[k]);
                        }
                    } else {
                        let w = choose|w: int| 0 <= w < wd.len() && #[trigger] wd[w] == ss[k];
                        if w == 0 {
                            assert(sd2[pos as int] == ss[k]);
                        } else {
                            assert(wd2[w - 1] == ss[k]);
                        }
                    }
                }
            }
        }
        sorted
    }

    /// Appends a history event, unless its `(command, start_ts)` key is
    /// already present; reports whether the event was inserted.
    pub fn insert_event(&mut self, e: HistoryEvent) -> (inserted: bool)
        requires
            old(self).wf(),
        ensures
            final(self).wf(),
            inserted == !has_key(old(self)@.history, e@.command, e@.start_ts),
            inserted ==> final(self)@.history == old(self)@.history.push(e@),
            !inserted ==> final(self)@.history == old(self)@.history,
            final(self)@.saved == old(self)@.saved,
            final(self)@.next_saved_id == old(self)@.next_saved_id,
    {
        if self.contains_event(e.command.as_str(), e.start_ts) {
            false
        } else {
            self.history.push(e);
            proof {
                assert(self@.history =~= old(self)@.history.push(e@));
            }
            true
        }
    }
}

} // verus!
