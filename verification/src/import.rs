//! The history importer: recovers structured records from the legacy
//! line-oriented history text and loads them into the store, deduplicating
//! on the `(command, start_ts)` key.

use vstd::prelude::*;

use crate::store::{has_key, Database, EventModel, HistoryEvent};
use crate::text::{
    all_digits, digits_val, find_char, find_first, is_continuation, is_continuation_line,
    parse_digits, trim_spec, trim_str,
};

verus! {

/// A record recovered from the legacy text: a command and the timestamp it
/// resolves to.
pub ghost struct ImportRecord {
    pub command: Seq<char>,
    pub start_ts: int,
}

/// The importer state: either idle, or accumulating a partial command with
/// an optional carried timestamp.
pub ghost struct ImportState {
    pub accumulating: bool,
    pub partial: Seq<char>,
    pub pending: Option<int>,
}

/// The idle importer state.
pub open spec fn idle_state() -> ImportState {
    ImportState { accumulating: false, partial: Seq::empty(), pending: None }
}

/// A carried timestamp if there is one, else the import time.
pub open spec fn resolve_ts(pending: Option<int>, now: int) -> int {
    match pending {
        Some(t) => t,
        None => now,
    }
}

/// What finalizing the current state emits: the trimmed accumulated text, or
/// nothing when idle.
pub open spec fn flush(st: ImportState, now: int) -> Seq<ImportRecord> {
    if st.accumulating {
        seq![
            ImportRecord {
                command: trim_spec(st.partial),
                start_ts: resolve_ts(st.pending, now),
            },
        ]
    } else {
        Seq::empty()
    }
}

/// An extended-format line: the fixed `": "` prefix, then a header of
/// exactly two colon-delimited integers up to the first `;`, then the
/// payload. Anything else — including a header that is not two plain
/// numbers, or a number beyond `i64::MAX` — is ordinary command text.
pub open spec fn extended_parse(s: Seq<char>) -> Option<(int, int, Seq<char>)> {
    if s.len() >= 2 && s[0] == ':' && s[1] == ' ' {
        let semi = find_char(s, ';');
        if semi >= 2 {
            let header = s.subrange(2, semi);
            let colon = find_char(header, ':');
            if colon >= 0 {
                let ts = header.subrange(0, colon);
                let dur = header.subrange(colon + 1, header.len() as int);
                if ts.len() > 0 && dur.len() > 0 && all_digits(ts) && all_digits(dur)
                    && digits_val(ts) <= i64::MAX && digits_val(dur) <= i64::MAX {
                    Some((digits_val(ts), digits_val(dur), s.subrange(semi + 1, s.len() as int)))
                } else {
                    None
                }
            } else {
                None
            }
        } else {
            None
        }
    } else {
        None
    }
}

/// One step of the importer on one input line: what it emits and the state
/// it moves to.
pub open spec fn line_step(st: ImportState, line: Seq<char>, now: int) -> (
    Seq<ImportRecord>,
    ImportState,
) {
    match extended_parse(line) {
        Some(t) => {
            let flushed = flush(st, now);
            if is_continuation(t.2) {
                (
                    flushed,
                    ImportState {
                        accumulating: true,
                        partial: t.2 + seq!['\n'],
                        pending: Some(t.0),
                    },
                )
            } else {
                (
                    flushed + seq![ImportRecord { command: trim_spec(t.2), start_ts: t.0 }],
                    idle_state(),
                )
            }
        },
        None => {
            if st.accumulating {
                if is_continuation(line) {
                    (
                        Seq::empty(),
                        ImportState {
                            accumulating: true,
                            partial: st.partial + line + seq!['\n'],
                            pending: st.pending,
                        },
                    )
                } else {
                    (
                        seq![
                            ImportRecord {
                                command: trim_spec(st.partial + line),
                                start_ts: resolve_ts(st.pending, now),
                            },
                        ],
                        idle_state(),
                    )
                }
            } else {
                (seq![ImportRecord { command: trim_spec(line), start_ts: now }], idle_state())
            }
        },
    }
}

/// The records the importer emits from this state over these lines,
/// finalizing whatever is still accumulated at the end of input.
pub open spec fn run_lines(st: ImportState, lines: Seq<Seq<char>>, now: int) -> Seq<ImportRecord>
    decreases lines.len(),
{
    if lines.len() == 0 {
        flush(st, now)
    } else {
        let step = line_step(st, lines[0], now);
        step.0 + run_lines(step.1, lines.drop_first(), now)
    }
}

/// The records recovered from a whole input.
pub open spec fn import_records(lines: Seq<Seq<char>>, now: int) -> Seq<ImportRecord> {
    run_lines(idle_state(), lines, now)
}

/// The history event an imported record becomes: tagged with the hostname
/// and the synthetic import session, exit code and duration defaulted.
pub open spec fn import_event(
    cmd: Seq<char>,
    ts: int,
    host: Seq<char>,
    session: Seq<char>,
) -> EventModel {
    EventModel {
        command: cmd,
        exit_code: Some(0),
        cwd: None,
        hostname: Some(host),
        session: Some(session),
        start_ts: ts,
        duration: 0,
    }
}

/// The history after loading the records in order, with the counts of
/// inserted and skipped records: a record whose `(command, start_ts)` key is
/// already stored is skipped.
pub open spec fn dedup_insert(
    hist: Seq<EventModel>,
    recs: Seq<ImportRecord>,
    host: Seq<char>,
    session: Seq<char>,
) -> (Seq<EventModel>, int, int)
    decreases recs.len(),
{
    if recs.len() == 0 {
        (hist, 0, 0)
    } else {
        let r0 = recs[0];
        if has_key(hist, r0.command, r0.start_ts) {
            let t = dedup_insert(hist, recs.drop_first(), host, session);
            (t.0, t.1, t.2 + 1)
        } else {
            let t = dedup_insert(
                hist.push(import_event(r0.command, r0.start_ts, host, session)),
                recs.drop_first(),
                host,
                session,
            );
            (t.0, t.1 + 1, t.2)
        }
    }
}

/// Loading a concatenation loads the first part, then the second over the
/// resulting history.
pub proof fn lemma_dedup_insert_append(
    hist: Seq<EventModel>,
    a: Seq<ImportRecord>,
    b: Seq<ImportRecord>,
    host: Seq<char>,
    session: Seq<char>,
)
    ensures
        ({
            let t1 = dedup_insert(hist, a, host, session);
            let t2 = dedup_insert(t1.0, b, host, session);
            let t = dedup_insert(hist, a + b, host, session);
            t.0 == t2.0 && t.1 == t1.1 + t2.1 && t.2 == t1.2 + t2.2
        }),
    decreases a.len(),
{
    if a.len() == 0 {
        assert(a + b =~= b);
    } else {
        assert((a + b)[0] == a[0]);
        assert((a + b).drop_first() =~= a.drop_first() + b);
        let r0 = a[0];
        if has_key(hist, r0.command, r0.start_ts) {
            lemma_dedup_insert_append(hist, a.drop_first(), b, host, session);
        } else {
            lemma_dedup_insert_append(
                hist.push(import_event(r0.command, r0.start_ts, host, session)),
                a.drop_first(),
                b,
                host,
                session,
            );
        }
    }
}

/// Importing never stores a duplicate `(command, start_ts)` key: over a
/// history whose keys are pairwise distinct, every imported record's key
/// ends up stored exactly once, exactly the inserted records enlarge the
/// history, and every record is either inserted or skipped. In particular,
/// of two records with the same command and the same resolved timestamp the
/// later one is skipped.
/// Both counts a load reports are nonnegative.
proof fn lemma_dedup_counts_nonneg(
    hist: Seq<EventModel>,
    recs: Seq<ImportRecord>,
    host: Seq<char>,
    session: Seq<char>,
)
    ensures
        dedup_insert(hist, recs, host, session).1 >= 0,
        dedup_insert(hist, recs, host, session).2 >= 0,
    decreases recs.len(),
{
    if recs.len() > 0 {
        let r0 = recs[0];
        if has_key(hist, r0.command, r0.start_ts) {
            lemma_dedup_counts_nonneg(hist, recs.drop_first(), host, session);
        } else {
            lemma_dedup_counts_nonneg(
                hist.push(import_event(r0.command, r0.start_ts, host, session)),
                recs.drop_first(),
                host,
                session,
            );
        }
    }
}

proof fn lemma_has_key_extend(a: Seq<EventModel>, b: Seq<EventModel>, cmd: Seq<char>, ts: int)
    requires
        a.len() <= b.len(),
        forall|x: int| 0 <= x < a.len() ==> #[trigger] b[x] == a[x],
        has_key(a, cmd, ts),
    ensures
        has_key(b, cmd, ts),
{
    let i = choose|i: int| 0 <= i < a.len() && a[i].command == cmd && a[i].start_ts == ts;
    assert(b[i] == a[i]);
    assert(b[i].command == cmd && b[i].start_ts == ts);
}

pub proof fn lemma_import_dedup(
    hist: Seq<EventModel>,
    recs: Seq<ImportRecord>,
    host: Seq<char>,
    session: Seq<char>,
)
    requires
        forall|i: int, j: int|
            #![trigger hist[i], hist[j]]
            0 <= i < j < hist.len() ==> !(hist[i].command == hist[j].command && hist[i].start_ts
                == hist[j].start_ts),
    ensures
        ({
            let t = dedup_insert(hist, recs, host, session);
            &&& forall|i: int, j: int|
                #![trigger t.0[i], t.0[j]]
                0 <= i < j < t.0.len() ==> !(t.0[i].command == t.0[j].command && t.0[i].start_ts
                    == t.0[j].start_ts)
            &&& t.0.len() == hist.len() + t.1
            &&& t.1 + t.2 == recs.len()
            &&& forall|x: int| 0 <= x < hist.len() ==> #[trigger] t.0[x] == hist[x]
            &&& forall|k: int|
                0 <= k < recs.len() ==> has_key(
                    t.0,
                    (#[trigger] recs[k]).command,
                    recs[k].start_ts,
                )
        }),
    decreases recs.len(),
{
    if recs.len() == 0 {
    } else {
        let r0 = recs[0];
        let drop = recs.drop_first();
        assert(forall|k: int| 0 <= k < drop.len() ==> #[trigger] drop[k] == recs[k + 1]);
        if has_key(hist, r0.command, r0.start_ts) {
            lemma_import_dedup(hist, drop, host, session);
            let td = dedup_insert(hist, drop, host, session);
            let t = dedup_insert(hist, recs, host, session);
            assert(t.0 == td.0 && t.1 == td.1 && t.2 == td.2 + 1);
            assert(td.0.len() == hist.len() + td.1);
            assert(td.1 >= 0) by {
                lemma_dedup_counts_nonneg(hist, drop, host, session);
            }
            lemma_has_key_extend(hist, td.0, r0.command, r0.start_ts);
            assert forall|k: int| 0 <= k < recs.len() implies has_key(
                t.0,
                (#[trigger] recs[k]).command,
                recs[k].start_ts,
            ) by {
                if k > 0 {
                    assert(drop[k - 1] == recs[k]);
                }
            }
        } else {
            let e = import_event(r0.command, r0.start_ts, host, session);
            let hist2 = hist.push(e);
            assert forall|i: int, j: int|
                #![trigger hist2[i], hist2[j]]
                0 <= i < j < hist2.len() implies !(hist2[i].command == hist2[j].command
                && hist2[i].start_ts == hist2[j].start_ts) by {
                if j == hist.len() as int {
                    assert(hist2[i] == hist[i]);
                    if hist[i].command == e.command && hist[i].start_ts == e.start_ts {
                        assert(has_key(hist, r0.command, r0.start_ts));
                    }
                } else {
                    assert(hist2[i] == hist[i] && hist2[j] == hist[j]);
                }
            }
            lemma_import_dedup(hist2, drop, host, session);
            let td = dedup_insert(hist2, drop, host, session);
            let t = dedup_insert(hist, recs, host, session);
            assert(t.0 == td.0 && t.1 == td.1 + 1 && t.2 == td.2);
            assert(td.1 >= 0) by {
                lemma_dedup_counts_nonneg(hist2, drop, host, session);
            }
            assert(hist2[hist.len() as int] == e);
            assert(has_key(hist2, r0.command, r0.start_ts));
            lemma_has_key_extend(hist2, td.0, r0.command, r0.start_ts);
            assert forall|k: int| 0 <= k < recs.len() implies has_key(
                t.0,
                (#[trigger] recs[k]).command,
                recs[k].start_ts,
            ) by {
                if k > 0 {
                    assert(drop[k - 1] == recs[k]);
                }
            }
        }
    }
}

/// The continuation rule decides joining, for every payload: after an
/// extended line, a following plain non-continuation line is glued to the
/// payload (with the newline between) exactly when the payload ends with an
/// odd number of backslashes; otherwise the two lines become two separate
/// records, the first under the parsed timestamp, the second under the
/// import time.
pub proof fn lemma_continuation_decides_join(
    l1: Seq<char>,
    l2: Seq<char>,
    t: int,
    d: int,
    p: Seq<char>,
    now: int,
)
    requires
        extended_parse(l1) == Some((t, d, p)),
        extended_parse(l2) is None,
        !is_continuation(l2),
    ensures
        is_continuation(p) ==> import_records(seq![l1, l2], now) =~= seq![
            ImportRecord { command: trim_spec(p + seq!['\n'] + l2), start_ts: t },
        ],
        !is_continuation(p) ==> import_records(seq![l1, l2], now) =~= seq![
            ImportRecord { command: trim_spec(p), start_ts: t },
            ImportRecord { command: trim_spec(l2), start_ts: now },
        ],
{
    let lines = seq![l1, l2];
    assert(lines.drop_first() =~= seq![l2]);
    assert(seq![l2].drop_first() =~= Seq::<Seq<char>>::empty());
    let step1 = line_step(idle_state(), l1, now);
    assert(lines[0] == l1);
    assert(import_records(lines, now) == step1.0 + run_lines(step1.1, seq![l2], now));
    let step2 = line_step(step1.1, l2, now);
    assert(seq![l2][0] == l2);
    assert(run_lines(step1.1, seq![l2], now) == step2.0 + run_lines(
        step2.1,
        Seq::<Seq<char>>::empty(),
        now,
    ));
    if is_continuation(p) {
        assert(step1.0 =~= Seq::<ImportRecord>::empty());
        assert(step1.1 == ImportState {
            accumulating: true,
            partial: p + seq!['\n'],
            pending: Some(t),
        });
        assert(step2.0 =~= seq![
            ImportRecord { command: trim_spec((p + seq!['\n']) + l2), start_ts: t },
        ]);
        assert((p + seq!['\n']) + l2 =~= p + seq!['\n'] + l2);
        assert(run_lines(step2.1, Seq::<Seq<char>>::empty(), now) =~= Seq::<ImportRecord>::empty());
    } else {
        assert(step1.0 =~= seq![ImportRecord { command: trim_spec(p), start_ts: t }]);
        assert(step1.1 == idle_state());
        assert(step2.0 =~= seq![ImportRecord { command: trim_spec(l2), start_ts: now }]);
        assert(run_lines(step2.1, Seq::<Seq<char>>::empty(), now) =~= Seq::<ImportRecord>::empty());
    }
}

/// The dedup key admits no duplicate row: over a history that holds at most
/// one event with a given command, all of whose occurrences carry one
/// timestamp, importing records whose occurrences of that command all
/// resolve to that same timestamp leaves at most one event with the
/// command, still carrying that timestamp — and it is present as soon as
/// the history held it or some record carries the command.
pub proof fn lemma_import_single_key(
    hist: Seq<EventModel>,
    recs: Seq<ImportRecord>,
    host: Seq<char>,
    session: Seq<char>,
    c: Seq<char>,
    t: int,
)
    requires
        forall|i: int|
            0 <= i < hist.len() ==> ((#[trigger] hist[i]).command == c ==> hist[i].start_ts == t),
        forall|i: int, j: int|
            #![trigger hist[i], hist[j]]
            0 <= i < j < hist.len() ==> !(hist[i].command == c && hist[j].command == c),
        forall|k: int|
            0 <= k < recs.len() ==> ((#[trigger] recs[k]).command == c ==> recs[k].start_ts == t),
    ensures
        ({
            let h2 = dedup_insert(hist, recs, host, session).0;
            &&& forall|i: int|
                0 <= i < h2.len() ==> ((#[trigger] h2[i]).command == c ==> h2[i].start_ts == t)
            &&& forall|i: int, j: int|
                #![trigger h2[i], h2[j]]
                0 <= i < j < h2.len() ==> !(h2[i].command == c && h2[j].command == c)
            &&& (has_key(hist, c, t) || (exists|k: int|
                0 <= k < recs.len() && (#[trigger] recs[k]).command == c)) ==> has_key(h2, c, t)
        }),
    decreases recs.len(),
{
    if recs.len() == 0 {
    } else {
        let r0 = recs[0];
        let drop = recs.drop_first();
        assert(forall|k: int| 0 <= k < drop.len() ==> #[trigger] drop[k] == recs[k + 1]);
        if has_key(hist, r0.command, r0.start_ts) {
            lemma_import_single_key(hist, drop, host, session, c, t);
            let td = dedup_insert(hist, drop, host, session);
            let tt = dedup_insert(hist, recs, host, session);
            assert(tt.0 == td.0);
            if has_key(hist, c, t) || (exists|k: int|
                0 <= k < recs.len() && (#[trigger] recs[k]).command == c) {
                assert(has_key(hist, c, t) || (exists|k: int|
                    0 <= k < drop.len() && (#[trigger] drop[k]).command == c)) by {
                    if !has_key(hist, c, t) {
                        let k = choose|k: int|
                            0 <= k < recs.len() && (#[trigger] recs[k]).command == c;
                        if k == 0 {
                            // the skipped record's key is this command's one key
                            assert(r0.start_ts == t);
                            assert(has_key(hist, c, t));
                        } else {
                            assert(drop[k - 1].command == c);
                        }
                    }
                }
            }
        } else {
            let e = import_event(r0.command, r0.start_ts, host, session);
            let hist2 = hist.push(e);
            assert forall|i: int|
                0 <= i < hist2.len() implies ((#[trigger] hist2[i]).command == c
                ==> hist2[i].start_ts == t) by {
                if i < hist.len() {
                    assert(hist2[i] == hist[i]);
                } else {
                    assert(hist2[i] == e);
                    assert(r0.command == c ==> r0.start_ts == t);
                }
            }
            assert forall|i: int, j: int|
                #![trigger hist2[i], hist2[j]]
                0 <= i < j < hist2.len() implies !(hist2[i].command == c && hist2[j].command
                == c) by {
                if j == hist.len() as int {
                    assert(hist2[i] == hist[i]);
                    if hist[i].command == c && e.command == c {
                        assert(hist[i].start_ts == t);
                        assert(r0.start_ts == t);
                        assert(has_key(hist, r0.command, r0.start_ts));
                    }
                } else {
                    assert(hist2[i] == hist[i] && hist2[j] == hist[j]);
                }
            }
            lemma_import_single_key(hist2, drop, host, session, c, t);
            let td = dedup_insert(hist2, drop, host, session);
            let tt = dedup_insert(hist, recs, host, session);
            assert(tt.0 == td.0);
            if has_key(hist, c, t) {
                lemma_has_key_extend(hist, hist2, c, t);
            }
            if r0.command == c {
                assert(hist2[hist.len() as int] == e);
                assert(has_key(hist2, c, t));
            }
            if !has_key(hist, c, t) && (exists|k: int|
                0 <= k < recs.len() && (#[trigger] recs[k]).command == c) && r0.command != c {
                let k = choose|k: int| 0 <= k < recs.len() && (#[trigger] recs[k]).command == c;
                assert(drop[k - 1].command == c);
            }
        }
    }
}

/// A parsed extended-format line.
pub struct ExtLine {
    pub start_ts: i64,
    pub duration: i64,
    pub payload: String,
}

/// Recognizes an extended-format line and takes it apart.
pub fn parse_extended_line(line: &str) -> (r: Option<ExtLine>)
    ensures
        match r {
            Some(e) => extended_parse(line@) == Some(
                (e.start_ts as int, e.duration as int, e.payload@),
            ),
            None => extended_parse(line@) is None,
        },
{
    let n = line.unicode_len();
    if n < 2 {
        return None;
    }
    if line.get_char(0) != ':' || line.get_char(1) != ' ' {
        return None;
    }
    let semi = match find_first(line, ';') {
        Some(j) => j,
        None => {
            return None;
        },
    };
    if semi < 2 {
        return None;
    }
    let header = line.substring_char(2, semi);
    let ghost hd = line@.subrange(2, semi as int);
    proof {
        assert(header@ == hd);
    }
    let colon = match find_first(header, ':') {
        Some(j) => j,
        None => {
            return None;
        },
    };
    let hlen = semi - 2;
    let ts = match parse_digits(header, 0, colon) {
        Some(v) => v,
        None => {
            proof {
                assert(hd.subrange(0, colon as int) =~= header@.subrange(0, colon as int));
            }
            return None;
        },
    };
    let dur = match parse_digits(header, colon + 1, hlen) {
        Some(v) => v,
        None => {
            proof {
                assert(hd.subrange(colon as int + 1, hd.len() as int) =~= header@.subrange(
                    colon as int + 1,
                    hlen as int,
                ));
            }
            return None;
        },
    };
    let payload = line.substring_char(semi + 1, n).to_owned();
    proof {
        assert(hd.subrange(0, colon as int) =~= header@.subrange(0, colon as int));
        assert(hd.subrange(colon as int + 1, hd.len() as int) =~= header@.subrange(
            colon as int + 1,
            hlen as int,
        ));
        assert(payload@ == line@.subrange(semi as int + 1, n as int));
    }
    Some(ExtLine { start_ts: ts, duration: dur, payload })
}

/// Loads one recovered record, unless its key is already stored.
fn insert_record(
    db: &mut Database,
    command: &str,
    ts: i64,
    hostname: &str,
    session: &str,
) -> (inserted: bool)
    requires
        old(db).wf(),
    ensures
        final(db).wf(),
        ({
            let t = dedup_insert(
                old(db)@.history,
                seq![ImportRecord { command: command@, start_ts: ts as int }],
                hostname@,
                session@,
            );
            &&& final(db)@.history == t.0
            &&& t.1 == (if inserted {
                1int
            } else {
                0int
            })
            &&& t.2 == (if inserted {
                0int
            } else {
                1int
            })
        }),
        final(db)@.saved == old(db)@.saved,
        final(db)@.next_saved_id == old(db)@.next_saved_id,
        inserted == !has_key(old(db)@.history, command@, ts as int),
{
    let ghost recs = seq![ImportRecord { command: command@, start_ts: ts as int }];
    proof {
        assert(recs.drop_first() =~= Seq::<ImportRecord>::empty());
    }
    let e = HistoryEvent {
        command: command.to_owned(),
        exit_code: Some(0),
        cwd: None,
        hostname: Some(hostname.to_owned()),
        session: Some(session.to_owned()),
        start_ts: ts,
        duration: 0,
    };
    proof {
        assert(e@ == import_event(command@, ts as int, hostname@, session@));
    }
    let inserted = db.insert_event(e);
    proof {
        let hist = old(db)@.history;
        let em = import_event(command@, ts as int, hostname@, session@);
        assert(dedup_insert(hist, recs.drop_first(), hostname@, session@) == (hist, 0int, 0int));
        assert(dedup_insert(hist.push(em), recs.drop_first(), hostname@, session@) == (
            hist.push(em),
            0int,
            0int,
        ));
    }
    inserted
}

/// The counts an import run reports.
pub struct ImportCounts {
    pub imported: usize,
    pub skipped: usize,
}

/// The importer state as the running code holds it.
pub open spec fn cur_state(acc: bool, partial: Seq<char>, pending: Option<i64>) -> ImportState {
    ImportState {
        accumulating: acc,
        partial: partial,
        pending: match pending {
            Some(t) => Some(t as int),
            None => None,
        },
    }
}

/// Parses the legacy history lines and loads every recovered record into the
/// store, skipping records whose `(command, start_ts)` key is already there.
/// Reports how many records were inserted and how many were skipped.
pub fn import_lines(
    db: &mut Database,
    lines: &Vec<String>,
    now: i64,
    hostname: &str,
    session: &str,
) -> (r: ImportCounts)
    requires
        old(db).wf(),
        2 * lines@.len() + 1 <= usize::MAX,
    ensures
        final(db).wf(),
        ({
            let t = dedup_insert(
                old(db)@.history,
                import_records(lines.deep_view(), now as int),
                hostname@,
                session@,
            );
            &&& final(db)@.history == t.0
            &&& r.imported as int == t.1
            &&& r.skipped as int == t.2
        }),
        final(db)@.saved == old(db)@.saved,
        final(db)@.next_saved_id == old(db)@.next_saved_id,
{
    let ghost l = lines.deep_view();
    let ghost full = import_records(l, now as int);
    let n = lines.len();
    let mut imported: usize = 0;
    let mut skipped: usize = 0;
    let mut acc = false;
    let mut partial = String::new();
    let mut pending: Option<i64> = None;
    let ghost mut done: Seq<ImportRecord> = Seq::empty();
    let mut i: usize = 0;
    proof {
        assert(l.subrange(0, n as int) =~= l);
        assert(done + run_lines(cur_state(acc, partial@, pending), l, now as int) =~= full);
    }
    while i < n
        invariant
            i <= n,
            n == l.len(),
            l == lines.deep_view(),
            db.wf(),
            db@.saved == old(db)@.saved,
            db@.next_saved_id == old(db)@.next_saved_id,
            full == import_records(l, now as int),
            full == done + run_lines(
                cur_state(acc, partial@, pending),
                l.subrange(i as int, n as int),
                now as int,
            ),
            ({
                let t = dedup_insert(old(db)@.history, done, hostname@, session@);
                t.0 == db@.history && t.1 == imported as int && t.2 == skipped as int
            }),
            imported + skipped == done.len(),
            done.len() <= 2 * i,
            !acc ==> partial@ == Seq::<char>::empty(),
            !acc ==> pending is None,
            2 * n + 1 <= usize::MAX,
        decreases n - i,
    {
        let ghost st = cur_state(acc, partial@, pending);
        let ghost rest = l.subrange(i as int, n as int);
        let ghost rest2 = l.subrange(i as int + 1, n as int);
        let ghost done0 = done;
        let ghost hist0 = db@.history;
        proof {
            assert(rest[0] == l[i as int]);
            assert(rest.drop_first() =~= rest2);
            assert(l[i as int] == lines@[i as int]@);
            assert(run_lines(st, rest, now as int) == line_step(st, l[i as int], now as int).0
                + run_lines(line_step(st, l[i as int], now as int).1, rest2, now as int));
        }
        let line = &lines[i];
        match parse_extended_line(line.as_str()) {
            Some(ext) => {
                let ghost step = line_step(st, l[i as int], now as int);
                if acc {
                    let text = trim_str(partial.as_str());
                    let ts = match pending {
                        Some(t) => t,
                        None => now,
                    };
                    let ghost fr = ImportRecord { command: text@, start_ts: ts as int };
                    proof {
                        assert(flush(st, now as int) =~= seq![fr]);
                        lemma_dedup_insert_append(
                            old(db)@.history,
                            done,
                            seq![fr],
                            hostname@,
                            session@,
                        );
                    }
                    let ins = insert_record(db, text.as_str(), ts, hostname, session);
                    proof {
                        done = done + seq![fr];
                    }
                    if ins {
                        imported += 1;
                    } else {
                        skipped += 1;
                    }
                }
                proof {
                    assert(done =~= done0 + flush(st, now as int));
                }
                if is_continuation_line(ext.payload.as_str()) {
                    partial = ext.payload;
                    partial.append("\n");
                    pending = Some(ext.start_ts);
                    acc = true;
                    proof {
                        reveal_strlit("\n");
                        assert("\n"@ =~= seq!['\n']);
                        assert(step.0 == flush(st, now as int));
                        assert(step.1.partial =~= partial@);
                        assert(step.1 == cur_state(acc, partial@, pending));
                        assert(full == done + run_lines(
                            cur_state(acc, partial@, pending),
                            rest2,
                            now as int,
                        )) by {
                            assert(full == done0 + (step.0 + run_lines(step.1, rest2, now as int)));
                            assert(done0 + (step.0 + run_lines(step.1, rest2, now as int)) =~= (
                            done0 + step.0) + run_lines(step.1, rest2, now as int));
                        }
                    }
                } else {
                    let text = trim_str(ext.payload.as_str());
                    let ghost pr = ImportRecord { command: text@, start_ts: ext.start_ts as int };
                    proof {
                        lemma_dedup_insert_append(
                            old(db)@.history,
                            done,
                            seq![pr],
                            hostname@,
                            session@,
                        );
                    }
                    let ins = insert_record(db, text.as_str(), ext.start_ts, hostname, session);
                    proof {
                        done = done + seq![pr];
                    }
                    if ins {
                        imported += 1;
                    } else {
                        skipped += 1;
                    }
                    acc = false;
                    partial = String::new();
                    pending = None;
                    proof {
                        assert(step.0 =~= flush(st, now as int) + seq![pr]);
                        assert(step.1 == cur_state(acc, partial@, pending));
                        assert(done =~= done0 + step.0);
                        assert(full == done + run_lines(
                            cur_state(acc, partial@, pending),
                            rest2,
                            now as int,
                        )) by {
                            assert(full == done0 + (step.0 + run_lines(step.1, rest2, now as int)));
                            assert(done0 + (step.0 + run_lines(step.1, rest2, now as int)) =~= (
                            done0 + step.0) + run_lines(step.1, rest2, now as int));
                        }
                    }
                }
            },
            None => {
                let ghost step = line_step(st, l[i as int], now as int);
                if acc {
                    if is_continuation_line(line.as_str()) {
                        partial.append(line.as_str());
                        partial.append("\n");
                        proof {
                            reveal_strlit("\n");
                            assert("\n"@ =~= seq!['\n']);
                            assert(step.0 == Seq::<ImportRecord>::empty());
                            assert(step.1.partial =~= partial@);
                            assert(step.1 == cur_state(acc, partial@, pending));
                            assert(full == done + run_lines(
                                cur_state(acc, partial@, pending),
                                rest2,
                                now as int,
                            )) by {
                                assert(done + (step.0 + run_lines(step.1, rest2, now as int)) =~= (
                                done + step.0) + run_lines(step.1, rest2, now as int));
                                assert(done + step.0 =~= done);
                            }
                        }
                    } else {
                        partial.append(line.as_str());
                        let text = trim_str(partial.as_str());
                        let ts = match pending {
                            Some(t) => t,
                            None => now,
                        };
                        let ghost fr = ImportRecord { command: text@, start_ts: ts as int };
                        proof {
                            lemma_dedup_insert_append(
                                old(db)@.history,
                                done,
                                seq![fr],
                                hostname@,
                                session@,
                            );
                        }
                        let ins = insert_record(db, text.as_str(), ts, hostname, session);
                        proof {
                            done = done + seq![fr];
                        }
                        if ins {
                            imported += 1;
                        } else {
                            skipped += 1;
                        }
                        acc = false;
                        partial = String::new();
                        pending = None;
                        proof {
                            assert(step.0 =~= seq![fr]);
                            assert(step.1 == cur_state(acc, partial@, pending));
                            assert(full == done + run_lines(
                                cur_state(acc, partial@, pending),
                                rest2,
                                now as int,
                            )) by {
                                assert(full == done0 + (step.0 + run_lines(
                                    step.1,
                                    rest2,
                                    now as int,
                                )));
                                assert(done0 + (step.0 + run_lines(step.1, rest2, now as int)) =~= (
                                done0 + step.0) + run_lines(step.1, rest2, now as int));
                            }
                        }
                    }
                } else {
                    let text = trim_str(line.as_str());
                    let ghost fr = ImportRecord { command: text@, start_ts: now as int };
                    proof {
                        lemma_dedup_insert_append(
                            old(db)@.history,
                            done,
                            seq![fr],
                            hostname@,
                            session@,
                        );
                    }
                    let ins = insert_record(db, text.as_str(), now, hostname, session);
                    proof {
                        done = done + seq![fr];
                    }
                    if ins {
                        imported += 1;
                    } else {
                        skipped += 1;
                    }
                    proof {
                        assert(step.0 =~= seq![fr]);
                        assert(step.1 == cur_state(acc, partial@, pending));
                        assert(full == done + run_lines(
                            cur_state(acc, partial@, pending),
                            rest2,
                            now as int,
                        )) by {
                            assert(full == done0 + (step.0 + run_lines(step.1, rest2, now as int)));
                            assert(done0 + (step.0 + run_lines(step.1, rest2, now as int)) =~= (
                            done0 + step.0) + run_lines(step.1, rest2, now as int));
                        }
                    }
                }
            },
        }
        i += 1;
    }
    proof {
        assert(l.subrange(n as int, n as int) =~= Seq::<Seq<char>>::empty());
    }
    if acc {
        let ghost st = cur_state(acc, partial@, pending);
        let text = trim_str(partial.as_str());
        let ts = match pending {
            Some(t) => t,
            None => now,
        };
        let ghost fr = ImportRecord { command: text@, start_ts: ts as int };
        proof {
            assert(run_lines(st, l.subrange(n as int, n as int), now as int) == flush(
                st,
                now as int,
            ));
            assert(flush(st, now as int) =~= seq![fr]);
            assert(full =~= done + seq![fr]);
            lemma_dedup_insert_append(old(db)@.history, done, seq![fr], hostname@, session@);
        }
        let ins = insert_record(db, text.as_str(), ts, hostname, session);
        proof {
            done = done + seq![fr];
        }
        if ins {
            imported += 1;
        } else {
            skipped += 1;
        }
        proof {
            assert(done == full);
        }
    } else {
        proof {
            let st = cur_state(acc, partial@, pending);
            assert(run_lines(st, l.subrange(n as int, n as int), now as int) == flush(
                st,
                now as int,
            ));
            assert(done =~= done + flush(st, now as int));
            assert(done == full);
        }
    }
    ImportCounts { imported, skipped }
}

} // verus!
