//! Candidate formatting: durations, ages, labels and previews.

use vstd::prelude::*;

use crate::store::{HistoryRecord, RecordModel, SavedCommand, SavedModel};

verus! {

/// The character for a single decimal digit.
pub open spec fn digit_char(d: int) -> char {
    if d == 0 {
        '0'
    } else if d == 1 {
        '1'
    } else if d == 2 {
        '2'
    } else if d == 3 {
        '3'
    } else if d == 4 {
        '4'
    } else if d == 5 {
        '5'
    } else if d == 6 {
        '6'
    } else if d == 7 {
        '7'
    } else if d == 8 {
        '8'
    } else {
        '9'
    }
}

/// The decimal representation of a natural number, without leading zeros
/// (except for zero itself).
pub open spec fn dec_str(n: nat) -> Seq<char>
    decreases n,
{
    if n < 10 {
        seq![digit_char(n as int)]
    } else {
        dec_str(n / 10) + seq![digit_char((n % 10) as int)]
    }
}

fn digit_literal(d: u64) -> (r: &'static str)
    requires
        d < 10,
    ensures
        r@ == seq![digit_char(d as int)],
{
    proof {
        reveal_strlit("0");
        reveal_strlit("1");
        reveal_strlit("2");
        reveal_strlit("3");
        reveal_strlit("4");
        reveal_strlit("5");
        reveal_strlit("6");
        reveal_strlit("7");
        reveal_strlit("8");
        reveal_strlit("9");
    }
    let r = match d {
        0 => "0",
        1 => "1",
        2 => "2",
        3 => "3",
        4 => "4",
        5 => "5",
        6 => "6",
        7 => "7",
        8 => "8",
        _ => "9",
    };
    proof {
        assert(r@ =~= seq![digit_char(d as int)]);
    }
    r
}

/// Renders a number in decimal.
pub fn u64_to_string(n: u64) -> (r: String)
    ensures
        r@ == dec_str(n as nat),
    decreases n,
{
    if n < 10 {
        digit_literal(n).to_owned()
    } else {
        let prefix = u64_to_string(n / 10);
        let r = prefix.concat(digit_literal(n % 10));
        proof {
            assert(r@ =~= dec_str(n as nat));
        }
        r
    }
}

/// How a duration in whole seconds is shown: seconds below one minute,
/// then integer-divided minutes, hours and days; non-positive values
/// render as zero seconds.
pub open spec fn spec_duration(secs: int) -> Seq<char> {
    if secs <= 0 {
        dec_str(0) + seq!['s']
    } else if secs < 60 {
        dec_str(secs as nat) + seq!['s']
    } else if secs < 3600 {
        dec_str((secs / 60) as nat) + seq!['m']
    } else if secs < 86400 {
        dec_str((secs / 3600) as nat) + seq!['h']
    } else {
        dec_str((secs / 86400) as nat) + seq!['d']
    }
}

fn unit_suffix(u: char) -> (r: &'static str)
    requires
        u == 's' || u == 'm' || u == 'h' || u == 'd',
    ensures
        r@ == seq![u],
{
    proof {
        reveal_strlit("s");
        reveal_strlit("m");
        reveal_strlit("h");
        reveal_strlit("d");
    }
    let r = if u == 's' {
        "s"
    } else if u == 'm' {
        "m"
    } else if u == 'h' {
        "h"
    } else {
        "d"
    };
    proof {
        assert(r@ =~= seq![u]);
    }
    r
}

/// Renders a duration in whole seconds.
pub fn format_duration(secs: i64) -> (r: String)
    ensures
        r@ == spec_duration(secs as int),
{
    let (value, unit): (u64, char) = if secs <= 0 {
        (0, 's')
    } else if secs < 60 {
        (secs as u64, 's')
    } else if secs < 3600 {
        ((secs / 60) as u64, 'm')
    } else if secs < 86400 {
        ((secs / 3600) as u64, 'h')
    } else {
        ((secs / 86400) as u64, 'd')
    };
    let r = u64_to_string(value).concat(unit_suffix(unit));
    proof {
        assert(r@ =~= spec_duration(secs as int));
    }
    r
}

/// How the age of a record is shown: a zero timestamp means the age is
/// unknown; a timestamp in the future renders as `just now`; otherwise the
/// elapsed seconds use the duration thresholds, suffixed with ` ago`.
pub open spec fn spec_age(now: int, ts: int) -> Seq<char> {
    if ts == 0 {
        "unknown"@
    } else if now < ts {
        "just now"@
    } else {
        spec_duration(now - ts) + " ago"@
    }
}

/// Renders how long ago a timestamp lies, relative to `now`.
pub fn format_age(now: i64, ts: i64) -> (r: String)
    ensures
        r@ == spec_age(now as int, ts as int),
{
    if ts == 0 {
        "unknown".to_owned()
    } else if now < ts {
        "just now".to_owned()
    } else {
        let diff: i128 = (now as i128) - (ts as i128);
        let (value, unit): (u64, char) = if diff < 60 {
            (diff as u64, 's')
        } else if diff < 3600 {
            ((diff / 60) as u64, 'm')
        } else if diff < 86400 {
            ((diff / 3600) as u64, 'h')
        } else {
            ((diff / 86400) as u64, 'd')
        };
        let r = u64_to_string(value).concat(unit_suffix(unit)).concat(" ago");
        proof {
            assert(r@ =~= spec_age(now as int, ts as int));
        }
        r
    }
}

/// The text padded with spaces on the right up to the given width.
pub open spec fn spec_pad(s: Seq<char>, w: int) -> Seq<char> {
    if s.len() >= w {
        s
    } else {
        s + Seq::new((w - s.len()) as nat, |i: int| ' ')
    }
}

/// Pads with spaces on the right up to the given width.
pub fn pad_right(s: String, w: usize) -> (r: String)
    ensures
        r@ == spec_pad(s@, w as int),
{
    let ghost orig = s@;
    let mut r = s;
    proof {
        reveal_strlit(" ");
        assert(" "@ =~= seq![' ']);
    }
    while r.unicode_len() < w
        invariant
            orig.len() <= r@.len(),
            r@.subrange(0, orig.len() as int) == orig,
            forall|k: int| orig.len() <= k < r@.len() ==> r@[k] == ' ',
            orig.len() >= w ==> r@ == orig,
            orig.len() < w ==> r@.len() <= w,
        decreases w - r@.len(),
    {
        r.append(" ");
        proof {
            reveal_strlit(" ");
            assert(" "@ =~= seq![' ']);
            assert(r@.subrange(0, orig.len() as int) =~= orig);
        }
    }
    proof {
        assert(r@ =~= spec_pad(orig, w as int));
    }
    r
}

/// The tag texts joined by the separator.
pub open spec fn joined(tags: Seq<Seq<char>>, sep: Seq<char>) -> Seq<char>
    decreases tags.len(),
{
    if tags.len() == 0 {
        Seq::empty()
    } else if tags.len() == 1 {
        tags[0]
    } else {
        joined(tags.drop_last(), sep) + sep + tags.last()
    }
}

/// Joins tags with `", "` between them.
pub fn join_tags(tags: &Vec<String>) -> (r: String)
    ensures
        r@ == joined(tags.deep_view(), ", "@),
{
    let ghost td = tags.deep_view();
    let n = tags.len();
    let mut r = String::new();
    let mut i: usize = 0;
    proof {
        assert(td.subrange(0, 0) =~= Seq::<Seq<char>>::empty());
    }
    while i < n
        invariant
            i <= n,
            n == td.len(),
            td == tags.deep_view(),
            r@ == joined(td.subrange(0, i as int), ", "@),
        decreases n - i,
    {
        proof {
            assert(td[i as int] == tags@[i as int]@);
            let pre = td.subrange(0, i as int);
            let post = td.subrange(0, i as int + 1);
            assert(post.drop_last() =~= pre);
            assert(post.last() == td[i as int]);
            if i == 0 {
                assert(post =~= seq![td[0]]);
                assert(joined(post, ", "@) == td[0]);
            }
        }
        if i > 0 {
            r.append(", ");
        }
        r.append(tags[i].as_str());
        i += 1;
    }
    proof {
        assert(td.subrange(0, n as int) =~= td);
    }
    r
}

/// The one-line label of a search-result row: the duration padded to six
/// columns, a space, the age padded to ten columns, a tab, the command.
pub open spec fn history_label(r: RecordModel, now: int) -> Seq<char> {
    spec_pad(spec_duration(r.duration), 6) + seq![' '] + spec_pad(spec_age(now, r.timestamp), 10)
        + seq!['\t'] + r.command
}

/// The multi-line preview of a search-result row, around the given
/// timestamp text.
pub open spec fn history_preview(r: RecordModel, executed: Seq<char>) -> Seq<char> {
    "Command: "@ + r.command + "\nExecuted: "@ + executed + "\nDuration: "@ + spec_duration(
        r.duration,
    )
}

/// The one-line label of a saved command: a bracketed tag list when tags
/// are present, the command, and a dash-separated description when one is
/// present.
pub open spec fn saved_label(e: SavedModel) -> Seq<char> {
    (if e.tags.len() > 0 {
        seq!['['] + joined(e.tags, ", "@) + "] "@
    } else {
        Seq::empty()
    }) + e.command + (match e.description {
        Some(d) => " - "@ + d,
        None => Seq::empty(),
    })
}

/// The multi-line preview of a saved command, around the given creation
/// text.
pub open spec fn saved_preview(e: SavedModel, created: Seq<char>) -> Seq<char> {
    "Command: "@ + e.command + "\nTags: "@ + (if e.tags.len() > 0 {
        joined(e.tags, ", "@)
    } else {
        "None"@
    }) + "\nDescription: "@ + (match e.description {
        Some(d) => d,
        None => "None"@,
    }) + "\nCreated: "@ + created
}

/// A history row as the selector sees it.
pub struct HistoryItem {
    pub record: HistoryRecord,
}

impl HistoryItem {
    /// The text the selector matches against.
    pub fn text(&self) -> (r: String)
        ensures
            r@ == self.record@.command,
    {
        self.record.command.clone()
    }

    /// The one-line label.
    pub fn display(&self, now: i64) -> (r: String)
        ensures
            r@ == history_label(self.record@, now as int),
    {
        let dur = pad_right(format_duration(self.record.duration), 6);
        let age = pad_right(format_age(now, self.record.timestamp), 10);
        let r = dur.concat(" ").concat(age.as_str()).concat("\t").concat(
            self.record.command.as_str(),
        );
        proof {
            reveal_strlit(" ");
            reveal_strlit("\t");
            assert(" "@ =~= seq![' ']);
            assert("\t"@ =~= seq!['\t']);
            assert(r@ =~= history_label(self.record@, now as int));
        }
        r
    }

    /// The multi-line preview around an already-rendered timestamp text.
    pub fn preview_with(&self, executed: &str) -> (r: String)
        ensures
            r@ == history_preview(self.record@, executed@),
    {
        let r = String::from_str("Command: ").concat(self.record.command.as_str()).concat(
            "\nExecuted: ",
        ).concat(executed).concat("\nDuration: ").concat(
            format_duration(self.record.duration).as_str(),
        );
        proof {
            assert(r@ =~= history_preview(self.record@, executed@));
        }
        r
    }

    /// The multi-line preview: the command, when it ran, and how long it
    /// took.
    pub fn preview(&self) -> (r: String)
        ensures
            0 <= self.record.timestamp <= crate::time::MAX_DATETIME_TS ==> r@ == history_preview(
                self.record@,
                crate::time::timestamp_text(self.record.timestamp as int),
            ),
            r@ == history_preview(
                self.record@,
                crate::time::timestamp_text(self.record.timestamp as int),
            ) || r@ == history_preview(self.record@, "Unknown"@),
    {
        let executed = crate::time::timestamp_label(self.record.timestamp);
        self.preview_with(executed.as_str())
    }
}

/// A saved command as the selector sees it.
pub struct SavedCommandItem {
    pub command: SavedCommand,
}

impl SavedCommandItem {
    /// The text the selector matches against.
    pub fn text(&self) -> (r: String)
        ensures
            r@ == self.command@.command,
    {
        self.command.command.clone()
    }

    /// The one-line label.
    pub fn display(&self) -> (r: String)
        ensures
            r@ == saved_label(self.command@),
    {
        let mut r = String::new();
        if self.command.tags.len() > 0 {
            r.append("[");
            r.append(join_tags(&self.command.tags).as_str());
            r.append("] ");
        }
        r.append(self.command.command.as_str());
        match &self.command.description {
            Some(d) => {
                r.append(" - ");
                r.append(d.as_str());
            },
            None => {},
        }
        proof {
            reveal_strlit("[");
            assert("["@ =~= seq!['[']);
            assert(r@ =~= saved_label(self.command@));
        }
        r
    }

    /// The multi-line preview around an already-rendered creation text.
    pub fn preview_with(&self, created: &str) -> (r: String)
        ensures
            r@ == saved_preview(self.command@, created@),
    {
        let tags_text = if self.command.tags.len() > 0 {
            join_tags(&self.command.tags)
        } else {
            String::from_str("None")
        };
        let desc_text: &str = match &self.command.description {
            Some(d) => d.as_str(),
            None => "None",
        };
        let r = String::from_str("Command: ").concat(self.command.command.as_str()).concat(
            "\nTags: ",
        ).concat(tags_text.as_str()).concat("\nDescription: ").concat(desc_text).concat(
            "\nCreated: ",
        ).concat(created);
        proof {
            assert(r@ =~= saved_preview(self.command@, created@));
        }
        r
    }

    /// The multi-line preview: the command, its tags, its description and
    /// when it was saved.
    pub fn preview(&self) -> (r: String)
        ensures
            0 <= self.command.created_at <= crate::time::MAX_DATETIME_TS ==> r@ == saved_preview(
                self.command@,
                crate::time::timestamp_text(self.command.created_at as int),
            ),
            r@ == saved_preview(
                self.command@,
                crate::time::timestamp_text(self.command.created_at as int),
            ) || r@ == saved_preview(self.command@, "Unknown"@),
    {
        let created = crate::time::timestamp_label(self.command.created_at);
        self.preview_with(created.as_str())
    }
}

} // verus!
