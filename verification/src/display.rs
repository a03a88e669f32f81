//! What a listing shows of a record: how far its expiry and its reminder lie
//! from now, the lines that say so, and where a long listing pauses.

use crate::text::{digits_of, rendered, write_digits, write_i64};
use crate::vault::{Entry, EntryView};
use vstd::prelude::*;
use vstd::string::StringExecFns;

verus! {

/// Seconds in a day.
pub const DAY: i64 = 86400;

/// Rows shown between two pauses of a long listing.
pub const PAGE_SIZE: usize = 10;

/// Where an expiry lies from now.
#[derive(Clone, Copy, Debug, PartialEq, Eq, Structural)]
pub enum ExpiryNotice {
    /// Reached so many whole days ago.
    ExpiredDaysAgo(i64),
    /// Still so many whole days away.
    ExpiresInDays(i64),
}

/// Where a reminder lies from now.
#[derive(Clone, Copy, Debug, PartialEq, Eq, Structural)]
pub enum RemindNotice {
    /// Reached: the password should be reviewed.
    Due,
    /// Still so many whole days away.
    InDays(i64),
}

/// Where the expiry `expired` lies from `now`.
pub open spec fn expiry_notice(expired: i64, now: i64) -> ExpiryNotice {
    if expired - now <= 0 {
        ExpiryNotice::ExpiredDaysAgo(((now - expired) / DAY as int) as i64)
    } else {
        ExpiryNotice::ExpiresInDays(((expired - now) / DAY as int) as i64)
    }
}

/// Where the reminder `remind` lies from `now`.
pub open spec fn remind_notice(remind: i64, now: i64) -> RemindNotice {
    if remind <= now {
        RemindNotice::Due
    } else {
        RemindNotice::InDays(((remind - now) / DAY as int) as i64)
    }
}

/// What a notice about an expiry says.
pub open spec fn expiry_text(notice: ExpiryNotice) -> Seq<char> {
    match notice {
        ExpiryNotice::ExpiredDaysAgo(days) => "⚠️  Password expired "@ + rendered(days as int)
            + " day(s) ago."@,
        ExpiryNotice::ExpiresInDays(days) => "⏰ Expires in "@ + rendered(days as int)
            + " day(s)."@,
    }
}

/// What a notice about a reminder says.
pub open spec fn remind_text(notice: RemindNotice) -> Seq<char> {
    match notice {
        RemindNotice::Due => "🔔 Reminder: This password should be reviewed!"@,
        RemindNotice::InDays(days) => "🔔 Reminder in "@ + rendered(days as int) + " day(s)."@,
    }
}

/// The notes under a row of a listing: expiry, reminder and message, each
/// on an indented line of its own, as far as the record has them.
pub open spec fn notes(entry: EntryView, now: i64) -> Seq<char> {
    (match entry.expired {
        Some(e) => "\n   "@ + expiry_text(expiry_notice(e, now)),
        None => Seq::<char>::empty(),
    }) + (match entry.remind {
        Some(r) => "\n   "@ + remind_text(remind_notice(r, now)),
        None => Seq::<char>::empty(),
    }) + (match entry.message {
        Some(m) => "\n   📝 Message: "@ + m,
        None => Seq::<char>::empty(),
    })
}

/// A row of a listing: the group's name, the username, and the notes.
pub open spec fn row_text(name: Seq<char>, entry: EntryView, now: i64) -> Seq<char> {
    "• "@ + name + " (👤 "@ + entry.username + ")"@ + notes(entry, now)
}

/// Where the expiry `expired` lies from `now`.
pub fn expiry_status(expired: i64, now: i64) -> (notice: ExpiryNotice)
    ensures
        notice == expiry_notice(expired, now),
{
    let diff: i128 = expired as i128 - now as i128;
    if diff <= 0 {
        ExpiryNotice::ExpiredDaysAgo(((-diff) / (DAY as i128)) as i64)
    } else {
        ExpiryNotice::ExpiresInDays((diff / (DAY as i128)) as i64)
    }
}

/// Where the reminder `remind` lies from `now`.
pub fn remind_status(remind: i64, now: i64) -> (notice: RemindNotice)
    ensures
        notice == remind_notice(remind, now),
{
    if remind <= now {
        RemindNotice::Due
    } else {
        let diff: i128 = remind as i128 - now as i128;
        RemindNotice::InDays((diff / (DAY as i128)) as i64)
    }
}

/// Appends what a notice about an expiry says.
pub fn write_expiry(out: &mut String, notice: ExpiryNotice)
    ensures
        final(out)@ == old(out)@ + expiry_text(notice),
{
    match notice {
        ExpiryNotice::ExpiredDaysAgo(days) => {
            out.append("⚠️  Password expired ");
            write_i64(out, days);
            out.append(" day(s) ago.");
        },
        ExpiryNotice::ExpiresInDays(days) => {
            out.append("⏰ Expires in ");
            write_i64(out, days);
            out.append(" day(s).");
        },
    }
    proof {
        assert(out@ =~= old(out)@ + expiry_text(notice));
    }
}

/// Appends what a notice about a reminder says.
pub fn write_remind(out: &mut String, notice: RemindNotice)
    ensures
        final(out)@ == old(out)@ + remind_text(notice),
{
    match notice {
        RemindNotice::Due => {
            out.append("🔔 Reminder: This password should be reviewed!");
        },
        RemindNotice::InDays(days) => {
            out.append("🔔 Reminder in ");
            write_i64(out, days);
            out.append(" day(s).");
        },
    }
    proof {
        assert(out@ =~= old(out)@ + remind_text(notice));
    }
}

/// A row of a listing as text.
pub fn row_line(name: &str, entry: &Entry, now: i64) -> (line: String)
    ensures
        line@ == row_text(name@, entry@, now),
{
    let mut line = String::from_str("• ");
    line.append(name);
    line.append(" (👤 ");
    line.append(entry.username.as_str());
    line.append(")");
    let ghost head = line@;
    match entry.expired {
        Some(e) => {
            line.append("\n   ");
            write_expiry(&mut line, expiry_status(e, now));
        },
        None => {},
    }
    match entry.remind {
        Some(r) => {
            line.append("\n   ");
            write_remind(&mut line, remind_status(r, now));
        },
        None => {},
    }
    match &entry.message {
        Some(m) => {
            line.append("\n   📝 Message: ");
            line.append(m.as_str());
        },
        None => {},
    }
    proof {
        assert(head =~= "• "@ + name@ + " (👤 "@ + entry@.username + ")"@);
        assert(line@ =~= head + notes(entry@, now));
    }
    line
}

/// A listing pauses after the row at `index` (from zero) of `total` where a
/// page is full and more rows follow.
pub open spec fn pauses_after(index: int, total: int) -> bool {
    (index + 1) % PAGE_SIZE as int == 0 && index + 1 < total
}

/// Whether a listing of `total` rows pauses after the row at `index`.
pub fn page_break_after(index: usize, total: usize) -> (b: bool)
    requires
        index < total,
    ensures
        b == pauses_after(index as int, total as int),
{
    (index + 1) % PAGE_SIZE == 0 && index + 1 < total
}

/// Whether the key pressed at a pause ends the listing: `q` does, any other
/// key goes on.
pub fn quits(key: char) -> (b: bool)
    ensures
        b == (key == 'q'),
{
    key == 'q'
}

/// What is shown of one record that a lookup found, and what goes to the
/// clipboard instead of the screen.
#[derive(Debug, PartialEq, Eq)]
pub struct EntryReport {
    pub lines: Vec<String>,
    /// The password, where it is not among the lines.
    pub to_clipboard: Option<String>,
}

/// The line that shows the password, or says where it went.
pub open spec fn password_line(entry: EntryView, show: bool) -> Seq<char> {
    if show {
        "   🔑 Password: "@ + entry.password
    } else {
        "   📋 Password copied to clipboard!"@
    }
}

/// The lines for the record at `index` (from zero) among those found: its
/// number and username, then expiry, reminder and message as far as it has
/// them, then the password line.
pub open spec fn report_lines(entry: EntryView, index: int, show: bool, now: i64) -> Seq<
    Seq<char>,
> {
    seq![digits_of((index + 1) as nat) + ". 👤 Username: "@ + entry.username] + (match entry.expired {
        Some(e) => seq!["   "@ + expiry_text(expiry_notice(e, now))],
        None => Seq::<Seq<char>>::empty(),
    }) + (match entry.remind {
        Some(r) => seq!["   "@ + remind_text(remind_notice(r, now))],
        None => Seq::<Seq<char>>::empty(),
    }) + (match entry.message {
        Some(m) => seq!["   📝 Message: "@ + m],
        None => Seq::<Seq<char>>::empty(),
    }) + seq![password_line(entry, show)]
}

/// The views of lines.
pub open spec fn line_views(lines: Seq<String>) -> Seq<Seq<char>> {
    lines.map_values(|l: String| l@)
}

/// What is shown of the record at `index` among those found. The password
/// is either among the lines or set aside for the clipboard, never both.
pub fn entry_report(entry: &Entry, index: usize, show: bool, now: i64) -> (report: EntryReport)
    requires
        index < usize::MAX,
    ensures
        line_views(report.lines@) == report_lines(entry@, index as int, show, now),
        show ==> report.to_clipboard is None,
        !show ==> (report.to_clipboard matches Some(p) && p@ == entry@.password),
{
    let mut lines: Vec<String> = Vec::new();
    let mut first = String::new();
    write_digits(&mut first, (index + 1) as u64);
    first.append(". 👤 Username: ");
    first.append(entry.username.as_str());
    lines.push(first);
    let ghost l1 = line_views(lines@);
    proof {
        assert(l1 =~= seq![
            digits_of((index + 1) as nat) + ". 👤 Username: "@ + entry@.username,
        ]);
    }
    match entry.expired {
        Some(e) => {
            let mut line = String::from_str("   ");
            write_expiry(&mut line, expiry_status(e, now));
            lines.push(line);
        },
        None => {},
    }
    let ghost l2 = line_views(lines@);
    proof {
        assert(l2 =~= l1 + (match entry@.expired {
            Some(e) => seq!["   "@ + expiry_text(expiry_notice(e, now))],
            None => Seq::<Seq<char>>::empty(),
        }));
    }
    match entry.remind {
        Some(r) => {
            let mut line = String::from_str("   ");
            write_remind(&mut line, remind_status(r, now));
            lines.push(line);
        },
        None => {},
    }
    let ghost l3 = line_views(lines@);
    proof {
        assert(l3 =~= l2 + (match entry@.remind {
            Some(r) => seq!["   "@ + remind_text(remind_notice(r, now))],
            None => Seq::<Seq<char>>::empty(),
        }));
    }
    match &entry.message {
        Some(m) => {
            let mut line = String::from_str("   📝 Message: ");
            line.append(m.as_str());
            lines.push(line);
        },
        None => {},
    }
    let ghost l4 = line_views(lines@);
    proof {
        assert(l4 =~= l3 + (match entry@.message {
            Some(m) => seq!["   📝 Message: "@ + m],
            None => Seq::<Seq<char>>::empty(),
        }));
    }
    let to_clipboard = if show {
        let mut line = String::from_str("   🔑 Password: ");
        line.append(entry.password.as_str());
        lines.push(line);
        None
    } else {
        lines.push(String::from_str("   📋 Password copied to clipboard!"));
        Some(entry.password.clone())
    };
    proof {
        assert(line_views(lines@) =~= l4 + seq![password_line(entry@, show)]);
    }
    EntryReport { lines, to_clipboard }
}

} // verus!
