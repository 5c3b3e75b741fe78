//! The notification deriver: a pure function from the store's contents and
//! the wall-clock time to one health notification per machine.

use vstd::prelude::*;
use crate::clock::now_timestamp;
use crate::data::{MachineStatus, MachineStatusView, MemoryStatus, Notification, NotificationView};
use crate::store::StatusStore;

verus! {

/// The decimal digit for `d` (meaningful for `d < 10`).
pub open spec fn digit_char(d: nat) -> char {
    if d == 0 {
        '0'
    } else if d == 1 {
        '1'
    } else if d == 2 {
        '2'
    } else if d == 3 {
        '3'
    } else if d == 4 {
        '4'
    } else if d == 5 {
        '5'
    } else if d == 6 {
        '6'
    } else if d == 7 {
        '7'
    } else if d == 8 {
        '8'
    } else {
        '9'
    }
}

/// The decimal numeral of `n`, without leading zeros (`0` itself is "0").
pub open spec fn spec_dec(n: nat) -> Seq<char>
    decreases n,
{
    if n < 10 {
        seq![digit_char(n)]
    } else {
        spec_dec(n / 10).push(digit_char(n % 10))
    }
}

fn digit_str(d: u128) -> (r: &'static str)
    requires
        d < 10,
    ensures
        r@ == seq![digit_char(d as nat)],
{
    let r = match d {
        0 => "0",
        1 => "1",
        2 => "2",
        3 => "3",
        4 => "4",
        5 => "5",
        6 => "6",
        7 => "7",
        8 => "8",
        _ => "9",
    };
    proof {
        reveal_strlit("0");
        reveal_strlit("1");
        reveal_strlit("2");
        reveal_strlit("3");
        reveal_strlit("4");
        reveal_strlit("5");
        reveal_strlit("6");
        reveal_strlit("7");
        reveal_strlit("8");
        reveal_strlit("9");
        assert(r@ =~= seq![digit_char(d as nat)]);
    }
    r
}

/// Renders `n` in decimal.
pub fn dec_str(n: u128) -> (r: String)
    ensures
        r@ == spec_dec(n as nat),
    decreases n,
{
    if n < 10 {
        digit_str(n).to_owned()
    } else {
        let mut s = dec_str(n / 10);
        s.append(digit_str(n % 10));
        proof {
            assert(s@ =~= spec_dec(n as nat));
        }
        s
    }
}

/// Whole percent of `total` that `avail` makes up, truncated; 0 when
/// `total == 0` (the explicit division-by-zero policy of the deriver).
pub open spec fn spec_pct(avail: nat, total: nat) -> nat {
    if total == 0 {
        0
    } else {
        avail * 100 / total
    }
}

/// The usage line for a pair of byte counts: megabytes (truncating division
/// by 1,000,000) used and available, and the truncated percentage.
pub open spec fn spec_usage(avail: u64, total: u64) -> Seq<char> {
    spec_dec(avail as nat / 1000000) + " MB / "@ + spec_dec(total as nat / 1000000) + " MB ("@
        + spec_dec(spec_pct(avail as nat, total as nat)) + "%)"@
}

/// Formats a usage line, e.g. `8000 MB / 16000 MB (50%)`. A zero `total`
/// yields a 0% line rather than failing.
pub fn format_usage(available: u64, total: u64) -> (r: String)
    ensures
        r@ == spec_usage(available, total),
{
    let mut s = dec_str((available / 1000000) as u128);
    s.append(" MB / ");
    let t = dec_str((total / 1000000) as u128);
    s.append(t.as_str());
    s.append(" MB (");
    let pct: u128 = if total == 0 {
        0
    } else {
        (available as u128) * 100 / (total as u128)
    };
    proof {
        assert(pct as nat == spec_pct(available as nat, total as nat));
    }
    let p = dec_str(pct);
    s.append(p.as_str());
    s.append("%)");
    proof {
        assert(s@ =~= spec_usage(available, total));
    }
    s
}

/// A status is fresh when it carries a timestamp within
/// [`crate::STALE_AFTER_SECONDS`] of `now`, in either direction: a slightly
/// future stamp also counts as fresh. A missing timestamp is maximally stale.
pub open spec fn spec_is_fresh(timestamp: Option<i64>, now: i64) -> bool {
    timestamp matches Some(t) && -crate::STALE_AFTER_SECONDS <= now - t
        <= crate::STALE_AFTER_SECONDS
}

/// The health color derived from staleness alone.
pub open spec fn spec_color(timestamp: Option<i64>, now: i64) -> Seq<char> {
    if spec_is_fresh(timestamp, now) {
        "green"@
    } else {
        "red"@
    }
}

/// Renders the health color: green iff the report is at most 600 seconds
/// from `now` in either direction, red otherwise (so exactly 600 is green,
/// 601 is red), and red for a report that never got a timestamp.
pub fn status_color(timestamp: Option<i64>, now: i64) -> (r: String)
    ensures
        r@ == spec_color(timestamp, now),
        spec_is_fresh(timestamp, now) <==> r@ == "green"@,
        !spec_is_fresh(timestamp, now) <==> r@ == "red"@,
{
    proof {
        reveal_strlit("green");
        reveal_strlit("red");
        assert("green"@.len() == 5 && "red"@.len() == 3);
    }
    match timestamp {
        None => "red".to_owned(),
        Some(t) => {
            let d: i128 = now as i128 - t as i128;
            if -(crate::STALE_AFTER_SECONDS as i128) <= d && d <= crate::STALE_AFTER_SECONDS as i128 {
                "green".to_owned()
            } else {
                "red".to_owned()
            }
        },
    }
}

/// The notification title for a machine name.
pub open spec fn spec_title(name: Seq<char>) -> Seq<char> {
    name + " status"@
}

/// The notification body: a memory line and a swap line.
pub open spec fn spec_content(m: MemoryStatus) -> Seq<char> {
    "mem: "@ + spec_usage(m.available_memory, m.total_memory) + "\n"@ + "swap: "@ + spec_usage(
        m.free_swap,
        m.total_swap,
    )
}

/// The notification derived from one stored status at time `now`.
pub open spec fn spec_notification(st: MachineStatusView, now: i64) -> NotificationView {
    NotificationView {
        color: spec_color(st.timestamp, now),
        title: spec_title(st.name),
        content: spec_content(st.memory),
    }
}

/// Builds the notification for one stored status.
pub fn notification_for(status: &MachineStatus, now: i64) -> (r: Notification)
    ensures
        r@ == spec_notification(status@, now),
{
    let color = status_color(status.timestamp, now);
    let mut title = status.name.clone();
    title.append(" status");
    let mut content = "mem: ".to_owned();
    let mem = format_usage(status.memory.available_memory, status.memory.total_memory);
    content.append(mem.as_str());
    content.append("\n");
    content.append("swap: ");
    let swap = format_usage(status.memory.free_swap, status.memory.total_swap);
    content.append(swap.as_str());
    let r = Notification { color, title, content };
    proof {
        assert(r@.title =~= spec_title(status@.name));
        assert(r@.content =~= spec_content(status@.memory));
        assert(r@ =~= spec_notification(status@, now));
    }
    r
}

/// The pure deriver: one notification per entry, in the entries' order.
/// An empty slice of entries yields an empty list, never an error.
pub fn derive(entries: &Vec<MachineStatus>, now: i64) -> (r: Vec<Notification>)
    ensures
        r@.len() == entries@.len(),
        forall|i: int|
            0 <= i < entries@.len() ==> r@[i]@ == spec_notification(entries@[i]@, now),
{
    let mut r: Vec<Notification> = Vec::new();
    let n = entries.len();
    let mut i: usize = 0;
    while i < n
        invariant
            n == entries@.len(),
            i <= n,
            r@.len() == i,
            forall|k: int| 0 <= k < i ==> r@[k]@ == spec_notification(entries@[k]@, now),
        decreases n - i,
    {
        let one = notification_for(&entries[i], now);
        r.push(one);
        i = i + 1;
    }
    r
}

/// Derives the notification list from the store at the wall-clock moment of
/// the call; the clock reading used is returned beside the list.
pub fn notifications(store: &StatusStore) -> (r: (Vec<Notification>, i64))
    ensures
        r.0@.len() == store@.len(),
        forall|i: int|
            0 <= i < store@.len() ==> r.0@[i]@ == spec_notification(store@[i], r.1),
{
    let now = now_timestamp();
    let entries = store.list_all();
    let list = derive(&entries, now);
    (list, now)
}

} // verus!
