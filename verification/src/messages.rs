use vstd::prelude::*;
use vstd::string::StringExecFns;

use crate::codec::{cocoa_to_datetime, days_between, format_timestamp, spec_cutoff, spec_decode,
    spec_days_between, spec_render_calendar, timestamp_lt, valid_fields, window_cutoff,
    CalendarFields, Timestamp};
use crate::text::{chars_contain, chars_eq, contains_seq, to_chars};
use crate::util::{digits_of, normalize_phone, strip_handle, stripped_of};

verus! {

/// One row of the message store, as plain values: a message joined with its
/// handle row.
pub struct StoreRow {
    /// The message identifier, when present.
    pub guid: Option<String>,
    /// The raw handle identifier; absent when the message has no handle row.
    pub handle: Option<String>,
    /// The message text; absent for media-only rows.
    pub text: Option<String>,
    /// Whether the message was sent by the account owner.
    pub is_from_me: bool,
    /// The read flag; absent when the store has none.
    pub is_read: Option<bool>,
    /// The raw store timestamp; absent when the store has none.
    pub date: Option<i64>,
}

/// One message record produced for a caller.
pub struct MessageRecord {
    pub guid: Option<String>,
    pub handle: Option<String>,
    pub sender: Option<String>,
    pub text: Option<String>,
    pub is_from_me: bool,
    pub timestamp: Option<String>,
}

/// One conversation, summarized by its most recent message.
pub struct ConversationSummary {
    pub handle: Option<String>,
    pub last_message: Option<String>,
    pub last_message_date: Option<String>,
}

/// Aggregate counts over a filtered message set.
pub struct Analytics {
    pub total_messages: u64,
    pub sent: u64,
    pub received: u64,
    pub first_message: Option<String>,
    pub last_message: Option<String>,
}

/// One conversation judged to need a reply.
pub struct FollowupItem {
    pub handle: String,
    pub last_inbound: Option<String>,
    pub last_outbound: Option<String>,
    pub text_preview: Option<String>,
    pub days_stale: Option<i64>,
}

// ----- Small helpers -----

/// A fresh optional string holding the same value.
fn clone_opt_string(o: &Option<String>) -> (r: Option<String>)
    ensures
        r == *o,
{
    match o {
        Some(s) => Some(s.clone()),
        None => None,
    }
}

/// A fresh row holding the same values.
fn row_dup(r: &StoreRow) -> (d: StoreRow)
    ensures
        d == *r,
{
    StoreRow {
        guid: clone_opt_string(&r.guid),
        handle: clone_opt_string(&r.handle),
        text: clone_opt_string(&r.text),
        is_from_me: r.is_from_me,
        is_read: r.is_read,
        date: r.date,
    }
}

/// The sort key of an optional raw date: an absent date orders below every
/// present one.
pub open spec fn date_key(d: Option<i64>) -> int {
    match d {
        Some(v) => v as int,
        None => i64::MIN - 1,
    }
}

/// Executable comparison of optional raw dates by `date_key`.
fn date_ge_exec(a: &Option<i64>, b: &Option<i64>) -> (r: bool)
    ensures
        r == (date_key(*a) >= date_key(*b)),
{
    match (a, b) {
        (Some(x), Some(y)) => *x >= *y,
        (Some(_), None) => true,
        (None, Some(_)) => false,
        (None, None) => true,
    }
}

// ----- Sorting, largest key first, with the permutation it applied -----

/// Order by a signed key, largest first.
pub trait DateOrd: Sized {
    /// The sort key.
    spec fn key(&self) -> int;

    /// Executable comparison: `self`'s key is at least `other`'s.
    fn key_ge(&self, other: &Self) -> (r: bool)
        ensures
            r == (self.key() >= other.key()),
    ;
}

impl DateOrd for StoreRow {
    open spec fn key(&self) -> int {
        date_key(self.date)
    }

    fn key_ge(&self, other: &Self) -> (r: bool) {
        date_ge_exec(&self.date, &other.date)
    }
}

/// `p` is a permutation of the indices `0 .. n`.
pub open spec fn is_index_perm(p: Seq<int>, n: int) -> bool {
    &&& p.len() == n
    &&& (forall|i: int| 0 <= i < n ==> 0 <= #[trigger] p[i] < n)
    &&& (forall|i: int, j: int| 0 <= i < j < n ==> p[i] != p[j])
}

/// Keys never increase along the sequence.
pub open spec fn sorted_desc<T: DateOrd>(s: Seq<T>) -> bool {
    forall|i: int, j: int| 0 <= i < j < s.len() ==> #[trigger] s[i].key() >= #[trigger] s[j].key()
}

/// Sorts largest key first and reports which original index each output
/// position came from.
fn sort_by_key_desc<T: DateOrd>(v: Vec<T>) -> (r: (Vec<T>, Ghost<Seq<int>>))
    ensures
        is_index_perm(r.1@, v@.len() as int),
        r.0@.len() == v@.len(),
        forall|i: int| 0 <= i < v@.len() ==> r.0@[i] == v@[r.1@[i]],
        sorted_desc(r.0@),
{
    let ghost orig = v@;
    let mut input = v;
    let mut out: Vec<T> = Vec::new();
    let ghost mut p: Seq<int> = Seq::empty();
    let ghost mut rem: Seq<int> = Seq::new(orig.len(), |i: int| i);
    while input.len() > 0
        invariant
            out@.len() + input@.len() == orig.len(),
            p.len() == out@.len(),
            rem.len() == input@.len(),
            forall|i: int| 0 <= i < p.len() ==> 0 <= #[trigger] p[i] < orig.len(),
            forall|j: int| 0 <= j < rem.len() ==> 0 <= #[trigger] rem[j] < orig.len(),
            forall|i: int, j: int| 0 <= i < j < p.len() ==> p[i] != p[j],
            forall|i: int, j: int| 0 <= i < j < rem.len() ==> rem[i] != rem[j],
            forall|i: int, j: int| 0 <= i < p.len() && 0 <= j < rem.len() ==> p[i] != rem[j],
            forall|i: int| 0 <= i < out@.len() ==> out@[i] == orig[p[i]],
            forall|j: int| 0 <= j < input@.len() ==> input@[j] == orig[rem[j]],
            sorted_desc(out@),
            forall|i: int, j: int|
                0 <= i < out@.len() && 0 <= j < input@.len() ==> #[trigger] out@[i].key()
                    >= #[trigger] input@[j].key(),
        decreases input.len(),
    {
        let mut mi: usize = 0;
        let mut k: usize = 1;
        while k < input.len()
            invariant
                0 < input@.len(),
                (mi as int) < input@.len(),
                mi < k,
                1 <= k <= input@.len(),
                forall|t: int| 0 <= t < k ==> input@[mi as int].key() >= #[trigger] input@[t].key(),
            decreases input.len() - k,
        {
            if !(&input[mi]).key_ge(&input[k]) {
                mi = k;
            }
            k = k + 1;
        }
        let ghost old_input = input@;
        let ghost old_rem = rem;
        let ghost oi = rem[mi as int];
        let x = input.remove(mi);
        proof {
            p = p.push(oi);
            rem = rem.remove(mi as int);
            assert forall|j: int| 0 <= j < input@.len() implies input@[j] == orig[rem[j]] by {
                if j < mi {
                    assert(input@[j] == old_input[j]);
                    assert(rem[j] == old_rem[j]);
                } else {
                    assert(input@[j] == old_input[j + 1]);
                    assert(rem[j] == old_rem[j + 1]);
                }
            };
            assert forall|i: int, j: int| 0 <= i < j < rem.len() implies rem[i] != rem[j] by {
                if j < mi {
                } else if i < mi {
                    assert(rem[j] == old_rem[j + 1]);
                } else {
                    assert(rem[i] == old_rem[i + 1]);
                    assert(rem[j] == old_rem[j + 1]);
                }
            };
        }
        out.push(x);
    }
    (out, Ghost(p))
}

/// The smaller of two mathematical integers.
pub open spec fn spec_min(a: int, b: int) -> int {
    if a < b {
        a
    } else {
        b
    }
}

// ----- Row predicates and the record view -----

/// The store-layer handle comparison: the row has a handle whose stripped form
/// contains the digit pattern.
pub open spec fn row_handle_matches(r: StoreRow, digits: Seq<char>) -> bool {
    r.handle is Some && contains_seq(stripped_of(r.handle->0@), digits)
}

/// The keyword filter: the row has text containing the keyword.
pub open spec fn row_text_matches(r: StoreRow, kw: Seq<char>) -> bool {
    r.text is Some && contains_seq(r.text->0@, kw)
}

/// An unread row: inbound, with its read flag absent or false.
pub open spec fn row_unread(r: StoreRow) -> bool {
    !r.is_from_me && (r.is_read is None || r.is_read->0 == false)
}

/// How a produced record relates to its store row: plain fields carried over,
/// the handle in stripped form, the sender a fixed marker for own messages and
/// the handle otherwise, and the timestamp formatted exactly when a date is
/// present and the calendar library placed it.
pub open spec fn record_matches_row(m: MessageRecord, r: StoreRow) -> bool {
    &&& m.guid == r.guid
    &&& (match r.handle {
        Some(h) => m.handle is Some && m.handle->0@ == stripped_of(h@),
        None => m.handle is None,
    })
    &&& (if r.is_from_me {
        m.sender is Some && m.sender->0@ == "Me"@
    } else {
        m.sender == m.handle
    })
    &&& m.text == r.text
    &&& m.is_from_me == r.is_from_me
    &&& formats_date(m.timestamp, r.date)
}

/// How a formatted optional date relates to its raw value: absent stays
/// absent, and a produced string renders some valid calendar fields.
pub open spec fn formats_date(out: Option<String>, date: Option<i64>) -> bool {
    &&& (date is None ==> out is None)
    &&& (out is Some ==> date is Some)
    &&& (out is Some ==> exists|f: CalendarFields|
        valid_fields(f) && out->0@ == spec_render_calendar(f))
}

/// Builds the caller-facing record for one store row.
pub fn map_message_row(r: &StoreRow) -> (m: MessageRecord)
    ensures
        record_matches_row(m, *r),
{
    let handle: Option<String> = match &r.handle {
        Some(h) => Some(strip_handle(h.as_str())),
        None => None,
    };
    let sender: Option<String> = if r.is_from_me {
        Some(String::from_str("Me"))
    } else {
        clone_opt_string(&handle)
    };
    MessageRecord {
        guid: clone_opt_string(&r.guid),
        handle,
        sender,
        text: clone_opt_string(&r.text),
        is_from_me: r.is_from_me,
        timestamp: format_timestamp(r.date),
    }
}

/// The rows whose stripped handle contains the digit pattern.
pub open spec fn handle_filtered(rows: Seq<StoreRow>, digits: Seq<char>) -> Seq<StoreRow> {
    rows.filter(|r: StoreRow| row_handle_matches(r, digits))
}

/// The rows matching both the handle pattern and the keyword.
pub open spec fn search_filtered(rows: Seq<StoreRow>, digits: Seq<char>, kw: Seq<char>)
    -> Seq<StoreRow> {
    rows.filter(|r: StoreRow| row_handle_matches(r, digits) && row_text_matches(r, kw))
}

/// The unread rows.
pub open spec fn unread_filtered(rows: Seq<StoreRow>) -> Seq<StoreRow> {
    rows.filter(|r: StoreRow| row_unread(r))
}

/// The result of a row query: some permutation `p` orders the filtered rows
/// `fs` by date, newest first, and the output records the first `limit` of
/// them in that order.
pub open spec fn top_records(
    fs: Seq<StoreRow>,
    limit: int,
    out: Seq<MessageRecord>,
    p: Seq<int>,
) -> bool {
    &&& is_index_perm(p, fs.len() as int)
    &&& (forall|i: int, j: int|
        0 <= i < j < fs.len() ==> date_key(#[trigger] fs[p[i]].date) >= date_key(
            #[trigger] fs[p[j]].date,
        ))
    &&& out.len() == spec_min(limit, fs.len() as int)
    &&& (forall|i: int| 0 <= i < out.len() ==> record_matches_row(#[trigger] out[i], fs[p[i]]))
}

/// Sorts the filtered rows newest first and maps the first `limit` to records.
fn records_of_filtered(fs: Vec<StoreRow>, limit: usize) -> (r: Vec<MessageRecord>)
    ensures
        exists|p: Seq<int>| top_records(fs@, limit as int, r@, p),
{
    let ghost fsv = fs@;
    let (sorted, gp) = sort_by_key_desc(fs);
    let ghost p = gp@;
    let n: usize = if limit < sorted.len() {
        limit
    } else {
        sorted.len()
    };
    let mut out: Vec<MessageRecord> = Vec::new();
    let mut i: usize = 0;
    while i < n
        invariant
            n as int == spec_min(limit as int, fsv.len() as int),
            sorted@.len() == fsv.len(),
            forall|k: int| 0 <= k < fsv.len() ==> sorted@[k] == fsv[p[k]],
            is_index_perm(p, fsv.len() as int),
            sorted_desc(sorted@),
            i <= n,
            out@.len() == i,
            forall|k: int| 0 <= k < i ==> record_matches_row(#[trigger] out@[k], fsv[p[k]]),
        decreases n - i,
    {
        let m = map_message_row(&sorted[i]);
        out.push(m);
        i = i + 1;
    }
    proof {
        assert forall|i2: int, j2: int| 0 <= i2 < j2 < fsv.len() implies date_key(
            #[trigger] fsv[p[i2]].date,
        ) >= date_key(#[trigger] fsv[p[j2]].date) by {
            assert(sorted@[i2].key() >= sorted@[j2].key());
        };
        assert(top_records(fsv, limit as int, out@, p));
    }
    out
}

// ----- Aggregation specs -----

/// The window test: with a cutoff, only rows dated at or after it pass.
pub open spec fn row_in_window(r: StoreRow, cutoff: Option<i64>) -> bool {
    match cutoff {
        Some(c) => r.date is Some && r.date->0 >= c,
        None => true,
    }
}

/// The analytics filter: an optional handle pattern and an optional window.
pub open spec fn analytics_pred(r: StoreRow, digits: Option<Seq<char>>, cutoff: Option<i64>)
    -> bool {
    &&& (match digits {
        Some(d) => row_handle_matches(r, d),
        None => true,
    })
    &&& row_in_window(r, cutoff)
}

/// The rows the analytics aggregate ranges over.
pub open spec fn analytics_filtered(
    rows: Seq<StoreRow>,
    digits: Option<Seq<char>>,
    cutoff: Option<i64>,
) -> Seq<StoreRow> {
    rows.filter(|r: StoreRow| analytics_pred(r, digits, cutoff))
}

/// The smallest raw date present in the rows; absent dates are ignored.
pub open spec fn min_date_of(s: Seq<StoreRow>) -> Option<i64>
    decreases s.len(),
{
    if s.len() == 0 {
        None
    } else {
        let rest = min_date_of(s.drop_last());
        match (rest, s.last().date) {
            (None, d) => d,
            (Some(m), None) => Some(m),
            (Some(m), Some(d)) => if d < m {
                Some(d)
            } else {
                Some(m)
            },
        }
    }
}

/// The largest raw date present in the rows; absent dates are ignored.
pub open spec fn max_date_of(s: Seq<StoreRow>) -> Option<i64>
    decreases s.len(),
{
    if s.len() == 0 {
        None
    } else {
        let rest = max_date_of(s.drop_last());
        match (rest, s.last().date) {
            (None, d) => d,
            (Some(m), None) => Some(m),
            (Some(m), Some(d)) => if d > m {
                Some(d)
            } else {
                Some(m)
            },
        }
    }
}

// ----- Grouping specs -----

/// The row belongs to the conversation of raw handle `h`.
pub open spec fn in_group(r: StoreRow, h: Seq<char>) -> bool {
    r.handle is Some && r.handle->0@ == h
}

/// The distinct raw handles among the first `n` rows, in first-occurrence
/// order; rows without a handle row are skipped.
pub open spec fn handles_upto(rows: Seq<StoreRow>, n: int) -> Seq<Seq<char>>
    decreases n,
{
    if n <= 0 {
        Seq::empty()
    } else {
        let prev = handles_upto(rows, n - 1);
        let r = rows[n - 1];
        if r.handle is Some && !prev.contains(r.handle->0@) {
            prev.push(r.handle->0@)
        } else {
            prev
        }
    }
}

/// The distinct raw handles of the rows, in first-occurrence order.
pub open spec fn handles_of(rows: Seq<StoreRow>) -> Seq<Seq<char>> {
    handles_upto(rows, rows.len() as int)
}

/// The most recent message of the conversation among the first `n` rows: its
/// raw date and its text, where a dated row beats every undated one and the
/// first row seen wins ties.
pub open spec fn recent_upto(rows: Seq<StoreRow>, h: Seq<char>, n: int) -> Option<
    (Option<i64>, Option<String>),
>
    decreases n,
{
    if n <= 0 {
        None
    } else {
        let prev = recent_upto(rows, h, n - 1);
        let r = rows[n - 1];
        if in_group(r, h) {
            match prev {
                None => Some((r.date, r.text)),
                Some(g) => if date_key(r.date) > date_key(g.0) {
                    Some((r.date, r.text))
                } else {
                    prev
                },
            }
        } else {
            prev
        }
    }
}

/// How a produced summary relates to its conversation: the handle in stripped
/// form, the most recent message's text, and its date formatted.
pub open spec fn summary_matches(s: ConversationSummary, rows: Seq<StoreRow>, h: Seq<char>)
    -> bool {
    match recent_upto(rows, h, rows.len() as int) {
        None => false,
        Some(g) => {
            &&& s.handle is Some && s.handle->0@ == stripped_of(h)
            &&& s.last_message == g.1
            &&& formats_date(s.last_message_date, g.0)
        },
    }
}

/// The sort key of a conversation: the date of its most recent message.
pub open spec fn group_key(rows: Seq<StoreRow>, h: Seq<char>) -> int {
    match recent_upto(rows, h, rows.len() as int) {
        None => i64::MIN - 1,
        Some(g) => date_key(g.0),
    }
}

/// Every handle in the grouped list present a row, so its conversation is
/// non-empty.
proof fn lemma_handle_has_row(rows: Seq<StoreRow>, h: Seq<char>, n: int)
    requires
        0 <= n <= rows.len(),
        handles_upto(rows, n).contains(h),
    ensures
        recent_upto(rows, h, n) is Some,
    decreases n,
{
    if n > 0 {
        let prev = handles_upto(rows, n - 1);
        let r = rows[n - 1];
        if r.handle is Some && !prev.contains(r.handle->0@) {
            if h == r.handle->0@ {
            } else {
                let k = choose|k: int|
                    0 <= k < prev.push(r.handle->0@).len() && prev.push(r.handle->0@)[k] == h;
                assert(prev[k] == h);
                lemma_handle_has_row(rows, h, n - 1);
            }
        } else {
            lemma_handle_has_row(rows, h, n - 1);
        }
    }
}

// ----- Follow-up specs -----

/// The rows inside the follow-up window: a positive `days` keeps only rows
/// dated at or after the cutoff; 0 means unrestricted.
pub open spec fn window_rows(rows: Seq<StoreRow>, days: int, now: Timestamp) -> Seq<StoreRow> {
    if days > 0 {
        rows.filter(|r: StoreRow| r.date is Some && r.date->0 >= spec_cutoff(now, days))
    } else {
        rows
    }
}

/// The most recent dated inbound message of the conversation among the first
/// `n` rows: its raw date and its text; undated rows are ignored and the first
/// row seen wins ties.
pub open spec fn inbound_upto(rows: Seq<StoreRow>, h: Seq<char>, n: int) -> Option<
    (i64, Option<String>),
>
    decreases n,
{
    if n <= 0 {
        None
    } else {
        let prev = inbound_upto(rows, h, n - 1);
        let r = rows[n - 1];
        if in_group(r, h) && !r.is_from_me && r.date is Some {
            match prev {
                None => Some((r.date->0, r.text)),
                Some(g) => if r.date->0 > g.0 {
                    Some((r.date->0, r.text))
                } else {
                    prev
                },
            }
        } else {
            prev
        }
    }
}

/// The most recent dated inbound message of the conversation.
pub open spec fn last_inbound(rows: Seq<StoreRow>, h: Seq<char>) -> Option<(i64, Option<String>)> {
    inbound_upto(rows, h, rows.len() as int)
}

/// The largest raw date of an outbound message of the conversation among the
/// first `n` rows.
pub open spec fn outbound_upto(rows: Seq<StoreRow>, h: Seq<char>, n: int) -> Option<i64>
    decreases n,
{
    if n <= 0 {
        None
    } else {
        let prev = outbound_upto(rows, h, n - 1);
        let r = rows[n - 1];
        if in_group(r, h) && r.is_from_me && r.date is Some {
            match prev {
                None => Some(r.date->0),
                Some(o) => if r.date->0 > o {
                    Some(r.date->0)
                } else {
                    prev
                },
            }
        } else {
            prev
        }
    }
}

/// The largest raw date of an outbound message of the conversation.
pub open spec fn last_outbound(rows: Seq<StoreRow>, h: Seq<char>) -> Option<i64> {
    outbound_upto(rows, h, rows.len() as int)
}

/// A conversation needs a follow-up: an inbound message exists, no outbound
/// message is at or after it (decoded), and the inbound's age in whole days
/// reaches the staleness threshold.
pub open spec fn needs_follow(rows: Seq<StoreRow>, h: Seq<char>, now: Timestamp, stale: int)
    -> bool {
    match last_inbound(rows, h) {
        None => false,
        Some(inb) => {
            let din = spec_decode(inb.0);
            let needs_reply = match last_outbound(rows, h) {
                None => true,
                Some(o) => spec_decode(o).total_nanos() < din.total_nanos(),
            };
            needs_reply && spec_days_between(now, din) >= stale
        },
    }
}

/// How a produced follow-up item relates to its conversation: the handle in
/// stripped form, the inbound and outbound dates formatted, the inbound text
/// as preview, and the age in whole days.
pub open spec fn followup_matches(
    it: FollowupItem,
    rows: Seq<StoreRow>,
    h: Seq<char>,
    now: Timestamp,
) -> bool {
    match last_inbound(rows, h) {
        None => false,
        Some(inb) => {
            &&& it.handle@ == stripped_of(h)
            &&& formats_date(it.last_inbound, Some(inb.0))
            &&& formats_date(it.last_outbound, last_outbound(rows, h))
            &&& it.text_preview == inb.1
            &&& it.days_stale is Some && it.days_stale->0 == spec_days_between(
                now,
                spec_decode(inb.0),
            )
        },
    }
}

/// The ordering key of a follow-up conversation: its last inbound date.
pub open spec fn inbound_key(rows: Seq<StoreRow>, h: Seq<char>) -> int {
    match last_inbound(rows, h) {
        None => i64::MIN - 1,
        Some(inb) => inb.0 as int,
    }
}

// ----- Grouping exec helpers -----

/// One collected raw handle, as characters and as the original string.
struct HandleEntry {
    chars: Vec<char>,
    raw: String,
}

/// Collects the distinct raw handles of the rows, in first-occurrence order.
fn collect_handles(rows: &Vec<StoreRow>) -> (r: Vec<HandleEntry>)
    ensures
        ({
            let hs = handles_of(rows@);
            &&& r@.len() == hs.len()
            &&& (forall|k: int|
                0 <= k < hs.len() ==> (#[trigger] r@[k].chars@) == hs[k] && r@[k].raw@ == hs[k])
        }),
{
    let ghost rowsv = rows@;
    let mut out: Vec<HandleEntry> = Vec::new();
    let mut i: usize = 0;
    while i < rows.len()
        invariant
            rowsv == rows@,
            i <= rowsv.len(),
            out@.len() == handles_upto(rowsv, i as int).len(),
            forall|k: int|
                0 <= k < out@.len() ==> (#[trigger] out@[k].chars@) == handles_upto(
                    rowsv,
                    i as int,
                )[k] && out@[k].raw@ == handles_upto(rowsv, i as int)[k],
        decreases rows.len() - i,
    {
        let ghost prev = handles_upto(rowsv, i as int);
        match &rows[i].handle {
            Some(h) => {
                let hc = to_chars(h.as_str());
                let mut found: bool = false;
                let mut j: usize = 0;
                while j < out.len()
                    invariant
                        j <= out@.len(),
                        hc@ == rowsv[i as int].handle->0@,
                        out@.len() == prev.len(),
                        forall|k: int|
                            0 <= k < out@.len() ==> (#[trigger] out@[k].chars@) == prev[k],
                        !found ==> forall|k: int| 0 <= k < j ==> prev[k] != hc@,
                        found ==> prev.contains(hc@),
                    decreases out.len() - j,
                {
                    if chars_eq(&out[j].chars, &hc) {
                        found = true;
                    }
                    j = j + 1;
                }
                if !found {
                    assert(!prev.contains(hc@));
                    out.push(HandleEntry { chars: hc, raw: h.clone() });
                }
            },
            None => {},
        }
        proof {
            assert(out@.len() == handles_upto(rowsv, i + 1 as int).len());
        }
        i = i + 1;
    }
    assert(handles_upto(rowsv, rowsv.len() as int) == handles_of(rowsv));
    out
}

/// The most recent message of one conversation: its raw date and text.
fn recent_group(rows: &Vec<StoreRow>, h: &Vec<char>) -> (g: Option<(Option<i64>, Option<String>)>)
    ensures
        ({
            let spec = recent_upto(rows@, h@, rows@.len() as int);
            match (g, spec) {
                (None, None) => true,
                (Some(ge), Some(gs)) => ge.0 == gs.0 && ge.1 == gs.1,
                _ => false,
            }
        }),
{
    let ghost rowsv = rows@;
    let mut acc_date: Option<i64> = None;
    let mut acc_text: Option<String> = None;
    let mut present: bool = false;
    let mut i: usize = 0;
    while i < rows.len()
        invariant
            rowsv == rows@,
            i <= rowsv.len(),
            !present ==> recent_upto(rowsv, h@, i as int) is None,
            present ==> ({
                let spec = recent_upto(rowsv, h@, i as int);
                spec is Some && (spec->0).0 == acc_date && (spec->0).1 == acc_text
            }),
        decreases rows.len() - i,
    {
        let row = &rows[i];
        let in_grp: bool = match &row.handle {
            Some(hs) => {
                let hc = to_chars(hs.as_str());
                chars_eq(&hc, h)
            },
            None => false,
        };
        if in_grp {
            let better: bool = !present || !date_ge_exec(&acc_date, &row.date);
            if better {
                acc_date = row.date;
                acc_text = clone_opt_string(&row.text);
                present = true;
            }
        }
        i = i + 1;
    }
    if present {
        Some((acc_date, acc_text))
    } else {
        None
    }
}

/// The most recent dated inbound message of one conversation.
fn inbound_group(rows: &Vec<StoreRow>, h: &Vec<char>) -> (g: Option<(i64, Option<String>)>)
    ensures
        ({
            let spec = inbound_upto(rows@, h@, rows@.len() as int);
            match (g, spec) {
                (None, None) => true,
                (Some(ge), Some(gs)) => ge.0 == gs.0 && ge.1 == gs.1,
                _ => false,
            }
        }),
{
    let ghost rowsv = rows@;
    let mut acc_date: i64 = 0;
    let mut acc_text: Option<String> = None;
    let mut present: bool = false;
    let mut i: usize = 0;
    while i < rows.len()
        invariant
            rowsv == rows@,
            i <= rowsv.len(),
            !present ==> inbound_upto(rowsv, h@, i as int) is None,
            present ==> ({
                let spec = inbound_upto(rowsv, h@, i as int);
                spec is Some && (spec->0).0 == acc_date && (spec->0).1 == acc_text
            }),
        decreases rows.len() - i,
    {
        let row = &rows[i];
        let in_grp: bool = match &row.handle {
            Some(hs) => {
                let hc = to_chars(hs.as_str());
                chars_eq(&hc, h)
            },
            None => false,
        };
        if in_grp && !row.is_from_me {
            match row.date {
                Some(d) => {
                    if !present || d > acc_date {
                        acc_date = d;
                        acc_text = clone_opt_string(&row.text);
                        present = true;
                    }
                },
                None => {},
            }
        }
        i = i + 1;
    }
    if present {
        Some((acc_date, acc_text))
    } else {
        None
    }
}

/// The largest dated outbound message of one conversation.
fn outbound_group(rows: &Vec<StoreRow>, h: &Vec<char>) -> (g: Option<i64>)
    ensures
        g == outbound_upto(rows@, h@, rows@.len() as int),
{
    let ghost rowsv = rows@;
    let mut acc: Option<i64> = None;
    let mut i: usize = 0;
    while i < rows.len()
        invariant
            rowsv == rows@,
            i <= rowsv.len(),
            acc == outbound_upto(rowsv, h@, i as int),
        decreases rows.len() - i,
    {
        let row = &rows[i];
        let in_grp: bool = match &row.handle {
            Some(hs) => {
                let hc = to_chars(hs.as_str());
                chars_eq(&hc, h)
            },
            None => false,
        };
        if in_grp && row.is_from_me {
            match row.date {
                Some(d) => {
                    acc = match acc {
                        Some(o) => if d > o {
                            Some(d)
                        } else {
                            Some(o)
                        },
                        None => Some(d),
                    };
                },
                None => {},
            }
        }
        i = i + 1;
    }
    acc
}

/// A qualifying follow-up waiting to be ordered by its inbound date.
struct FollowCand {
    inb: i64,
    item: FollowupItem,
}

impl DateOrd for FollowCand {
    closed spec fn key(&self) -> int {
        self.inb as int
    }

    fn key_ge(&self, other: &Self) -> (r: bool) {
        self.inb >= other.inb
    }
}

/// A conversation waiting to be ordered by recency.
struct GroupCand {
    date: Option<i64>,
    summary: ConversationSummary,
}

impl DateOrd for GroupCand {
    closed spec fn key(&self) -> int {
        date_key(self.date)
    }

    fn key_ge(&self, other: &Self) -> (r: bool) {
        date_ge_exec(&self.date, &other.date)
    }
}

// ----- The query engine -----

/// A read view of the message store: its rows as plain values, and the instant
/// the view was taken, for window and staleness arithmetic.
pub struct MessagesClient {
    pub rows: Vec<StoreRow>,
    pub now: Timestamp,
}

/// Relies on chrono (Local::now, the epoch construction, num_nanoseconds): the
/// current instant as a raw nanosecond offset from the store epoch; 0 when the
/// clock cannot be read against the epoch. Nothing is stated of a clock value.
#[verifier::external_body]
fn now_cocoa_raw() -> i64 {
    let epoch = chrono::NaiveDate::from_ymd_opt(2001, 1, 1)
        .and_then(|d| d.and_hms_opt(0, 0, 0))
        .and_then(|t| t.and_local_timezone(chrono::Local).latest());
    match epoch {
        Some(e) => (chrono::Local::now() - e).num_nanoseconds().unwrap_or(0),
        None => 0,
    }
}

impl MessagesClient {
    /// A canonical view of the client: the reference instant is well-formed.
    pub open spec fn wf(&self) -> bool {
        self.now.wf()
    }

    /// A client over the given rows, judging windows and staleness from the
    /// given raw instant.
    pub fn new(rows: Vec<StoreRow>, now_raw: i64) -> (r: MessagesClient)
        ensures
            r.rows@ == rows@,
            r.now == spec_decode(now_raw),
            r.wf(),
    {
        MessagesClient { rows, now: cocoa_to_datetime(now_raw) }
    }

    /// A client over the given rows, judging windows and staleness from the
    /// machine clock.
    pub fn open_now(rows: Vec<StoreRow>) -> (r: MessagesClient)
        ensures
            r.rows@ == rows@,
            r.wf(),
    {
        let raw = now_cocoa_raw();
        MessagesClient::new(rows, raw)
    }

    /// Up to `limit` records for the handles matching the normalized phone,
    /// most recent first.
    pub fn messages_for_phone(&self, phone: &str, limit: usize) -> (r: Vec<MessageRecord>)
        ensures
            exists|p: Seq<int>|
                top_records(handle_filtered(self.rows@, digits_of(phone@)), limit as int, r@, p),
    {
        let pattern = normalize_phone(phone);
        let pattern_chars = to_chars(pattern.as_str());
        let ghost digits = digits_of(phone@);
        let ghost rowsv = self.rows@;
        let mut fs: Vec<StoreRow> = Vec::new();
        let mut i: usize = 0;
        while i < self.rows.len()
            invariant
                rowsv == self.rows@,
                pattern_chars@ == digits,
                i <= rowsv.len(),
                fs@ == handle_filtered(rowsv.take(i as int), digits),
            decreases self.rows.len() - i,
        {
            let row = &self.rows[i];
            let keep: bool = match &row.handle {
                Some(h) => {
                    let sh = strip_handle(h.as_str());
                    let sh_chars = to_chars(sh.as_str());
                    chars_contain(&sh_chars, &pattern_chars)
                },
                None => false,
            };
            if keep {
                fs.push(row_dup(row));
            }
            proof {
                reveal(Seq::filter);
                assert(rowsv.take(i + 1 as int).drop_last() =~= rowsv.take(i as int));
                assert(rowsv.take(i + 1 as int).last() == rowsv[i as int]);
            }
            i = i + 1;
        }
        assert(rowsv.take(rowsv.len() as int) =~= rowsv);
        records_of_filtered(fs, limit)
    }

    /// Up to `limit` records for the handle whose text contains the keyword,
    /// most recent first.
    pub fn search_messages(&self, phone: &str, query: &str, limit: usize) -> (r: Vec<
        MessageRecord,
    >)
        ensures
            exists|p: Seq<int>|
                top_records(
                    search_filtered(self.rows@, digits_of(phone@), query@),
                    limit as int,
                    r@,
                    p,
                ),
    {
        let pattern = normalize_phone(phone);
        let pattern_chars = to_chars(pattern.as_str());
        let kw_chars = to_chars(query);
        let ghost digits = digits_of(phone@);
        let ghost rowsv = self.rows@;
        let mut fs: Vec<StoreRow> = Vec::new();
        let mut i: usize = 0;
        while i < self.rows.len()
            invariant
                rowsv == self.rows@,
                pattern_chars@ == digits,
                kw_chars@ == query@,
                i <= rowsv.len(),
                fs@ == search_filtered(rowsv.take(i as int), digits, query@),
            decreases self.rows.len() - i,
        {
            let row = &self.rows[i];
            let keep_handle: bool = match &row.handle {
                Some(h) => {
                    let sh = strip_handle(h.as_str());
                    let sh_chars = to_chars(sh.as_str());
                    chars_contain(&sh_chars, &pattern_chars)
                },
                None => false,
            };
            let keep: bool = keep_handle && match &row.text {
                Some(t) => {
                    let t_chars = to_chars(t.as_str());
                    chars_contain(&t_chars, &kw_chars)
                },
                None => false,
            };
            if keep {
                fs.push(row_dup(row));
            }
            proof {
                reveal(Seq::filter);
                assert(rowsv.take(i + 1 as int).drop_last() =~= rowsv.take(i as int));
                assert(rowsv.take(i + 1 as int).last() == rowsv[i as int]);
            }
            i = i + 1;
        }
        assert(rowsv.take(rowsv.len() as int) =~= rowsv);
        records_of_filtered(fs, limit)
    }

    /// Up to `limit` unread inbound records, most recent first.
    pub fn unread_messages(&self, limit: usize) -> (r: Vec<MessageRecord>)
        ensures
            exists|p: Seq<int>| top_records(unread_filtered(self.rows@), limit as int, r@, p),
    {
        let ghost rowsv = self.rows@;
        let mut fs: Vec<StoreRow> = Vec::new();
        let mut i: usize = 0;
        while i < self.rows.len()
            invariant
                rowsv == self.rows@,
                i <= rowsv.len(),
                fs@ == unread_filtered(rowsv.take(i as int)),
            decreases self.rows.len() - i,
        {
            let row = &self.rows[i];
            let keep: bool = !row.is_from_me && match &row.is_read {
                Some(b) => !*b,
                None => true,
            };
            if keep {
                fs.push(row_dup(row));
            }
            proof {
                reveal(Seq::filter);
                assert(rowsv.take(i + 1 as int).drop_last() =~= rowsv.take(i as int));
                assert(rowsv.take(i + 1 as int).last() == rowsv[i as int]);
            }
            i = i + 1;
        }
        assert(rowsv.take(rowsv.len() as int) =~= rowsv);
        records_of_filtered(fs, limit)
    }

    /// Aggregate counts over the optionally handle-filtered and optionally
    /// time-windowed message set, with the earliest and latest dates seen.
    pub fn analytics(&self, phone: Option<&str>, days: Option<u32>) -> (r: Analytics)
        requires
            self.wf(),
        ensures
            ({
                let digits = match phone {
                    Some(p) => Some(digits_of(p@)),
                    None => None::<Seq<char>>,
                };
                let cutoff = match days {
                    Some(d) => Some(spec_cutoff(self.now, d as int)),
                    None => None::<i64>,
                };
                let f = analytics_filtered(self.rows@, digits, cutoff);
                &&& r.total_messages == f.len()
                &&& r.sent == f.filter(|row: StoreRow| row.is_from_me).len()
                &&& r.received == f.len() - f.filter(|row: StoreRow| row.is_from_me).len()
                &&& formats_date(r.first_message, min_date_of(f))
                &&& formats_date(r.last_message, max_date_of(f))
            }),
    {
        let ghost rowsv = self.rows@;
        let pattern_chars: Option<Vec<char>> = match phone {
            Some(p) => {
                let pattern = normalize_phone(p);
                Some(to_chars(pattern.as_str()))
            },
            None => None,
        };
        let ghost digits = match phone {
            Some(p) => Some(digits_of(p@)),
            None => None::<Seq<char>>,
        };
        let cutoff: Option<i64> = match days {
            Some(d) => Some(window_cutoff(&self.now, d)),
            None => None,
        };
        let ghost cutoffv = cutoff;

        let mut fs: Vec<StoreRow> = Vec::new();
        let mut i: usize = 0;
        while i < self.rows.len()
            invariant
                rowsv == self.rows@,
                i <= rowsv.len(),
                match (pattern_chars, digits) {
                    (Some(pc), Some(d)) => pc@ == d,
                    (None, None) => true,
                    _ => false,
                },
                cutoff == cutoffv,
                fs@ == analytics_filtered(rowsv.take(i as int), digits, cutoffv),
            decreases self.rows.len() - i,
        {
            let row = &self.rows[i];
            let handle_ok: bool = match &pattern_chars {
                Some(pc) => match &row.handle {
                    Some(h) => {
                        let sh = strip_handle(h.as_str());
                        let sh_chars = to_chars(sh.as_str());
                        chars_contain(&sh_chars, pc)
                    },
                    None => false,
                },
                None => true,
            };
            let window_ok: bool = match cutoff {
                Some(c) => match row.date {
                    Some(d) => d >= c,
                    None => false,
                },
                None => true,
            };
            if handle_ok && window_ok {
                fs.push(row_dup(row));
            }
            proof {
                reveal(Seq::filter);
                assert(rowsv.take(i + 1 as int).drop_last() =~= rowsv.take(i as int));
                assert(rowsv.take(i + 1 as int).last() == rowsv[i as int]);
            }
            i = i + 1;
        }
        assert(rowsv.take(rowsv.len() as int) =~= rowsv);
        let ghost f = analytics_filtered(rowsv, digits, cutoffv);

        let total: u64 = fs.len() as u64;
        let mut sent: u64 = 0;
        let mut first: Option<i64> = None;
        let mut last: Option<i64> = None;
        let mut k: usize = 0;
        while k < fs.len()
            invariant
                fs@ == f,
                k <= f.len(),
                sent == f.take(k as int).filter(|row: StoreRow| row.is_from_me).len(),
                first == min_date_of(f.take(k as int)),
                last == max_date_of(f.take(k as int)),
            decreases fs.len() - k,
        {
            proof {
                reveal(Seq::filter);
                assert(f.take(k + 1 as int).drop_last() =~= f.take(k as int));
                assert(f.take(k + 1 as int).last() == f[k as int]);
                f.take(k as int).lemma_filter_len(|row: StoreRow| row.is_from_me);
            }
            if fs[k].is_from_me {
                sent = sent + 1;
            }
            match fs[k].date {
                Some(d) => {
                    first = match first {
                        Some(m) => if d < m {
                            Some(d)
                        } else {
                            Some(m)
                        },
                        None => Some(d),
                    };
                    last = match last {
                        Some(m) => if d > m {
                            Some(d)
                        } else {
                            Some(m)
                        },
                        None => Some(d),
                    };
                },
                None => {},
            }
            k = k + 1;
        }
        assert(f.take(f.len() as int) =~= f);
        proof {
            f.lemma_filter_len(|row: StoreRow| row.is_from_me);
        }
        let received: u64 = total - sent;
        Analytics {
            total_messages: total,
            sent,
            received,
            first_message: format_timestamp(first),
            last_message: format_timestamp(last),
        }
    }

    /// Up to `limit` conversations, each summarized by its most recent
    /// message, newest conversation first.
    pub fn recent_conversations(&self, limit: usize) -> (r: Vec<ConversationSummary>)
        ensures
            ({
                let hs = handles_of(self.rows@);
                exists|p: Seq<int>|
                    {
                        &&& is_index_perm(p, hs.len() as int)
                        &&& (forall|i: int, j: int|
                            0 <= i < j < hs.len() ==> group_key(self.rows@, #[trigger] hs[p[i]])
                                >= group_key(self.rows@, #[trigger] hs[p[j]]))
                        &&& r@.len() == spec_min(limit as int, hs.len() as int)
                        &&& (forall|i: int|
                            0 <= i < r@.len() ==> summary_matches(
                                #[trigger] r@[i],
                                self.rows@,
                                hs[p[i]],
                            ))
                    }
            }),
    {
        let ghost rowsv = self.rows@;
        let ghost hs = handles_of(rowsv);
        let entries = collect_handles(&self.rows);
        let mut cands: Vec<GroupCand> = Vec::new();
        let mut k: usize = 0;
        while k < entries.len()
            invariant
                rowsv == self.rows@,
                hs == handles_of(rowsv),
                entries@.len() == hs.len(),
                forall|t: int|
                    0 <= t < hs.len() ==> (#[trigger] entries@[t].chars@) == hs[t]
                        && entries@[t].raw@ == hs[t],
                k <= hs.len(),
                cands@.len() == k,
                forall|t: int|
                    0 <= t < k ==> summary_matches(
                        (#[trigger] cands@[t]).summary,
                        rowsv,
                        hs[t],
                    ) && cands@[t].key() == group_key(rowsv, hs[t]),
            decreases entries.len() - k,
        {
            let g = recent_group(&self.rows, &entries[k].chars);
            match g {
                Some(pair) => {
                    let (d, t) = pair;
                    let summary = ConversationSummary {
                        handle: Some(strip_handle(entries[k].raw.as_str())),
                        last_message: t,
                        last_message_date: format_timestamp(d),
                    };
                    cands.push(GroupCand { date: d, summary });
                },
                None => {
                    proof {
                        assert(hs.contains(hs[k as int]));
                        lemma_handle_has_row(rowsv, hs[k as int], rowsv.len() as int);
                        assert(false);
                    }
                },
            }
            k = k + 1;
        }
        let ghost candsv = cands@;
        let (sorted, gp) = sort_by_key_desc(cands);
        let ghost p = gp@;
        let mut sorted = sorted;
        let mut out: Vec<ConversationSummary> = Vec::new();
        let ghost sortedv = sorted@;
        let n: usize = if limit < sorted.len() {
            limit
        } else {
            sorted.len()
        };
        let mut i: usize = 0;
        while i < n
            invariant
                n <= sortedv.len(),
                sorted@ == sortedv.subrange(i as int, sortedv.len() as int),
                i <= n,
                out@.len() == i,
                forall|t: int| 0 <= t < i ==> #[trigger] out@[t] == sortedv[t].summary,
            decreases n - i,
        {
            let c = sorted.remove(0);
            out.push(c.summary);
            proof {
                assert(sorted@ =~= sortedv.subrange(i + 1 as int, sortedv.len() as int));
            }
            i = i + 1;
        }
        proof {
            assert forall|i2: int, j2: int| 0 <= i2 < j2 < hs.len() implies group_key(
                rowsv,
                #[trigger] hs[p[i2]],
            ) >= group_key(rowsv, #[trigger] hs[p[j2]]) by {
                assert(sortedv[i2] == candsv[p[i2]]);
                assert(sortedv[j2] == candsv[p[j2]]);
                assert(sortedv[i2].key() >= sortedv[j2].key());
            };
            assert forall|i2: int| 0 <= i2 < out@.len() implies summary_matches(
                #[trigger] out@[i2],
                rowsv,
                hs[p[i2]],
            ) by {
                assert(out@[i2] == sortedv[i2].summary);
                assert(sortedv[i2] == candsv[p[i2]]);
            };
        }
        out
    }

    /// The conversations needing a reply: each with an inbound message inside
    /// the window that no later outbound message answers and whose age reaches
    /// the staleness threshold, ordered by that inbound date, newest first.
    pub fn followups(&self, days: u32, stale_days: u32) -> (r: Vec<FollowupItem>)
        requires
            self.wf(),
        ensures
            ({
                let w = window_rows(self.rows@, days as int, self.now);
                let hs = handles_of(w);
                exists|p: Seq<int>|
                    {
                        &&& is_index_perm(p, hs.len() as int)
                        &&& r@.len() <= hs.len()
                        &&& (forall|i: int|
                            0 <= i < r@.len() ==> needs_follow(
                                w,
                                #[trigger] hs[p[i]],
                                self.now,
                                stale_days as int,
                            ) && followup_matches(r@[i], w, hs[p[i]], self.now))
                        &&& (forall|j: int|
                            r@.len() <= j < hs.len() ==> !needs_follow(
                                w,
                                #[trigger] hs[p[j]],
                                self.now,
                                stale_days as int,
                            ))
                        &&& (forall|i: int, j: int|
                            0 <= i < j < r@.len() ==> inbound_key(w, #[trigger] hs[p[i]])
                                >= inbound_key(w, #[trigger] hs[p[j]]))
                    }
            }),
    {
        let ghost rowsv = self.rows@;
        let cutoff: i64 = window_cutoff(&self.now, days);
        let mut w: Vec<StoreRow> = Vec::new();
        let mut i: usize = 0;
        if days > 0 {
            while i < self.rows.len()
                invariant
                    days > 0,
                    rowsv == self.rows@,
                    cutoff == spec_cutoff(self.now, days as int),
                    i <= rowsv.len(),
                    w@ == window_rows(rowsv.take(i as int), days as int, self.now),
                decreases self.rows.len() - i,
            {
                let row = &self.rows[i];
                let keep: bool = match row.date {
                    Some(d) => d >= cutoff,
                    None => false,
                };
                if keep {
                    w.push(row_dup(row));
                }
                proof {
                    reveal(Seq::filter);
                    assert(rowsv.take(i + 1 as int).drop_last() =~= rowsv.take(i as int));
                    assert(rowsv.take(i + 1 as int).last() == rowsv[i as int]);
                }
                i = i + 1;
            }
            assert(rowsv.take(rowsv.len() as int) =~= rowsv);
        } else {
            while i < self.rows.len()
                invariant
                    rowsv == self.rows@,
                    i <= rowsv.len(),
                    w@ == rowsv.take(i as int),
                decreases self.rows.len() - i,
            {
                w.push(row_dup(&self.rows[i]));
                proof {
                    assert(rowsv.take(i as int).push(rowsv[i as int]) =~= rowsv.take(
                        i + 1 as int,
                    ));
                }
                i = i + 1;
            }
            assert(rowsv.take(rowsv.len() as int) =~= rowsv);
        }
        let ghost wv = w@;
        assert(wv == window_rows(rowsv, days as int, self.now));
        let ghost hs = handles_of(wv);
        let ghost nowv = self.now;
        let ghost stale = stale_days as int;

        let entries = collect_handles(&w);
        let mut cands: Vec<FollowCand> = Vec::new();
        let ghost mut qidx: Seq<int> = Seq::empty();
        let ghost mut nq: Seq<int> = Seq::empty();
        let mut k: usize = 0;
        while k < entries.len()
            invariant
                wv == w@,
                hs == handles_of(wv),
                nowv == self.now,
                nowv.wf(),
                stale == stale_days as int,
                entries@.len() == hs.len(),
                forall|t: int|
                    0 <= t < hs.len() ==> (#[trigger] entries@[t].chars@) == hs[t]
                        && entries@[t].raw@ == hs[t],
                k <= hs.len(),
                cands@.len() == qidx.len(),
                qidx.len() + nq.len() == k,
                forall|t: int| 0 <= t < qidx.len() ==> 0 <= #[trigger] qidx[t] < k,
                forall|t: int| 0 <= t < nq.len() ==> 0 <= #[trigger] nq[t] < k,
                forall|t1: int, t2: int| 0 <= t1 < t2 < qidx.len() ==> qidx[t1] < qidx[t2],
                forall|t1: int, t2: int| 0 <= t1 < t2 < nq.len() ==> nq[t1] < nq[t2],
                forall|t: int|
                    0 <= t < qidx.len() ==> needs_follow(wv, hs[#[trigger] qidx[t]], nowv, stale),
                forall|t: int|
                    0 <= t < nq.len() ==> !needs_follow(wv, hs[#[trigger] nq[t]], nowv, stale),
                forall|t: int|
                    0 <= t < qidx.len() ==> followup_matches(
                        (#[trigger] cands@[t]).item,
                        wv,
                        hs[qidx[t]],
                        nowv,
                    ) && cands@[t].key() == inbound_key(wv, hs[qidx[t]]),
            decreases entries.len() - k,
        {
            let inb = inbound_group(&w, &entries[k].chars);
            let mut qualified: bool = false;
            match inb {
                Some(pair) => {
                    let (din_raw, preview) = pair;
                    let din = cocoa_to_datetime(din_raw);
                    let outb = outbound_group(&w, &entries[k].chars);
                    let needs_reply: bool = match outb {
                        Some(o) => {
                            let dout = cocoa_to_datetime(o);
                            timestamp_lt(&dout, &din)
                        },
                        None => true,
                    };
                    let age: i64 = days_between(&self.now, &din);
                    if needs_reply && age >= stale_days as i64 {
                        qualified = true;
                        let item = FollowupItem {
                            handle: strip_handle(entries[k].raw.as_str()),
                            last_inbound: format_timestamp(Some(din_raw)),
                            last_outbound: format_timestamp(outb),
                            text_preview: preview,
                            days_stale: Some(age),
                        };
                        cands.push(FollowCand { inb: din_raw, item });
                        proof {
                            qidx = qidx.push(k as int);
                        }
                    }
                },
                None => {},
            }
            if !qualified {
                proof {
                    nq = nq.push(k as int);
                }
            }
            k = k + 1;
        }

        let ghost candsv = cands@;
        let (sorted, gp) = sort_by_key_desc(cands);
        let ghost sp = gp@;
        let mut sorted = sorted;
        let ghost sortedv = sorted@;
        let mut out: Vec<FollowupItem> = Vec::new();
        let n: usize = sorted.len();
        let mut i: usize = 0;
        while i < n
            invariant
                n == sortedv.len(),
                sorted@ == sortedv.subrange(i as int, sortedv.len() as int),
                i <= n,
                out@.len() == i,
                forall|t: int| 0 <= t < i ==> #[trigger] out@[t] == sortedv[t].item,
            decreases n - i,
        {
            let c = sorted.remove(0);
            out.push(c.item);
            proof {
                assert(sorted@ =~= sortedv.subrange(i + 1 as int, sortedv.len() as int));
            }
            i = i + 1;
        }

        proof {
            let m = qidx.len() as int;
            let total = hs.len() as int;
            let p = Seq::new(
                total as nat,
                |i: int|
                    if i < m {
                        qidx[sp[i]]
                    } else {
                        nq[i - m]
                    },
            );
            assert forall|t1: int, t2: int| 0 <= t1 < t2 < total implies p[t1] != p[t2] by {
                if t2 < m {
                    assert(sp[t1] != sp[t2]);
                    if sp[t1] < sp[t2] {
                        assert(qidx[sp[t1]] < qidx[sp[t2]]);
                    } else {
                        assert(qidx[sp[t2]] < qidx[sp[t1]]);
                    }
                } else if t1 < m {
                    assert(needs_follow(wv, hs[qidx[sp[t1]]], nowv, stale));
                    assert(!needs_follow(wv, hs[nq[t2 - m]], nowv, stale));
                } else {
                    assert(nq[t1 - m] < nq[t2 - m]);
                }
            };
            assert(is_index_perm(p, total));
            assert forall|i2: int| 0 <= i2 < out@.len() implies needs_follow(
                wv,
                #[trigger] hs[p[i2]],
                nowv,
                stale,
            ) && followup_matches(out@[i2], wv, hs[p[i2]], nowv) by {
                assert(out@[i2] == sortedv[i2].item);
                assert(sortedv[i2] == candsv[sp[i2]]);
            };
            assert forall|i2: int, j2: int| 0 <= i2 < j2 < out@.len() implies inbound_key(
                wv,
                #[trigger] hs[p[i2]],
            ) >= inbound_key(wv, #[trigger] hs[p[j2]]) by {
                assert(sortedv[i2] == candsv[sp[i2]]);
                assert(sortedv[j2] == candsv[sp[j2]]);
                assert(sortedv[i2].key() >= sortedv[j2].key());
            };
            assert forall|j2: int| out@.len() <= j2 < total implies !needs_follow(
                wv,
                #[trigger] hs[p[j2]],
                nowv,
                stale,
            ) by {
                assert(p[j2] == nq[j2 - m]);
            };
        }
        out
    }
}

} // verus!
