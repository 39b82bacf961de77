use imessage_gateway::messages::{MessagesClient, StoreRow};

const DAY_NS: i64 = 86_400_000_000_000;
// roughly 25 years after the store epoch, in nanoseconds
const NOW_RAW: i64 = 790_000_000_000_000_000;

fn row(handle: Option<&str>, text: Option<&str>, from_me: bool, date: Option<i64>) -> StoreRow {
    StoreRow {
        guid: None,
        handle: handle.map(|s| s.to_string()),
        text: text.map(|s| s.to_string()),
        is_from_me: from_me,
        is_read: None,
        date,
    }
}

fn days_ago(n: i64) -> Option<i64> {
    Some(NOW_RAW - n * DAY_NS)
}

#[test]
fn messages_for_phone_filters_sorts_and_limits() {
    let rows = vec![
        row(Some("+15551234567"), Some("oldest"), false, days_ago(3)),
        row(Some("+15550000000"), Some("other handle"), false, days_ago(1)),
        row(Some("+15551234567"), Some("newest"), true, days_ago(1)),
        row(Some("+15551234567"), Some("middle"), false, days_ago(2)),
        row(None, Some("no handle"), false, days_ago(1)),
    ];
    let client = MessagesClient::new(rows, NOW_RAW);
    let all = client.messages_for_phone("5551234567", 10);
    assert_eq!(all.len(), 3);
    assert_eq!(all[0].text.as_deref(), Some("newest"));
    assert_eq!(all[1].text.as_deref(), Some("middle"));
    assert_eq!(all[2].text.as_deref(), Some("oldest"));
    assert_eq!(all[0].sender.as_deref(), Some("Me"));
    assert!(all[0].is_from_me);
    assert_eq!(all[1].sender.as_deref(), Some("15551234567"));
    assert_eq!(all[1].handle.as_deref(), Some("15551234567"));
    assert!(all[0].timestamp.is_some());

    let limited = client.messages_for_phone("5551234567", 2);
    assert_eq!(limited.len(), 2);
    assert_eq!(limited[0].text.as_deref(), Some("newest"));
}

#[test]
fn messages_keep_rows_with_missing_text() {
    let rows = vec![row(Some("+15551234567"), None, false, days_ago(1))];
    let client = MessagesClient::new(rows, NOW_RAW);
    let all = client.messages_for_phone("5551234567", 10);
    assert_eq!(all.len(), 1);
    assert!(all[0].text.is_none());
}

#[test]
fn search_is_case_sensitive_and_skips_missing_text() {
    let rows = vec![
        row(Some("+15551234567"), Some("Hello World"), false, days_ago(1)),
        row(Some("+15551234567"), Some("hello there"), false, days_ago(2)),
        row(Some("+15551234567"), None, false, days_ago(3)),
    ];
    let client = MessagesClient::new(rows, NOW_RAW);
    let hits = client.search_messages("5551234567", "Hello", 10);
    assert_eq!(hits.len(), 1);
    assert_eq!(hits[0].text.as_deref(), Some("Hello World"));
    let none = client.search_messages("5551234567", "HELLO", 10);
    assert_eq!(none.len(), 0);
}

#[test]
fn unread_keeps_inbound_without_read_flag() {
    let mut read_row = row(Some("111"), Some("seen"), false, days_ago(1));
    read_row.is_read = Some(true);
    let mut unread_row = row(Some("111"), Some("new"), false, days_ago(2));
    unread_row.is_read = Some(false);
    let rows = vec![
        read_row,
        unread_row,
        row(Some("111"), Some("absent flag"), false, days_ago(3)),
        row(Some("111"), Some("mine"), true, days_ago(1)),
    ];
    let client = MessagesClient::new(rows, NOW_RAW);
    let unread = client.unread_messages(10);
    assert_eq!(unread.len(), 2);
    assert_eq!(unread[0].text.as_deref(), Some("new"));
    assert_eq!(unread[1].text.as_deref(), Some("absent flag"));
}

#[test]
fn analytics_counts_inside_the_window() {
    let mut rows = vec![
        // five inside a 30-day window: three sent, two received
        row(Some("+15551234567"), Some("a"), true, days_ago(1)),
        row(Some("+15551234567"), Some("b"), true, days_ago(2)),
        row(Some("+15551234567"), Some("c"), true, days_ago(3)),
        row(Some("+15551234567"), Some("d"), false, days_ago(4)),
        row(Some("+15551234567"), Some("e"), false, days_ago(5)),
        // two outside the window: one sent, one received
        row(Some("+15551234567"), Some("f"), true, days_ago(40)),
        row(Some("+15551234567"), Some("g"), false, days_ago(41)),
    ];
    // noise on another handle, and an undated row the window must exclude
    rows.push(row(Some("+15550000000"), Some("x"), false, days_ago(1)));
    rows.push(row(Some("+15551234567"), Some("undated"), false, None));
    let client = MessagesClient::new(rows, NOW_RAW);
    let stats = client.analytics(Some("5551234567"), Some(30));
    assert_eq!(stats.total_messages, 5);
    assert_eq!(stats.sent, 3);
    assert_eq!(stats.received, 2);
    assert!(stats.first_message.is_some());
    assert!(stats.last_message.is_some());
}

#[test]
fn analytics_without_filters_covers_the_store() {
    let rows = vec![
        row(Some("111"), Some("a"), true, days_ago(1)),
        row(None, Some("b"), false, None),
    ];
    let client = MessagesClient::new(rows, NOW_RAW);
    let stats = client.analytics(None, None);
    assert_eq!(stats.total_messages, 2);
    assert_eq!(stats.sent, 1);
    assert_eq!(stats.received, 1);
}

#[test]
fn recent_orders_handles_by_last_message() {
    let rows = vec![
        row(Some("222"), Some("b-old"), false, days_ago(5)),
        row(Some("111"), Some("a"), false, days_ago(1)),
        row(Some("222"), Some("b"), true, days_ago(3)),
        row(Some("333"), Some("c"), false, days_ago(2)),
        row(None, Some("skipped"), false, days_ago(1)),
    ];
    let client = MessagesClient::new(rows, NOW_RAW);
    let recent = client.recent_conversations(3);
    assert_eq!(recent.len(), 3);
    assert_eq!(recent[0].handle.as_deref(), Some("111"));
    assert_eq!(recent[1].handle.as_deref(), Some("333"));
    assert_eq!(recent[2].handle.as_deref(), Some("222"));
    assert_eq!(recent[0].last_message.as_deref(), Some("a"));
    assert_eq!(recent[2].last_message.as_deref(), Some("b"));
    assert!(recent[0].last_message_date.is_some());

    let one = client.recent_conversations(1);
    assert_eq!(one.len(), 1);
    assert_eq!(one[0].handle.as_deref(), Some("111"));
}

#[test]
fn followup_reports_unanswered_inbound_with_age() {
    let rows = vec![row(Some("+15551234567"), Some("ping?"), false, days_ago(10))];
    let client = MessagesClient::new(rows, NOW_RAW);
    let items = client.followups(0, 7);
    assert_eq!(items.len(), 1);
    assert_eq!(items[0].handle, "15551234567");
    assert_eq!(items[0].days_stale, Some(10));
    assert_eq!(items[0].text_preview.as_deref(), Some("ping?"));
    assert!(items[0].last_inbound.is_some());
    assert!(items[0].last_outbound.is_none());
}

#[test]
fn followup_skips_answered_inbound() {
    let rows = vec![
        row(Some("+15551234567"), Some("ping?"), false, days_ago(10)),
        row(Some("+15551234567"), Some("sure"), true, days_ago(2)),
    ];
    let client = MessagesClient::new(rows, NOW_RAW);
    let items = client.followups(0, 7);
    assert_eq!(items.len(), 0);
}

#[test]
fn followup_keeps_older_outbound_and_formats_it() {
    let rows = vec![
        row(Some("111"), Some("ping?"), false, days_ago(10)),
        row(Some("111"), Some("earlier reply"), true, days_ago(15)),
    ];
    let client = MessagesClient::new(rows, NOW_RAW);
    let items = client.followups(0, 7);
    assert_eq!(items.len(), 1);
    assert!(items[0].last_outbound.is_some());
    assert_eq!(items[0].days_stale, Some(10));
}

#[test]
fn followup_respects_threshold_and_window() {
    let rows = vec![row(Some("111"), Some("ping?"), false, days_ago(10))];
    let client = MessagesClient::new(rows, NOW_RAW);
    // not stale enough
    assert_eq!(client.followups(0, 11).len(), 0);
    // window excludes the inbound entirely
    assert_eq!(client.followups(7, 2).len(), 0);
    // window includes it
    let items = client.followups(30, 2);
    assert_eq!(items.len(), 1);
    assert_eq!(items[0].days_stale, Some(10));
}

#[test]
fn followups_order_newest_inbound_first() {
    let rows = vec![
        row(Some("111"), Some("a"), false, days_ago(20)),
        row(Some("222"), Some("b"), false, days_ago(10)),
        row(Some("333"), Some("c"), false, days_ago(15)),
    ];
    let client = MessagesClient::new(rows, NOW_RAW);
    let items = client.followups(0, 5);
    assert_eq!(items.len(), 3);
    assert_eq!(items[0].handle, "222");
    assert_eq!(items[1].handle, "333");
    assert_eq!(items[2].handle, "111");
}

#[test]
fn open_now_runs_against_the_machine_clock() {
    let client = MessagesClient::open_now(vec![row(Some("111"), Some("a"), false, Some(0))]);
    assert_eq!(client.recent_conversations(5).len(), 1);
}

#[test]
fn empty_phone_pattern_matches_every_handle() {
    let rows = vec![
        row(Some("111"), Some("a"), false, days_ago(1)),
        row(None, Some("no handle"), false, days_ago(1)),
    ];
    let client = MessagesClient::new(rows, NOW_RAW);
    let all = client.messages_for_phone("", 10);
    assert_eq!(all.len(), 1);
    assert_eq!(all[0].text.as_deref(), Some("a"));
}
