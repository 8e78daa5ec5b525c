use noxmail::address::parse_from;
use noxmail::html::strip_html_tags;
use noxmail::marker::{archive_target_path, is_read_path, read_target_path};
use noxmail::message::MessageRecord;
use noxmail::order::SortColumn;
use noxmail::reply::{draft_message, reply_eligibility, reply_subject};
use noxmail::view::{CollectionView, SelectOutcome};

fn record(path: &str, timestamp: i64, from: &str, subject: &str) -> MessageRecord {
    MessageRecord {
        path: path.to_string(),
        timestamp,
        date_short: String::new(),
        date_full: format!("date {}", timestamp),
        from: from.to_string(),
        return_path: String::new(),
        subject: subject.to_string(),
        is_read: is_read_path(path),
    }
}

fn shown_timestamps(v: &CollectionView) -> Vec<i64> {
    (0..v.display_len()).map(|k| v.display_record(k).timestamp).collect()
}

#[test]
fn date_sort_ascending_then_toggled() {
    let mut v = CollectionView::new();
    v.set_authoritative(vec![
        record("m/cur/a", 100, "a@x", "one"),
        record("m/cur/b", 300, "b@x", "two"),
        record("m/cur/c", 200, "c@x", "three"),
    ]);
    v.set_sort(SortColumn::Date, false);
    assert_eq!(shown_timestamps(&v), vec![100, 200, 300]);
    v.click_column(SortColumn::Date);
    assert_eq!(shown_timestamps(&v), vec![300, 200, 100]);
}

#[test]
fn incoming_message_moves_to_current_when_read() {
    assert_eq!(read_target_path("/home/u/.Mail/INBOX/new/171234.eml"), "/home/u/.Mail/INBOX/cur/171234.eml:2,S");
}

#[test]
fn reply_one_hour_old_waits_23_hours() {
    let now = 1_700_000_000;
    let r = reply_eligibility(now - 3600, now);
    assert!(!r.allowed);
    assert_eq!(r.hours_remaining, 23);
}

#[test]
fn html_script_removed_paragraph_kept() {
    assert_eq!(strip_html_tags("<p>Hi</p><script>evil()</script>Bye"), "Hi\n\nBye");
}

#[test]
fn parse_from_with_angle_address() {
    let (name, email) = parse_from("\"Jane Doe\" <jane@example.org>");
    assert_eq!(name, "Jane Doe");
    assert_eq!(email, "jane@example.org");
}

#[test]
fn parse_from_bare_address() {
    let (name, email) = parse_from("  jane@example.org ");
    assert_eq!(name, "");
    assert_eq!(email, "jane@example.org");
}

#[test]
fn select_unread_asks_for_rename() {
    let mut v = CollectionView::new();
    v.set_authoritative(vec![record("m/new/1", 5, "a@x", "s")]);
    match v.select(0) {
        SelectOutcome::Rename(from, to) => {
            assert_eq!(from, "m/new/1");
            assert_eq!(to, "m/cur/1:2,S");
            v.finish_read(&from, true);
        }
        _ => panic!("expected a rename"),
    }
    let r = v.selected_record().unwrap();
    assert_eq!(r.path, "m/cur/1:2,S");
    assert!(r.is_read);
}

#[test]
fn archive_target_keeps_file_name() {
    assert_eq!(archive_target_path("/m/INBOX/cur/7:2,S", "/m/Archive"), "/m/Archive/cur/7:2,S");
}

#[test]
fn reply_subject_prefix() {
    assert_eq!(reply_subject("Hello"), "Re: Hello");
    assert_eq!(reply_subject("RE: Hello"), "RE: Hello");
}

#[test]
fn draft_layout() {
    assert_eq!(
        draft_message("a@b", "Hi", "text"),
        "To: a@b\r\nSubject: Hi\r\nContent-Type: text/plain; charset=utf-8\r\n\r\ntext"
    );
}
