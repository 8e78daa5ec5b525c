use noxmail::marker::is_read_path;
use noxmail::message::MessageRecord;
use noxmail::order::SortColumn;
use noxmail::view::{perform_search, project, CollectionView, SelectOutcome};

fn rec(path: &str, timestamp: i64, from: &str, subject: &str, date: &str) -> MessageRecord {
    MessageRecord {
        path: path.to_string(),
        timestamp,
        date_short: date.to_string(),
        date_full: date.to_string(),
        from: from.to_string(),
        return_path: String::new(),
        subject: subject.to_string(),
        is_read: is_read_path(path),
    }
}

fn sample() -> Vec<MessageRecord> {
    vec![
        rec("m/cur/a:2,S", 100, "Zed <z@x>", "Lunch plans", "Mon, 1 Jan 2024"),
        rec("m/cur/b:2,S", 300, "amy <a@x>", "Invoice", "Tue, 2 Jan 2024"),
        rec("m/new/c", 200, "Bob <b@x>", "lunch menu", "Wed, 3 Jan 2024"),
    ]
}

fn subjects(v: &CollectionView) -> Vec<String> {
    (0..v.display_len()).map(|k| v.display_record(k).subject.clone()).collect()
}

#[test]
fn new_view_is_empty_and_sorted_by_date_ascending() {
    let v = CollectionView::new();
    assert_eq!(v.display_len(), 0);
    assert_eq!(v.column(), SortColumn::Date);
    assert!(!v.is_descending(SortColumn::Date));
    assert!(v.selected().is_none());
}

#[test]
fn default_date_order_is_oldest_first() {
    let mut v = CollectionView::new();
    v.set_authoritative(sample());
    assert_eq!(subjects(&v), vec!["Lunch plans", "lunch menu", "Invoice"]);
}

#[test]
fn sender_column_starts_descending_and_ignores_case() {
    let mut v = CollectionView::new();
    v.set_authoritative(sample());
    v.click_column(SortColumn::Sender);
    assert!(v.is_descending(SortColumn::Sender));
    assert_eq!(subjects(&v), vec!["Lunch plans", "lunch menu", "Invoice"]);
    v.click_column(SortColumn::Sender);
    assert_eq!(subjects(&v), vec!["Invoice", "lunch menu", "Lunch plans"]);
}

#[test]
fn switching_columns_keeps_each_direction() {
    let mut v = CollectionView::new();
    v.set_authoritative(sample());
    v.click_column(SortColumn::Date);
    assert!(v.is_descending(SortColumn::Date));
    v.click_column(SortColumn::Subject);
    assert!(v.is_descending(SortColumn::Subject));
    v.click_column(SortColumn::Date);
    assert!(v.is_descending(SortColumn::Date));
    assert_eq!(subjects(&v), vec!["Invoice", "lunch menu", "Lunch plans"]);
}

#[test]
fn equal_keys_keep_folder_order_both_ways() {
    let recs = vec![
        rec("m/x", 5, "a", "x", ""),
        rec("m/y", 5, "a", "y", ""),
        rec("m/z", 1, "a", "z", ""),
    ];
    assert_eq!(project(&recs, "", SortColumn::Date, false), vec![2, 0, 1]);
    assert_eq!(project(&recs, "", SortColumn::Date, true), vec![0, 1, 2]);
}

#[test]
fn sorting_twice_gives_the_same_order() {
    let recs = sample();
    let a = project(&recs, "", SortColumn::Subject, false);
    let b = project(&recs, "", SortColumn::Subject, false);
    assert_eq!(a, b);
    assert_eq!(a, vec![1, 2, 0]);
}

#[test]
fn search_matches_subject_sender_and_date_without_case() {
    let recs = sample();
    assert_eq!(perform_search(&recs, "LUNCH"), vec![0, 2]);
    assert_eq!(perform_search(&recs, "amy"), vec![1]);
    assert_eq!(perform_search(&recs, "wed"), vec![2]);
    assert_eq!(perform_search(&recs, "nothing"), Vec::<usize>::new());
}

#[test]
fn blank_query_keeps_everything() {
    let recs = sample();
    assert_eq!(perform_search(&recs, ""), vec![0, 1, 2]);
    assert_eq!(perform_search(&recs, "   "), vec![0, 1, 2]);
}

#[test]
fn longer_query_narrows_the_list() {
    let recs = sample();
    let short = perform_search(&recs, "lunch");
    let long = perform_search(&recs, "lunch m");
    assert_eq!(long, vec![2]);
    assert!(long.iter().all(|i| short.contains(i)));
}

#[test]
fn search_query_recomputes_display() {
    let mut v = CollectionView::new();
    v.set_authoritative(sample());
    v.set_search_query("invoice".to_string());
    assert_eq!(subjects(&v), vec!["Invoice"]);
    v.set_search_query(String::new());
    assert_eq!(v.display_len(), 3);
}

#[test]
fn select_out_of_range_changes_nothing() {
    let mut v = CollectionView::new();
    v.set_authoritative(sample());
    assert!(matches!(v.select(3), SelectOutcome::OutOfRange));
    assert!(v.selected().is_none());
}

#[test]
fn select_read_message_needs_no_rename() {
    let mut v = CollectionView::new();
    v.set_authoritative(sample());
    assert!(matches!(v.select(0), SelectOutcome::Selected));
    assert_eq!(v.selected(), Some(0));
}

#[test]
fn failed_rename_keeps_message_unread() {
    let mut v = CollectionView::new();
    v.set_authoritative(sample());
    match v.select(1) {
        SelectOutcome::Rename(from, to) => {
            assert_eq!(from, "m/new/c");
            assert_eq!(to, "m/cur/c:2,S");
            v.finish_read(&from, false);
        }
        _ => panic!("expected a rename"),
    }
    let r = v.selected_record().unwrap();
    assert_eq!(r.path, "m/new/c");
    assert!(!r.is_read);
}

#[test]
fn successful_rename_updates_authoritative_record() {
    let mut v = CollectionView::new();
    v.set_authoritative(sample());
    v.finish_read("m/new/c", true);
    assert_eq!(v.authoritative()[2].path, "m/cur/c:2,S");
    assert!(v.authoritative()[2].is_read);
    assert_eq!(subjects(&v), vec!["Lunch plans", "lunch menu", "Invoice"]);
}

#[test]
fn archive_removes_one_and_keeps_selection_index() {
    let mut v = CollectionView::new();
    v.set_authoritative(sample());
    v.select(1);
    v.remove_archived("m/new/c");
    assert_eq!(v.authoritative().len(), 2);
    assert!(v.authoritative().iter().all(|r| r.path != "m/new/c"));
    assert_eq!(v.selected(), Some(1));
    assert_eq!(v.selected_record().unwrap().subject, "Invoice");
}

#[test]
fn archive_of_last_row_selects_the_one_before() {
    let mut v = CollectionView::new();
    v.set_authoritative(sample());
    v.select(2);
    v.remove_archived("m/cur/b:2,S");
    assert_eq!(v.selected(), Some(1));
}

#[test]
fn archive_of_only_row_clears_selection() {
    let mut v = CollectionView::new();
    v.set_authoritative(vec![rec("m/cur/a", 1, "a", "s", "")]);
    v.select(0);
    v.remove_archived("m/cur/a");
    assert_eq!(v.display_len(), 0);
    assert!(v.selected().is_none());
}

#[test]
fn stale_load_results_are_dropped() {
    let mut v = CollectionView::new();
    let first = v.begin_load();
    let second = v.begin_load();
    assert_eq!(second, first + 1);
    assert!(v.loading());
    assert!(!v.finish_load(first, sample()));
    assert_eq!(v.display_len(), 0);
    assert!(v.finish_load(second, sample()));
    assert_eq!(v.display_len(), 3);
    assert!(!v.loading());
    assert!(!v.finish_load(second, Vec::new()));
    assert_eq!(v.display_len(), 3);
}

#[test]
fn folder_switch_empties_the_view() {
    let mut v = CollectionView::new();
    v.set_authoritative(sample());
    v.select(0);
    v.begin_load();
    assert_eq!(v.authoritative().len(), 0);
    assert_eq!(v.display_len(), 0);
    assert!(v.selected().is_none());
}

#[test]
fn failed_load_ends_only_the_current_one() {
    let mut v = CollectionView::new();
    let t = v.begin_load();
    assert!(!v.load_failed(t + 7));
    assert!(v.loading());
    assert!(v.load_failed(t));
    assert!(!v.loading());
}

#[test]
fn search_does_not_reorder_rows() {
    let recs = sample();
    let all = project(&recs, "", SortColumn::Subject, true);
    let some = project(&recs, "lunch", SortColumn::Subject, true);
    assert_eq!(all, vec![0, 2, 1]);
    assert_eq!(some, vec![0, 2]);
}
