use noxmail::address::{contact_matches, parse_from, recipient};
use noxmail::folders::{folder_dir, folder_list, sort_names};
use noxmail::html::strip_html_tags;
use noxmail::marker::{archive_target_path, is_read_path, read_target_path};
use noxmail::reply::{reply_eligibility, reply_quote, reply_subject};
use noxmail::text::lowercase;

fn strings(v: &[&str]) -> Vec<String> {
    v.iter().map(|s| s.to_string()).collect()
}

#[test]
fn lowercase_plain_letters() {
    assert_eq!(lowercase("HeLLo ÄÖ"), "hello äö");
}

#[test]
fn html_removes_blocks_in_any_case() {
    assert_eq!(strip_html_tags("<HEAD><title>x</title></HEAD>a<STYLE>p{}</style>b<ScRiPt>1</SCRIPT>c"), "abc");
}

#[test]
fn html_unterminated_block_runs_to_end() {
    assert_eq!(strip_html_tags("keep<script>all of this"), "keep");
}

#[test]
fn html_comments_and_breaks() {
    assert_eq!(strip_html_tags("a<!-- hidden -->b<br>c<br/>d<br />e"), "ab\nc\nd\ne");
}

#[test]
fn html_entities_decoded_once_in_order() {
    assert_eq!(strip_html_tags("&lt;b&gt; &amp;amp; &quot;q&quot;&nbsp;x"), "<b> &amp; \"q\" x");
}

#[test]
fn html_trims_whitespace() {
    assert_eq!(strip_html_tags("  \n<div> text </div>\t "), "text");
}

#[test]
fn parse_from_strips_quotes_and_trims() {
    let (name, email) = parse_from("  \"O'Neil, Pat\"  < pat@x.org > ");
    assert_eq!(name, "O'Neil, Pat");
    assert_eq!(email, "pat@x.org");
}

#[test]
fn parse_from_without_closing_bracket_is_bare() {
    let (name, email) = parse_from("Pat <pat@x.org");
    assert_eq!(name, "");
    assert_eq!(email, "Pat <pat@x.org");
}

#[test]
fn parse_from_empty() {
    assert_eq!(parse_from("   "), (String::new(), String::new()));
}

#[test]
fn read_marker_detection() {
    assert!(is_read_path("/m/cur/1:2,S"));
    assert!(is_read_path("/m/cur/1:2,FRS"));
    assert!(!is_read_path("/m/cur/1:2,F"));
    assert!(!is_read_path("/m/new/1"));
    assert!(!is_read_path("/m/S:2,x/1"));
}

#[test]
fn read_target_without_suffix_in_current() {
    assert_eq!(read_target_path("/m/cur/1"), "/m/cur/1:2,S");
}

#[test]
fn read_target_adds_flag_to_existing_flags() {
    assert_eq!(read_target_path("/m/cur/1:2,F"), "/m/cur/1:2,FS");
}

#[test]
fn read_target_of_read_message_is_itself() {
    assert_eq!(read_target_path("/m/cur/1:2,RS"), "/m/cur/1:2,RS");
}

#[test]
fn read_target_twice_is_once() {
    let once = read_target_path("/m/INBOX/new/5:2,");
    assert_eq!(once, "/m/INBOX/cur/5:2,S");
    assert_eq!(read_target_path(&once), once);
}

#[test]
fn read_target_of_bare_new_directory() {
    assert_eq!(read_target_path("new/7"), "cur/7:2,S");
    assert_eq!(read_target_path("7"), "7:2,S");
    assert_eq!(read_target_path("/m/renew/7"), "/m/renew/7:2,S");
}

#[test]
fn archive_target_of_incoming_message() {
    assert_eq!(archive_target_path("/m/INBOX/new/9", "/m/Archive"), "/m/Archive/cur/9");
}

#[test]
fn reply_allowed_after_a_day() {
    let r = reply_eligibility(0, 86400);
    assert!(r.allowed);
    let r = reply_eligibility(1, 86400);
    assert!(!r.allowed);
    assert_eq!(r.hours_remaining, 1);
}

#[test]
fn reply_from_the_future_waits_longer() {
    let r = reply_eligibility(5400, 0);
    assert!(!r.allowed);
    assert_eq!(r.hours_remaining, 26);
}

#[test]
fn reply_eligibility_extremes() {
    let r = reply_eligibility(i64::MIN, i64::MAX);
    assert!(r.allowed);
    let r = reply_eligibility(i64::MAX, i64::MIN);
    assert!(!r.allowed);
    assert_eq!(r.hours_remaining, 24 + 5_124_095_576_030_432);
}

#[test]
fn reply_subject_case_insensitive() {
    assert_eq!(reply_subject("re: x"), "re: x");
    assert_eq!(reply_subject("Re"), "Re: Re");
    assert_eq!(reply_subject(""), "Re: ");
}

#[test]
fn reply_quote_lines() {
    assert_eq!(
        reply_quote("Mon", "Ann", "one\r\ntwo\n\nthree\n"),
        "--- Am Mon schrieb Ann :\n> one\n> two\n> \n> three\n\n"
    );
    assert_eq!(reply_quote("d", "f", ""), "--- Am d schrieb f :\n\n");
}

#[test]
fn folders_sorted() {
    assert_eq!(sort_names(strings(&["b", "Archive", "a", "Outbox"])), strings(&["Archive", "Outbox", "a", "b"]));
    assert_eq!(folder_list(false, strings(&["work", "Archive"])), strings(&["Archive", "work"]));
}

#[test]
fn folders_default_to_inbox() {
    assert_eq!(folder_list(true, strings(&["work"])), strings(&["INBOX"]));
    assert_eq!(folder_list(false, Vec::new()), strings(&["INBOX"]));
}

#[test]
fn folder_directories() {
    assert_eq!(folder_dir("/h/.Mail", "INBOX", true), "/h/.Mail");
    assert_eq!(folder_dir("/h/.Mail", "INBOX", false), "/h/.Mail/INBOX");
    assert_eq!(folder_dir("/h/.Mail", "work", true), "/h/.Mail/work");
}

#[test]
fn lowercase_follows_final_sigma_rule() {
    assert_eq!(lowercase("\u{3a3}\u{391}\u{3a3}"), "\u{3c3}\u{3b1}\u{3c2}");
    assert_eq!(lowercase("\u{391}\u{3a3}\u{392}"), "\u{3b1}\u{3c3}\u{3b2}");
}

#[test]
fn recipient_line() {
    assert_eq!(recipient("Ann", "ann@x.org"), "Ann <ann@x.org>");
    assert_eq!(recipient("", "ann@x.org"), "ann@x.org");
}

#[test]
fn contact_search() {
    assert!(contact_matches("Ann Smith", "ann@x.org", ""));
    assert!(contact_matches("Ann Smith", "ann@x.org", "SMITH ANN@"));
    assert!(!contact_matches("Ann Smith", "ann@x.org", "bob"));
}
