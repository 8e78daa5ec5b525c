use noxmail::message::{
    extract_best_body, find_header, mark_read, parse_message, record_from_part, Header, MimePart,
};
use noxmail::reply::message_body;
use noxmail::scan::{record_for_file, scan_folder, StoredFile};

const SIMPLE: &str = "Subject: Hello there\r\nFrom: \"Ann Smith\" <ann@example.org>\r\nReturn-Path: <bounce@example.org>\r\nDate: Sun, 02 Oct 2016 07:06:22 -0700 (PDT)\r\n\r\nBody text\r\n";

fn header(name: &str, value: &str) -> Header {
    Header { name: name.to_string(), value: value.to_string() }
}

fn leaf(content_type: &str, body: &str) -> MimePart {
    MimePart {
        headers: vec![header("Content-Type", content_type)],
        body: Some(body.to_string()),
        subparts: vec![],
    }
}

fn file(path: &str, data: Option<&str>) -> StoredFile {
    StoredFile { path: path.to_string(), data: data.map(|d| d.as_bytes().to_vec()) }
}

#[test]
fn record_from_simple_message() {
    let part = parse_message(SIMPLE.as_bytes()).unwrap();
    let r = record_from_part("/m/INBOX/cur/1:2,S".to_string(), &part);
    assert_eq!(r.subject, "Hello there");
    assert_eq!(r.from, "\"Ann Smith\" <ann@example.org>");
    assert_eq!(r.return_path, "<bounce@example.org>");
    assert_eq!(r.date_full, "Sun, 02 Oct 2016 07:06:22 -0700 (PDT)");
    assert_eq!(r.timestamp, 1475417182);
    assert!(r.is_read);
}

#[test]
fn record_placeholders_for_missing_headers() {
    let part = parse_message(b"X-Other: 1\r\n\r\nbody").unwrap();
    let r = record_from_part("/m/INBOX/new/2".to_string(), &part);
    assert_eq!(r.subject, "no subject");
    assert_eq!(r.from, "unknown");
    assert_eq!(r.return_path, "");
    assert_eq!(r.date_full, "");
    assert_eq!(r.timestamp, 0);
    assert!(!r.is_read);
}

#[test]
fn unparsable_date_gives_zero_and_keeps_text() {
    let part = parse_message(b"Date: sometime soon\r\n\r\n").unwrap();
    let r = record_from_part("x".to_string(), &part);
    assert_eq!(r.timestamp, 0);
    assert_eq!(r.date_full, "sometime soon");
    assert_eq!(r.date_short, "sometime soon");
}

#[test]
fn header_lookup_ignores_case_and_takes_first() {
    let hs = vec![header("X-A", "1"), header("subject", "first"), header("Subject", "second")];
    assert_eq!(find_header(&hs, "SUBJECT"), Some("first".to_string()));
    assert_eq!(find_header(&hs, "From"), None);
}

#[test]
fn body_prefers_plain_text() {
    let p = MimePart {
        headers: vec![header("Content-Type", "multipart/alternative; boundary=x")],
        body: None,
        subparts: vec![leaf("text/html", "<b>rich</b>"), leaf("TEXT/PLAIN; charset=utf-8", "plain")],
    };
    assert_eq!(extract_best_body(&p), "plain");
}

#[test]
fn body_falls_back_to_stripped_html() {
    let p = MimePart {
        headers: vec![],
        body: None,
        subparts: vec![leaf("image/png", "xx"), leaf("text/html", "<p>Hi &amp; bye</p>")],
    };
    assert_eq!(extract_best_body(&p), "Hi & bye");
}

#[test]
fn body_recurses_into_nested_parts() {
    let inner = MimePart {
        headers: vec![header("Content-Type", "multipart/alternative")],
        body: None,
        subparts: vec![leaf("text/plain", "deep")],
    };
    let p = MimePart { headers: vec![], body: None, subparts: vec![leaf("image/png", ""), inner] };
    assert_eq!(extract_best_body(&p), "deep");
}

#[test]
fn body_notice_when_nothing_displayable() {
    let p = MimePart { headers: vec![], body: None, subparts: vec![leaf("image/png", "")] };
    assert_eq!(extract_best_body(&p), "no displayable text found");
}

#[test]
fn single_html_part_is_stripped() {
    let p = leaf("text/html; charset=utf-8", "<html><head><title>t</title></head><body>A<br>B</body></html>");
    assert_eq!(extract_best_body(&p), "A\nB");
}

#[test]
fn message_body_of_multipart_bytes() {
    let raw = "Content-Type: multipart/alternative; boundary=foo\r\n\r\n--foo\r\nContent-Type: text/html\r\n\r\n<p>html</p>\r\n--foo\r\nContent-Type: text/plain\r\n\r\nplain part\r\n--foo--\r\n";
    assert_eq!(message_body(raw.as_bytes()), Some("plain part".to_string()));
}

#[test]
fn message_body_rejects_non_message() {
    assert_eq!(message_body(b" leading space is no header"), None);
}

#[test]
fn unreadable_and_unparsable_files_get_stand_ins() {
    let a = record_for_file(&file("/m/new/a", None));
    assert_eq!(a.subject, "read error");
    assert_eq!(a.path, "/m/new/a");
    assert_eq!(a.from, "");
    assert_eq!(a.timestamp, 0);
    let b = record_for_file(&file("/m/cur/b:2,S", Some(" not a message")));
    assert_eq!(b.subject, "could not be parsed");
    assert!(b.is_read);
}

#[test]
fn scan_keeps_incoming_before_current_and_collects_senders() {
    let incoming = vec![
        file("/m/new/1", Some("From: ann@example.org\r\nSubject: a\r\n\r\n")),
        file("/m/new/2", None),
    ];
    let current = vec![
        file("/m/cur/3:2,S", Some("From: Ann <ann@example.org>\r\nSubject: b\r\n\r\n")),
        file("/m/cur/4:2,S", Some("From: \"Bob\" <bob@example.org>\r\n\r\n")),
        file("/m/cur/5:2,S", Some("From: <ann@example.org>\r\n\r\n")),
    ];
    let r = scan_folder(&incoming, &current);
    let paths: Vec<&str> = r.records.iter().map(|x| x.path.as_str()).collect();
    assert_eq!(paths, vec!["/m/new/1", "/m/new/2", "/m/cur/3:2,S", "/m/cur/4:2,S", "/m/cur/5:2,S"]);
    let contacts: Vec<(String, String)> = r.contacts.iter().map(|c| (c.email.clone(), c.name.clone())).collect();
    assert_eq!(
        contacts,
        vec![
            ("ann@example.org".to_string(), "Ann".to_string()),
            ("bob@example.org".to_string(), "Bob".to_string()),
        ]
    );
}

#[test]
fn rescanning_gives_the_same_paths() {
    let incoming = vec![file("/m/new/1", Some("Subject: a\r\n\r\n"))];
    let current = vec![file("/m/cur/2:2,S", Some("Subject: b\r\n\r\n"))];
    let a = scan_folder(&incoming, &current);
    let b = scan_folder(&incoming, &current);
    let pa: Vec<String> = a.records.iter().map(|x| x.path.clone()).collect();
    let pb: Vec<String> = b.records.iter().map(|x| x.path.clone()).collect();
    assert_eq!(pa, pb);
}

#[test]
fn scanned_record_read_round_trip() {
    let mut r = record_for_file(&file("/m/INBOX/new/9", Some("Subject: s\r\n\r\n")));
    assert!(!r.is_read);
    mark_read(&mut r);
    assert_eq!(r.path, "/m/INBOX/cur/9:2,S");
    assert!(r.is_read);
    assert_eq!(noxmail::marker::is_read_path(&r.path), r.is_read);
    mark_read(&mut r);
    assert_eq!(r.path, "/m/INBOX/cur/9:2,S");
    assert!(r.is_read);
}

#[test]
fn scanning_an_empty_folder_yields_nothing() {
    let r = scan_folder(&Vec::new(), &Vec::new());
    assert!(r.records.is_empty());
    assert!(r.contacts.is_empty());
}

#[test]
fn parsed_message_keeps_headers_and_body() {
    let part = parse_message(SIMPLE.as_bytes()).unwrap();
    assert_eq!(part.headers.len(), 4);
    assert_eq!(part.headers[0].name, "Subject");
    assert_eq!(part.headers[0].value, "Hello there");
    assert_eq!(part.body, Some("Body text\r\n".to_string()));
    assert!(part.subparts.is_empty());
    assert_eq!(message_body(SIMPLE.as_bytes()), Some("Body text\r\n".to_string()));
}
