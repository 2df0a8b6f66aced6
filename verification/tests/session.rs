use mail_blackhole::api::get_mail_at;
use mail_blackhole::disk::{Disk, Node};
use mail_blackhole::ingest::{deliver, Session};
use mail_blackhole::mail::Mailboxes;
use mail_blackhole::mime::{assemble, Found, ParsedMessage};
use mail_blackhole::text::{decimal, le};

fn s(text: &str) -> String {
    String::from(text)
}

fn tree() -> Disk {
    let mut disk = Disk::new();
    disk.put(&s("top"), &s("boxes"), Node::Dir);
    disk
}

fn read(raw: &[u8]) -> Option<Found> {
    let message = mail_parser::Message::parse(raw)?;
    let (from_address, from_text) = match message.from() {
        mail_parser::HeaderValue::Address(a) => (a.address.as_ref().map(|v| v.to_string()), None),
        mail_parser::HeaderValue::Text(t) => (None, Some(t.to_string())),
        _ => (None, None),
    };
    let to = match message.to() {
        mail_parser::HeaderValue::Address(a) => a.address.as_ref().map(|v| v.to_string()),
        _ => None,
    };
    let text_of = |i: &usize| {
        message.part(*i).and_then(|p| p.text_contents()).map(|s| s.to_string())
    };
    Some(Found {
        subject: message.subject().map(|s| s.to_string()),
        from_address,
        from_text,
        to,
        date: message.date().map(|d| d.to_rfc3339()),
        html: message.html_body.iter().map(text_of).collect(),
        text: message.text_body.iter().map(text_of).collect(),
        attachments: message
            .attachments()
            .map(|p| {
                (
                    mail_parser::MimeHeaders::content_disposition(p).map(|v| v.is_attachment()),
                    mail_parser::MimeHeaders::attachment_name(p).map(|s| s.to_string()),
                    p.contents().to_vec(),
                )
            })
            .collect(),
    })
}

fn parse(raw: &Vec<u8>) -> Option<ParsedMessage> {
    read(raw).map(|found| assemble(found, raw.clone()))
}

fn letter() -> Vec<u8> {
    let lines = [
        "From: Alice <a@b>",
        "To: x@h",
        "Subject: S",
        "Date: Sat, 20 Nov 2021 14:22:01 -0800",
        "MIME-Version: 1.0",
        "Content-Type: multipart/mixed; boundary=\"b1\"",
        "",
        "--b1",
        "Content-Type: text/html; charset=utf-8",
        "",
        "<p>x</p>",
        "--b1",
        "Content-Type: text/plain; name=\"a.txt\"",
        "Content-Disposition: attachment; filename=\"a.txt\"",
        "",
        "hello",
        "--b1--",
        "",
    ];
    lines.join("\r\n").into_bytes()
}

#[test]
fn decimal_writes_the_digits() {
    assert_eq!(decimal(0), "0");
    assert_eq!(decimal(7), "7");
    assert_eq!(decimal(10), "10");
    assert_eq!(decimal(1700000000123), "1700000000123");
    assert_eq!(decimal(u128::MAX), "340282366920938463463374607431768211455");
}

#[test]
fn le_is_the_order_of_strings() {
    assert!(le(&s(""), &s("")));
    assert!(le(&s(""), &s("a")));
    assert!(!le(&s("a"), &s("")));
    assert!(le(&s("a"), &s("a")));
    assert!(le(&s("a"), &s("b")));
    assert!(!le(&s("b"), &s("a")));
    assert!(le(&s("100"), &s("20")));
    assert!(le(&s("ab"), &s("abc")));
    assert!(!le(&s("abd"), &s("abc")));
    assert!(le(&s("z"), &s("\u{e9}")));
    for (a, b) in [("x@h", "y@h"), ("B", "a"), ("10", "9")] {
        assert_eq!(le(&s(a), &s(b)), s(a) <= s(b));
        assert_eq!(le(&s(b), &s(a)), s(b) <= s(a));
    }
}

#[test]
fn parse_reads_the_headers() {
    let m = parse(&letter()).unwrap();
    assert_eq!(m.subject, Some(s("S")));
    assert_eq!(m.from, "a@b");
    assert_eq!(m.to, Some(s("x@h")));
    assert_eq!(m.date, Some(s("2021-11-20T14:22:01-08:00")));
    assert_eq!(m.raw, letter());
}

#[test]
fn parse_reads_bodies_and_attachments() {
    let m = parse(&letter()).unwrap();
    assert_eq!(m.html, vec![s("<p>x</p>")]);
    assert_eq!(m.attachments.len(), 1);
    assert!(m.attachments[0].is_attachment);
    assert_eq!(m.attachments[0].name, Some(s("a.txt")));
    assert_eq!(m.attachments[0].contents, b"hello".to_vec());
}

#[test]
fn parse_refuses_what_is_no_message() {
    assert!(parse(&Vec::new()).is_none());
}

#[test]
fn parse_of_a_plain_letter() {
    let raw = b"From: plain words\r\nSubject: hi\r\n\r\nbody text\r\n".to_vec();
    let m = parse(&raw).unwrap();
    assert_eq!(m.subject, Some(s("hi")));
    assert_eq!(m.to, None);
    assert_eq!(m.from, "");
    assert_eq!(m.date, None);
    assert_eq!(m.text.len(), 1);
    assert!(m.text[0].starts_with("body text"));
    assert_eq!(m.attachments.len(), 0);
}

#[test]
fn session_gathers_the_bytes() {
    let mut session = Session::new(s("top/boxes"));
    assert!(session.data_start(&vec![s("x@h"), s("y@h")]));
    assert_eq!(session.addresses, vec![s("x@h"), s("y@h")]);
    session.data(b"ab");
    session.data(b"");
    session.data(b"c");
    assert_eq!(session.buffer, b"abc".to_vec());
    assert_eq!(session.path, "top/boxes");
}

#[test]
fn fan_out_to_two_recipients() {
    let mut disk = tree();
    let mut session = Session::new(s("top/boxes"));
    session.data_start(&vec![s("x@h"), s("y@h")]);
    let raw = letter();
    session.data(&raw[..10]);
    session.data(&raw[10..]);
    let found = read(&session.buffer);
    let d = session.data_end_at(&mut disk, found, 1700000000123);
    assert!(d.accepted);
    assert_eq!(d.events.len(), 2);
    assert_eq!(d.events[0].receiver, "x@h");
    assert_eq!(d.events[1].receiver, "y@h");
    for e in &d.events {
        assert_eq!(e.obj.id, "1700000000123");
        assert_eq!(e.obj.subject, "S");
        assert!(!e.obj.read);
    }
    assert!(session.buffer.is_empty());
    assert!(session.addresses.is_empty());
    let store = Mailboxes { path: s("top/boxes") };
    for mailbox in ["x@h", "y@h"] {
        let mail = get_mail_at(&store, &mut disk, &s(mailbox), &s("1700000000123"), 1).unwrap().unwrap();
        assert_eq!(mail.metadata.subject, "S");
        assert_eq!(mail.metadata.from, "a@b");
        assert_eq!(mail.metadata.date, Some(s("2021-11-20T14:22:01-08:00")));
        assert_eq!(mail.html, Some(s("<p>x</p>")));
        assert_eq!(mail.raw, Some(String::from_utf8(letter()).unwrap()));
        assert_eq!(mail.attachments, vec![s("a.txt")]);
    }
    assert!(disk.contains(&s("top/boxes/x@h/1700000000123/attachments"), &s("a.txt")));
    assert!(disk.contains(&s("top/boxes/y@h/1700000000123/attachments"), &s("a.txt")));
}

#[test]
fn recipient_of_the_header_is_used_when_none_is_declared() {
    let mut disk = tree();
    let mut session = Session::new(s("top/boxes"));
    session.data_start(&Vec::new());
    session.data(&letter());
    let found = read(&session.buffer);
    let d = session.data_end_at(&mut disk, found, 5);
    assert!(d.accepted);
    assert_eq!(d.events.len(), 1);
    assert_eq!(d.events[0].receiver, "x@h");
    assert!(disk.is_dir(&s("top/boxes/x@h"), &s("5")));
}

#[test]
fn subject_falls_back_to_the_id() {
    let mut disk = tree();
    let mut session = Session::new(s("top/boxes"));
    session.data_start(&vec![s("x@h")]);
    session.data(b"From: a@b\r\n\r\nbody\r\n");
    let found = read(&session.buffer);
    let d = session.data_end_at(&mut disk, found, 77);
    assert!(d.accepted);
    assert_eq!(d.events.len(), 1);
    assert_eq!(d.events[0].obj.subject, "77");
    assert_eq!(d.events[0].obj.id, "77");
}

#[test]
fn transaction_without_recipient_is_refused() {
    let mut disk = tree();
    let mut session = Session::new(s("top/boxes"));
    session.data_start(&Vec::new());
    session.data(b"From: a@b\r\nSubject: hi\r\n\r\nbody\r\n");
    let found = read(&session.buffer);
    let d = session.data_end_at(&mut disk, found, 5);
    assert!(!d.accepted);
    assert!(d.events.is_empty());
    assert_eq!(disk.len(), 1);
    assert!(session.buffer.is_empty());
}

#[test]
fn transaction_that_does_not_parse_is_refused() {
    let mut disk = tree();
    let mut session = Session::new(s("top/boxes"));
    session.data_start(&vec![s("x@h")]);
    let found = read(&session.buffer);
    let d = session.data_end_at(&mut disk, found, 5);
    assert!(!d.accepted);
    assert!(d.events.is_empty());
    assert_eq!(disk.len(), 1);
    assert_eq!(session.addresses, vec![s("x@h")]);
}

#[test]
fn failure_for_one_recipient_keeps_the_others() {
    let mut disk = tree();
    assert!(disk.write(&s("top/boxes"), &s("x@h"), Node::File(vec![])));
    let store = Mailboxes { path: s("top/boxes") };
    let m = parse(&letter()).unwrap();
    let events = deliver(&store, &mut disk, &vec![s("x@h"), s("y@h"), s("y@h")], &s("9"), &m, &s("S"));
    assert_eq!(events.len(), 1);
    assert_eq!(events[0].receiver, "y@h");
    assert!(disk.is_dir(&s("top/boxes/y@h"), &s("9")));
    assert!(!disk.is_dir(&s("top/boxes"), &s("x@h")));
}

#[test]
fn each_stored_message_is_announced_once() {
    let (sender, mut receiver) = tokio::sync::broadcast::channel(16);
    let mut disk = tree();
    let mut session = Session::new(s("top/boxes"));
    session.data_start(&vec![s("x@h"), s("y@h")]);
    session.data(&letter());
    let found = read(&session.buffer);
    let d = session.data_end(&mut disk, found);
    assert!(d.accepted);
    assert_eq!(mail_blackhole::bus::publish(&sender, &d.events), 2);
    let first = receiver.try_recv().unwrap();
    assert_eq!(first.receiver, "x@h");
    let id: u128 = first.obj.id.parse().unwrap();
    assert!(id > 1_600_000_000_000);
    assert!(disk.is_dir(&s("top/boxes/x@h"), &first.obj.id));
    assert!(disk.is_dir(&s("top/boxes/y@h"), &first.obj.id));
    assert_eq!(first.obj.subject, "S");
    assert!(!first.obj.read);
    let second = receiver.try_recv().unwrap();
    assert_eq!(second.receiver, "y@h");
    assert_eq!(second.obj.id, first.obj.id);
    assert!(receiver.try_recv().is_err());
}

#[test]
fn publishing_without_listener_is_no_failure() {
    let (sender, receiver) = tokio::sync::broadcast::channel(16);
    drop(receiver);
    let mut disk = tree();
    let store = Mailboxes { path: s("top/boxes") };
    let m = parse(&letter()).unwrap();
    let events = deliver(&store, &mut disk, &vec![s("x@h")], &s("9"), &m, &s("S"));
    assert_eq!(mail_blackhole::bus::publish(&sender, &events), 1);
    let mut late = sender.subscribe();
    assert!(late.try_recv().is_err());
    assert_eq!(mail_blackhole::bus::publish(&sender, &events), 1);
    assert_eq!(late.try_recv().unwrap().receiver, "x@h");
}

#[test]
fn listener_that_falls_behind_loses_the_oldest() {
    let sender = mail_blackhole::bus::open();
    let mut receiver = sender.subscribe();
    let mut events = Vec::new();
    for i in 0..(mail_blackhole::bus::CAPACITY + 1) {
        events.push(mail_blackhole::QueueItem {
            obj: mail_blackhole::api::MailboxItem { subject: s("S"), id: format!("{}", i), read: false },
            receiver: s("x@h"),
        });
    }
    assert_eq!(mail_blackhole::bus::CAPACITY, 16);
    assert_eq!(mail_blackhole::bus::publish(&sender, &events), 17);
    assert!(matches!(
        receiver.try_recv(),
        Err(tokio::sync::broadcast::error::TryRecvError::Lagged(1))
    ));
    assert_eq!(receiver.try_recv().unwrap().obj.id, "1");
}

#[test]
fn stamp_is_the_time_since_the_epoch_or_zero() {
    assert_eq!(mail_blackhole::clock::stamp(Some(1700000000123)), 1700000000123);
    assert_eq!(mail_blackhole::clock::stamp(Some(0)), 0);
    assert_eq!(mail_blackhole::clock::stamp(None), 0);
    assert!(mail_blackhole::clock::now() > 1_600_000_000_000);
}

#[test]
fn assemble_takes_address_before_text_and_parts_that_have_a_text() {
    let found = Found {
        subject: None,
        from_address: Some(s("a@b")),
        from_text: Some(s("words")),
        to: Some(s("x@h")),
        date: Some(s("d")),
        html: vec![None, Some(s("<p>")), None, Some(s("</p>"))],
        text: vec![None],
        attachments: vec![
            (Some(true), Some(s("a.txt")), vec![1]),
            (Some(false), Some(s("b.txt")), vec![2]),
            (None, None, vec![3]),
        ],
    };
    let m = assemble(found.clone(), vec![7, 8]);
    assert_eq!(m.subject, None);
    assert_eq!(m.from, "a@b");
    assert_eq!(m.to, Some(s("x@h")));
    assert_eq!(m.date, Some(s("d")));
    assert_eq!(m.html, vec![s("<p>"), s("</p>")]);
    assert_eq!(m.text, Vec::<String>::new());
    assert_eq!(m.raw, vec![7, 8]);
    assert_eq!(m.attachments.len(), 3);
    assert!(m.attachments[0].is_attachment);
    assert!(!m.attachments[1].is_attachment);
    assert!(!m.attachments[2].is_attachment);
    assert_eq!(m.attachments[1].name, Some(s("b.txt")));
    assert_eq!(m.attachments[2].name, None);
    assert_eq!(m.attachments[2].contents, vec![3]);
    let textual = Found { from_address: None, ..found.clone() };
    assert_eq!(assemble(textual, vec![]).from, "words");
    let nameless = Found { from_address: None, from_text: None, ..found };
    assert_eq!(assemble(nameless, vec![]).from, "");
}

#[test]
fn transaction_of_which_nothing_is_found_is_refused() {
    let mut disk = tree();
    let mut session = Session::new(s("top/boxes"));
    session.data_start(&vec![s("x@h")]);
    session.data(&letter());
    let d = session.data_end_at(&mut disk, None, 5);
    assert!(!d.accepted);
    assert!(d.events.is_empty());
    assert_eq!(disk.len(), 1);
    assert!(session.buffer.is_empty());
}

#[test]
fn copy_that_lost_a_write_is_not_announced() {
    let mut disk = tree();
    let store = Mailboxes { path: s("top/boxes") };
    let m = parse(&letter()).unwrap();
    let receivers = vec![s("x@h"), s("y@h")];
    let events = deliver(&store, &mut disk, &receivers, &s("9"), &m, &s("S"));
    assert_eq!(events.len(), 2);
    let root = s("top/boxes");
    let all = mail_blackhole::ingest::confirm(&disk, &Vec::new(), &root, &events);
    assert_eq!(all.len(), 2);
    assert_eq!(all[1].receiver, "y@h");
    assert_eq!(all[1].obj.id, "9");
    assert_eq!(all[1].obj.subject, "S");
    assert!(!all[1].obj.read);
    let body = disk.find(&s("top/boxes/y@h/9"), &s("body.raw")).unwrap();
    let kept = mail_blackhole::ingest::confirm(&disk, &vec![body], &root, &events);
    assert_eq!(kept.len(), 1);
    assert_eq!(kept[0].receiver, "x@h");
    let file = disk.find(&s("top/boxes/x@h/9/attachments"), &s("a.txt")).unwrap();
    let mailbox = disk.find(&s("top/boxes"), &s("y@h")).unwrap();
    let none = mail_blackhole::ingest::confirm(&disk, &vec![file, mailbox], &root, &events);
    assert_eq!(none.len(), 0);
    let other = mail_blackhole::ingest::confirm(&disk, &vec![0, 1000], &root, &events);
    assert_eq!(other.len(), 2);
    assert!(mail_blackhole::ingest::is_lost(&disk, &vec![body], &root, &s("y@h"), &s("9")));
    assert!(!mail_blackhole::ingest::is_lost(&disk, &vec![body], &root, &s("y@h"), &s("8")));
}
