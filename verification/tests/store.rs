use mail_blackhole::api::{get_mail, get_mail_at, get_mailbox, get_mailboxes};
use mail_blackhole::disk::{file_node, join, Disk, Metadata, Node};
use mail_blackhole::error::{MailError, MailErrorKind};
use mail_blackhole::mail::{ensure_dir, MailItem, Mailboxes};
use mail_blackhole::mime::{ParsedMessage, Part};

fn s(text: &str) -> String {
    String::from(text)
}

fn tree() -> Disk {
    let mut disk = Disk::new();
    disk.put(&s("top"), &s("boxes"), Node::Dir);
    disk
}

fn store() -> Mailboxes {
    Mailboxes { path: s("top/boxes") }
}

fn message(html: &[&str], text: &[&str], attachments: Vec<Part>) -> ParsedMessage {
    ParsedMessage {
        subject: Some(s("S")),
        from: s("a@b"),
        to: Some(s("x@h")),
        date: None,
        html: html.iter().map(|p| s(p)).collect(),
        text: text.iter().map(|p| s(p)).collect(),
        raw: b"raw bytes".to_vec(),
        attachments,
    }
}

fn part(is_attachment: bool, name: Option<&str>, contents: &[u8]) -> Part {
    Part { is_attachment, name: name.map(s), contents: contents.to_vec() }
}

fn kind_of<T>(r: Result<T, MailError>) -> (MailErrorKind, String) {
    match r {
        Ok(_) => panic!("the call succeeded"),
        Err(e) => (e.kind, e.path),
    }
}

#[test]
fn join_puts_a_slash_between() {
    assert_eq!(join(&s("top/boxes"), &s("x@h")), "top/boxes/x@h");
    assert_eq!(join(&s(""), &s("")), "/");
}

#[test]
fn round_trip_of_a_stored_message() {
    let mut disk = tree();
    let m = message(&["<p>x</p>"], &[], vec![]);
    store().create_message(&mut disk, &s("x@h"), &s("17"), &m, s("S")).unwrap();
    let mail = get_mail_at(&store(), &mut disk, &s("x@h"), &s("17"), 5).unwrap().unwrap();
    assert_eq!(mail.metadata.subject, "S");
    assert_eq!(mail.metadata.from, "a@b");
    assert_eq!(mail.metadata.id, "17");
    assert_eq!(mail.metadata.date, None);
    assert_eq!(mail.html, Some(s("<p>x</p>")));
    assert_eq!(mail.text, None);
    assert_eq!(mail.raw, Some(s("raw bytes")));
    assert_eq!(mail.attachments, Vec::<String>::new());
}

#[test]
fn stored_message_has_the_layout_of_the_tree() {
    let mut disk = tree();
    let m = message(&["<b>", "</b>"], &["one", "two"], vec![]);
    store().create_message(&mut disk, &s("x@h"), &s("17"), &m, s("S")).unwrap();
    let dir = s("top/boxes/x@h/17");
    assert!(matches!(disk.get(&s("top/boxes"), &s("x@h")), Some(Node::Dir)));
    assert!(matches!(disk.get(&s("top/boxes/x@h"), &s("17")), Some(Node::Dir)));
    assert!(matches!(disk.get(&dir, &s("attachments")), Some(Node::Dir)));
    match disk.get(&dir, &s("body.html")) {
        Some(Node::File(b)) => assert_eq!(b.as_slice(), b"<b></b>"),
        _ => panic!("no html body"),
    }
    match disk.get(&dir, &s("body.text")) {
        Some(Node::File(b)) => assert_eq!(b.as_slice(), b"onetwo"),
        _ => panic!("no text body"),
    }
    match disk.get(&dir, &s("body.raw")) {
        Some(Node::File(b)) => assert_eq!(b.as_slice(), b"raw bytes"),
        _ => panic!("no raw body"),
    }
    match disk.get(&dir, &s("metadata.json")) {
        Some(Node::Record(r)) => {
            assert_eq!(r.id, "17");
            assert_eq!(r.subject, "S");
            assert_eq!(r.from, "a@b");
        }
        _ => panic!("no metadata"),
    }
    assert!(disk.get(&dir, &s("read")).is_none());
    assert_eq!(disk.len(), 8);
}

#[test]
fn item_paths_follow_the_layout() {
    let item = MailItem { dir: s("top/boxes/x@h"), name: s("17") };
    assert_eq!(item.id(), "17");
    assert_eq!(item.metadata_path(), "top/boxes/x@h/17/metadata.json");
    assert_eq!(item.raw_path(), "top/boxes/x@h/17/body.raw");
    assert_eq!(item.html_path(), "top/boxes/x@h/17/body.html");
    assert_eq!(item.text_path(), "top/boxes/x@h/17/body.text");
    assert_eq!(item.attachments_path(), "top/boxes/x@h/17/attachments");
}

#[test]
fn new_mailbox_is_made_for_the_first_message() {
    let mut disk = tree();
    assert_eq!(get_mailboxes(&store(), &disk).unwrap(), vec![]);
    let m = message(&["<p>x</p>"], &[], vec![]);
    store().create_message(&mut disk, &s("new@host"), &s("1"), &m, s("S")).unwrap();
    let list = get_mailboxes(&store(), &disk).unwrap();
    assert_eq!(list.len(), 1);
    assert_eq!(list[0].id, "new@host");
    assert_eq!(list[0].unread, 1);
}

#[test]
fn missing_mailbox_is_not_found() {
    let mut disk = tree();
    assert!(store().mailbox(&disk, &s("absent@host")).unwrap().is_none());
    assert_eq!(get_mailbox(&store(), &disk, &s("absent@host")).unwrap(), None);
    assert_eq!(get_mail_at(&store(), &mut disk, &s("absent@host"), &s("1"), 0).unwrap(), None);
    assert_eq!(disk.len(), 1);
}

#[test]
fn missing_message_is_not_found() {
    let mut disk = tree();
    let m = message(&[], &["t"], vec![]);
    store().create_message(&mut disk, &s("x@h"), &s("1"), &m, s("S")).unwrap();
    let before = disk.len();
    assert_eq!(get_mail_at(&store(), &mut disk, &s("x@h"), &s("2"), 0).unwrap(), None);
    assert_eq!(disk.len(), before);
    let mailbox = store().mailbox(&disk, &s("x@h")).unwrap().unwrap();
    assert!(mailbox.mail(&disk, &s("2")).unwrap().is_none());
    assert!(mailbox.mail(&disk, &s("1")).unwrap().is_some());
}

#[test]
fn file_in_the_collection_is_no_mailbox() {
    let mut disk = tree();
    assert!(disk.write(&s("top/boxes"), &s("notes.txt"), Node::File(vec![1])));
    assert!(ensure_dir(&mut disk, &s("top/boxes"), &s("x@h")));
    assert_eq!(store().mailboxes(&disk).unwrap().len(), 1);
    assert!(store().mailbox(&disk, &s("notes.txt")).unwrap().is_none());
    let list = get_mailboxes(&store(), &disk).unwrap();
    assert_eq!(list.len(), 1);
    assert_eq!(list[0].id, "x@h");
    assert_eq!(list[0].unread, 0);
}

#[test]
fn file_with_the_mailbox_name_fails_the_storing() {
    let mut disk = tree();
    assert!(disk.write(&s("top/boxes"), &s("x@h"), Node::File(vec![])));
    assert!(!ensure_dir(&mut disk, &s("top/boxes"), &s("x@h")));
    let m = message(&[], &[], vec![]);
    let r = store().create_message(&mut disk, &s("x@h"), &s("1"), &m, s("S"));
    assert_eq!(kind_of(r), (MailErrorKind::FileExists, s("top/boxes/x@h")));
    assert_eq!(disk.len(), 2);
}

#[test]
fn second_message_with_the_same_id_fails() {
    let mut disk = tree();
    let m = message(&["a"], &[], vec![]);
    store().create_message(&mut disk, &s("x@h"), &s("1"), &m, s("S")).unwrap();
    let before = disk.len();
    let r = store().create_message(&mut disk, &s("x@h"), &s("1"), &m, s("other"));
    assert_eq!(kind_of(r), (MailErrorKind::DirCreate, s("top/boxes/x@h/1")));
    assert_eq!(disk.len(), before);
    let mail = get_mail_at(&store(), &mut disk, &s("x@h"), &s("1"), 0).unwrap().unwrap();
    assert_eq!(mail.metadata.subject, "S");
}

#[test]
fn directory_in_place_of_a_body_fails_the_storing() {
    let mut disk = tree();
    assert!(disk.create_dir(&s("top/boxes/x@h/1"), &s("body.text")));
    let m = message(&["a"], &["b"], vec![]);
    let r = store().create_message(&mut disk, &s("x@h"), &s("1"), &m, s("S"));
    assert_eq!(kind_of(r), (MailErrorKind::FileOpen, s("top/boxes/x@h/1/body.text")));
    assert!(disk.contains(&s("top/boxes/x@h/1"), &s("body.html")));
    assert!(!disk.contains(&s("top/boxes/x@h/1"), &s("body.raw")));
}

#[test]
fn attachments_are_stored_by_name() {
    let mut disk = tree();
    let parts = vec![
        part(true, Some("a.txt"), b"first"),
        part(false, Some("inline.png"), b"no"),
        part(true, None, b"no"),
        part(true, Some(""), b"no"),
        part(true, Some("b.bin"), &[0, 255]),
        part(true, Some("a.txt"), b"second"),
    ];
    let m = message(&[], &["t"], parts);
    store().create_message(&mut disk, &s("x@h"), &s("1"), &m, s("S")).unwrap();
    let mail = get_mail_at(&store(), &mut disk, &s("x@h"), &s("1"), 0).unwrap().unwrap();
    assert_eq!(mail.attachments, vec![s("a.txt"), s("b.bin")]);
    let item = store().mailbox(&disk, &s("x@h")).unwrap().unwrap().mail(&disk, &s("1")).unwrap().unwrap();
    let files = item.attachments(&disk).unwrap();
    assert_eq!(files.len(), 2);
    assert_eq!(files[0].id(), "a.txt");
    assert_eq!(files[0].data(&disk).unwrap(), b"second".to_vec());
    assert_eq!(files[1].id(), "b.bin");
    assert_eq!(files[1].data(&disk).unwrap(), vec![0, 255]);
    assert_eq!(files[0].dir, "top/boxes/x@h/1/attachments");
}

#[test]
fn unread_counts_the_messages_without_marker() {
    let mut disk = tree();
    let m = message(&["a"], &[], vec![]);
    for id in ["1", "2", "3"] {
        store().create_message(&mut disk, &s("x@h"), &s(id), &m, s("S")).unwrap();
    }
    let mailbox = store().mailbox(&disk, &s("x@h")).unwrap().unwrap();
    assert_eq!(mailbox.id(), "x@h");
    assert_eq!(mailbox.unread(&disk).unwrap(), 3);
    get_mail_at(&store(), &mut disk, &s("x@h"), &s("2"), 9).unwrap().unwrap();
    assert_eq!(mailbox.unread(&disk).unwrap(), 2);
    let list = get_mailbox(&store(), &disk, &s("x@h")).unwrap().unwrap();
    let unread = list.iter().filter(|i| !i.read).count();
    assert_eq!(unread, 2);
    assert_eq!(get_mailboxes(&store(), &disk).unwrap()[0].unread, 2);
}

#[test]
fn marking_read_twice_is_marking_once() {
    let mut disk = tree();
    let m = message(&["a"], &[], vec![]);
    store().create_message(&mut disk, &s("x@h"), &s("1"), &m, s("S")).unwrap();
    let item = MailItem { dir: s("top/boxes/x@h"), name: s("1") };
    assert!(!item.read(&disk).unwrap());
    item.set_read_at(&mut disk, 1700000000123).unwrap();
    assert!(item.read(&disk).unwrap());
    let nodes = disk.len();
    match disk.get(&s("top/boxes/x@h/1"), &s("read")) {
        Some(Node::File(b)) => assert_eq!(b.as_slice(), b"1700000000123"),
        _ => panic!("no marker"),
    }
    item.set_read_at(&mut disk, 1700000000999).unwrap();
    assert!(item.read(&disk).unwrap());
    assert_eq!(disk.len(), nodes);
    assert_eq!(item.metadata(&disk).unwrap().subject, "S");
}

#[test]
fn fetching_marks_as_read_once() {
    let mut disk = tree();
    let m = message(&["a"], &[], vec![]);
    store().create_message(&mut disk, &s("x@h"), &s("1"), &m, s("S")).unwrap();
    get_mail_at(&store(), &mut disk, &s("x@h"), &s("1"), 41).unwrap().unwrap();
    get_mail_at(&store(), &mut disk, &s("x@h"), &s("1"), 42).unwrap().unwrap();
    match disk.get(&s("top/boxes/x@h/1"), &s("read")) {
        Some(Node::File(b)) => assert_eq!(b.as_slice(), b"41"),
        _ => panic!("no marker"),
    }
}

#[test]
fn directory_in_place_of_the_marker_fails_the_marking() {
    let mut disk = tree();
    assert!(disk.create_dir(&s("top/boxes/x@h/1"), &s("read")));
    let item = MailItem { dir: s("top/boxes/x@h"), name: s("1") };
    let r = item.set_read_at(&mut disk, 1);
    assert_eq!(kind_of(r), (MailErrorKind::FileOpen, s("top/boxes/x@h/1/read")));
}

#[test]
fn lists_are_in_the_order_of_the_ids() {
    let mut disk = tree();
    let m = message(&["a"], &[], vec![]);
    for mailbox in ["m@h", "a@h", "z@h", "b@h"] {
        for id in ["20", "100", "3"] {
            store().create_message(&mut disk, &s(mailbox), &s(id), &m, s(id)).unwrap();
        }
    }
    let boxes: Vec<String> = get_mailboxes(&store(), &disk).unwrap().into_iter().map(|b| b.id).collect();
    assert_eq!(boxes, vec![s("a@h"), s("b@h"), s("m@h"), s("z@h")]);
    let items = get_mailbox(&store(), &disk, &s("m@h")).unwrap().unwrap();
    let ids: Vec<String> = items.iter().map(|i| i.id.clone()).collect();
    assert_eq!(ids, vec![s("3"), s("20"), s("100")]);
    assert_eq!(items[1].subject, "20");
    assert!(!items[1].read);
}

#[test]
fn listing_fails_on_a_message_without_metadata() {
    let mut disk = tree();
    assert!(ensure_dir(&mut disk, &s("top/boxes"), &s("x@h")));
    assert!(disk.create_dir(&s("top/boxes/x@h"), &s("1")));
    let r = get_mailbox(&store(), &disk, &s("x@h"));
    assert_eq!(kind_of(r), (MailErrorKind::FileOpen, s("top/boxes/x@h/1/metadata.json")));
    assert!(disk.write(&s("top/boxes/x@h/1"), &s("metadata.json"), Node::File(b"{".to_vec())));
    let r = get_mailbox(&store(), &disk, &s("x@h"));
    assert_eq!(kind_of(r), (MailErrorKind::SerdeRead, s("top/boxes/x@h/1/metadata.json")));
    let record = Metadata { id: s("1"), subject: s("hi"), from: s("a@b"), date: Some(s("d")) };
    assert!(disk.write(&s("top/boxes/x@h/1"), &s("metadata.json"), Node::Record(record)));
    let list = get_mailbox(&store(), &disk, &s("x@h")).unwrap().unwrap();
    assert_eq!(list.len(), 1);
    assert_eq!(list[0].subject, "hi");
}

#[test]
fn fetching_reports_the_first_part_that_fails() {
    let mut disk = tree();
    assert!(ensure_dir(&mut disk, &s("top/boxes"), &s("x@h")));
    assert!(disk.create_dir(&s("top/boxes/x@h"), &s("1")));
    let dir = s("top/boxes/x@h/1");
    let r = get_mail_at(&store(), &mut disk, &s("x@h"), &s("1"), 0);
    assert_eq!(kind_of(r), (MailErrorKind::FileOpen, s("top/boxes/x@h/1/body.raw")));
    assert!(disk.write(&dir, &s("body.raw"), Node::File(vec![0xff])));
    let r = get_mail_at(&store(), &mut disk, &s("x@h"), &s("1"), 0);
    assert_eq!(kind_of(r), (MailErrorKind::DirRead, s("top/boxes/x@h/1/attachments")));
    assert!(disk.create_dir(&dir, &s("attachments")));
    let r = get_mail_at(&store(), &mut disk, &s("x@h"), &s("1"), 0);
    assert_eq!(kind_of(r), (MailErrorKind::FileOpen, s("top/boxes/x@h/1/metadata.json")));
    let record = Metadata { id: s("1"), subject: s("hi"), from: s("a@b"), date: None };
    assert!(disk.write(&dir, &s("metadata.json"), Node::Record(record)));
    let mail = get_mail_at(&store(), &mut disk, &s("x@h"), &s("1"), 0).unwrap().unwrap();
    assert_eq!(mail.raw, None);
    assert_eq!(mail.html, None);
    assert!(disk.write(&dir, &s("body.html"), Node::File(vec![0xc3])));
    let r = get_mail_at(&store(), &mut disk, &s("x@h"), &s("1"), 0);
    assert_eq!(kind_of(r), (MailErrorKind::FileRead, s("top/boxes/x@h/1/body.html")));
    assert!(disk.write(&dir, &s("body.html"), Node::File(vec![0xc3, 0xa9])));
    let mail = get_mail_at(&store(), &mut disk, &s("x@h"), &s("1"), 0).unwrap().unwrap();
    assert_eq!(mail.html, Some(s("\u{e9}")));
}

#[test]
fn has_html_and_has_text_tell_whether_the_files_are_there() {
    let mut disk = tree();
    let item = MailItem { dir: s("top/boxes/x@h"), name: s("1") };
    assert!(!item.has_html(&disk).unwrap());
    assert!(!item.has_text(&disk).unwrap());
    assert!(disk.write(&s("top/boxes/x@h/1"), &s("body.html"), Node::File(vec![])));
    assert!(item.has_html(&disk).unwrap());
    assert!(!item.has_text(&disk).unwrap());
    assert_eq!(item.html(&disk).unwrap(), None);
    assert_eq!(kind_of(item.raw(&disk)).0, MailErrorKind::FileOpen);
}

#[test]
fn mails_of_a_missing_mailbox_fail() {
    let disk = tree();
    let mailbox = mail_blackhole::mail::Mailbox { dir: s("top/boxes"), name: s("x@h") };
    assert_eq!(kind_of(mailbox.mails(&disk)), (MailErrorKind::DirRead, s("top/boxes/x@h")));
    assert_eq!(kind_of(mailbox.unread(&disk)), (MailErrorKind::DirRead, s("top/boxes/x@h")));
}

#[test]
fn tree_keeps_one_node_for_each_name() {
    let mut disk = tree();
    assert!(disk.create_dir(&s("a"), &s("b")));
    assert!(!disk.create_dir(&s("a"), &s("b")));
    assert!(!disk.write(&s("a"), &s("b"), Node::File(vec![1])));
    assert!(disk.write(&s("a"), &s("c"), Node::File(vec![1])));
    assert!(disk.write(&s("a"), &s("c"), Node::File(vec![2])));
    assert_eq!(disk.len(), 3);
    assert_eq!(disk.find(&s("a"), &s("c")), Some(2));
    assert_eq!(disk.find(&s("a"), &s("d")), None);
    assert_eq!(disk.entry(2).name, "c");
    assert!(disk.is_dir(&s("a"), &s("b")));
    assert!(!disk.is_dir(&s("a"), &s("c")));
    assert_eq!(disk.names(&s("a"), true), vec![s("b")]);
    assert_eq!(disk.names(&s("a"), false), vec![s("c")]);
    assert_eq!(disk.names(&s("b"), false), Vec::<String>::new());
    disk.put(&s("a"), &s("b"), Node::File(vec![]));
    assert_eq!(disk.names(&s("a"), false), vec![s("b"), s("c")]);
}

#[test]
fn failures_are_reported_with_kind_and_path() {
    let e = MailError::new(MailErrorKind::FileOpen, s("top/boxes/x@h/1/body.raw"));
    assert_eq!(e.message(), "FileOpen[top/boxes/x@h/1/body.raw]");
    assert_eq!(MailError::new(MailErrorKind::DirCreate, s("")).message(), "DirCreate[]");
    assert_eq!(MailError::new(MailErrorKind::SerdeRead, s("p")).message(), "SerdeRead[p]");
    assert_eq!(e.io_error(), Some(MailErrorKind::FileOpen));
    assert_eq!(MailError::new(MailErrorKind::DirRead, s("p")).io_error(), Some(MailErrorKind::DirRead));
    assert_eq!(MailError::new(MailErrorKind::FileWrite, s("p")).io_error(), Some(MailErrorKind::FileWrite));
    assert_eq!(MailError::new(MailErrorKind::FileMetadata, s("p")).io_error(), Some(MailErrorKind::FileMetadata));
    assert_eq!(MailError::new(MailErrorKind::FileExists, s("p")).io_error(), Some(MailErrorKind::FileExists));
    assert_eq!(MailError::new(MailErrorKind::FileRead, s("p")).io_error(), Some(MailErrorKind::FileRead));
    assert_eq!(MailError::new(MailErrorKind::SerdeRead, s("p")).io_error(), None);
    assert_eq!(MailError::new(MailErrorKind::SerdeWrite, s("p")).io_error(), None);
}

#[test]
fn relative_strips_the_path_of_the_attachment() {
    let a = mail_blackhole::mail::Attachment { dir: s("top/boxes/x@h/1/attachments"), name: s("a.txt") };
    assert_eq!(a.relative(&s("top/boxes/x@h/1/attachments/a.txt")), Some(s("")));
    assert_eq!(a.relative(&s("top/boxes/x@h/1/attachments/a.txt/more/here")), Some(s("more/here")));
    assert_eq!(a.relative(&s("top/boxes/x@h/1/attachments/a.txt/")), Some(s("")));
    assert_eq!(a.relative(&s("top/boxes/x@h/1/attachments/a.txtx")), None);
    assert_eq!(a.relative(&s("top/boxes/x@h/1/attachments/b.txt")), None);
    assert_eq!(a.relative(&s("top/boxes")), None);
}

#[test]
fn file_node_tells_records_from_bytes() {
    let record = Metadata { id: s("1"), subject: s("hi"), from: s("a@b"), date: None };
    assert!(matches!(file_node(&s("metadata.json"), vec![1], Some(record.clone())), Node::Record(_)));
    assert!(matches!(file_node(&s("metadata.json"), vec![1], None), Node::File(_)));
    assert!(matches!(file_node(&s("body.raw"), vec![1], Some(record)), Node::File(_)));
}

#[test]
fn fetching_by_the_clock_marks_as_read() {
    let mut disk = tree();
    let m = message(&["a"], &[], vec![]);
    store().create_message(&mut disk, &s("x@h"), &s("1"), &m, s("S")).unwrap();
    let mail = get_mail(&store(), &mut disk, &s("x@h"), &s("1")).unwrap().unwrap();
    assert_eq!(mail.html, Some(s("a")));
    let item = MailItem { dir: s("top/boxes/x@h"), name: s("1") };
    assert!(item.read(&disk).unwrap());
    match disk.get(&s("top/boxes/x@h/1"), &s("read")) {
        Some(Node::File(b)) => {
            let stamp: u128 = String::from_utf8(b.clone()).unwrap().parse().unwrap();
            assert!(stamp > 1_600_000_000_000);
            assert!(stamp <= mail_blackhole::clock::now());
        }
        _ => panic!("no marker"),
    }
    let other = MailItem { dir: s("top/boxes/x@h"), name: s("2") };
    assert!(disk.create_dir(&s("top/boxes/x@h"), &s("2")));
    other.set_read(&mut disk).unwrap();
    assert!(other.read(&disk).unwrap());
}

#[test]
fn collection_that_is_a_file_cannot_be_listed() {
    let mut disk = tree();
    assert!(disk.write(&s("a"), &s("b"), Node::File(vec![1])));
    let store = Mailboxes { path: s("a/b") };
    assert!(disk.is_blocked(&s("a/b")));
    assert!(!disk.is_blocked(&s("a")));
    assert_eq!(kind_of(store.mailboxes(&disk)), (MailErrorKind::DirRead, s("a/b")));
    assert_eq!(kind_of(get_mailboxes(&store, &disk)), (MailErrorKind::DirRead, s("a/b")));
    disk.put(&s("a"), &s("b"), Node::Dir);
    assert!(!disk.is_blocked(&s("a/b")));
    assert_eq!(store.mailboxes(&disk).unwrap().len(), 0);
    assert_eq!(get_mailboxes(&store, &disk).unwrap(), vec![]);
}

#[test]
fn message_without_directory_cannot_be_written_or_marked() {
    let mut disk = tree();
    let item = MailItem { dir: s("top/boxes/x@h"), name: s("1") };
    let r = item.set_read_at(&mut disk, 1);
    assert_eq!(kind_of(r), (MailErrorKind::FileOpen, s("top/boxes/x@h/1/read")));
    let m = message(&["a"], &[], vec![]);
    let r = MailItem::new(&mut disk, s("top/boxes/x@h"), s("1"), &m, s("S"));
    assert_eq!(kind_of(r), (MailErrorKind::FileOpen, s("top/boxes/x@h/1/metadata.json")));
    assert_eq!(disk.len(), 1);
    assert!(disk.write(&s("top/boxes/x@h"), &s("1"), Node::File(vec![])));
    let r = item.set_read_at(&mut disk, 1);
    assert_eq!(kind_of(r), (MailErrorKind::FileOpen, s("top/boxes/x@h/1/read")));
    disk.put(&s("top/boxes/x@h"), &s("1"), Node::Dir);
    MailItem::new(&mut disk, s("top/boxes/x@h"), s("1"), &m, s("S")).unwrap();
    item.set_read_at(&mut disk, 1).unwrap();
    assert!(item.read(&disk).unwrap());
}

#[test]
fn changes_are_the_nodes_that_are_new_or_differ() {
    let mut before = tree();
    assert!(before.create_dir(&s("top/boxes"), &s("x@h")));
    assert!(before.write(&s("top/boxes/x@h"), &s("note"), Node::File(vec![1])));
    let mut after = before.clone();
    assert_eq!(mail_blackhole::disk::changes(&before, &after), Vec::<usize>::new());
    let m = message(&["a"], &[], vec![]);
    store().create_message(&mut after, &s("x@h"), &s("1"), &m, s("S")).unwrap();
    assert!(after.write(&s("top/boxes/x@h"), &s("note"), Node::File(vec![2])));
    assert_eq!(mail_blackhole::disk::changes(&before, &after), vec![2, 3, 4, 5, 6, 7, 8]);
    assert_eq!(mail_blackhole::disk::changes(&after, &after), Vec::<usize>::new());
    assert_eq!(mail_blackhole::disk::changes(&after, &before), vec![2]);
    let record = Metadata { id: s("1"), subject: s("S"), from: s("a@b"), date: None };
    let other = Metadata { id: s("1"), subject: s("S"), from: s("a@b"), date: Some(s("d")) };
    assert!(mail_blackhole::disk::same_node(&Node::Record(record.clone()), &Node::Record(record.clone())));
    assert!(!mail_blackhole::disk::same_node(&Node::Record(record), &Node::Record(other)));
    assert!(!mail_blackhole::disk::same_node(&Node::Dir, &Node::File(vec![])));
    assert!(mail_blackhole::disk::same_node(&Node::File(vec![1, 2]), &Node::File(vec![1, 2])));
    assert!(!mail_blackhole::disk::same_node(&Node::File(vec![1, 2]), &Node::File(vec![1, 3])));
}

#[test]
fn collection_that_is_a_file_takes_no_message() {
    let mut disk = tree();
    assert!(disk.write(&s("a"), &s("b"), Node::File(vec![1])));
    let store = Mailboxes { path: s("a/b") };
    let m = message(&["a"], &[], vec![]);
    let r = store.create_message(&mut disk, &s("x@h"), &s("1"), &m, s("S"));
    assert_eq!(kind_of(r), (MailErrorKind::DirCreate, s("a/b/x@h")));
    assert_eq!(disk.len(), 2);
}

#[test]
fn collection_that_is_not_there_cannot_be_listed() {
    let mut disk = Disk::new();
    assert!(!disk.is_rooted(&s("top/boxes")));
    assert!(!disk.is_listable(&s("top/boxes")));
    assert_eq!(kind_of(store().mailboxes(&disk)), (MailErrorKind::DirRead, s("top/boxes")));
    assert_eq!(kind_of(get_mailboxes(&store(), &disk)), (MailErrorKind::DirRead, s("top/boxes")));
    let m = message(&["a"], &[], vec![]);
    let r = store().create_message(&mut disk, &s("x@h"), &s("1"), &m, s("S"));
    assert_eq!(kind_of(r), (MailErrorKind::DirCreate, s("top/boxes/x@h")));
    assert_eq!(disk.len(), 0);
    disk.put(&s("top"), &s("boxes"), Node::Dir);
    assert!(disk.is_listable(&s("top/boxes")));
    assert_eq!(store().mailboxes(&disk).unwrap().len(), 0);
    store().create_message(&mut disk, &s("x@h"), &s("1"), &m, s("S")).unwrap();
    assert_eq!(get_mailboxes(&store(), &disk).unwrap().len(), 1);
}
