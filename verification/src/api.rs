//! What the viewer asks of the mail store.

use crate::disk::{
    at, is_dir_node, join_spec, lemma_lookup_at, listable, lookup, names_of, opt_str_view,
    present, strs, unique, write_spec, Disk, EntryView, MetadataView, NodeView,
};
use crate::error::{MailError, MailErrorKind};
use crate::mail::{body_text, dirs_in, fails, unread_of, utf8_text, Mailboxes};
use crate::clock::now;
use crate::text::{decimal_spec, le, text_le};
use vstd::prelude::*;
use vstd::utf8::*;

verus! {

/// A mailbox in the list of mailboxes.
#[derive(Debug, Clone, PartialEq, Eq)]
pub struct Mailbox {
    pub id: String,
    pub unread: i64,
}

/// A message in the list of a mailbox.
#[derive(Debug, Clone, PartialEq, Eq)]
pub struct MailboxItem {
    pub subject: String,
    pub id: String,
    pub read: bool,
}

/// The descriptive record of a message.
#[derive(Debug, Clone, PartialEq, Eq)]
pub struct Metadata {
    pub id: String,
    pub subject: String,
    pub from: String,
    pub date: Option<String>,
}

/// One message in full.
#[derive(Debug, Clone, PartialEq, Eq)]
pub struct Mail {
    pub html: Option<String>,
    pub text: Option<String>,
    pub raw: Option<String>,
    pub attachments: Vec<String>,
    pub metadata: Metadata,
}

pub struct MailboxView {
    pub id: Seq<char>,
    pub unread: int,
}

impl View for Mailbox {
    type V = MailboxView;

    open spec fn view(&self) -> MailboxView {
        MailboxView { id: self.id@, unread: self.unread as int }
    }
}

pub struct ItemView {
    pub subject: Seq<char>,
    pub id: Seq<char>,
    pub read: bool,
}

impl View for MailboxItem {
    type V = ItemView;

    open spec fn view(&self) -> ItemView {
        ItemView { subject: self.subject@, id: self.id@, read: self.read }
    }
}

impl View for Metadata {
    type V = MetadataView;

    open spec fn view(&self) -> MetadataView {
        MetadataView {
            id: self.id@,
            subject: self.subject@,
            from: self.from@,
            date: opt_str_view(self.date),
        }
    }
}

pub struct MailView {
    pub html: Option<Seq<char>>,
    pub text: Option<Seq<char>>,
    pub raw: Option<Seq<char>>,
    pub attachments: Seq<Seq<char>>,
    pub metadata: MetadataView,
}

impl View for Mail {
    type V = MailView;

    open spec fn view(&self) -> MailView {
        MailView {
            html: opt_str_view(self.html),
            text: opt_str_view(self.text),
            raw: opt_str_view(self.raw),
            attachments: strs(self.attachments@),
            metadata: self.metadata@,
        }
    }
}

/// The plain values of a list of mailboxes.
pub open spec fn box_views(v: Seq<Mailbox>) -> Seq<MailboxView> {
    v.map_values(|b: Mailbox| b@)
}

/// The plain values of a list of messages.
pub open spec fn item_views(v: Seq<MailboxItem>) -> Seq<ItemView> {
    v.map_values(|b: MailboxItem| b@)
}

/// Each mailbox comes before the next one in the order of their ids.
pub open spec fn ascending(v: Seq<MailboxView>) -> bool {
    forall|i: int| 0 <= i < v.len() - 1 ==> text_le((#[trigger] v[i]).id, v[i + 1].id)
}

/// Each message comes after the next one in the order of their ids.
pub open spec fn descending(v: Seq<ItemView>) -> bool {
    forall|i: int| 0 <= i < v.len() - 1 ==> text_le(v[i + 1].id, (#[trigger] v[i]).id)
}

/// A list with one more element holds that element once more, and the rest
/// as before.
pub proof fn lemma_insert_multiset<A>(s: Seq<A>, p: int, x: A)
    requires
        0 <= p <= s.len(),
    ensures
        s.insert(p, x).to_multiset() == s.to_multiset().insert(x),
{
    broadcast use vstd::seq_lib::group_to_multiset_ensures;

    let t = s.insert(p, x);
    assert(t.remove(p) =~= s);
    assert(t[p] == x);
    assert(t.contains(x));
    assert(t.to_multiset() =~= s.to_multiset().insert(x));
}

/// Puts `x` into the list where the order of the ids asks for it.
pub fn insert_box(v: &mut Vec<Mailbox>, x: Mailbox) -> (p: usize)
    requires
        ascending(box_views(old(v)@)),
    ensures
        ascending(box_views(final(v)@)),
        p <= old(v)@.len(),
        final(v)@ == old(v)@.insert(p as int, x),
{
    let mut p: usize = 0;
    let mut done = false;
    while p < v.len() && !done
        invariant
            p <= v.len(),
            *v == *old(v),
            forall|j: int| 0 <= j < p ==> text_le(v@[j].id@, x.id@),
            done ==> p < v.len() && text_le(x.id@, v@[p as int].id@),
        decreases v.len() - p + if done { 0int } else { 1int },
    {
        if le(&v[p].id, &x.id) {
            p += 1;
        } else {
            done = true;
        }
    }
    let ghost before = box_views(v@);
    v.insert(p, x);
    proof {
        let after = box_views(v@);
        assert(after =~= before.insert(p as int, x@));
        assert forall|i: int| 0 <= i < after.len() - 1 implies text_le(
            (#[trigger] after[i]).id,
            after[i + 1].id,
        ) by {
            if i + 1 < p {
                assert(text_le(before[i].id, before[i + 1].id));
            } else if i + 1 == p {
                assert(text_le(before[i].id, x.id@));
            } else if i == p {
            } else {
                assert(text_le(before[i - 1].id, before[i].id));
            }
        }
    }
    p
}

/// Puts `x` into the list where the order of the ids, largest first, asks
/// for it.
pub fn insert_item(v: &mut Vec<MailboxItem>, x: MailboxItem) -> (p: usize)
    requires
        descending(item_views(old(v)@)),
    ensures
        descending(item_views(final(v)@)),
        p <= old(v)@.len(),
        final(v)@ == old(v)@.insert(p as int, x),
{
    let mut p: usize = 0;
    let mut done = false;
    while p < v.len() && !done
        invariant
            p <= v.len(),
            *v == *old(v),
            forall|j: int| 0 <= j < p ==> text_le(x.id@, v@[j].id@),
            done ==> p < v.len() && text_le(v@[p as int].id@, x.id@),
        decreases v.len() - p + if done { 0int } else { 1int },
    {
        if le(&x.id, &v[p].id) {
            p += 1;
        } else {
            done = true;
        }
    }
    let ghost before = item_views(v@);
    v.insert(p, x);
    proof {
        let after = item_views(v@);
        assert(after =~= before.insert(p as int, x@));
        assert forall|i: int| 0 <= i < after.len() - 1 implies text_le(
            after[i + 1].id,
            (#[trigger] after[i]).id,
        ) by {
            if i + 1 < p {
                assert(text_le(before[i + 1].id, before[i].id));
            } else if i + 1 == p {
                assert(text_le(x.id@, before[i].id));
            } else if i == p {
            } else {
                assert(text_le(before[i].id, before[i - 1].id));
            }
        }
    }
    p
}

/// A name that the listing of `dir` gives is the name of a node of `dir`,
/// a directory where directories were asked for.
pub proof fn lemma_named_is_there(es: Seq<EntryView>, dir: Seq<char>, dirs: bool, k: int)
    requires
        unique(es),
        0 <= k < names_of(es, dir, dirs).len(),
    ensures
        lookup(es, dir, names_of(es, dir, dirs)[k]) is Some,
        is_dir_node(lookup(es, dir, names_of(es, dir, dirs)[k]).unwrap()) == dirs,
    decreases es.len(),
{
    let name = names_of(es, dir, dirs)[k];
    let rest = es.drop_last();
    if k < names_of(rest, dir, dirs).len() {
        assert forall|i: int, j: int| 0 <= i < j < rest.len() implies !at(
            rest,
            j,
            rest[i].dir,
            rest[i].name,
        ) by {
            assert(!at(es, j, es[i].dir, es[i].name));
        }
        lemma_named_is_there(rest, dir, dirs, k);
        let i = choose|i: int| at(rest, i, dir, name);
        assert(at(rest, i, dir, name));
        lemma_lookup_at(rest, i, dir, name);
        assert(at(es, i, dir, name));
        lemma_lookup_at(es, i, dir, name);
    } else {
        let i = es.len() - 1;
        assert(at(es, i, dir, name));
        lemma_lookup_at(es, i, dir, name);
    }
}

/// The number of unread messages as the list of mailboxes shows it.
pub open spec fn shown(n: nat) -> int {
    if n <= i64::MAX {
        n as int
    } else {
        i64::MAX as int
    }
}

/// The mailbox `name` of the collection at `root` as the list shows it.
pub open spec fn box_of(es: Seq<EntryView>, root: Seq<char>, name: Seq<char>) -> MailboxView {
    let path = join_spec(root, name);
    MailboxView { id: name, unread: shown(unread_of(es, path, dirs_in(es, path))) }
}

/// The mailboxes `names` of the collection at `root` as the list shows them.
pub open spec fn boxes_of(es: Seq<EntryView>, root: Seq<char>, names: Seq<Seq<char>>) -> Seq<
    MailboxView,
> {
    names.map_values(|n: Seq<char>| box_of(es, root, n))
}

/// The list of mailboxes: every mailbox once, with the number of its unread
/// messages, in the order of the ids. Fails with `DirRead` where the
/// collection cannot be listed: where no directory of the tree has its path,
/// or a node that is no directory has it.
pub fn get_mailboxes(store: &Mailboxes, disk: &Disk) -> (r: Result<Vec<Mailbox>, MailError>)
    requires
        disk.wf(),
    ensures
        match r {
            Ok(v) => listable(disk@, store.path@) && ascending(box_views(v@)) && box_views(
                v@,
            ).to_multiset() == boxes_of(
                disk@,
                store.path@,
                dirs_in(disk@, store.path@),
            ).to_multiset(),
            Err(e) => !listable(disk@, store.path@) && e.kind == MailErrorKind::DirRead && e.path@
                == store.path@,
        },
{
    broadcast use vstd::seq_lib::group_to_multiset_ensures;

    let found = match store.mailboxes(disk) {
        Ok(v) => v,
        Err(e) => {
            return Err(e);
        },
    };
    let ghost names = dirs_in(disk@, store.path@);
    let ghost all = boxes_of(disk@, store.path@, names);
    let mut out: Vec<Mailbox> = Vec::new();
    let mut i: usize = 0;
    assert(all.take(0) =~= Seq::<MailboxView>::empty());
    assert(box_views(out@) =~= Seq::<MailboxView>::empty());
    while i < found.len()
        invariant
            i <= found.len(),
            disk.wf(),
            names == dirs_in(disk@, store.path@),
            all == boxes_of(disk@, store.path@, names),
            found@.len() == names.len(),
            forall|k: int|
                0 <= k < found@.len() ==> (#[trigger] found@[k]).dir@ == store.path@
                    && found@[k].name@ == names[k],
            ascending(box_views(out@)),
            box_views(out@).to_multiset() == all.take(i as int).to_multiset(),
        decreases found.len() - i,
    {
        let m = &found[i];
        proof {
            lemma_named_is_there(disk@, store.path@, true, i as int);
        }
        let unread = match m.unread(disk) {
            Ok(n) => n,
            Err(e) => {
                return Err(e);
            },
        };
        let x = Mailbox { id: m.id(), unread };
        assert(x@ == all[i as int]);
        let ghost before = box_views(out@);
        let p = insert_box(&mut out, x);
        proof {
            assert(box_views(out@) =~= before.insert(p as int, x@));
            lemma_insert_multiset(before, p as int, x@);
            assert(all.take(i + 1) =~= all.take(i as int).push(all[i as int]));
            vstd::seq_lib::to_multiset_build(all.take(i as int), all[i as int]);
        }
        i += 1;
    }
    assert(all.take(i as int) =~= all);
    Ok(out)
}

/// Why the metadata of the message at `path` cannot be read, if it cannot.
pub open spec fn metadata_error(es: Seq<EntryView>, path: Seq<char>) -> Option<
    (MailErrorKind, Seq<char>),
> {
    match lookup(es, path, "metadata.json"@) {
        None => Some((MailErrorKind::FileOpen, join_spec(path, "metadata.json"@))),
        Some(NodeView::Record(_)) => None,
        Some(_) => Some((MailErrorKind::SerdeRead, join_spec(path, "metadata.json"@))),
    }
}

/// The first failure among the first `n` messages `ids` of the mailbox at
/// `path`, if the metadata of one of them cannot be read.
pub open spec fn listing_error(es: Seq<EntryView>, path: Seq<char>, ids: Seq<Seq<char>>, n: int)
    -> Option<(MailErrorKind, Seq<char>)>
    decreases n,
{
    if n <= 0 {
        None
    } else {
        match listing_error(es, path, ids, n - 1) {
            Some(e) => Some(e),
            None => metadata_error(es, join_spec(path, ids[n - 1])),
        }
    }
}

/// After the first failure the list has failed for good.
pub proof fn lemma_listing_error_stays(
    es: Seq<EntryView>,
    path: Seq<char>,
    ids: Seq<Seq<char>>,
    i: int,
    n: int,
)
    requires
        0 <= i <= n,
        listing_error(es, path, ids, i) is Some,
    ensures
        listing_error(es, path, ids, n) == listing_error(es, path, ids, i),
    decreases n,
{
    if i < n {
        lemma_listing_error_stays(es, path, ids, i, n - 1);
    }
}

/// The message `id` of the mailbox at `path` as the list of the mailbox
/// shows it: subject and id from its metadata, and whether it was read.
pub open spec fn item_of(es: Seq<EntryView>, path: Seq<char>, id: Seq<char>) -> ItemView {
    let record = lookup(es, join_spec(path, id), "metadata.json"@).unwrap()->Record_0;
    ItemView {
        subject: record.subject,
        id: record.id,
        read: present(es, join_spec(path, id), "read"@),
    }
}

/// The messages `ids` of the mailbox at `path` as the list shows them.
pub open spec fn items_of(es: Seq<EntryView>, path: Seq<char>, ids: Seq<Seq<char>>) -> Seq<
    ItemView,
> {
    ids.map_values(|id: Seq<char>| item_of(es, path, id))
}

/// The list of the mailbox `mailbox`: nothing where there is no such mailbox;
/// else every message once, largest id first. The first message whose
/// metadata cannot be read fails the whole list.
pub fn get_mailbox(store: &Mailboxes, disk: &Disk, mailbox: &String) -> (r: Result<
    Option<Vec<MailboxItem>>,
    MailError,
>)
    requires
        disk.wf(),
    ensures
        ({
            let path = join_spec(store.path@, mailbox@);
            let ids = dirs_in(disk@, path);
            let bad = listing_error(disk@, path, ids, ids.len() as int);
            if lookup(disk@, store.path@, mailbox@) != Some(NodeView::Dir) {
                r matches Ok(None)
            } else {
                match r {
                    Ok(o) => bad is None && (o matches Some(v) && descending(item_views(v@))
                        && item_views(v@).to_multiset() == items_of(disk@, path, ids).to_multiset()),
                    Err(e) => bad == Some((e.kind, e.path@)),
                }
            }
        }),
{
    broadcast use vstd::seq_lib::group_to_multiset_ensures;

    let found = match store.mailbox(disk, mailbox) {
        Ok(Some(m)) => m,
        Ok(None) => {
            return Ok(None);
        },
        Err(e) => {
            return Err(e);
        },
    };
    let mails = match found.mails(disk) {
        Ok(v) => v,
        Err(e) => {
            return Err(e);
        },
    };
    let ghost path = join_spec(store.path@, mailbox@);
    let ghost ids = dirs_in(disk@, path);
    let ghost all = items_of(disk@, path, ids);
    let mut out: Vec<MailboxItem> = Vec::new();
    let mut i: usize = 0;
    assert(all.take(0) =~= Seq::<ItemView>::empty());
    assert(item_views(out@) =~= Seq::<ItemView>::empty());
    while i < mails.len()
        invariant
            i <= mails.len(),
            disk.wf(),
            path == join_spec(store.path@, mailbox@),
            ids == dirs_in(disk@, path),
            all == items_of(disk@, path, ids),
            mails@.len() == ids.len(),
            forall|k: int|
                0 <= k < mails@.len() ==> (#[trigger] mails@[k]).dir@ == path && mails@[k].name@
                    == ids[k],
            listing_error(disk@, path, ids, i as int) is None,
            lookup(disk@, store.path@, mailbox@) == Some(NodeView::Dir),
            descending(item_views(out@)),
            item_views(out@).to_multiset() == all.take(i as int).to_multiset(),
        decreases mails.len() - i,
    {
        let mail = &mails[i];
        let read = match mail.read(disk) {
            Ok(b) => b,
            Err(e) => {
                return Err(e);
            },
        };
        let metadata = match mail.metadata(disk) {
            Ok(m) => m,
            Err(e) => {
                proof {
                    lemma_listing_error_stays(disk@, path, ids, i + 1, ids.len() as int);
                }
                return Err(e);
            },
        };
        let x = MailboxItem { subject: metadata.subject, id: metadata.id, read };
        assert(x@ == all[i as int]);
        let ghost before = item_views(out@);
        let p = insert_item(&mut out, x);
        proof {
            assert(item_views(out@) =~= before.insert(p as int, x@));
            lemma_insert_multiset(before, p as int, x@);
            assert(all.take(i + 1) =~= all.take(i as int).push(all[i as int]));
            vstd::seq_lib::to_multiset_build(all.take(i as int), all[i as int]);
        }
        i += 1;
    }
    assert(all.take(i as int) =~= all);
    Ok(Some(out))
}

/// Whether the text file behind `n` cannot be read: there is a node, and
/// it is no file of valid UTF-8.
pub open spec fn text_fails(n: Option<NodeView>) -> bool {
    match n {
        None => false,
        Some(NodeView::File(b)) => !valid_utf8(b),
        Some(_) => true,
    }
}

/// The text of the body file behind `n`, if there is a file that is not
/// empty.
pub open spec fn text_value(n: Option<NodeView>) -> Option<Seq<char>> {
    match n {
        Some(NodeView::File(b)) => body_text(b),
        _ => None,
    }
}

/// The message at `path` in full, or the first failure among its parts, read
/// in this order: HTML body, text body, raw bytes, attachments, metadata.
pub open spec fn fetch_spec(es: Seq<EntryView>, path: Seq<char>) -> Result<
    MailView,
    (MailErrorKind, Seq<char>),
> {
    let html = lookup(es, path, "body.html"@);
    let text = lookup(es, path, "body.text"@);
    let raw = lookup(es, path, "body.raw"@);
    if text_fails(html) {
        Err((MailErrorKind::FileRead, join_spec(path, "body.html"@)))
    } else if text_fails(text) {
        Err((MailErrorKind::FileRead, join_spec(path, "body.text"@)))
    } else if raw is None {
        Err((MailErrorKind::FileOpen, join_spec(path, "body.raw"@)))
    } else if !(raw.unwrap() is File) {
        Err((MailErrorKind::FileRead, join_spec(path, "body.raw"@)))
    } else if lookup(es, path, "attachments"@) != Some(NodeView::Dir) {
        Err((MailErrorKind::DirRead, join_spec(path, "attachments"@)))
    } else if metadata_error(es, path) is Some {
        Err(metadata_error(es, path).unwrap())
    } else {
        let bytes = raw.unwrap()->File_0;
        Ok(
            MailView {
                html: text_value(html),
                text: text_value(text),
                raw: if valid_utf8(bytes) {
                    Some(decode_utf8(bytes))
                } else {
                    None
                },
                attachments: names_of(es, join_spec(path, "attachments"@), false),
                metadata: lookup(es, path, "metadata.json"@).unwrap()->Record_0,
            },
        )
    }
}

/// The tree once the message at `path` was seen at the time `now`: a message
/// without a read marker gets one, which holds `now` in decimal digits.
pub open spec fn marked_spec(es: Seq<EntryView>, path: Seq<char>, now: u128) -> Seq<EntryView> {
    if present(es, path, "read"@) {
        es
    } else {
        write_spec(es, path, "read"@, NodeView::File(encode_utf8(decimal_spec(now as nat))))
    }
}

/// Whether fetching the message `mail` of the mailbox `mailbox` at the time
/// `now` went from the tree `es` to `tree` with the answer `r`.
///
/// There is nothing to fetch, and nothing changes, where there is no such
/// mailbox or message. A message that was unread is marked as read before it
/// is read out.
pub open spec fn fetched(
    root: Seq<char>,
    es: Seq<EntryView>,
    mailbox: Seq<char>,
    mail: Seq<char>,
    now: u128,
    tree: Seq<EntryView>,
    r: Result<Option<Mail>, MailError>,
) -> bool {
    let mpath = join_spec(root, mailbox);
    let path = join_spec(mpath, mail);
    if lookup(es, root, mailbox) != Some(NodeView::Dir) || lookup(es, mpath, mail) != Some(
        NodeView::Dir,
    ) {
        r matches Ok(None) && tree == es
    } else {
        tree == marked_spec(es, path, now) && match fetch_spec(tree, path) {
            Ok(m) => r matches Ok(Some(v)) && v@ == m,
            Err(e) => fails(r, e.0, e.1),
        }
    }
}

/// The message `mail` of the mailbox `mailbox` in full, fetched at the time
/// that the clock shows.
pub fn get_mail(store: &Mailboxes, disk: &mut Disk, mailbox: &String, mail: &String) -> (r: Result<
    Option<Mail>,
    MailError,
>)
    requires
        old(disk).wf(),
    ensures
        final(disk).wf(),
        exists|now: u128| #[trigger]
            fetched(store.path@, old(disk)@, mailbox@, mail@, now, final(disk)@, r),
{
    let at = now();
    let r = get_mail_at(store, disk, mailbox, mail, at);
    assert(fetched(store.path@, old(disk)@, mailbox@, mail@, at, disk@, r));
    r
}

/// The message `mail` of the mailbox `mailbox` in full, fetched at the time
/// `now` in milliseconds.
pub fn get_mail_at(
    store: &Mailboxes,
    disk: &mut Disk,
    mailbox: &String,
    mail: &String,
    now: u128,
) -> (r: Result<Option<Mail>, MailError>)
    requires
        old(disk).wf(),
    ensures
        final(disk).wf(),
        fetched(store.path@, old(disk)@, mailbox@, mail@, now, final(disk)@, r),
{
    let found = match store.mailbox(disk, mailbox) {
        Ok(Some(m)) => m,
        Ok(None) => {
            return Ok(None);
        },
        Err(e) => {
            return Err(e);
        },
    };
    let item = match found.mail(disk, mail) {
        Ok(Some(m)) => m,
        Ok(None) => {
            return Ok(None);
        },
        Err(e) => {
            return Err(e);
        },
    };
    let read = match item.read(disk) {
        Ok(b) => b,
        Err(e) => {
            return Err(e);
        },
    };
    if !read {
        if let Err(e) = item.set_read_at(disk, now) {
            return Err(e);
        }
    }
    let html = match item.html(disk) {
        Ok(h) => h,
        Err(e) => {
            return Err(e);
        },
    };
    let text = match item.text(disk) {
        Ok(t) => t,
        Err(e) => {
            return Err(e);
        },
    };
    let raw = match item.raw(disk) {
        Ok(b) => utf8_text(b),
        Err(e) => {
            return Err(e);
        },
    };
    let files = match item.attachments(disk) {
        Ok(v) => v,
        Err(e) => {
            return Err(e);
        },
    };
    let mut attachments: Vec<String> = Vec::new();
    let mut i: usize = 0;
    while i < files.len()
        invariant
            i <= files.len(),
            attachments@.len() == i,
            forall|k: int| 0 <= k < i ==> attachments@[k]@ == files@[k].name@,
        decreases files.len() - i,
    {
        attachments.push(files[i].id());
        i += 1;
    }
    assert(strs(attachments@) =~= item.attachment_names(disk@));
    let metadata = match item.metadata(disk) {
        Ok(m) => Metadata { id: m.id, subject: m.subject, from: m.from, date: m.date },
        Err(e) => {
            return Err(e);
        },
    };
    Ok(Some(Mail { html, text, raw, attachments, metadata }))
}

} // verus!
