//! The handling of one inbound transaction: its bytes are gathered, the
//! message that a parser found in them is stored once for each recipient,
//! and each stored copy is announced.

use crate::api::MailboxItem;
use crate::disk::{copy_bytes, join, join_spec, opt_str_view, strs, Disk, EntryView};
use vstd::string::*;
use crate::mail::{create_spec, Mailboxes};
use crate::clock::now;
use crate::mime::{assemble, assembled, Found, ParsedMessage};
use crate::text::{decimal, decimal_spec};
use crate::QueueItem;
use vstd::prelude::*;

verus! {

/// The state of one session: the directory of the mailboxes, the recipients
/// that the transaction declared, and the bytes received so far.
#[derive(Debug, Clone)]
pub struct Session {
    pub path: String,
    pub addresses: Vec<String>,
    pub buffer: Vec<u8>,
}

/// The end of a transaction: whether it is acknowledged, and the
/// announcements to publish, in their order.
#[derive(Debug, Clone)]
pub struct Delivery {
    pub accepted: bool,
    pub events: Vec<QueueItem>,
}

/// The recipients of a transaction: those that it declared, else the single
/// address of the message's recipient header, else none.
pub open spec fn receivers_spec(declared: Seq<Seq<char>>, to: Option<Seq<char>>) -> Option<
    Seq<Seq<char>>,
> {
    if declared.len() > 0 {
        Some(declared)
    } else {
        match to {
            Some(a) => Some(seq![a]),
            None => None,
        }
    }
}

/// The subject under which a message is stored: its own, else its id.
pub open spec fn subject_spec(subject: Option<Seq<char>>, id: Seq<char>) -> Seq<char> {
    match subject {
        Some(s) => s,
        None => id,
    }
}

/// The tree after the message was stored for the first `n` of `receivers`,
/// one after another, whether or not each storing succeeded.
pub open spec fn fanout_tree(
    es: Seq<EntryView>,
    root: Seq<char>,
    receivers: Seq<Seq<char>>,
    id: Seq<char>,
    m: ParsedMessage,
    subject: Seq<char>,
    n: int,
) -> Seq<EntryView>
    decreases n,
{
    if n <= 0 {
        es
    } else {
        create_spec(
            fanout_tree(es, root, receivers, id, m, subject, n - 1),
            root,
            receivers[n - 1],
            id,
            m,
            subject,
        ).tree
    }
}

/// Those of the first `n` of `receivers` for which the storing succeeded, in
/// their order.
pub open spec fn fanout_stored(
    es: Seq<EntryView>,
    root: Seq<char>,
    receivers: Seq<Seq<char>>,
    id: Seq<char>,
    m: ParsedMessage,
    subject: Seq<char>,
    n: int,
) -> Seq<Seq<char>>
    decreases n,
{
    if n <= 0 {
        Seq::empty()
    } else {
        let before = fanout_stored(es, root, receivers, id, m, subject, n - 1);
        let o = create_spec(
            fanout_tree(es, root, receivers, id, m, subject, n - 1),
            root,
            receivers[n - 1],
            id,
            m,
            subject,
        );
        if o.failed is None {
            before.push(receivers[n - 1])
        } else {
            before
        }
    }
}

/// Whether `events` announce the unread message `id` with `subject` once for
/// each mailbox of `stored`, in that order.
pub open spec fn events_are(
    events: Seq<QueueItem>,
    stored: Seq<Seq<char>>,
    id: Seq<char>,
    subject: Seq<char>,
) -> bool {
    events.len() == stored.len() && forall|k: int|
        0 <= k < events.len() ==> (#[trigger] events[k]).receiver@ == stored[k] && events[k].obj.id@
            == id && events[k].obj.subject@ == subject && !events[k].obj.read
}

/// Copies a list of strings.
pub fn copy_strings(v: &Vec<String>) -> (r: Vec<String>)
    ensures
        strs(r@) == strs(v@),
{
    let mut out: Vec<String> = Vec::new();
    let mut i: usize = 0;
    while i < v.len()
        invariant
            i <= v.len(),
            out@.len() == i,
            forall|k: int| 0 <= k < i ==> out@[k]@ == v@[k]@,
        decreases v.len() - i,
    {
        out.push(v[i].clone());
        i += 1;
    }
    assert(strs(out@) =~= strs(v@));
    out
}

/// Stores `message` under `id` once for each of `receivers`, in their order,
/// and announces each copy that was stored. A copy that cannot be stored is
/// passed over: the others are stored all the same.
pub fn deliver(
    store: &Mailboxes,
    disk: &mut Disk,
    receivers: &Vec<String>,
    id: &String,
    message: &ParsedMessage,
    subject: &String,
) -> (events: Vec<QueueItem>)
    requires
        old(disk).wf(),
    ensures
        final(disk).wf(),
        final(disk)@ == fanout_tree(
            old(disk)@,
            store.path@,
            strs(receivers@),
            id@,
            *message,
            subject@,
            receivers@.len() as int,
        ),
        events_are(
            events@,
            fanout_stored(
                old(disk)@,
                store.path@,
                strs(receivers@),
                id@,
                *message,
                subject@,
                receivers@.len() as int,
            ),
            id@,
            subject@,
        ),
{
    let mut events: Vec<QueueItem> = Vec::new();
    let mut i: usize = 0;
    let ghost start = disk@;
    let ghost rs = strs(receivers@);
    while i < receivers.len()
        invariant
            i <= receivers.len(),
            rs == strs(receivers@),
            disk.wf(),
            disk@ == fanout_tree(start, store.path@, rs, id@, *message, subject@, i as int),
            events_are(
                events@,
                fanout_stored(start, store.path@, rs, id@, *message, subject@, i as int),
                id@,
                subject@,
            ),
        decreases receivers.len() - i,
    {
        let receiver = &receivers[i];
        assert(rs[i as int] == receiver@);
        let stored = store.create_message(disk, receiver, id, message, subject.clone());
        if stored.is_ok() {
            events.push(
                QueueItem {
                    obj: MailboxItem { subject: subject.clone(), id: id.clone(), read: false },
                    receiver: receiver.clone(),
                },
            );
        }
        i += 1;
    }
    events
}

/// Whether a session that met the end of a transaction with the parsed
/// message `message` at the time `now` went from `before` and the tree `es`
/// to `after`, the tree `tree` and the answer `d`.
///
/// A transaction whose bytes do not parse, or that has no recipient, is
/// refused and stores nothing. Any other is acknowledged: its id is `now` in
/// decimal digits, and it is stored for each recipient. The buffer is empty
/// afterwards in either case.
pub open spec fn finished(
    before: Session,
    es: Seq<EntryView>,
    message: Option<ParsedMessage>,
    now: u128,
    after: Session,
    tree: Seq<EntryView>,
    d: Delivery,
) -> bool {
    let id = decimal_spec(now as nat);
    &&& after.path@ == before.path@
    &&& after.buffer@.len() == 0
    &&& match message {
        None => !d.accepted && d.events@.len() == 0 && tree == es && strs(after.addresses@)
            == strs(before.addresses@),
        Some(m) => {
            &&& after.addresses@.len() == 0
            &&& match receivers_spec(strs(before.addresses@), opt_str_view(m.to)) {
                None => !d.accepted && d.events@.len() == 0 && tree == es,
                Some(rs) => {
                    let subject = subject_spec(opt_str_view(m.subject), id);
                    &&& d.accepted
                    &&& tree == fanout_tree(es, before.path@, rs, id, m, subject, rs.len() as int)
                    &&& events_are(
                        d.events@,
                        fanout_stored(es, before.path@, rs, id, m, subject, rs.len() as int),
                        id,
                        subject,
                    )
                },
            }
        },
    }
}

/// Whether `m` is the message of a session whose bytes the parser read as
/// `found`: none where the parser found none, else the message assembled
/// from what it found and from the bytes gathered.
pub open spec fn ended(before: Session, found: Option<Found>, m: Option<ParsedMessage>) -> bool {
    match found {
        None => m is None,
        Some(f) => m matches Some(p) && assembled(p, f, before.buffer@),
    }
}

impl Session {
    /// A session for the mailboxes at `path`.
    pub fn new(path: String) -> (r: Session)
        ensures
            r.path@ == path@,
            r.addresses@.len() == 0,
            r.buffer@.len() == 0,
    {
        Session { path, addresses: Vec::new(), buffer: Vec::new() }
    }

    /// The start of a transaction: notes the recipients that it declares.
    /// Always acknowledged.
    pub fn data_start(&mut self, to: &Vec<String>) -> (r: bool)
        ensures
            r,
            strs(final(self).addresses@) == strs(to@),
            final(self).buffer@ == old(self).buffer@,
            final(self).path@ == old(self).path@,
    {
        self.addresses = copy_strings(to);
        true
    }

    /// A piece of the transaction's body: it is added to the bytes gathered
    /// so far.
    pub fn data(&mut self, buf: &[u8])
        ensures
            final(self).buffer@ == old(self).buffer@ + buf@,
            strs(final(self).addresses@) == strs(old(self).addresses@),
            final(self).path@ == old(self).path@,
    {
        let mut i: usize = 0;
        while i < buf.len()
            invariant
                i <= buf.len(),
                self.buffer@ == old(self).buffer@ + buf@.take(i as int),
                self.addresses == old(self).addresses,
                self.path == old(self).path,
            decreases buf.len() - i,
        {
            self.buffer.push(buf[i]);
            assert(self.buffer@ =~= old(self).buffer@ + buf@.take(i + 1));
            i += 1;
        }
        assert(buf@.take(i as int) =~= buf@);
    }

    /// The end of a transaction whose bytes were parsed to `message`, at the
    /// time `now` in milliseconds.
    pub fn finish(&mut self, disk: &mut Disk, message: Option<ParsedMessage>, now: u128) -> (d:
        Delivery)
        requires
            old(disk).wf(),
        ensures
            final(disk).wf(),
            finished(*old(self), old(disk)@, message, now, *final(self), final(disk)@, d),
    {
        self.buffer = Vec::new();
        let m = match message {
            Some(m) => m,
            None => {
                return Delivery { accepted: false, events: Vec::new() };
            },
        };
        let receivers = if self.addresses.len() > 0 {
            copy_strings(&self.addresses)
        } else {
            match &m.to {
                Some(a) => {
                    let mut v: Vec<String> = Vec::new();
                    v.push(a.clone());
                    assert(strs(v@) =~= seq![a@]);
                    v
                },
                None => {
                    return Delivery { accepted: false, events: Vec::new() };
                },
            }
        };
        self.addresses = Vec::new();
        let id = decimal(now);
        let subject = match &m.subject {
            Some(s) => s.clone(),
            None => id.clone(),
        };
        let store = Mailboxes { path: self.path.clone() };
        let events = deliver(&store, disk, &receivers, &id, &m, &subject);
        Delivery { accepted: true, events }
    }

    /// The end of a transaction at the time `now` in milliseconds. `found`
    /// is what the parser found in the bytes gathered, and nothing where it
    /// could not read them: the transaction ends as `finished` says of the
    /// message that is assembled from it.
    pub fn data_end_at(&mut self, disk: &mut Disk, found: Option<Found>, now: u128) -> (d: Delivery)
        requires
            old(disk).wf(),
        ensures
            final(disk).wf(),
            exists|m: Option<ParsedMessage>|
                ended(*old(self), found, m) && #[trigger] finished(
                    *old(self),
                    old(disk)@,
                    m,
                    now,
                    *final(self),
                    final(disk)@,
                    d,
                ),
    {
        let message = match found {
            Some(f) => Some(assemble(f, copy_bytes(&self.buffer))),
            None => None,
        };
        self.finish(disk, message, now)
    }

    /// The end of a transaction, at the time that the clock shows.
    pub fn data_end(&mut self, disk: &mut Disk, found: Option<Found>) -> (d: Delivery)
        requires
            old(disk).wf(),
        ensures
            final(disk).wf(),
            exists|m: Option<ParsedMessage>, now: u128|
                ended(*old(self), found, m) && #[trigger] finished(
                    *old(self),
                    old(disk)@,
                    m,
                    now,
                    *final(self),
                    final(disk)@,
                    d,
                ),
    {
        let at = now();
        let message = match found {
            Some(f) => Some(assemble(f, copy_bytes(&self.buffer))),
            None => None,
        };
        let d = self.finish(disk, message, at);
        assert(ended(*old(self), found, message));
        assert(finished(*old(self), old(disk)@, message, at, *self, disk@, d));
        d
    }
}

/// Whether the node `e` belongs to the copy of the message `id` that is
/// stored for `receiver` in the collection at `root`: it is the mailbox, the
/// message's directory, one of the message's files or one of its attachments.
pub open spec fn belongs(e: EntryView, root: Seq<char>, receiver: Seq<char>, id: Seq<char>) -> bool {
    let mpath = join_spec(root, receiver);
    let path = join_spec(mpath, id);
    ||| (e.dir == root && e.name == receiver)
    ||| (e.dir == mpath && e.name == id)
    ||| e.dir == path
    ||| e.dir == join_spec(path, "attachments"@)
}

/// Whether place `k` of `failed` names a node of the tree that belongs to
/// the copy of the message `id` for `receiver`.
pub open spec fn loses(
    es: Seq<EntryView>,
    failed: Seq<usize>,
    k: int,
    root: Seq<char>,
    receiver: Seq<char>,
    id: Seq<char>,
) -> bool {
    0 <= k < failed.len() && failed[k] < es.len() && belongs(es[failed[k] as int], root, receiver, id)
}

/// Whether the copy of the message `id` for `receiver` lost a write: one of
/// the nodes at the places `failed`, which could not be written to disk,
/// belongs to it.
pub open spec fn lost(
    es: Seq<EntryView>,
    failed: Seq<usize>,
    root: Seq<char>,
    receiver: Seq<char>,
    id: Seq<char>,
) -> bool {
    exists|k: int| loses(es, failed, k, root, receiver, id)
}

/// What an announcement says: the mailbox, the id, the subject, and whether
/// the message was read.
pub open spec fn said(q: QueueItem) -> (Seq<char>, Seq<char>, Seq<char>, bool) {
    (q.receiver@, q.obj.id@, q.obj.subject@, q.obj.read)
}

/// Those of the first `n` of `events` whose copy lost no write, by what
/// they say, in their order.
pub open spec fn confirmed(
    es: Seq<EntryView>,
    failed: Seq<usize>,
    root: Seq<char>,
    events: Seq<QueueItem>,
    n: int,
) -> Seq<(Seq<char>, Seq<char>, Seq<char>, bool)>
    decreases n,
{
    if n <= 0 {
        Seq::empty()
    } else {
        let before = confirmed(es, failed, root, events, n - 1);
        let q = events[n - 1];
        if lost(es, failed, root, q.receiver@, q.obj.id@) {
            before
        } else {
            before.push(said(q))
        }
    }
}

/// Whether the copy of the message `id` for `receiver` lost a write.
pub fn is_lost(disk: &Disk, failed: &Vec<usize>, root: &String, receiver: &String, id: &String) -> (r:
    bool)
    ensures
        r == lost(disk@, failed@, root@, receiver@, id@),
{
    let mpath = join(root, receiver);
    let path = join(&mpath, id);
    let adir = join(&path, &String::from_str("attachments"));
    let mut k: usize = 0;
    while k < failed.len()
        invariant
            k <= failed.len(),
            mpath@ == join_spec(root@, receiver@),
            path@ == join_spec(mpath@, id@),
            adir@ == join_spec(path@, "attachments"@),
            forall|j: int| 0 <= j < k ==> !loses(disk@, failed@, j, root@, receiver@, id@),
        decreases failed.len() - k,
    {
        let place = failed[k];
        if place < disk.len() {
            let e = disk.entry(place);
            if (e.dir == *root && e.name == *receiver) || (e.dir == mpath && e.name == *id) || e.dir
                == path || e.dir == adir {
                assert(loses(disk@, failed@, k as int, root@, receiver@, id@));
                return true;
            }
        }
        k += 1;
    }
    false
}

/// The announcements that stand after the tree was written to disk: those of
/// `events` whose copy lost no write. `failed` holds the places of the nodes
/// that could not be written. A copy that lost a write is passed over; the
/// others are announced all the same.
pub fn confirm(disk: &Disk, failed: &Vec<usize>, root: &String, events: &Vec<QueueItem>) -> (r: Vec<
    QueueItem,
>)
    ensures
        r@.map_values(|q: QueueItem| said(q)) == confirmed(
            disk@,
            failed@,
            root@,
            events@,
            events@.len() as int,
        ),
{
    let mut out: Vec<QueueItem> = Vec::new();
    let mut i: usize = 0;
    assert(out@.map_values(|q: QueueItem| said(q)) =~= confirmed(disk@, failed@, root@, events@, 0));
    while i < events.len()
        invariant
            i <= events.len(),
            out@.map_values(|q: QueueItem| said(q)) == confirmed(
                disk@,
                failed@,
                root@,
                events@,
                i as int,
            ),
        decreases events.len() - i,
    {
        let q = &events[i];
        if !is_lost(disk, failed, root, &q.receiver, &q.obj.id) {
            let ghost before = out@;
            let copy = QueueItem {
                obj: MailboxItem {
                    subject: q.obj.subject.clone(),
                    id: q.obj.id.clone(),
                    read: q.obj.read,
                },
                receiver: q.receiver.clone(),
            };
            out.push(copy);
            assert(out@.map_values(|q: QueueItem| said(q)) =~= before.map_values(
                |q: QueueItem| said(q),
            ).push(said(*q)));
        }
        i += 1;
    }
    out
}

} // verus!
