//! The mailbox store: mailboxes, messages and attachments on the tree.
//!
//! Each recipient has a mailbox, a directory named by the address. Each
//! message is a directory in its mailbox, named by the message's id.

use crate::disk::{
    copy_bytes, join, join_spec, listable, lookup, mkdir_spec, names_of, opt_str_view, present,
    strs, write_spec, Disk, EntryView, MetadataView, Node, NodeView,
};
pub use crate::disk::Metadata;
use crate::clock::now;
use crate::text::{decimal, decimal_spec};
use crate::error::{MailError, MailErrorKind};
use crate::mime::{ParsedMessage, Part};
use vstd::prelude::*;
use vstd::string::*;
use vstd::utf8::*;

verus! {

/// Copies a metadata record.
pub fn copy_metadata(m: &Metadata) -> (r: Metadata)
    ensures
        r@ == m@,
{
    let date = match &m.date {
        Some(d) => Some(d.clone()),
        None => None,
    };
    Metadata { id: m.id.clone(), subject: m.subject.clone(), from: m.from.clone(), date }
}

/// Std's `String::from_utf8`: the text that `bytes` encode in UTF-8, or
/// nothing when they are no valid UTF-8.
#[verifier::external_body]
pub(crate) fn utf8_text(bytes: Vec<u8>) -> (r: Option<String>)
    ensures
        r.is_some() == valid_utf8(bytes@),
        r matches Some(s) ==> s@ == decode_utf8(bytes@),
{
    String::from_utf8(bytes).ok()
}

/// The collection of all mailboxes: the directory at `path`.
#[derive(Debug, Clone)]
pub struct Mailboxes {
    pub path: String,
}

/// One recipient's mailbox: the directory `name` in `dir`.
#[derive(Debug, Clone)]
pub struct Mailbox {
    pub dir: String,
    pub name: String,
}

/// One stored message: the directory `name` in the mailbox `dir`.
#[derive(Debug, Clone)]
pub struct MailItem {
    pub dir: String,
    pub name: String,
}

/// One attachment of a message: the file `name` in the directory `dir`.
#[derive(Debug, Clone)]
pub struct Attachment {
    pub dir: String,
    pub name: String,
}

/// The names of the directories in `dir`, in the order in which they were
/// made.
pub open spec fn dirs_in(es: Seq<EntryView>, dir: Seq<char>) -> Seq<Seq<char>> {
    names_of(es, dir, true)
}

impl Mailboxes {
    /// All mailboxes: the directories in the collection, in the order in
    /// which they were made. Other entries are passed over. Fails with
    /// `DirRead` where the collection cannot be listed: where no directory
    /// of the tree has its path, or a node that is no directory has it.
    pub fn mailboxes(&self, disk: &Disk) -> (r: Result<Vec<Mailbox>, MailError>)
        ensures
            match r {
                Ok(v) => listable(disk@, self.path@) && v@.len() == dirs_in(disk@, self.path@).len()
                    && forall|k: int|
                    0 <= k < v@.len() ==> (#[trigger] v@[k]).dir@ == self.path@ && v@[k].name@
                        == dirs_in(disk@, self.path@)[k],
                Err(e) => !listable(disk@, self.path@) && e.kind == MailErrorKind::DirRead
                    && e.path@ == self.path@,
            },
    {
        if !disk.is_listable(&self.path) {
            return Err(MailError::new(MailErrorKind::DirRead, self.path.clone()));
        }
        let names = disk.names(&self.path, true);
        let mut out: Vec<Mailbox> = Vec::new();
        let mut i: usize = 0;
        while i < names.len()
            invariant
                i <= names.len(),
                out@.len() == i,
                forall|k: int|
                    0 <= k < i ==> (#[trigger] out@[k]).dir@ == self.path@ && out@[k].name@
                        == names@[k]@,
            decreases names.len() - i,
        {
            out.push(Mailbox { dir: self.path.clone(), name: names[i].clone() });
            i += 1;
        }
        assert(strs(names@).len() == names@.len());
        assert forall|k: int| 0 <= k < out@.len() implies out@[k].name@ == dirs_in(
            disk@,
            self.path@,
        )[k] by {
            assert(strs(names@)[k] == names@[k]@);
        }
        Ok(out)
    }

    /// The mailbox of `mailbox`, if a directory of that name is in the
    /// collection.
    pub fn mailbox(&self, disk: &Disk, mailbox: &String) -> (r: Result<Option<Mailbox>, MailError>)
        requires
            disk.wf(),
        ensures
            r matches Ok(o) && match o {
                Some(m) => lookup(disk@, self.path@, mailbox@) == Some(NodeView::Dir) && m.dir@
                    == self.path@ && m.name@ == mailbox@,
                None => lookup(disk@, self.path@, mailbox@) != Some(NodeView::Dir),
            },
    {
        if disk.is_dir(&self.path, mailbox) {
            Ok(Some(Mailbox { dir: self.path.clone(), name: mailbox.clone() }))
        } else {
            Ok(None)
        }
    }
}

/// How many of the messages `ids` of the mailbox at `path` carry no read
/// marker.
pub open spec fn unread_of(es: Seq<EntryView>, path: Seq<char>, ids: Seq<Seq<char>>) -> nat
    decreases ids.len(),
{
    if ids.len() == 0 {
        0
    } else {
        let rest = unread_of(es, path, ids.drop_last());
        if present(es, join_spec(path, ids.last()), "read"@) {
            rest
        } else {
            rest + 1
        }
    }
}

impl Mailbox {
    /// The path of the mailbox's directory.
    pub open spec fn path(&self) -> Seq<char> {
        join_spec(self.dir@, self.name@)
    }

    /// Whether the mailbox is a directory of the tree.
    pub open spec fn is_on(&self, es: Seq<EntryView>) -> bool {
        lookup(es, self.dir@, self.name@) == Some(NodeView::Dir)
    }

    /// The recipient address that names the mailbox.
    pub fn id(&self) -> (r: String)
        ensures
            r@ == self.name@,
    {
        self.name.clone()
    }

    /// The messages of the mailbox: the directories in it, in the order in
    /// which they were made. Fails with `DirRead` when the mailbox is no
    /// directory.
    pub fn mails(&self, disk: &Disk) -> (r: Result<Vec<MailItem>, MailError>)
        requires
            disk.wf(),
        ensures
            match r {
                Ok(v) => self.is_on(disk@) && v@.len() == dirs_in(disk@, self.path()).len()
                    && forall|k: int|
                    0 <= k < v@.len() ==> (#[trigger] v@[k]).dir@ == self.path() && v@[k].name@
                        == dirs_in(disk@, self.path())[k],
                Err(e) => !self.is_on(disk@) && e.kind == MailErrorKind::DirRead && e.path@
                    == self.path(),
            },
    {
        let path = join(&self.dir, &self.name);
        if !disk.is_dir(&self.dir, &self.name) {
            return Err(MailError::new(MailErrorKind::DirRead, path));
        }
        let names = disk.names(&path, true);
        let mut out: Vec<MailItem> = Vec::new();
        let mut i: usize = 0;
        while i < names.len()
            invariant
                i <= names.len(),
                out@.len() == i,
                forall|k: int|
                    0 <= k < i ==> (#[trigger] out@[k]).dir@ == path@ && out@[k].name@
                        == names@[k]@,
            decreases names.len() - i,
        {
            out.push(MailItem { dir: path.clone(), name: names[i].clone() });
            i += 1;
        }
        assert(strs(names@).len() == names@.len());
        assert forall|k: int| 0 <= k < out@.len() implies out@[k].name@ == dirs_in(
            disk@,
            self.path(),
        )[k] by {
            assert(strs(names@)[k] == names@[k]@);
        }
        Ok(out)
    }

    /// The message `mail`, if a directory of that name is in the mailbox.
    pub fn mail(&self, disk: &Disk, mail: &String) -> (r: Result<Option<MailItem>, MailError>)
        requires
            disk.wf(),
        ensures
            r matches Ok(o) && match o {
                Some(m) => lookup(disk@, self.path(), mail@) == Some(NodeView::Dir) && m.dir@
                    == self.path() && m.name@ == mail@,
                None => lookup(disk@, self.path(), mail@) != Some(NodeView::Dir),
            },
    {
        let path = join(&self.dir, &self.name);
        if disk.is_dir(&path, mail) {
            Ok(Some(MailItem { dir: path, name: mail.clone() }))
        } else {
            Ok(None)
        }
    }

    /// The number of messages in the mailbox that carry no read marker,
    /// counted anew on every call; `i64::MAX` where the count is larger.
    /// Fails with `DirRead` when the mailbox is no directory.
    pub fn unread(&self, disk: &Disk) -> (r: Result<i64, MailError>)
        requires
            disk.wf(),
        ensures
            match r {
                Ok(n) => self.is_on(disk@) && n == if unread_of(
                    disk@,
                    self.path(),
                    dirs_in(disk@, self.path()),
                ) <= i64::MAX {
                    unread_of(disk@, self.path(), dirs_in(disk@, self.path())) as int
                } else {
                    i64::MAX as int
                },
                Err(e) => !self.is_on(disk@) && e.kind == MailErrorKind::DirRead && e.path@
                    == self.path(),
            },
    {
        let path = join(&self.dir, &self.name);
        if !disk.is_dir(&self.dir, &self.name) {
            return Err(MailError::new(MailErrorKind::DirRead, path));
        }
        let names = disk.names(&path, true);
        let marker = String::from_str("read");
        let mut count: u64 = 0;
        let mut i: usize = 0;
        assert(strs(names@).take(0) =~= Seq::<Seq<char>>::empty());
        while i < names.len()
            invariant
                i <= names.len(),
                path@ == self.path(),
                marker@ == "read"@,
                count <= i,
                count == unread_of(disk@, path@, strs(names@).take(i as int)),
            decreases names.len() - i,
        {
            let item = join(&path, &names[i]);
            proof {
                assert(strs(names@).take(i + 1).drop_last() =~= strs(names@).take(i as int));
                assert(strs(names@).take(i + 1).last() == names@[i as int]@);
            }
            if !disk.contains(&item, &marker) {
                count += 1;
            }
            i += 1;
        }
        assert(strs(names@).take(i as int) =~= strs(names@));
        if count > 0x7fff_ffff_ffff_ffff_u64 {
            Ok(i64::MAX)
        } else {
            Ok(count as i64)
        }
    }
}

/// Whether `r` is the failure of `kind` at `path`.
pub open spec fn fails<T>(r: Result<T, MailError>, kind: MailErrorKind, path: Seq<char>) -> bool {
    r matches Err(e) && e.kind == kind && e.path@ == path
}

/// The bytes of a body file: the UTF-8 encodings of the parts, one after
/// another.
pub open spec fn concat_text(parts: Seq<Seq<char>>) -> Seq<u8>
    decreases parts.len(),
{
    if parts.len() == 0 {
        Seq::empty()
    } else {
        concat_text(parts.drop_last()) + encode_utf8(parts.last())
    }
}

/// The UTF-8 encodings of `parts`, one after another.
pub fn concat(parts: &Vec<String>) -> (r: Vec<u8>)
    ensures
        r@ == concat_text(strs(parts@)),
{
    let mut out: Vec<u8> = Vec::new();
    let mut i: usize = 0;
    assert(strs(parts@).take(0) =~= Seq::<Seq<char>>::empty());
    while i < parts.len()
        invariant
            i <= parts.len(),
            out@ == concat_text(strs(parts@).take(i as int)),
        decreases parts.len() - i,
    {
        let mut bytes = parts[i].as_str().as_bytes_vec();
        proof {
            assert(strs(parts@).take(i + 1).drop_last() =~= strs(parts@).take(i as int));
            assert(strs(parts@).take(i + 1).last() == parts@[i as int]@);
        }
        out.append(&mut bytes);
        i += 1;
    }
    assert(strs(parts@).take(i as int) =~= strs(parts@));
    out
}

/// How far a creation has come: the tree so far, and the failure that ended
/// it, if one did.
pub struct Outcome {
    pub tree: Seq<EntryView>,
    pub failed: Option<(MailErrorKind, Seq<char>)>,
}

/// A creation that starts on the tree `es`.
pub open spec fn started(es: Seq<EntryView>) -> Outcome {
    Outcome { tree: es, failed: None }
}

/// Whether tree and result are those of the outcome `o`.
pub open spec fn outcome_is(es: Seq<EntryView>, r: Result<(), MailError>, o: Outcome) -> bool {
    es == o.tree && match r {
        Ok(_) => o.failed is None,
        Err(e) => o.failed == Some((e.kind, e.path@)),
    }
}

/// One write of a creation: skipped after a failure; `FileOpen` where a
/// directory has the name; otherwise the file is written.
pub open spec fn write_step(o: Outcome, dir: Seq<char>, name: Seq<char>, node: NodeView) -> Outcome {
    if o.failed is Some {
        o
    } else if lookup(o.tree, dir, name) == Some(NodeView::Dir) {
        Outcome { tree: o.tree, failed: Some((MailErrorKind::FileOpen, join_spec(dir, name))) }
    } else {
        Outcome { tree: write_spec(o.tree, dir, name, node), failed: None }
    }
}

/// One new directory of a creation: skipped after a failure; `DirCreate`
/// where the name is taken; otherwise the directory is made.
pub open spec fn mkdir_step(o: Outcome, dir: Seq<char>, name: Seq<char>) -> Outcome {
    if o.failed is Some {
        o
    } else if present(o.tree, dir, name) {
        Outcome { tree: o.tree, failed: Some((MailErrorKind::DirCreate, join_spec(dir, name))) }
    } else {
        Outcome { tree: mkdir_spec(o.tree, dir, name), failed: None }
    }
}

/// Whether a part is stored as an attachment file: it is marked as an
/// attachment and declares a file name that is not empty.
pub open spec fn stored(p: Part) -> bool {
    p.is_attachment && p.name is Some && p.name.unwrap()@.len() > 0
}

/// The first `n` parts written as attachment files into `adir`.
pub open spec fn attach_spec(o: Outcome, adir: Seq<char>, parts: Seq<Part>, n: int) -> Outcome
    decreases n,
{
    if n <= 0 {
        o
    } else {
        let prev = attach_spec(o, adir, parts, n - 1);
        let p = parts[n - 1];
        if stored(p) {
            write_step(prev, adir, p.name.unwrap()@, NodeView::File(p.contents@))
        } else {
            prev
        }
    }
}

/// After a failure no further part is written.
pub proof fn lemma_attach_stays(o: Outcome, adir: Seq<char>, parts: Seq<Part>, i: int, n: int)
    requires
        0 <= i <= n,
        attach_spec(o, adir, parts, i).failed is Some,
    ensures
        attach_spec(o, adir, parts, n) == attach_spec(o, adir, parts, i),
    decreases n,
{
    if i < n {
        lemma_attach_stays(o, adir, parts, i, n - 1);
    }
}

/// The opening of the file `file` in the directory `name` of `dir`: skipped
/// after a failure; `FileOpen` where that directory is not there.
pub open spec fn open_step(o: Outcome, dir: Seq<char>, name: Seq<char>, file: Seq<char>) -> Outcome {
    if o.failed is Some {
        o
    } else if lookup(o.tree, dir, name) != Some(NodeView::Dir) {
        Outcome {
            tree: o.tree,
            failed: Some((MailErrorKind::FileOpen, join_spec(join_spec(dir, name), file))),
        }
    } else {
        o
    }
}

/// The content of a new message written into its directory, the directory
/// `id` of the mailbox `dir`: the metadata record, the HTML body, the text
/// body, the raw bytes, the directory of attachments, then one file for each
/// stored attachment. `FileOpen` where the message's directory is not there.
pub open spec fn init_spec(
    es: Seq<EntryView>,
    dir: Seq<char>,
    id: Seq<char>,
    m: ParsedMessage,
    subject: Seq<char>,
) -> Outcome {
    let path = join_spec(dir, id);
    let record = MetadataView { id, subject, from: m.from@, date: opt_str_view(m.date) };
    let o0 = open_step(started(es), dir, id, "metadata.json"@);
    let o1 = write_step(o0, path, "metadata.json"@, NodeView::Record(record));
    let o2 = write_step(o1, path, "body.html"@, NodeView::File(concat_text(strs(m.html@))));
    let o3 = write_step(o2, path, "body.text"@, NodeView::File(concat_text(strs(m.text@))));
    let o4 = write_step(o3, path, "body.raw"@, NodeView::File(m.raw@));
    let o5 = mkdir_step(o4, path, "attachments"@);
    attach_spec(
        o5,
        join_spec(path, "attachments"@),
        m.attachments@,
        m.attachments@.len() as int,
    )
}

/// Writes the file `name` in `dir`; `FileOpen` where a directory has the name.
fn write_file(disk: &mut Disk, dir: &String, name: &str, node: Node) -> (r: Result<(), MailError>)
    requires
        old(disk).wf(),
        !(node is Dir),
    ensures
        final(disk).wf(),
        outcome_is(final(disk)@, r, write_step(started(old(disk)@), dir@, name@, node@)),
{
    let name = String::from_str(name);
    if disk.write(dir, &name, node) {
        Ok(())
    } else {
        Err(MailError::new(MailErrorKind::FileOpen, join(dir, &name)))
    }
}

/// Makes the directory `name` in `dir`; `DirCreate` where the name is taken.
fn make_dir(disk: &mut Disk, dir: &String, name: &String) -> (r: Result<(), MailError>)
    requires
        old(disk).wf(),
    ensures
        final(disk).wf(),
        outcome_is(final(disk)@, r, mkdir_step(started(old(disk)@), dir@, name@)),
{
    if disk.create_dir(dir, name) {
        Ok(())
    } else {
        Err(MailError::new(MailErrorKind::DirCreate, join(dir, name)))
    }
}

/// The text of a body file: none where the file is empty.
pub open spec fn body_text(b: Seq<u8>) -> Option<Seq<char>> {
    if b.len() == 0 {
        None
    } else {
        Some(decode_utf8(b))
    }
}

/// What reading the text file `name` in `dir` gives: nothing where no node has
/// the name or the file is empty, the text of a file of valid UTF-8, else
/// `FileRead`.
pub open spec fn text_read(
    es: Seq<EntryView>,
    dir: Seq<char>,
    name: Seq<char>,
    r: Result<Option<String>, MailError>,
) -> bool {
    match lookup(es, dir, name) {
        None => r matches Ok(None),
        Some(NodeView::File(b)) => if valid_utf8(b) {
            r matches Ok(o) && opt_str_view(o) == body_text(b)
        } else {
            fails(r, MailErrorKind::FileRead, join_spec(dir, name))
        },
        Some(_) => fails(r, MailErrorKind::FileRead, join_spec(dir, name)),
    }
}

/// What reading the bytes of the file `name` in `dir` gives: `FileOpen` where
/// no node has the name, the bytes of a file, else `FileRead`.
pub open spec fn bytes_read(
    es: Seq<EntryView>,
    dir: Seq<char>,
    name: Seq<char>,
    r: Result<Vec<u8>, MailError>,
) -> bool {
    match lookup(es, dir, name) {
        None => fails(r, MailErrorKind::FileOpen, join_spec(dir, name)),
        Some(NodeView::File(b)) => r matches Ok(v) && v@ == b,
        Some(_) => fails(r, MailErrorKind::FileRead, join_spec(dir, name)),
    }
}

/// Reads the text file `name` in `dir`.
fn read_text(disk: &Disk, dir: &String, name: &str) -> (r: Result<Option<String>, MailError>)
    requires
        disk.wf(),
    ensures
        text_read(disk@, dir@, name@, r),
{
    let name = String::from_str(name);
    match disk.get(dir, &name) {
        None => Ok(None),
        Some(Node::File(b)) => match utf8_text(copy_bytes(b)) {
            Some(s) => if b.len() == 0 {
                Ok(None)
            } else {
                Ok(Some(s))
            },
            None => Err(MailError::new(MailErrorKind::FileRead, join(dir, &name))),
        },
        Some(_) => Err(MailError::new(MailErrorKind::FileRead, join(dir, &name))),
    }
}

/// Reads the bytes of the file `name` in `dir`.
fn read_bytes(disk: &Disk, dir: &String, name: &String) -> (r: Result<Vec<u8>, MailError>)
    requires
        disk.wf(),
    ensures
        bytes_read(disk@, dir@, name@, r),
{
    match disk.get(dir, name) {
        None => Err(MailError::new(MailErrorKind::FileOpen, join(dir, name))),
        Some(Node::File(b)) => Ok(copy_bytes(b)),
        Some(_) => Err(MailError::new(MailErrorKind::FileRead, join(dir, name))),
    }
}

/// The marking of the message `name` of the mailbox `dir` as read at the
/// time `read_at`: the read marker is written, and holds the time in decimal
/// digits. `FileOpen` where the message's directory is not there.
pub open spec fn marking(es: Seq<EntryView>, dir: Seq<char>, name: Seq<char>, read_at: u128)
    -> Outcome {
    write_step(
        open_step(started(es), dir, name, "read"@),
        join_spec(dir, name),
        "read"@,
        NodeView::File(encode_utf8(decimal_spec(read_at as nat))),
    )
}

impl MailItem {
    /// The path of the message's directory.
    pub open spec fn path(&self) -> Seq<char> {
        join_spec(self.dir@, self.name@)
    }

    /// The id of the message: the name of its directory.
    pub fn id(&self) -> (r: String)
        ensures
            r@ == self.name@,
    {
        self.name.clone()
    }

    /// Writes the content of a new message into the directory `name` of the
    /// mailbox `dir`, which was made for it.
    pub fn new(
        disk: &mut Disk,
        dir: String,
        name: String,
        message: &ParsedMessage,
        subject: String,
    ) -> (r: Result<(), MailError>)
        requires
            old(disk).wf(),
        ensures
            final(disk).wf(),
            outcome_is(
                final(disk)@,
                r,
                init_spec(old(disk)@, dir@, name@, *message, subject@),
            ),
    {
        let me = MailItem { dir, name };
        me.init(disk, message, subject)
    }

    /// Writes the content of the message into its directory, one file after
    /// another, and gives up at the first that cannot be written.
    fn init(&self, disk: &mut Disk, message: &ParsedMessage, subject: String) -> (r: Result<
        (),
        MailError,
    >)
        requires
            old(disk).wf(),
        ensures
            final(disk).wf(),
            outcome_is(
                final(disk)@,
                r,
                init_spec(old(disk)@, self.dir@, self.name@, *message, subject@),
            ),
    {
        let path = join(&self.dir, &self.name);
        let adir_name = String::from_str("attachments");
        let adir = join(&path, &adir_name);
        let ghost parts = message.attachments@;
        let ghost total = parts.len() as int;
        let date = match &message.date {
            Some(d) => Some(d.clone()),
            None => None,
        };
        let record = Metadata { id: self.name.clone(), subject, from: message.from.clone(), date };
        let ghost o0 = open_step(started(disk@), self.dir@, self.name@, "metadata.json"@);
        let ghost o1 = write_step(o0, path@, "metadata.json"@, NodeView::Record(record@));
        let ghost o2 = write_step(
            o1,
            path@,
            "body.html"@,
            NodeView::File(concat_text(strs(message.html@))),
        );
        let ghost o3 = write_step(
            o2,
            path@,
            "body.text"@,
            NodeView::File(concat_text(strs(message.text@))),
        );
        let ghost o4 = write_step(o3, path@, "body.raw"@, NodeView::File(message.raw@));
        let ghost o5 = mkdir_step(o4, path@, "attachments"@);
        let ghost goal = init_spec(disk@, self.dir@, self.name@, *message, subject@);
        proof {
            if o5.failed is Some {
                lemma_attach_stays(o5, adir@, parts, 0, total);
            }
        }
        if !disk.is_dir(&self.dir, &self.name) {
            let file = String::from_str("metadata.json");
            return Err(MailError::new(MailErrorKind::FileOpen, join(&path, &file)));
        }
        if let Err(e) = write_file(disk, &path, "metadata.json", Node::Record(record)) {
            return Err(e);
        }
        if let Err(e) = write_file(disk, &path, "body.html", Node::File(concat(&message.html))) {
            return Err(e);
        }
        if let Err(e) = write_file(disk, &path, "body.text", Node::File(concat(&message.text))) {
            return Err(e);
        }
        if let Err(e) = write_file(disk, &path, "body.raw", Node::File(copy_bytes(&message.raw))) {
            return Err(e);
        }
        if let Err(e) = make_dir(disk, &path, &adir_name) {
            return Err(e);
        }
        let mut i: usize = 0;
        while i < message.attachments.len()
            invariant
                i <= message.attachments.len(),
                parts == message.attachments@,
                total == parts.len(),
                disk.wf(),
                attach_spec(o5, adir@, parts, i as int) == started(disk@),
                goal == attach_spec(o5, adir@, parts, total),
                goal == init_spec(old(disk)@, self.dir@, self.name@, *message, subject@),
            decreases message.attachments.len() - i,
        {
            let part = &message.attachments[i];
            if part.is_attachment {
                if let Some(name) = &part.name {
                    if !name.as_str().is_empty() {
                        let r = write_file(
                            disk,
                            &adir,
                            name.as_str(),
                            Node::File(copy_bytes(&part.contents)),
                        );
                        if let Err(e) = r {
                            proof {
                                lemma_attach_stays(o5, adir@, parts, i + 1, total);
                            }
                            return Err(e);
                        }
                    }
                }
            }
            i += 1;
        }
        Ok(())
    }

    /// The path of the message's metadata record.
    pub fn metadata_path(&self) -> (r: String)
        ensures
            r@ == join_spec(self.path(), "metadata.json"@),
    {
        join(&join(&self.dir, &self.name), &String::from_str("metadata.json"))
    }

    /// The path of the message's raw bytes.
    pub fn raw_path(&self) -> (r: String)
        ensures
            r@ == join_spec(self.path(), "body.raw"@),
    {
        join(&join(&self.dir, &self.name), &String::from_str("body.raw"))
    }

    /// The path of the message's HTML body.
    pub fn html_path(&self) -> (r: String)
        ensures
            r@ == join_spec(self.path(), "body.html"@),
    {
        join(&join(&self.dir, &self.name), &String::from_str("body.html"))
    }

    /// The path of the message's text body.
    pub fn text_path(&self) -> (r: String)
        ensures
            r@ == join_spec(self.path(), "body.text"@),
    {
        join(&join(&self.dir, &self.name), &String::from_str("body.text"))
    }

    /// The path of the message's directory of attachments.
    pub fn attachments_path(&self) -> (r: String)
        ensures
            r@ == join_spec(self.path(), "attachments"@),
    {
        join(&join(&self.dir, &self.name), &String::from_str("attachments"))
    }

    /// The bytes of the message as they were received.
    pub fn raw(&self, disk: &Disk) -> (r: Result<Vec<u8>, MailError>)
        requires
            disk.wf(),
        ensures
            bytes_read(disk@, self.path(), "body.raw"@, r),
    {
        read_bytes(disk, &join(&self.dir, &self.name), &String::from_str("body.raw"))
    }

    /// Whether the message has an HTML body file.
    pub fn has_html(&self, disk: &Disk) -> (r: Result<bool, MailError>)
        ensures
            r matches Ok(b) && b == present(disk@, self.path(), "body.html"@),
    {
        Ok(disk.contains(&join(&self.dir, &self.name), &String::from_str("body.html")))
    }

    /// The HTML body, if the message has one: an empty body file counts as
    /// none.
    pub fn html(&self, disk: &Disk) -> (r: Result<Option<String>, MailError>)
        requires
            disk.wf(),
        ensures
            text_read(disk@, self.path(), "body.html"@, r),
    {
        read_text(disk, &join(&self.dir, &self.name), "body.html")
    }

    /// Whether the message has a text body file.
    pub fn has_text(&self, disk: &Disk) -> (r: Result<bool, MailError>)
        ensures
            r matches Ok(b) && b == present(disk@, self.path(), "body.text"@),
    {
        Ok(disk.contains(&join(&self.dir, &self.name), &String::from_str("body.text")))
    }

    /// The text body, if the message has one: an empty body file counts as
    /// none.
    pub fn text(&self, disk: &Disk) -> (r: Result<Option<String>, MailError>)
        requires
            disk.wf(),
        ensures
            text_read(disk@, self.path(), "body.text"@, r),
    {
        read_text(disk, &join(&self.dir, &self.name), "body.text")
    }

    /// The metadata record: `FileOpen` where there is none, `SerdeRead` where
    /// the node of that name holds no record.
    pub fn metadata(&self, disk: &Disk) -> (r: Result<Metadata, MailError>)
        requires
            disk.wf(),
        ensures
            match lookup(disk@, self.path(), "metadata.json"@) {
                None => fails(r, MailErrorKind::FileOpen, join_spec(self.path(), "metadata.json"@)),
                Some(NodeView::Record(m)) => r matches Ok(v) && v@ == m,
                Some(_) => fails(
                    r,
                    MailErrorKind::SerdeRead,
                    join_spec(self.path(), "metadata.json"@),
                ),
            },
    {
        let path = join(&self.dir, &self.name);
        let name = String::from_str("metadata.json");
        match disk.get(&path, &name) {
            None => Err(MailError::new(MailErrorKind::FileOpen, join(&path, &name))),
            Some(Node::Record(m)) => Ok(copy_metadata(m)),
            Some(_) => Err(MailError::new(MailErrorKind::SerdeRead, join(&path, &name))),
        }
    }

    /// Whether the message was read: whether its read marker is there.
    pub open spec fn is_read(&self, es: Seq<EntryView>) -> bool {
        present(es, self.path(), "read"@)
    }

    /// Whether the message was read.
    pub fn read(&self, disk: &Disk) -> (r: Result<bool, MailError>)
        ensures
            r matches Ok(b) && b == self.is_read(disk@),
    {
        Ok(disk.contains(&join(&self.dir, &self.name), &String::from_str("read")))
    }

    /// Marks the message as read at the time `read_at` in milliseconds:
    /// writes the read marker, which holds that time in decimal digits.
    /// `FileOpen` where the message's directory is not there, or a directory
    /// has the marker's name.
    pub fn set_read_at(&self, disk: &mut Disk, read_at: u128) -> (r: Result<(), MailError>)
        requires
            old(disk).wf(),
        ensures
            final(disk).wf(),
            outcome_is(final(disk)@, r, marking(old(disk)@, self.dir@, self.name@, read_at)),
    {
        let path = join(&self.dir, &self.name);
        if !disk.is_dir(&self.dir, &self.name) {
            let file = String::from_str("read");
            return Err(MailError::new(MailErrorKind::FileOpen, join(&path, &file)));
        }
        let stamp = decimal(read_at);
        let bytes = stamp.as_str().as_bytes_vec();
        write_file(disk, &path, "read", Node::File(bytes))
    }

    /// Marks the message as read, at the time that the clock shows.
    pub fn set_read(&self, disk: &mut Disk) -> (r: Result<(), MailError>)
        requires
            old(disk).wf(),
        ensures
            final(disk).wf(),
            exists|read_at: u128|
                outcome_is(final(disk)@, r, #[trigger] marking(old(disk)@, self.dir@, self.name@, read_at)),
    {
        let read_at = now();
        let r = self.set_read_at(disk, read_at);
        assert(outcome_is(disk@, r, marking(old(disk)@, self.dir@, self.name@, read_at)));
        r
    }

    /// The attachments: the files in the message's directory of attachments.
    /// `DirRead` where the message has no such directory.
    pub fn attachments(&self, disk: &Disk) -> (r: Result<Vec<Attachment>, MailError>)
        requires
            disk.wf(),
        ensures
            match r {
                Ok(v) => lookup(disk@, self.path(), "attachments"@) == Some(NodeView::Dir)
                    && v@.len() == self.attachment_names(disk@).len() && forall|k: int|
                    0 <= k < v@.len() ==> (#[trigger] v@[k]).dir@ == join_spec(
                        self.path(),
                        "attachments"@,
                    ) && v@[k].name@ == self.attachment_names(disk@)[k],
                Err(e) => lookup(disk@, self.path(), "attachments"@) != Some(NodeView::Dir)
                    && e.kind == MailErrorKind::DirRead && e.path@ == join_spec(
                    self.path(),
                    "attachments"@,
                ),
            },
    {
        let path = join(&self.dir, &self.name);
        let name = String::from_str("attachments");
        let adir = join(&path, &name);
        if !disk.is_dir(&path, &name) {
            return Err(MailError::new(MailErrorKind::DirRead, adir));
        }
        let names = disk.names(&adir, false);
        let mut out: Vec<Attachment> = Vec::new();
        let mut i: usize = 0;
        while i < names.len()
            invariant
                i <= names.len(),
                out@.len() == i,
                forall|k: int|
                    0 <= k < i ==> (#[trigger] out@[k]).dir@ == adir@ && out@[k].name@
                        == names@[k]@,
            decreases names.len() - i,
        {
            out.push(Attachment { dir: adir.clone(), name: names[i].clone() });
            i += 1;
        }
        assert(strs(names@).len() == names@.len());
        assert forall|k: int| 0 <= k < out@.len() implies out@[k].name@ == self.attachment_names(
            disk@,
        )[k] by {
            assert(strs(names@)[k] == names@[k]@);
        }
        Ok(out)
    }

    /// The names of the files in the message's directory of attachments.
    pub open spec fn attachment_names(&self, es: Seq<EntryView>) -> Seq<Seq<char>> {
        names_of(es, join_spec(self.path(), "attachments"@), false)
    }
}

/// `base` without the beginning `path` and the `/` after it, where `base`
/// begins so.
pub open spec fn relative_spec(path: Seq<char>, base: Seq<char>) -> Option<Seq<char>> {
    if base == path {
        Some(Seq::empty())
    } else if base.len() > path.len() && base.subrange(0, path.len() as int) == path
        && base[path.len() as int] == '/' {
        Some(base.subrange(path.len() as int + 1, base.len() as int))
    } else {
        None
    }
}

impl Attachment {
    /// The file name of the attachment.
    pub fn id(&self) -> (r: String)
        ensures
            r@ == self.name@,
    {
        self.name.clone()
    }

    /// `base` as seen from the attachment's path: what follows the path and
    /// one `/` in `base`; empty where `base` is the path; nothing where
    /// `base` does not begin with the path. Both paths are taken as they are
    /// written, character by character: a doubled or a trailing `/` is not
    /// taken out first.
    pub fn relative(&self, base: &String) -> (r: Option<String>)
        ensures
            opt_str_view(r) == relative_spec(join_spec(self.dir@, self.name@), base@),
    {
        let path = join(&self.dir, &self.name);
        let lp = path.as_str().unicode_len();
        let lb = base.as_str().unicode_len();
        if lb < lp {
            return None;
        }
        let mut i: usize = 0;
        while i < lp
            invariant
                i <= lp,
                lp <= lb,
                lp == path@.len(),
                lb == base@.len(),
                path@ == join_spec(self.dir@, self.name@),
                forall|j: int| 0 <= j < i ==> path@[j] == base@[j],
            decreases lp - i,
        {
            if path.as_str().get_char(i) != base.as_str().get_char(i) {
                assert(base@.subrange(0, lp as int)[i as int] != path@[i as int]);
                return None;
            }
            i += 1;
        }
        assert(base@.subrange(0, lp as int) =~= path@);
        if lb == lp {
            assert(base@ =~= path@);
            return Some(String::new());
        }
        if base.as_str().get_char(lp) != '/' {
            return None;
        }
        Some(String::from_str(base.as_str().substring_char(lp + 1, lb)))
    }

    /// The bytes of the attachment.
    pub fn data(&self, disk: &Disk) -> (r: Result<Vec<u8>, MailError>)
        requires
            disk.wf(),
        ensures
            bytes_read(disk@, self.dir@, self.name@, r),
    {
        read_bytes(disk, &self.dir, &self.name)
    }
}

/// Whether a directory called `name` is in `dir` once it was asked for: it
/// is made where nothing has the name, and a file of that name stays a file.
pub fn ensure_dir(disk: &mut Disk, dir: &String, name: &String) -> (r: bool)
    requires
        old(disk).wf(),
    ensures
        final(disk).wf(),
        final(disk)@ == mkdir_spec(old(disk)@, dir@, name@),
        r == !occupied(old(disk)@, dir@, name@),
        r ==> lookup(final(disk)@, dir@, name@) == Some(NodeView::Dir),
{
    if disk.contains(dir, name) {
        disk.is_dir(dir, name)
    } else {
        proof {
            crate::disk::lemma_put(disk@, EntryView { dir: dir@, name: name@, node: NodeView::Dir });
        }
        disk.create_dir(dir, name);
        true
    }
}

/// Whether something that is no directory has the name `name` in `dir`.
pub open spec fn occupied(es: Seq<EntryView>, dir: Seq<char>, name: Seq<char>) -> bool {
    present(es, dir, name) && lookup(es, dir, name) != Some(NodeView::Dir)
}

/// The storing of one message for one recipient: the mailbox is made where
/// there is none (`DirCreate` where the collection cannot be listed,
/// `FileExists` where a file has the mailbox's name), the message's directory
/// is made (`DirCreate` where the id is taken), and the content is written
/// into it.
pub open spec fn create_spec(
    es: Seq<EntryView>,
    root: Seq<char>,
    mailbox: Seq<char>,
    id: Seq<char>,
    m: ParsedMessage,
    subject: Seq<char>,
) -> Outcome {
    let mpath = join_spec(root, mailbox);
    if !listable(es, root) {
        Outcome { tree: es, failed: Some((MailErrorKind::DirCreate, mpath)) }
    } else if occupied(es, root, mailbox) {
        Outcome { tree: es, failed: Some((MailErrorKind::FileExists, mpath)) }
    } else {
        let o = mkdir_step(started(mkdir_spec(es, root, mailbox)), mpath, id);
        if o.failed is Some {
            o
        } else {
            init_spec(o.tree, mpath, id, m, subject)
        }
    }
}

impl Mailboxes {
    /// Stores `message` under `id` in the mailbox of `mailbox`.
    ///
    /// A directory that was made for the message is never empty when a later
    /// step fails, so a failure leaves what was written so far.
    pub fn create_message(
        &self,
        disk: &mut Disk,
        mailbox: &String,
        id: &String,
        message: &ParsedMessage,
        subject: String,
    ) -> (r: Result<(), MailError>)
        requires
            old(disk).wf(),
        ensures
            final(disk).wf(),
            outcome_is(
                final(disk)@,
                r,
                create_spec(old(disk)@, self.path@, mailbox@, id@, *message, subject@),
            ),
    {
        let mpath = join(&self.path, mailbox);
        if !disk.is_listable(&self.path) {
            return Err(MailError::new(MailErrorKind::DirCreate, mpath));
        }
        if !ensure_dir(disk, &self.path, mailbox) {
            return Err(MailError::new(MailErrorKind::FileExists, mpath));
        }
        if let Err(e) = make_dir(disk, &mpath, id) {
            return Err(e);
        }
        MailItem::new(disk, mpath, id.clone(), message, subject)
    }
}

} // verus!
