//! A model of the directory tree that holds the mailboxes.
//!
//! Every node is filed under the path of the directory that contains it and
//! its own name. The tree is the only state of the mail store.

use vstd::prelude::*;
use vstd::string::*;

verus! {

/// The descriptive record that is kept beside each message.
#[derive(Debug, Clone)]
pub struct Metadata {
    pub id: String,
    pub subject: String,
    pub from: String,
    pub date: Option<String>,
}

pub struct MetadataView {
    pub id: Seq<char>,
    pub subject: Seq<char>,
    pub from: Seq<char>,
    pub date: Option<Seq<char>>,
}

/// The text of an optional string.
pub open spec fn opt_str_view(o: Option<String>) -> Option<Seq<char>> {
    match o {
        Some(s) => Some(s@),
        None => None,
    }
}

impl View for Metadata {
    type V = MetadataView;

    open spec fn view(&self) -> MetadataView {
        MetadataView {
            id: self.id@,
            subject: self.subject@,
            from: self.from@,
            date: opt_str_view(self.date),
        }
    }
}

/// What a path holds: a directory, a file of bytes, or a metadata record.
#[derive(Debug, Clone)]
pub enum Node {
    Dir,
    File(Vec<u8>),
    Record(Metadata),
}

pub enum NodeView {
    Dir,
    File(Seq<u8>),
    Record(MetadataView),
}

impl View for Node {
    type V = NodeView;

    open spec fn view(&self) -> NodeView {
        match self {
            Node::Dir => NodeView::Dir,
            Node::File(b) => NodeView::File(b@),
            Node::Record(m) => NodeView::Record(m@),
        }
    }
}

/// One node of the tree, with the directory it lies in and its name.
#[derive(Debug, Clone)]
pub struct Entry {
    pub dir: String,
    pub name: String,
    pub node: Node,
}

pub struct EntryView {
    pub dir: Seq<char>,
    pub name: Seq<char>,
    pub node: NodeView,
}

impl View for Entry {
    type V = EntryView;

    open spec fn view(&self) -> EntryView {
        EntryView { dir: self.dir@, name: self.name@, node: self.node@ }
    }
}

/// The path of `name` inside the directory `dir`.
pub open spec fn join_spec(dir: Seq<char>, name: Seq<char>) -> Seq<char> {
    dir + seq!['/'] + name
}

/// Entry `i` of `es` is the node called `name` in `dir`.
pub open spec fn at(es: Seq<EntryView>, i: int, dir: Seq<char>, name: Seq<char>) -> bool {
    0 <= i < es.len() && es[i].dir == dir && es[i].name == name
}

/// Some node is called `name` in `dir`.
pub open spec fn present(es: Seq<EntryView>, dir: Seq<char>, name: Seq<char>) -> bool {
    exists|i: int| at(es, i, dir, name)
}

/// The node called `name` in `dir`, if there is one.
pub open spec fn lookup(es: Seq<EntryView>, dir: Seq<char>, name: Seq<char>) -> Option<NodeView> {
    if present(es, dir, name) {
        Some(es[choose|i: int| at(es, i, dir, name)].node)
    } else {
        None
    }
}

/// No two entries share directory and name.
pub open spec fn unique(es: Seq<EntryView>) -> bool {
    forall|i: int, j: int| 0 <= i < j < es.len() ==> !at(es, j, es[i].dir, es[i].name)
}

/// The tree after `e` was filed: it takes the place of the node of the same
/// directory and name, or comes last.
pub open spec fn put_spec(es: Seq<EntryView>, e: EntryView) -> Seq<EntryView> {
    if present(es, e.dir, e.name) {
        es.update(choose|i: int| at(es, i, e.dir, e.name), e)
    } else {
        es.push(e)
    }
}

/// The tree after an attempt to make the directory `name` in `dir`: nothing
/// changes when the name is taken.
pub open spec fn mkdir_spec(es: Seq<EntryView>, dir: Seq<char>, name: Seq<char>) -> Seq<EntryView> {
    if present(es, dir, name) {
        es
    } else {
        es.push(EntryView { dir, name, node: NodeView::Dir })
    }
}

/// The tree after an attempt to write the file `name` in `dir`: nothing
/// changes when a directory has the name.
pub open spec fn write_spec(
    es: Seq<EntryView>,
    dir: Seq<char>,
    name: Seq<char>,
    node: NodeView,
) -> Seq<EntryView> {
    if lookup(es, dir, name) == Some(NodeView::Dir) {
        es
    } else {
        put_spec(es, EntryView { dir, name, node })
    }
}

/// Entry `i` of `es` is a node that is no directory and has the path `path`.
pub open spec fn blocks(es: Seq<EntryView>, i: int, path: Seq<char>) -> bool {
    0 <= i < es.len() && join_spec(es[i].dir, es[i].name) == path && !(es[i].node is Dir)
}

/// A node that is no directory has the path `path`, so that `path` cannot be
/// listed as a directory.
pub open spec fn blocked(es: Seq<EntryView>, path: Seq<char>) -> bool {
    exists|i: int| blocks(es, i, path)
}

/// Entry `i` of `es` is a directory and has the path `path`.
pub open spec fn roots(es: Seq<EntryView>, i: int, path: Seq<char>) -> bool {
    0 <= i < es.len() && join_spec(es[i].dir, es[i].name) == path && es[i].node is Dir
}

/// A directory of the tree has the path `path`.
pub open spec fn rooted(es: Seq<EntryView>, path: Seq<char>) -> bool {
    exists|i: int| roots(es, i, path)
}

/// The path `path` can be listed as a directory: a directory of the tree has
/// it, and no node that is none.
pub open spec fn listable(es: Seq<EntryView>, path: Seq<char>) -> bool {
    rooted(es, path) && !blocked(es, path)
}

/// Whether a node is a directory.
pub open spec fn is_dir_node(n: NodeView) -> bool {
    n is Dir
}

/// The names of the directories (`dirs`) or of the files (`!dirs`) that lie
/// directly in `dir`, in the order in which they were filed.
pub open spec fn names_of(es: Seq<EntryView>, dir: Seq<char>, dirs: bool) -> Seq<Seq<char>>
    decreases es.len(),
{
    if es.len() == 0 {
        Seq::empty()
    } else {
        let rest = names_of(es.drop_last(), dir, dirs);
        let e = es.last();
        if e.dir == dir && is_dir_node(e.node) == dirs {
            rest.push(e.name)
        } else {
            rest
        }
    }
}

/// The texts of a list of strings.
pub open spec fn strs(v: Seq<String>) -> Seq<Seq<char>> {
    v.map_values(|s: String| s@)
}

/// In a tree without doubles, the node found under a directory and a name is
/// the one entry that has them.
pub proof fn lemma_lookup_at(es: Seq<EntryView>, i: int, dir: Seq<char>, name: Seq<char>)
    requires
        unique(es),
        at(es, i, dir, name),
    ensures
        lookup(es, dir, name) == Some(es[i].node),
        (choose|k: int| at(es, k, dir, name)) == i,
{
    let k = choose|k: int| at(es, k, dir, name);
    assert(at(es, k, dir, name));
    if k < i {
        assert(!at(es, i, es[k].dir, es[k].name));
    } else if i < k {
        assert(!at(es, k, es[i].dir, es[i].name));
    }
}

/// Filing a node keeps the tree free of doubles, and changes what is found
/// under its own directory and name only.
pub proof fn lemma_put(es: Seq<EntryView>, e: EntryView)
    requires
        unique(es),
    ensures
        unique(put_spec(es, e)),
        lookup(put_spec(es, e), e.dir, e.name) == Some(e.node),
        forall|d: Seq<char>, n: Seq<char>|
            !(d == e.dir && n == e.name) ==> #[trigger] lookup(put_spec(es, e), d, n) == lookup(
                es,
                d,
                n,
            ),
{
    let r = put_spec(es, e);
    if present(es, e.dir, e.name) {
        let i = choose|i: int| at(es, i, e.dir, e.name);
        assert(at(es, i, e.dir, e.name));
        assert forall|a: int, b: int| 0 <= a < b < r.len() implies !at(
            r,
            b,
            r[a].dir,
            r[a].name,
        ) by {
            assert(!at(es, b, es[a].dir, es[a].name));
        }
        assert(at(r, i, e.dir, e.name));
        lemma_lookup_at(r, i, e.dir, e.name);
        assert forall|d: Seq<char>, n: Seq<char>| !(d == e.dir && n == e.name) implies lookup(
            r,
            d,
            n,
        ) == lookup(es, d, n) by {
            if present(es, d, n) {
                let k = choose|k: int| at(es, k, d, n);
                assert(at(es, k, d, n));
                assert(at(r, k, d, n));
                lemma_lookup_at(r, k, d, n);
            } else if present(r, d, n) {
                let k = choose|k: int| at(r, k, d, n);
                assert(at(r, k, d, n));
                assert(at(es, k, d, n));
            }
        }
    } else {
        let i = es.len() as int;
        assert forall|a: int, b: int| 0 <= a < b < r.len() implies !at(
            r,
            b,
            r[a].dir,
            r[a].name,
        ) by {
            if b < es.len() {
                assert(!at(es, b, es[a].dir, es[a].name));
            } else {
                assert(!at(es, a, e.dir, e.name));
            }
        }
        assert(at(r, i, e.dir, e.name));
        lemma_lookup_at(r, i, e.dir, e.name);
        assert forall|d: Seq<char>, n: Seq<char>| !(d == e.dir && n == e.name) implies lookup(
            r,
            d,
            n,
        ) == lookup(es, d, n) by {
            if present(es, d, n) {
                let k = choose|k: int| at(es, k, d, n);
                assert(at(es, k, d, n));
                assert(at(r, k, d, n));
                lemma_lookup_at(r, k, d, n);
            } else if present(r, d, n) {
                let k = choose|k: int| at(r, k, d, n);
                assert(at(r, k, d, n));
                assert(at(es, k, d, n));
            }
        }
    }
}

/// Copies a list of bytes.
pub fn copy_bytes(v: &Vec<u8>) -> (r: Vec<u8>)
    ensures
        r@ == v@,
{
    let mut out: Vec<u8> = Vec::new();
    let mut i: usize = 0;
    while i < v.len()
        invariant
            i <= v.len(),
            out@ == v@.take(i as int),
        decreases v.len() - i,
    {
        out.push(v[i]);
        assert(out@ =~= v@.take(i + 1));
        i += 1;
    }
    assert(v@.take(i as int) =~= v@);
    out
}

/// Whether two lists of bytes are the same.
pub fn same_bytes(a: &Vec<u8>, b: &Vec<u8>) -> (r: bool)
    ensures
        r == (a@ == b@),
{
    if a.len() != b.len() {
        return false;
    }
    let mut i: usize = 0;
    while i < a.len()
        invariant
            i <= a.len(),
            a.len() == b.len(),
            forall|k: int| 0 <= k < i ==> a@[k] == b@[k],
        decreases a.len() - i,
    {
        if a[i] != b[i] {
            return false;
        }
        i += 1;
    }
    assert(a@ =~= b@);
    true
}

/// Whether two optional strings are the same.
pub fn same_text(a: &Option<String>, b: &Option<String>) -> (r: bool)
    ensures
        r == (opt_str_view(*a) == opt_str_view(*b)),
{
    match (a, b) {
        (Some(x), Some(y)) => *x == *y,
        (None, None) => true,
        _ => false,
    }
}

/// Whether two nodes hold the same.
pub fn same_node(a: &Node, b: &Node) -> (r: bool)
    ensures
        r == (a@ == b@),
{
    match (a, b) {
        (Node::Dir, Node::Dir) => true,
        (Node::File(x), Node::File(y)) => same_bytes(x, y),
        (Node::Record(x), Node::Record(y)) => {
            x.id == y.id && x.subject == y.subject && x.from == y.from && same_text(
                &x.date,
                &y.date,
            )
        },
        _ => false,
    }
}

/// Which of the first `n` nodes of `after` are to be written so that a disk
/// that holds `before` holds `after`: those that `before` does not hold under
/// the same directory and name with the same content. The nodes are given by
/// their places in `after`, in rising order, so that a directory comes before
/// what was filed into it later.
pub open spec fn changes_spec(before: Seq<EntryView>, after: Seq<EntryView>, n: int) -> Seq<int>
    decreases n,
{
    if n <= 0 {
        Seq::empty()
    } else {
        let rest = changes_spec(before, after, n - 1);
        if lookup(before, after[n - 1].dir, after[n - 1].name) != Some(after[n - 1].node) {
            rest.push(n - 1)
        } else {
            rest
        }
    }
}

/// The places in `after` of the nodes that are to be written so that a disk
/// that holds `before` holds `after`.
pub fn changes(before: &Disk, after: &Disk) -> (r: Vec<usize>)
    requires
        before.wf(),
    ensures
        r@.map_values(|i: usize| i as int) == changes_spec(before@, after@, after@.len() as int),
{
    let mut out: Vec<usize> = Vec::new();
    let mut i: usize = 0;
    assert(out@.map_values(|i: usize| i as int) =~= changes_spec(before@, after@, 0));
    while i < after.len()
        invariant
            i <= after@.len(),
            before.wf(),
            out@.map_values(|i: usize| i as int) == changes_spec(before@, after@, i as int),
        decreases after@.len() - i,
    {
        let e = after.entry(i);
        let same = match before.get(&e.dir, &e.name) {
            Some(n) => same_node(n, &e.node),
            None => false,
        };
        if !same {
            let ghost old_out = out@;
            out.push(i);
            assert(out@.map_values(|i: usize| i as int) =~= old_out.map_values(
                |i: usize| i as int,
            ).push(i as int));
        }
        i += 1;
    }
    out
}

/// The node for a file called `name` that holds `bytes`: the record `record`
/// where the file is a metadata file and its bytes were decoded to a record,
/// else the bytes.
pub fn file_node(name: &String, bytes: Vec<u8>, record: Option<Metadata>) -> (r: Node)
    ensures
        r@ == if name@ == "metadata.json"@ && record is Some {
            NodeView::Record(record.unwrap()@)
        } else {
            NodeView::File(bytes@)
        },
        !(r is Dir),
{
    let wanted = String::from_str("metadata.json");
    if *name == wanted {
        match record {
            Some(m) => Node::Record(m),
            None => Node::File(bytes),
        }
    } else {
        Node::File(bytes)
    }
}

/// The directory tree: a list of nodes in which no directory holds a name
/// twice. A node is filed under the path of its directory as it is given: the
/// tree does not ask that this directory is a node of its own. Only the
/// collection of mailboxes and the directory of a message are asked to be
/// there before anything is filed into them.
#[derive(Debug, Clone)]
pub struct Disk {
    entries: Vec<Entry>,
}

impl View for Disk {
    type V = Seq<EntryView>;

    closed spec fn view(&self) -> Seq<EntryView> {
        self.entries@.map_values(|e: Entry| e@)
    }
}

/// The path of `name` inside the directory `dir`, with `/` between them.
pub fn join(dir: &String, name: &String) -> (r: String)
    ensures
        r@ == join_spec(dir@, name@),
{
    proof {
        reveal_strlit("/");
    }
    let mut s = dir.clone();
    s.append("/");
    s.append(name.as_str());
    assert(s@ =~= join_spec(dir@, name@));
    s
}

impl Disk {
    /// No directory holds a name twice.
    pub open spec fn wf(&self) -> bool {
        unique(self@)
    }

    /// The empty tree.
    pub fn new() -> (r: Disk)
        ensures
            r.wf(),
            r@ == Seq::<EntryView>::empty(),
    {
        let r = Disk { entries: Vec::new() };
        assert(r@ =~= Seq::<EntryView>::empty());
        r
    }

    /// The number of nodes.
    pub fn len(&self) -> (r: usize)
        ensures
            r == self@.len(),
    {
        self.entries.len()
    }

    /// Node number `i`, in the order of filing.
    pub fn entry(&self, i: usize) -> (r: &Entry)
        requires
            i < self@.len(),
        ensures
            r@ == self@[i as int],
    {
        &self.entries[i]
    }

    /// Where the node called `name` in `dir` stands, if there is one.
    pub fn find(&self, dir: &String, name: &String) -> (r: Option<usize>)
        ensures
            match r {
                Some(i) => at(self@, i as int, dir@, name@),
                None => !present(self@, dir@, name@),
            },
    {
        let mut i: usize = 0;
        while i < self.entries.len()
            invariant
                i <= self.entries.len(),
                forall|k: int| 0 <= k < i ==> !at(self@, k, dir@, name@),
            decreases self.entries.len() - i,
        {
            if self.entries[i].dir == *dir && self.entries[i].name == *name {
                return Some(i);
            }
            i += 1;
        }
        None
    }

    /// The node called `name` in `dir`, if there is one.
    pub fn get(&self, dir: &String, name: &String) -> (r: Option<&Node>)
        requires
            self.wf(),
        ensures
            match r {
                Some(n) => lookup(self@, dir@, name@) == Some(n@),
                None => lookup(self@, dir@, name@).is_none(),
            },
    {
        match self.find(dir, name) {
            Some(i) => {
                proof {
                    lemma_lookup_at(self@, i as int, dir@, name@);
                }
                Some(&self.entries[i].node)
            },
            None => None,
        }
    }

    /// Files `node` under `name` in `dir`, in place of what was there.
    pub fn put(&mut self, dir: &String, name: &String, node: Node)
        requires
            old(self).wf(),
        ensures
            final(self).wf(),
            final(self)@ == put_spec(
                old(self)@,
                EntryView { dir: dir@, name: name@, node: node@ },
            ),
    {
        let e = Entry { dir: dir.clone(), name: name.clone(), node };
        proof {
            lemma_put(self@, e@);
        }
        match self.find(dir, name) {
            Some(i) => {
                proof {
                    lemma_lookup_at(self@, i as int, dir@, name@);
                }
                self.entries.set(i, e);
                assert(self@ =~= put_spec(old(self)@, e@));
            },
            None => {
                self.entries.push(e);
                assert(self@ =~= put_spec(old(self)@, e@));
            },
        }
    }

    /// The names of the directories (`dirs`) or of the files (`!dirs`) that
    /// lie directly in `dir`.
    pub fn names(&self, dir: &String, dirs: bool) -> (r: Vec<String>)
        ensures
            strs(r@) == names_of(self@, dir@, dirs),
    {
        let mut out: Vec<String> = Vec::new();
        let mut i: usize = 0;
        assert(strs(out@) =~= names_of(self@.take(0), dir@, dirs));
        while i < self.entries.len()
            invariant
                i <= self.entries.len(),
                self@.len() == self.entries.len(),
                strs(out@) == names_of(self@.take(i as int), dir@, dirs),
            decreases self.entries.len() - i,
        {
            let e = &self.entries[i];
            let is_dir = match e.node {
                Node::Dir => true,
                _ => false,
            };
            proof {
                assert(self@.take(i + 1).drop_last() =~= self@.take(i as int));
                assert(self@.take(i + 1).last() == e@);
            }
            if e.dir == *dir && is_dir == dirs {
                let ghost before = out@;
                out.push(e.name.clone());
                assert(strs(out@) =~= strs(before).push(e.name@));
            }
            i += 1;
        }
        assert(self@.take(i as int) =~= self@);
        out
    }

    /// Whether a node that is no directory has the path `path`.
    pub fn is_blocked(&self, path: &String) -> (r: bool)
        ensures
            r == blocked(self@, path@),
    {
        let mut i: usize = 0;
        while i < self.entries.len()
            invariant
                i <= self.entries.len(),
                self@.len() == self.entries.len(),
                forall|k: int| 0 <= k < i ==> !blocks(self@, k, path@),
            decreases self.entries.len() - i,
        {
            let e = &self.entries[i];
            let is_dir = match e.node {
                Node::Dir => true,
                _ => false,
            };
            assert(self@[i as int] == e@);
            if !is_dir {
                let full = join(&e.dir, &e.name);
                if full == *path {
                    assert(blocks(self@, i as int, path@));
                    return true;
                }
            }
            i += 1;
        }
        false
    }

    /// Whether a directory of the tree has the path `path`.
    pub fn is_rooted(&self, path: &String) -> (r: bool)
        ensures
            r == rooted(self@, path@),
    {
        let mut i: usize = 0;
        while i < self.entries.len()
            invariant
                i <= self.entries.len(),
                self@.len() == self.entries.len(),
                forall|k: int| 0 <= k < i ==> !roots(self@, k, path@),
            decreases self.entries.len() - i,
        {
            let e = &self.entries[i];
            let is_dir = match e.node {
                Node::Dir => true,
                _ => false,
            };
            assert(self@[i as int] == e@);
            if is_dir {
                let full = join(&e.dir, &e.name);
                if full == *path {
                    assert(roots(self@, i as int, path@));
                    return true;
                }
            }
            i += 1;
        }
        false
    }

    /// Whether the path `path` can be listed as a directory.
    pub fn is_listable(&self, path: &String) -> (r: bool)
        ensures
            r == listable(self@, path@),
    {
        self.is_rooted(path) && !self.is_blocked(path)
    }

    /// Whether a node called `name` lies in `dir`.
    pub fn contains(&self, dir: &String, name: &String) -> (r: bool)
        ensures
            r == present(self@, dir@, name@),
    {
        self.find(dir, name).is_some()
    }

    /// Whether a directory called `name` lies in `dir`.
    pub fn is_dir(&self, dir: &String, name: &String) -> (r: bool)
        requires
            self.wf(),
        ensures
            r == (lookup(self@, dir@, name@) == Some(NodeView::Dir)),
    {
        match self.get(dir, name) {
            Some(Node::Dir) => true,
            _ => false,
        }
    }

    /// Makes the directory `name` in `dir`; refuses when the name is taken.
    pub fn create_dir(&mut self, dir: &String, name: &String) -> (ok: bool)
        requires
            old(self).wf(),
        ensures
            final(self).wf(),
            ok == !present(old(self)@, dir@, name@),
            final(self)@ == mkdir_spec(old(self)@, dir@, name@),
    {
        if self.contains(dir, name) {
            false
        } else {
            self.put(dir, name, Node::Dir);
            true
        }
    }

    /// Writes the file `name` in `dir`, over a file of that name if there
    /// is one; refuses when a directory has the name.
    pub fn write(&mut self, dir: &String, name: &String, node: Node) -> (ok: bool)
        requires
            old(self).wf(),
            !(node is Dir),
        ensures
            final(self).wf(),
            ok == (lookup(old(self)@, dir@, name@) != Some(NodeView::Dir)),
            final(self)@ == write_spec(old(self)@, dir@, name@, node@),
    {
        if self.is_dir(dir, name) {
            false
        } else {
            self.put(dir, name, node);
            true
        }
    }
}

} // verus!
