//! What holds of the mail store as a whole.

use crate::api::{fetch_spec, item_of, items_of, marked_spec, ItemView, MailView};
use crate::disk::{
    at, is_dir_node, join_spec, lemma_lookup_at, lemma_put, listable, lookup, mkdir_spec,
    names_of, opt_str_view, present, put_spec, strs, unique, EntryView, MetadataView, NodeView,
};
use crate::ingest::fanout_tree;
use crate::mail::{
    attach_spec, body_text, concat_text, create_spec, init_spec, lemma_attach_stays, marking,
    mkdir_step, occupied, open_step, started, stored, unread_of, write_step, Outcome,
};
use crate::mime::{ParsedMessage, Part};
use vstd::prelude::*;
use vstd::utf8::*;

verus! {

/// The names of the files of a message differ from one another.
pub proof fn lemma_names_differ()
    ensures
        "metadata.json"@ != "body.html"@,
        "metadata.json"@ != "body.text"@,
        "metadata.json"@ != "body.raw"@,
        "metadata.json"@ != "attachments"@,
        "metadata.json"@ != "read"@,
        "body.html"@ != "body.text"@,
        "body.html"@ != "body.raw"@,
        "body.html"@ != "attachments"@,
        "body.html"@ != "read"@,
        "body.text"@ != "body.raw"@,
        "body.text"@ != "attachments"@,
        "body.text"@ != "read"@,
        "body.raw"@ != "attachments"@,
        "body.raw"@ != "read"@,
        "attachments"@ != "read"@,
{
    reveal_strlit("metadata.json");
    reveal_strlit("body.html");
    reveal_strlit("body.text");
    reveal_strlit("body.raw");
    reveal_strlit("attachments");
    reveal_strlit("read");
    assert("metadata.json"@.len() == 13);
    assert("body.html"@.len() == 9);
    assert("body.text"@.len() == 9);
    assert("body.raw"@.len() == 8);
    assert("attachments"@.len() == 11);
    assert("read"@.len() == 4);
    assert("body.html"@[5] != "body.text"@[5]);
}

/// A path is longer than the directory it lies in.
pub proof fn lemma_join_longer(dir: Seq<char>, name: Seq<char>)
    ensures
        join_spec(dir, name).len() == dir.len() + 1 + name.len(),
        join_spec(dir, name) != dir,
{
}

/// A node that is there is still there after another was filed.
pub proof fn lemma_present_put(es: Seq<EntryView>, e: EntryView, d: Seq<char>, n: Seq<char>)
    requires
        present(es, d, n),
    ensures
        present(put_spec(es, e), d, n),
{
    let i = choose|i: int| at(es, i, d, n);
    assert(at(es, i, d, n));
    if present(es, e.dir, e.name) {
        let k = choose|k: int| at(es, k, e.dir, e.name);
        assert(at(es, k, e.dir, e.name));
    }
    assert(at(put_spec(es, e), i, d, n));
}

/// One write changes what is found under its own directory and name only,
/// and leaves every directory a directory.
pub proof fn lemma_write_step(o: Outcome, dir: Seq<char>, name: Seq<char>, node: NodeView)
    requires
        unique(o.tree),
    ensures
        unique(write_step(o, dir, name, node).tree),
        write_step(o, dir, name, node).failed is None ==> o.failed is None && lookup(
            write_step(o, dir, name, node).tree,
            dir,
            name,
        ) == Some(node),
        forall|d: Seq<char>, n: Seq<char>|
            !(d == dir && n == name) ==> #[trigger] lookup(
                write_step(o, dir, name, node).tree,
                d,
                n,
            ) == lookup(o.tree, d, n),
        forall|d: Seq<char>, n: Seq<char>|
            present(o.tree, d, n) ==> #[trigger] present(write_step(o, dir, name, node).tree, d, n),
{
    let e = EntryView { dir, name, node };
    lemma_put(o.tree, e);
    assert forall|d: Seq<char>, n: Seq<char>| present(o.tree, d, n) implies #[trigger] present(
        write_step(o, dir, name, node).tree,
        d,
        n,
    ) by {
        lemma_present_put(o.tree, e, d, n);
    }
}

/// One new directory changes what is found under its own directory and name
/// only.
pub proof fn lemma_mkdir_step(o: Outcome, dir: Seq<char>, name: Seq<char>)
    requires
        unique(o.tree),
    ensures
        unique(mkdir_step(o, dir, name).tree),
        mkdir_step(o, dir, name).failed is None ==> o.failed is None && lookup(
            mkdir_step(o, dir, name).tree,
            dir,
            name,
        ) == Some(NodeView::Dir),
        forall|d: Seq<char>, n: Seq<char>|
            !(d == dir && n == name) ==> #[trigger] lookup(mkdir_step(o, dir, name).tree, d, n)
                == lookup(o.tree, d, n),
        forall|d: Seq<char>, n: Seq<char>|
            present(o.tree, d, n) ==> #[trigger] present(mkdir_step(o, dir, name).tree, d, n),
{
    let e = EntryView { dir, name, node: NodeView::Dir };
    lemma_put(o.tree, e);
    assert forall|d: Seq<char>, n: Seq<char>| present(o.tree, d, n) implies #[trigger] present(
        mkdir_step(o, dir, name).tree,
        d,
        n,
    ) by {
        lemma_present_put(o.tree, e, d, n);
    }
}

/// The bytes of the last of the first `n` parts that is stored under `name`.
pub open spec fn last_named(parts: Seq<Part>, name: Seq<char>, n: int) -> Option<Seq<u8>>
    decreases n,
{
    if n <= 0 {
        None
    } else if stored(parts[n - 1]) && parts[n - 1].name.unwrap()@ == name {
        Some(parts[n - 1].contents@)
    } else {
        last_named(parts, name, n - 1)
    }
}

/// Writing the attachments changes the directory of attachments only, and
/// leaves under each name the bytes of the last part stored under it.
pub proof fn lemma_attach(o: Outcome, adir: Seq<char>, parts: Seq<Part>, n: int)
    requires
        unique(o.tree),
        0 <= n <= parts.len(),
    ensures
        unique(attach_spec(o, adir, parts, n).tree),
        attach_spec(o, adir, parts, n).failed is None ==> o.failed is None,
        forall|d: Seq<char>, x: Seq<char>|
            d != adir ==> #[trigger] lookup(attach_spec(o, adir, parts, n).tree, d, x) == lookup(
                o.tree,
                d,
                x,
            ),
        forall|d: Seq<char>, x: Seq<char>|
            present(o.tree, d, x) ==> #[trigger] present(attach_spec(o, adir, parts, n).tree, d, x),
        attach_spec(o, adir, parts, n).failed is None ==> forall|x: Seq<char>|
            #[trigger] lookup(attach_spec(o, adir, parts, n).tree, adir, x) == match last_named(
                parts,
                x,
                n,
            ) {
                Some(c) => Some(NodeView::File(c)),
                None => lookup(o.tree, adir, x),
            },
    decreases n,
{
    if n > 0 {
        lemma_attach(o, adir, parts, n - 1);
        let prev = attach_spec(o, adir, parts, n - 1);
        let p = parts[n - 1];
        if stored(p) {
            lemma_write_step(prev, adir, p.name.unwrap()@, NodeView::File(p.contents@));
        }
    }
}

/// The bytes of a body file are valid UTF-8.
pub proof fn lemma_concat_valid(parts: Seq<Seq<char>>)
    ensures
        valid_utf8(concat_text(parts)),
    decreases parts.len(),
{
    if parts.len() == 0 {
        assert(valid_utf8(Seq::<u8>::empty()));
    } else {
        lemma_concat_valid(parts.drop_last());
        encode_utf8_valid_utf8(parts.last());
        valid_utf8_concat(concat_text(parts.drop_last()), encode_utf8(parts.last()));
    }
}

/// A body of one part reads back as the text of that part, and a body
/// without text as none.
pub proof fn law_body_reads_back(s: Seq<char>)
    ensures
        body_text(concat_text(seq![s])) == if s.len() == 0 {
            None
        } else {
            Some(s)
        },
        body_text(concat_text(Seq::<Seq<char>>::empty())) is None,
{
    let parts = seq![s];
    assert(parts.drop_last() =~= Seq::<Seq<char>>::empty());
    assert(concat_text(parts.drop_last()) =~= Seq::<u8>::empty());
    assert(concat_text(parts) =~= encode_utf8(s));
    encode_utf8_decode_utf8(s);
    if encode_utf8(s).len() == 0 {
        assert(decode_utf8(encode_utf8(s)) =~= Seq::<char>::empty());
    }
    if s.len() == 0 {
        assert(s =~= Seq::<char>::empty());
        assert(encode_utf8(s).len() == 0);
    }
}

/// A part that is stored is the last, or comes before the last, of those
/// stored under its name.
pub proof fn lemma_stored_is_named(parts: Seq<Part>, k: int, n: int)
    requires
        0 <= k < n <= parts.len(),
        stored(parts[k]),
    ensures
        last_named(parts, parts[k].name.unwrap()@, n) is Some,
    decreases n,
{
    if k < n - 1 {
        lemma_stored_is_named(parts, k, n - 1);
    }
}

/// A node that lies in `dir` is among the names that the listing of `dir`
/// gives, among the directories where it is one and among the files where it
/// is none.
pub proof fn lemma_node_is_listed(es: Seq<EntryView>, dir: Seq<char>, name: Seq<char>, dirs: bool)
    requires
        unique(es),
        lookup(es, dir, name) is Some,
        is_dir_node(lookup(es, dir, name).unwrap()) == dirs,
    ensures
        names_of(es, dir, dirs).contains(name),
    decreases es.len(),
{
    let i = choose|i: int| at(es, i, dir, name);
    assert(at(es, i, dir, name));
    lemma_lookup_at(es, i, dir, name);
    let rest = es.drop_last();
    if i == es.len() - 1 {
        let listed = names_of(es, dir, dirs);
        assert(listed[listed.len() - 1] == name);
    } else {
        assert forall|a: int, b: int| 0 <= a < b < rest.len() implies !at(
            rest,
            b,
            rest[a].dir,
            rest[a].name,
        ) by {
            assert(!at(es, b, es[a].dir, es[a].name));
        }
        assert(at(rest, i, dir, name));
        lemma_lookup_at(rest, i, dir, name);
        lemma_node_is_listed(rest, dir, name, dirs);
        let before = names_of(rest, dir, dirs);
        let k = choose|k: int| 0 <= k < before.len() && before[k] == name;
        assert(names_of(es, dir, dirs)[k] == name);
    }
}

/// What is fetched of the message that was stored under `id` with `subject`.
pub open spec fn stored_mail(m: ParsedMessage, id: Seq<char>, subject: Seq<char>, mail: MailView)
    -> bool {
    &&& mail.metadata == MetadataView { id, subject, from: m.from@, date: opt_str_view(m.date) }
    &&& mail.html == body_text(concat_text(strs(m.html@)))
    &&& mail.text == body_text(concat_text(strs(m.text@)))
    &&& mail.raw == if valid_utf8(m.raw@) {
        Some(decode_utf8(m.raw@))
    } else {
        None
    }
}

/// Whether nothing stands in the way of writing `m` into the directory `id`
/// of the mailbox `dir`: that directory is there, no directory has the name
/// of one of the message's files, and the message has no directory of
/// attachments yet.
pub open spec fn clear_to_write(es: Seq<EntryView>, dir: Seq<char>, id: Seq<char>, m: ParsedMessage)
    -> bool {
    let path = join_spec(dir, id);
    let adir = join_spec(path, "attachments"@);
    &&& lookup(es, dir, id) == Some(NodeView::Dir)
    &&& lookup(es, path, "metadata.json"@) != Some(NodeView::Dir)
    &&& lookup(es, path, "body.html"@) != Some(NodeView::Dir)
    &&& lookup(es, path, "body.text"@) != Some(NodeView::Dir)
    &&& lookup(es, path, "body.raw"@) != Some(NodeView::Dir)
    &&& !present(es, path, "attachments"@)
    &&& names_are_free(es, adir, m.attachments@, m.attachments@.len() as int)
}

/// The writing of a message into its directory succeeds if and only if
/// nothing stands in the way. A message that was written is there as a
/// whole: fetching it gives its metadata, its HTML body, its text body, its
/// raw bytes and its attachments, and each file of an attachment holds the
/// bytes of the last part stored under its name. Whether it succeeds or not,
/// the writing touches nothing outside the message's directory and its
/// directory of attachments, leaves the read marker alone, and removes
/// nothing. Where it fails, the directories concerned hold the node that
/// stood in the way or what was written before it.
pub proof fn law_written_message_is_whole(
    es: Seq<EntryView>,
    dir: Seq<char>,
    id: Seq<char>,
    m: ParsedMessage,
    subject: Seq<char>,
)
    requires
        unique(es),
    ensures
        ({
            let o = init_spec(es, dir, id, m, subject);
            let path = join_spec(dir, id);
            let adir = join_spec(path, "attachments"@);
            &&& unique(o.tree)
            &&& o.failed is None <==> clear_to_write(es, dir, id, m)
            &&& forall|d: Seq<char>, n: Seq<char>|
                present(es, d, n) ==> #[trigger] present(o.tree, d, n)
            &&& forall|d: Seq<char>, n: Seq<char>|
                d != path && d != adir ==> #[trigger] lookup(o.tree, d, n) == lookup(es, d, n)
            &&& lookup(o.tree, path, "read"@) == lookup(es, path, "read"@)
            &&& o.failed is None ==> {
                &&& fetch_spec(o.tree, path) matches Ok(mail) && stored_mail(m, id, subject, mail)
                &&& forall|x: Seq<char>|
                    last_named(m.attachments@, x, m.attachments@.len() as int) matches Some(c)
                        ==> #[trigger] lookup(o.tree, adir, x) == Some(NodeView::File(c))
                &&& forall|k: int|
                    0 <= k < m.attachments@.len() && stored(#[trigger] m.attachments@[k])
                        ==> fetch_spec(o.tree, path)->Ok_0.attachments.contains(
                        m.attachments@[k].name.unwrap()@,
                    )
            }
            &&& o.failed is Some && lookup(es, dir, id) == Some(NodeView::Dir) ==> exists|
                x: Seq<char>,
            | present(o.tree, path, x)
            &&& o.failed is Some && !present(es, path, "attachments"@) && present(
                o.tree,
                path,
                "attachments"@,
            ) ==> exists|x: Seq<char>| present(o.tree, adir, x)
        }),
{
    let path = join_spec(dir, id);
    let adir = join_spec(path, "attachments"@);
    let parts = m.attachments@;
    let total = parts.len() as int;
    lemma_names_differ();
    lemma_join_longer(dir, id);
    lemma_join_longer(path, "attachments"@);
    let record = MetadataView { id, subject, from: m.from@, date: opt_str_view(m.date) };
    let html = NodeView::File(concat_text(strs(m.html@)));
    let text = NodeView::File(concat_text(strs(m.text@)));
    let o0 = open_step(started(es), dir, id, "metadata.json"@);
    let o1 = write_step(o0, path, "metadata.json"@, NodeView::Record(record));
    let o2 = write_step(o1, path, "body.html"@, html);
    let o3 = write_step(o2, path, "body.text"@, text);
    let o4 = write_step(o3, path, "body.raw"@, NodeView::File(m.raw@));
    let o5 = mkdir_step(o4, path, "attachments"@);
    let o6 = attach_spec(o5, adir, parts, total);
    assert(o6 == init_spec(es, dir, id, m, subject));
    lemma_write_step(o0, path, "metadata.json"@, NodeView::Record(record));
    lemma_write_step(o1, path, "body.html"@, html);
    lemma_write_step(o2, path, "body.text"@, text);
    lemma_write_step(o3, path, "body.raw"@, NodeView::File(m.raw@));
    lemma_mkdir_step(o4, path, "attachments"@);
    lemma_attach(o5, adir, parts, total);
    lemma_concat_valid(strs(m.html@));
    lemma_concat_valid(strs(m.text@));
    let t = o6.tree;
    assert(lookup(o1.tree, path, "body.html"@) == lookup(es, path, "body.html"@));
    assert(lookup(o2.tree, path, "body.text"@) == lookup(es, path, "body.text"@));
    assert(lookup(o3.tree, path, "body.raw"@) == lookup(es, path, "body.raw"@));
    assert(lookup(o4.tree, path, "attachments"@) == lookup(es, path, "attachments"@));
    assert(lookup(o5.tree, path, "read"@) == lookup(es, path, "read"@));
    assert forall|d: Seq<char>, n: Seq<char>| present(es, d, n) implies #[trigger] present(
        t,
        d,
        n,
    ) by {
        assert(present(o1.tree, d, n));
        assert(present(o2.tree, d, n));
        assert(present(o3.tree, d, n));
        assert(present(o4.tree, d, n));
        assert(present(o5.tree, d, n));
    }
    assert forall|d: Seq<char>, n: Seq<char>| d != path && d != adir implies #[trigger] lookup(
        t,
        d,
        n,
    ) == lookup(es, d, n) by {
        assert(lookup(o1.tree, d, n) == lookup(es, d, n));
        assert(lookup(o2.tree, d, n) == lookup(o1.tree, d, n));
        assert(lookup(o3.tree, d, n) == lookup(o2.tree, d, n));
        assert(lookup(o4.tree, d, n) == lookup(o3.tree, d, n));
        assert(lookup(o5.tree, d, n) == lookup(o4.tree, d, n));
    }
    if o0.failed is None && o1.failed is None {
        assert(present(o1.tree, path, "metadata.json"@));
        assert(present(o2.tree, path, "metadata.json"@));
        assert(present(o3.tree, path, "metadata.json"@));
        assert(present(o4.tree, path, "metadata.json"@));
        assert(present(o5.tree, path, "metadata.json"@));
        assert(present(t, path, "metadata.json"@));
    } else if o0.failed is None {
        assert(present(t, path, "metadata.json"@));
    }
    if o5.failed is None {
        lemma_attach_succeeds_iff(o5, adir, parts, total);
        assert forall|k: int| 0 <= k < total && stored(#[trigger] parts[k]) implies lookup(
            o5.tree,
            adir,
            parts[k].name.unwrap()@,
        ) == lookup(es, adir, parts[k].name.unwrap()@) by {
            let x = parts[k].name.unwrap()@;
            assert(lookup(o1.tree, adir, x) == lookup(es, adir, x));
            assert(lookup(o2.tree, adir, x) == lookup(o1.tree, adir, x));
            assert(lookup(o3.tree, adir, x) == lookup(o2.tree, adir, x));
            assert(lookup(o4.tree, adir, x) == lookup(o3.tree, adir, x));
            assert(lookup(o5.tree, adir, x) == lookup(o4.tree, adir, x));
        }
        assert(names_are_free(o5.tree, adir, parts, total) <==> names_are_free(
            es,
            adir,
            parts,
            total,
        ));
        if o6.failed is Some {
            lemma_attach_failure_has_cause(o5, adir, parts, total);
        } else {
            assert(lookup(t, path, "metadata.json"@) == Some(NodeView::Record(record)));
            assert(lookup(t, path, "body.html"@) == Some(html));
            assert(lookup(t, path, "body.text"@) == Some(text));
            assert(lookup(t, path, "body.raw"@) == Some(NodeView::File(m.raw@)));
            assert(lookup(t, path, "attachments"@) == Some(NodeView::Dir));
            assert forall|k: int| 0 <= k < parts.len() && stored(#[trigger] parts[k]) implies names_of(
                t,
                adir,
                false,
            ).contains(parts[k].name.unwrap()@) by {
                let x = parts[k].name.unwrap()@;
                lemma_stored_is_named(parts, k, total);
                assert(lookup(t, adir, x) is Some);
                lemma_node_is_listed(t, adir, x, false);
            }
        }
    } else {
        lemma_attach_stays(o5, adir, parts, 0, total);
    }
}

/// A message that was stored is there as a whole: its mailbox and its own
/// directory are directories, and fetching it gives its metadata, its HTML
/// body, its text body, its raw bytes and its attachments; each file of an
/// attachment holds the bytes of the last part stored under its name.
pub proof fn law_stored_message_is_whole(
    es: Seq<EntryView>,
    root: Seq<char>,
    mailbox: Seq<char>,
    id: Seq<char>,
    m: ParsedMessage,
    subject: Seq<char>,
)
    requires
        unique(es),
        create_spec(es, root, mailbox, id, m, subject).failed is None,
    ensures
        ({
            let t = create_spec(es, root, mailbox, id, m, subject).tree;
            let mpath = join_spec(root, mailbox);
            let path = join_spec(mpath, id);
            let adir = join_spec(path, "attachments"@);
            &&& unique(t)
            &&& lookup(t, root, mailbox) == Some(NodeView::Dir)
            &&& lookup(t, mpath, id) == Some(NodeView::Dir)
            &&& !present(t, path, "read"@) || present(es, path, "read"@)
            &&& fetch_spec(t, path) matches Ok(mail) && stored_mail(m, id, subject, mail)
            &&& forall|x: Seq<char>|
                last_named(m.attachments@, x, m.attachments@.len() as int) matches Some(c)
                    ==> #[trigger] lookup(t, adir, x) == Some(NodeView::File(c))
            &&& forall|k: int|
                0 <= k < m.attachments@.len() && stored(#[trigger] m.attachments@[k])
                    ==> fetch_spec(t, path)->Ok_0.attachments.contains(
                    m.attachments@[k].name.unwrap()@,
                )
        }),
{
    let mpath = join_spec(root, mailbox);
    let path = join_spec(mpath, id);
    lemma_join_longer(root, mailbox);
    lemma_join_longer(mpath, id);
    lemma_join_longer(path, "attachments"@);
    assert(!occupied(es, root, mailbox));
    let es1 = mkdir_spec(es, root, mailbox);
    lemma_mkdir_step(started(es), root, mailbox);
    assert(unique(es1));
    assert(lookup(es1, root, mailbox) == Some(NodeView::Dir));
    assert(lookup(es1, path, "read"@) == lookup(es, path, "read"@));
    let o0 = mkdir_step(started(es1), mpath, id);
    lemma_mkdir_step(started(es1), mpath, id);
    let es2 = o0.tree;
    assert(lookup(es2, path, "read"@) == lookup(es1, path, "read"@));
    assert(lookup(es2, root, mailbox) == Some(NodeView::Dir));
    law_written_message_is_whole(es2, mpath, id, m, subject);
    let t = init_spec(es2, mpath, id, m, subject).tree;
    assert(lookup(t, mpath, id) == lookup(es2, mpath, id));
    assert(lookup(t, root, mailbox) == lookup(es2, root, mailbox));
}

/// How many of `items` are unread.
pub open spec fn count_unread(items: Seq<ItemView>) -> nat
    decreases items.len(),
{
    if items.len() == 0 {
        0
    } else {
        let rest = count_unread(items.drop_last());
        if items.last().read {
            rest
        } else {
            rest + 1
        }
    }
}

/// On every tree, the number of unread messages of a mailbox is the number
/// of the messages in its list that are not read.
pub proof fn law_unread_counts_unread_messages(
    es: Seq<EntryView>,
    path: Seq<char>,
    ids: Seq<Seq<char>>,
)
    ensures
        unread_of(es, path, ids) == count_unread(items_of(es, path, ids)),
    decreases ids.len(),
{
    if ids.len() > 0 {
        law_unread_counts_unread_messages(es, path, ids.drop_last());
        assert(items_of(es, path, ids).drop_last() =~= items_of(es, path, ids.drop_last()));
        assert(items_of(es, path, ids).last() == item_of(es, path, ids.last()));
    }
}

/// The test "is not read".
pub open spec fn is_unread() -> spec_fn(ItemView) -> bool {
    |x: ItemView| !x.read
}

/// The number of unread items of a list does not depend on its order.
pub proof fn lemma_count_unread_by_multiset(s: Seq<ItemView>)
    ensures
        count_unread(s) == s.to_multiset().filter(is_unread()).len(),
    decreases s.len(),
{
    broadcast use vstd::seq_lib::group_to_multiset_ensures;
    broadcast use vstd::multiset::group_multiset_axioms;

    let f = is_unread();
    if s.len() == 0 {
        assert(s.to_multiset().len() == 0);
        assert(s.to_multiset().filter(f) =~= vstd::multiset::Multiset::<ItemView>::empty());
    } else {
        let r = s.drop_last();
        let x = s.last();
        lemma_count_unread_by_multiset(r);
        assert(s =~= r.push(x));
        let m = r.to_multiset();
        assert(s.to_multiset() =~= m.insert(x));
        if x.read {
            assert(m.insert(x).filter(f) =~= m.filter(f));
        } else {
            assert(m.insert(x).filter(f) =~= m.filter(f).insert(x));
            vstd::multiset::lemma_insert_len(m.filter(f), x);
        }
    }
}

/// On every tree, the number of unread messages of a mailbox is the number
/// of the messages that are not read in any list that holds each message of
/// the mailbox once, in whatever order.
pub proof fn law_unread_counts_any_list(
    es: Seq<EntryView>,
    path: Seq<char>,
    ids: Seq<Seq<char>>,
    list: Seq<ItemView>,
)
    requires
        list.to_multiset() == items_of(es, path, ids).to_multiset(),
    ensures
        unread_of(es, path, ids) == count_unread(list),
{
    law_unread_counts_unread_messages(es, path, ids);
    lemma_count_unread_by_multiset(list);
    lemma_count_unread_by_multiset(items_of(es, path, ids));
}

/// Marking a message as read makes it read; on a message that is read
/// already it changes nothing but the time that the marker holds: every
/// other node stays as it is, and whatever was there is still there.
pub proof fn law_mark_read_is_idempotent(
    es: Seq<EntryView>,
    dir: Seq<char>,
    name: Seq<char>,
    first: u128,
    second: u128,
)
    requires
        unique(es),
    ensures
        ({
            let path = join_spec(dir, name);
            let once = marking(es, dir, name, first);
            let twice = marking(once.tree, dir, name, second);
            &&& once.failed is None ==> present(once.tree, path, "read"@)
            &&& once.failed is None ==> twice.failed is None
            &&& forall|d: Seq<char>, n: Seq<char>|
                !(d == path && n == "read"@) ==> #[trigger] lookup(twice.tree, d, n) == lookup(
                    once.tree,
                    d,
                    n,
                )
            &&& forall|d: Seq<char>, n: Seq<char>| #[trigger]
                present(twice.tree, d, n) == present(once.tree, d, n)
        }),
{
    let path = join_spec(dir, name);
    lemma_join_longer(dir, name);
    let a = NodeView::File(encode_utf8(crate::text::decimal_spec(first as nat)));
    let b = NodeView::File(encode_utf8(crate::text::decimal_spec(second as nat)));
    let once = marking(es, dir, name, first);
    lemma_write_step(open_step(started(es), dir, name, "read"@), path, "read"@, a);
    assert(lookup(once.tree, dir, name) == lookup(es, dir, name));
    lemma_write_step(open_step(started(once.tree), dir, name, "read"@), path, "read"@, b);
    let twice = marking(once.tree, dir, name, second);
    assert forall|d: Seq<char>, n: Seq<char>| #[trigger]
        present(twice.tree, d, n) == present(once.tree, d, n) by {
        if !(d == path && n == "read"@) {
            assert(lookup(twice.tree, d, n) == lookup(once.tree, d, n));
        } else if present(twice.tree, d, n) && !present(once.tree, d, n) {
            assert(lookup(once.tree, d, n) is None);
            assert(once.failed is None);
        }
    }
}

/// A message that was read stays read when it is fetched again, at whatever
/// time, and fetching it again leaves the tree as it is.
pub proof fn law_fetching_again_changes_nothing(
    es: Seq<EntryView>,
    path: Seq<char>,
    now: u128,
    later: u128,
)
    requires
        unique(es),
    ensures
        present(marked_spec(es, path, now), path, "read"@),
        marked_spec(marked_spec(es, path, now), path, later) == marked_spec(es, path, now),
{
    if !present(es, path, "read"@) {
        let node = NodeView::File(encode_utf8(crate::text::decimal_spec(now as nat)));
        lemma_write_step(started(es), path, "read"@, node);
    }
}

/// Marking a message as read changes nothing of what is fetched of it: the
/// message reads the same before and after it was seen. And no message that
/// was read becomes unread by it: whatever was there is still there.
pub proof fn law_marking_keeps_the_message(es: Seq<EntryView>, path: Seq<char>, now: u128)
    requires
        unique(es),
    ensures
        unique(marked_spec(es, path, now)),
        fetch_spec(marked_spec(es, path, now), path) == fetch_spec(es, path),
        forall|d: Seq<char>, n: Seq<char>|
            present(es, d, n) ==> #[trigger] present(marked_spec(es, path, now), d, n),
{
    lemma_names_differ();
    lemma_write_step(
        started(es),
        path,
        "read"@,
        NodeView::File(encode_utf8(crate::text::decimal_spec(now as nat))),
    );
    lemma_join_longer(path, "attachments"@);
    if !present(es, path, "read"@) {
        let node = NodeView::File(encode_utf8(crate::text::decimal_spec(now as nat)));
        let e = EntryView { dir: path, name: "read"@, node };
        let t = marked_spec(es, path, now);
        lemma_put(es, e);
        assert(t == es.push(e));
        assert(t.drop_last() =~= es);
        let adir = join_spec(path, "attachments"@);
        assert(names_of(t, adir, false) == names_of(es, adir, false));
        assert(lookup(t, path, "body.html"@) == lookup(es, path, "body.html"@));
        assert(lookup(t, path, "body.text"@) == lookup(es, path, "body.text"@));
        assert(lookup(t, path, "body.raw"@) == lookup(es, path, "body.raw"@));
        assert(lookup(t, path, "attachments"@) == lookup(es, path, "attachments"@));
        assert(lookup(t, path, "metadata.json"@) == lookup(es, path, "metadata.json"@));
    }
}

/// Storing a message removes no read marker, nor any other node: what was
/// there before is there afterwards, whether or not the storing succeeded.
pub proof fn law_storing_keeps_what_is_there(
    es: Seq<EntryView>,
    root: Seq<char>,
    mailbox: Seq<char>,
    id: Seq<char>,
    m: ParsedMessage,
    subject: Seq<char>,
    d: Seq<char>,
    n: Seq<char>,
)
    requires
        unique(es),
        present(es, d, n),
    ensures
        unique(create_spec(es, root, mailbox, id, m, subject).tree),
        present(create_spec(es, root, mailbox, id, m, subject).tree, d, n),
{
    let mpath = join_spec(root, mailbox);
    if !occupied(es, root, mailbox) {
        let es1 = mkdir_spec(es, root, mailbox);
        lemma_mkdir_step(started(es), root, mailbox);
        assert(unique(es1) && present(es1, d, n)) by {
            if !present(es, root, mailbox) {
                assert(es1 == mkdir_step(started(es), root, mailbox).tree);
            }
        }
        let o0 = mkdir_step(started(es1), mpath, id);
        lemma_mkdir_step(started(es1), mpath, id);
        if o0.failed is None {
            assert(present(o0.tree, d, n));
            law_written_message_is_whole(o0.tree, mpath, id, m, subject);
        }
    }
}

/// Storing a message for its recipients removes no read marker, nor any
/// other node, in whatever mailbox.
pub proof fn law_delivery_keeps_what_is_there(
    es: Seq<EntryView>,
    root: Seq<char>,
    receivers: Seq<Seq<char>>,
    id: Seq<char>,
    m: ParsedMessage,
    subject: Seq<char>,
    k: int,
    d: Seq<char>,
    n: Seq<char>,
)
    requires
        unique(es),
        present(es, d, n),
    ensures
        unique(fanout_tree(es, root, receivers, id, m, subject, k)),
        present(fanout_tree(es, root, receivers, id, m, subject, k), d, n),
    decreases k,
{
    if k > 0 {
        law_delivery_keeps_what_is_there(es, root, receivers, id, m, subject, k - 1, d, n);
        law_storing_keeps_what_is_there(
            fanout_tree(es, root, receivers, id, m, subject, k - 1),
            root,
            receivers[k - 1],
            id,
            m,
            subject,
            d,
            n,
        );
    }
}

/// Where the writing of the attachments fails, the directory of attachments
/// holds the node that stood in the way.
pub proof fn lemma_attach_failure_has_cause(o: Outcome, adir: Seq<char>, parts: Seq<Part>, n: int)
    requires
        unique(o.tree),
        o.failed is None,
        0 <= n <= parts.len(),
        attach_spec(o, adir, parts, n).failed is Some,
    ensures
        exists|x: Seq<char>| present(attach_spec(o, adir, parts, n).tree, adir, x),
    decreases n,
{
    if n > 0 {
        let prev = attach_spec(o, adir, parts, n - 1);
        lemma_attach(o, adir, parts, n - 1);
        if prev.failed is Some {
            lemma_attach_failure_has_cause(o, adir, parts, n - 1);
        } else {
            let x = parts[n - 1].name.unwrap()@;
            assert(lookup(prev.tree, adir, x) == Some(NodeView::Dir));
            assert(present(attach_spec(o, adir, parts, n).tree, adir, x));
        }
    }
}

/// A storing that fails leaves no empty directory behind: each directory
/// that it made holds a node when it gives up. So there is nothing that a
/// removal of empty directories could take away again.
pub proof fn law_failed_storing_leaves_no_empty_directory(
    es: Seq<EntryView>,
    root: Seq<char>,
    mailbox: Seq<char>,
    id: Seq<char>,
    m: ParsedMessage,
    subject: Seq<char>,
)
    requires
        unique(es),
        create_spec(es, root, mailbox, id, m, subject).failed is Some,
    ensures
        ({
            let t = create_spec(es, root, mailbox, id, m, subject).tree;
            let mpath = join_spec(root, mailbox);
            let path = join_spec(mpath, id);
            let adir = join_spec(path, "attachments"@);
            &&& !present(es, root, mailbox) && present(t, root, mailbox) ==> exists|x: Seq<char>|
                present(t, mpath, x)
            &&& !present(es, mpath, id) && present(t, mpath, id) ==> exists|x: Seq<char>|
                present(t, path, x)
            &&& !present(es, path, "attachments"@) && present(t, path, "attachments"@)
                ==> exists|x: Seq<char>| present(t, adir, x)
        }),
{
    let mpath = join_spec(root, mailbox);
    let path = join_spec(mpath, id);
    lemma_join_longer(root, mailbox);
    lemma_join_longer(mpath, id);
    lemma_join_longer(path, "attachments"@);
    if !occupied(es, root, mailbox) {
        let es1 = mkdir_spec(es, root, mailbox);
        lemma_mkdir_step(started(es), root, mailbox);
        assert(unique(es1));
        assert(lookup(es1, mpath, id) == lookup(es, mpath, id));
        assert(lookup(es1, path, "attachments"@) == lookup(es, path, "attachments"@));
        let o0 = mkdir_step(started(es1), mpath, id);
        lemma_mkdir_step(started(es1), mpath, id);
        if o0.failed is None {
            let es2 = o0.tree;
            assert(present(es2, mpath, id));
            assert(lookup(es2, path, "attachments"@) == lookup(es, path, "attachments"@));
            law_written_message_is_whole(es2, mpath, id, m, subject);
            let t = init_spec(es2, mpath, id, m, subject).tree;
            assert(present(t, mpath, id));
        } else {
            assert(present(es1, mpath, id));
        }
    }
}

/// Where some part is the last stored under a name, a part is stored under
/// that name.
pub proof fn lemma_last_named_witness(parts: Seq<Part>, x: Seq<char>, n: int) -> (j: int)
    requires
        0 <= n <= parts.len(),
        last_named(parts, x, n) is Some,
    ensures
        0 <= j < n,
        stored(parts[j]),
        parts[j].name.unwrap()@ == x,
    decreases n,
{
    if stored(parts[n - 1]) && parts[n - 1].name.unwrap()@ == x {
        n - 1
    } else {
        lemma_last_named_witness(parts, x, n - 1)
    }
}

/// Whether no directory has the name of one of the first `n` parts that are
/// stored in `adir`.
pub open spec fn names_are_free(es: Seq<EntryView>, adir: Seq<char>, parts: Seq<Part>, n: int)
    -> bool {
    forall|k: int|
        0 <= k < n && stored(#[trigger] parts[k]) ==> lookup(es, adir, parts[k].name.unwrap()@)
            != Some(NodeView::Dir)
}

/// The attachments are written if and only if no directory has the name of
/// one of them.
pub proof fn lemma_attach_succeeds_iff(o: Outcome, adir: Seq<char>, parts: Seq<Part>, n: int)
    requires
        unique(o.tree),
        o.failed is None,
        0 <= n <= parts.len(),
    ensures
        attach_spec(o, adir, parts, n).failed is None <==> names_are_free(o.tree, adir, parts, n),
    decreases n,
{
    if n > 0 {
        lemma_attach_succeeds_iff(o, adir, parts, n - 1);
        lemma_attach(o, adir, parts, n - 1);
        let prev = attach_spec(o, adir, parts, n - 1);
        let p = parts[n - 1];
        if prev.failed is None {
            if stored(p) {
                let x = p.name.unwrap()@;
                if last_named(parts, x, n - 1) is Some {
                    let j = lemma_last_named_witness(parts, x, n - 1);
                    assert(stored(parts[j]));
                    assert(lookup(o.tree, adir, x) != Some(NodeView::Dir));
                    assert(lookup(prev.tree, adir, x) != Some(NodeView::Dir));
                } else {
                    assert(lookup(prev.tree, adir, x) == lookup(o.tree, adir, x));
                }
                if names_are_free(o.tree, adir, parts, n) {
                    assert(stored(parts[n - 1]));
                }
            } else {
                assert(names_are_free(o.tree, adir, parts, n - 1) ==> names_are_free(
                    o.tree,
                    adir,
                    parts,
                    n,
                ));
            }
        }
    }
}

/// Whether nothing stands in the way of storing `m` under `id` in the
/// mailbox `mailbox`: the collection can be listed, no file has the name of the
/// mailbox, the id is not taken, no directory has the name of one of the
/// message's files, and the message has no directory of attachments yet.
pub open spec fn nothing_in_the_way(
    es: Seq<EntryView>,
    root: Seq<char>,
    mailbox: Seq<char>,
    id: Seq<char>,
    m: ParsedMessage,
) -> bool {
    let mpath = join_spec(root, mailbox);
    let path = join_spec(mpath, id);
    let adir = join_spec(path, "attachments"@);
    &&& listable(es, root)
    &&& !occupied(es, root, mailbox)
    &&& !present(es, mpath, id)
    &&& lookup(es, path, "metadata.json"@) != Some(NodeView::Dir)
    &&& lookup(es, path, "body.html"@) != Some(NodeView::Dir)
    &&& lookup(es, path, "body.text"@) != Some(NodeView::Dir)
    &&& lookup(es, path, "body.raw"@) != Some(NodeView::Dir)
    &&& !present(es, path, "attachments"@)
    &&& names_are_free(es, adir, m.attachments@, m.attachments@.len() as int)
}

/// A message is stored if and only if nothing stands in the way. On a tree
/// that holds nothing under the message's path this asks only that no file
/// has the name of the mailbox and that the id is not taken.
pub proof fn law_storing_succeeds_iff_nothing_in_the_way(
    es: Seq<EntryView>,
    root: Seq<char>,
    mailbox: Seq<char>,
    id: Seq<char>,
    m: ParsedMessage,
    subject: Seq<char>,
)
    requires
        unique(es),
    ensures
        create_spec(es, root, mailbox, id, m, subject).failed is None <==> nothing_in_the_way(
            es,
            root,
            mailbox,
            id,
            m,
        ),
{
    let mpath = join_spec(root, mailbox);
    let path = join_spec(mpath, id);
    let adir = join_spec(path, "attachments"@);
    let parts = m.attachments@;
    let total = parts.len() as int;
    lemma_join_longer(root, mailbox);
    lemma_join_longer(mpath, id);
    lemma_join_longer(path, "attachments"@);
    if !occupied(es, root, mailbox) {
        let es1 = mkdir_spec(es, root, mailbox);
        lemma_mkdir_step(started(es), root, mailbox);
        assert(unique(es1));
        assert(lookup(es1, mpath, id) == lookup(es, mpath, id));
        let o0 = mkdir_step(started(es1), mpath, id);
        lemma_mkdir_step(started(es1), mpath, id);
        if o0.failed is None {
            let es2 = o0.tree;
            law_written_message_is_whole(es2, mpath, id, m, subject);
            assert(lookup(es2, path, "metadata.json"@) == lookup(es1, path, "metadata.json"@));
            assert(lookup(es1, path, "metadata.json"@) == lookup(es, path, "metadata.json"@));
            assert(lookup(es2, path, "body.html"@) == lookup(es1, path, "body.html"@));
            assert(lookup(es1, path, "body.html"@) == lookup(es, path, "body.html"@));
            assert(lookup(es2, path, "body.text"@) == lookup(es1, path, "body.text"@));
            assert(lookup(es1, path, "body.text"@) == lookup(es, path, "body.text"@));
            assert(lookup(es2, path, "body.raw"@) == lookup(es1, path, "body.raw"@));
            assert(lookup(es1, path, "body.raw"@) == lookup(es, path, "body.raw"@));
            assert(lookup(es2, path, "attachments"@) == lookup(es1, path, "attachments"@));
            assert(lookup(es1, path, "attachments"@) == lookup(es, path, "attachments"@));
            assert forall|k: int| 0 <= k < total && stored(#[trigger] parts[k]) implies lookup(
                es2,
                adir,
                parts[k].name.unwrap()@,
            ) == lookup(es, adir, parts[k].name.unwrap()@) by {
                let x = parts[k].name.unwrap()@;
                assert(lookup(es1, adir, x) == lookup(es, adir, x));
                assert(lookup(es2, adir, x) == lookup(es1, adir, x));
            }
            assert(names_are_free(es2, adir, parts, total) <==> names_are_free(
                es,
                adir,
                parts,
                total,
            ));
        }
    }
}

/// One operation of the mail store on the tree.
pub enum Step {
    /// A message is stored for one recipient.
    Store { root: Seq<char>, mailbox: Seq<char>, id: Seq<char>, message: ParsedMessage, subject: Seq<char> },
    /// A message is marked as read.
    Mark { dir: Seq<char>, name: Seq<char>, at: u128 },
    /// A message is fetched, and marked as read by it.
    Fetch { path: Seq<char>, at: u128 },
    /// A list is read, which changes nothing.
    List,
}

/// The tree after one operation, whether or not the operation succeeded.
pub open spec fn step_tree(es: Seq<EntryView>, step: Step) -> Seq<EntryView> {
    match step {
        Step::Store { root, mailbox, id, message, subject } => create_spec(
            es,
            root,
            mailbox,
            id,
            message,
            subject,
        ).tree,
        Step::Mark { dir, name, at } => marking(es, dir, name, at).tree,
        Step::Fetch { path, at } => marked_spec(es, path, at),
        Step::List => es,
    }
}

/// The tree after the first `n` of `steps`, one after another.
pub open spec fn tree_after(es: Seq<EntryView>, steps: Seq<Step>, n: int) -> Seq<EntryView>
    decreases n,
{
    if n <= 0 {
        es
    } else {
        step_tree(tree_after(es, steps, n - 1), steps[n - 1])
    }
}

/// Over every order of operations, for whatever messages, a message that was
/// read stays read: its marker, like every other node, is still there after
/// any number of storings, markings, fetches and listings.
pub proof fn law_read_stays_read(
    es: Seq<EntryView>,
    steps: Seq<Step>,
    k: int,
    d: Seq<char>,
    n: Seq<char>,
)
    requires
        unique(es),
        present(es, d, n),
        0 <= k <= steps.len(),
    ensures
        unique(tree_after(es, steps, k)),
        present(tree_after(es, steps, k), d, n),
    decreases k,
{
    if k > 0 {
        law_read_stays_read(es, steps, k - 1, d, n);
        let before = tree_after(es, steps, k - 1);
        match steps[k - 1] {
            Step::Store { root, mailbox, id, message, subject } => {
                law_storing_keeps_what_is_there(before, root, mailbox, id, message, subject, d, n);
            },
            Step::Mark { dir, name, at } => {
                lemma_write_step(
                    open_step(started(before), dir, name, "read"@),
                    join_spec(dir, name),
                    "read"@,
                    NodeView::File(encode_utf8(crate::text::decimal_spec(at as nat))),
                );
            },
            Step::Fetch { path, at } => {
                law_marking_keeps_the_message(before, path, at);
            },
            Step::List => {},
        }
    }
}

/// Two names that give the same path in one directory are the same name.
pub proof fn lemma_join_same_dir(dir: Seq<char>, a: Seq<char>, b: Seq<char>)
    requires
        join_spec(dir, a) == join_spec(dir, b),
    ensures
        a == b,
{
    let p = join_spec(dir, a);
    let q = join_spec(dir, b);
    assert(a =~= p.subrange(dir.len() as int + 1, p.len() as int));
    assert(b =~= q.subrange(dir.len() as int + 1, q.len() as int));
}

/// A node that takes the place of another in a directory other than `d`
/// changes nothing of the listing of `d`.
pub proof fn lemma_names_update(
    es: Seq<EntryView>,
    i: int,
    e: EntryView,
    d: Seq<char>,
    dirs: bool,
)
    requires
        0 <= i < es.len(),
        es[i].dir != d,
        e.dir != d,
    ensures
        names_of(es.update(i, e), d, dirs) == names_of(es, d, dirs),
    decreases es.len(),
{
    let after = es.update(i, e);
    if i == es.len() - 1 {
        assert(after.drop_last() =~= es.drop_last());
    } else {
        assert(after.drop_last() =~= es.drop_last().update(i, e));
        lemma_names_update(es.drop_last(), i, e, d, dirs);
    }
}

/// A node that is filed in a directory other than `d` changes nothing of the
/// listing of `d`.
pub proof fn lemma_names_put_elsewhere(es: Seq<EntryView>, e: EntryView, d: Seq<char>, dirs: bool)
    requires
        e.dir != d,
    ensures
        names_of(put_spec(es, e), d, dirs) == names_of(es, d, dirs),
        names_of(es.push(e), d, dirs) == names_of(es, d, dirs),
{
    assert(es.push(e).drop_last() =~= es);
    if present(es, e.dir, e.name) {
        let i = choose|i: int| at(es, i, e.dir, e.name);
        assert(at(es, i, e.dir, e.name));
        lemma_names_update(es, i, e, d, dirs);
    }
}

/// Writing the attachments changes nothing of the listing of a directory
/// other than the directory of attachments.
pub proof fn lemma_attach_keeps_lists(
    o: Outcome,
    adir: Seq<char>,
    parts: Seq<Part>,
    n: int,
    d: Seq<char>,
    dirs: bool,
)
    requires
        0 <= n <= parts.len(),
        d != adir,
    ensures
        names_of(attach_spec(o, adir, parts, n).tree, d, dirs) == names_of(o.tree, d, dirs),
    decreases n,
{
    if n > 0 {
        lemma_attach_keeps_lists(o, adir, parts, n - 1, d, dirs);
        let prev = attach_spec(o, adir, parts, n - 1);
        let p = parts[n - 1];
        if stored(p) {
            lemma_names_put_elsewhere(
                prev.tree,
                EntryView { dir: adir, name: p.name.unwrap()@, node: NodeView::File(p.contents@) },
                d,
                dirs,
            );
        }
    }
}

/// The writing of a message changes nothing of the listing of a directory
/// other than the message's own and its directory of attachments.
pub proof fn lemma_written_keeps_lists(
    es: Seq<EntryView>,
    dir: Seq<char>,
    id: Seq<char>,
    m: ParsedMessage,
    subject: Seq<char>,
    d: Seq<char>,
    dirs: bool,
)
    requires
        d != join_spec(dir, id),
        d != join_spec(join_spec(dir, id), "attachments"@),
    ensures
        names_of(init_spec(es, dir, id, m, subject).tree, d, dirs) == names_of(es, d, dirs),
{
    let path = join_spec(dir, id);
    let adir = join_spec(path, "attachments"@);
    let record = MetadataView { id, subject, from: m.from@, date: opt_str_view(m.date) };
    let meta = NodeView::Record(record);
    let html = NodeView::File(concat_text(strs(m.html@)));
    let text = NodeView::File(concat_text(strs(m.text@)));
    let raw = NodeView::File(m.raw@);
    let o0 = open_step(started(es), dir, id, "metadata.json"@);
    let o1 = write_step(o0, path, "metadata.json"@, meta);
    let o2 = write_step(o1, path, "body.html"@, html);
    let o3 = write_step(o2, path, "body.text"@, text);
    let o4 = write_step(o3, path, "body.raw"@, raw);
    let o5 = mkdir_step(o4, path, "attachments"@);
    lemma_names_put_elsewhere(o0.tree, EntryView { dir: path, name: "metadata.json"@, node: meta }, d, dirs);
    lemma_names_put_elsewhere(o1.tree, EntryView { dir: path, name: "body.html"@, node: html }, d, dirs);
    lemma_names_put_elsewhere(o2.tree, EntryView { dir: path, name: "body.text"@, node: text }, d, dirs);
    lemma_names_put_elsewhere(o3.tree, EntryView { dir: path, name: "body.raw"@, node: raw }, d, dirs);
    lemma_names_put_elsewhere(
        o4.tree,
        EntryView { dir: path, name: "attachments"@, node: NodeView::Dir },
        d,
        dirs,
    );
    lemma_attach_keeps_lists(o5, adir, m.attachments@, m.attachments@.len() as int, d, dirs);
}

/// The number of unread messages among `ids` is the same on two trees that
/// agree on the read markers of these messages.
pub proof fn lemma_unread_same(
    es: Seq<EntryView>,
    t: Seq<EntryView>,
    path: Seq<char>,
    ids: Seq<Seq<char>>,
)
    requires
        forall|k: int|
            0 <= k < ids.len() ==> present(t, join_spec(path, #[trigger] ids[k]), "read"@)
                == present(es, join_spec(path, ids[k]), "read"@),
    ensures
        unread_of(t, path, ids) == unread_of(es, path, ids),
    decreases ids.len(),
{
    if ids.len() > 0 {
        let rest = ids.drop_last();
        assert forall|k: int| 0 <= k < rest.len() implies present(
            t,
            join_spec(path, #[trigger] rest[k]),
            "read"@,
        ) == present(es, join_spec(path, rest[k]), "read"@) by {
            assert(rest[k] == ids[k]);
        }
        lemma_unread_same(es, t, path, rest);
        assert(ids.last() == ids[ids.len() - 1]);
    }
}

/// Storing a message adds it to the list of its mailbox as an unread one:
/// the mailbox has one unread message more, and the messages that were in it
/// are read or unread as before. This is stated for a message that has no
/// read marker yet, and for a mailbox that holds no message under the name of
/// the new message's directory of attachments.
pub proof fn law_storing_adds_one_unread(
    es: Seq<EntryView>,
    root: Seq<char>,
    mailbox: Seq<char>,
    id: Seq<char>,
    m: ParsedMessage,
    subject: Seq<char>,
)
    requires
        unique(es),
        create_spec(es, root, mailbox, id, m, subject).failed is None,
        !present(es, join_spec(join_spec(root, mailbox), id), "read"@),
        !present(es, join_spec(root, mailbox), join_spec(id, "attachments"@)),
    ensures
        ({
            let t = create_spec(es, root, mailbox, id, m, subject).tree;
            let mpath = join_spec(root, mailbox);
            let ids = names_of(es, mpath, true);
            &&& names_of(t, mpath, true) == ids.push(id)
            &&& !present(t, join_spec(mpath, id), "read"@)
            &&& forall|k: int|
                0 <= k < ids.len() ==> present(t, join_spec(mpath, #[trigger] ids[k]), "read"@)
                    == present(es, join_spec(mpath, ids[k]), "read"@)
            &&& unread_of(t, mpath, names_of(t, mpath, true)) == unread_of(es, mpath, ids) + 1
        }),
{
    let mpath = join_spec(root, mailbox);
    let path = join_spec(mpath, id);
    let adir = join_spec(path, "attachments"@);
    let ids = names_of(es, mpath, true);
    lemma_join_longer(root, mailbox);
    lemma_join_longer(mpath, id);
    lemma_join_longer(path, "attachments"@);
    let es1 = mkdir_spec(es, root, mailbox);
    let first = EntryView { dir: root, name: mailbox, node: NodeView::Dir };
    lemma_mkdir_step(started(es), root, mailbox);
    lemma_names_put_elsewhere(es, first, mpath, true);
    assert(names_of(es1, mpath, true) == ids);
    assert(unique(es1));
    let o0 = mkdir_step(started(es1), mpath, id);
    lemma_mkdir_step(started(es1), mpath, id);
    let es2 = o0.tree;
    let made = EntryView { dir: mpath, name: id, node: NodeView::Dir };
    assert(es2 == es1.push(made));
    assert(es2.drop_last() =~= es1);
    assert(names_of(es2, mpath, true) == ids.push(id));
    law_written_message_is_whole(es2, mpath, id, m, subject);
    lemma_written_keeps_lists(es2, mpath, id, m, subject, mpath, true);
    let t = init_spec(es2, mpath, id, m, subject).tree;
    assert(lookup(es1, path, "read"@) == lookup(es, path, "read"@));
    assert(lookup(es2, path, "read"@) == lookup(es1, path, "read"@));
    assert(lookup(es1, mpath, id) == lookup(es, mpath, id));
    assert forall|k: int| 0 <= k < ids.len() implies present(
        t,
        join_spec(mpath, #[trigger] ids[k]),
        "read"@,
    ) == present(es, join_spec(mpath, ids[k]), "read"@) by {
        let x = ids[k];
        let d = join_spec(mpath, x);
        crate::api::lemma_named_is_there(es, mpath, true, k);
        lemma_join_longer(mpath, x);
        assert(x != id);
        assert(x != join_spec(id, "attachments"@));
        if d == path {
            lemma_join_same_dir(mpath, x, id);
        }
        if d == adir {
            assert(adir =~= join_spec(mpath, join_spec(id, "attachments"@)));
            lemma_join_same_dir(mpath, x, join_spec(id, "attachments"@));
        }
        assert(lookup(es1, d, "read"@) == lookup(es, d, "read"@));
        assert(lookup(es2, d, "read"@) == lookup(es1, d, "read"@));
        assert(lookup(t, d, "read"@) == lookup(es2, d, "read"@));
    }
    lemma_unread_same(es, t, mpath, ids);
    assert(ids.push(id).drop_last() =~= ids);
}

/// A tree without doubles keeps its doubles out of every listing too: no
/// name comes twice in the listing of a directory.
pub proof fn lemma_names_distinct(es: Seq<EntryView>, dir: Seq<char>, dirs: bool)
    requires
        unique(es),
    ensures
        forall|i: int, j: int|
            0 <= i < j < names_of(es, dir, dirs).len() ==> names_of(es, dir, dirs)[i] != names_of(
                es,
                dir,
                dirs,
            )[j],
    decreases es.len(),
{
    if es.len() > 0 {
        let rest = es.drop_last();
        let last = es.last();
        assert forall|a: int, b: int| 0 <= a < b < rest.len() implies !at(
            rest,
            b,
            rest[a].dir,
            rest[a].name,
        ) by {
            assert(!at(es, b, es[a].dir, es[a].name));
        }
        lemma_names_distinct(rest, dir, dirs);
        let before = names_of(rest, dir, dirs);
        if last.dir == dir && is_dir_node(last.node) == dirs {
            assert forall|i: int| 0 <= i < before.len() implies before[i] != last.name by {
                if before[i] == last.name {
                    crate::api::lemma_named_is_there(rest, dir, dirs, i);
                    let k = choose|k: int| at(rest, k, dir, last.name);
                    assert(at(rest, k, dir, last.name));
                    assert(!at(es, es.len() - 1, es[k].dir, es[k].name));
                }
            }
        }
    }
}

/// Where one of the messages `ids`, each of which comes once, goes from
/// unread to read and the others stay as they are, the number of unread
/// messages falls by one.
pub proof fn lemma_unread_one_less(
    es: Seq<EntryView>,
    t: Seq<EntryView>,
    path: Seq<char>,
    ids: Seq<Seq<char>>,
    name: Seq<char>,
)
    requires
        forall|i: int, j: int| 0 <= i < j < ids.len() ==> ids[i] != ids[j],
        forall|k: int|
            0 <= k < ids.len() && #[trigger] ids[k] != name ==> present(
                t,
                join_spec(path, ids[k]),
                "read"@,
            ) == present(es, join_spec(path, ids[k]), "read"@),
        !present(es, join_spec(path, name), "read"@),
        present(t, join_spec(path, name), "read"@),
    ensures
        unread_of(es, path, ids) == unread_of(t, path, ids) + if ids.contains(name) {
            1nat
        } else {
            0nat
        },
    decreases ids.len(),
{
    if ids.len() > 0 {
        let rest = ids.drop_last();
        let last = ids.last();
        assert(last == ids[ids.len() - 1]);
        assert forall|k: int| 0 <= k < rest.len() implies rest[k] == ids[k] by {}
        assert forall|k: int| 0 <= k < rest.len() && #[trigger] rest[k] != name implies present(
            t,
            join_spec(path, rest[k]),
            "read"@,
        ) == present(es, join_spec(path, rest[k]), "read"@) by {
            assert(rest[k] == ids[k]);
        }
        lemma_unread_one_less(es, t, path, rest, name);
        if last == name {
            assert forall|k: int| 0 <= k < rest.len() implies rest[k] != name by {
                assert(ids[k] != ids[ids.len() - 1]);
            }
            assert(!rest.contains(name));
            assert(ids.contains(name));
        } else {
            if ids.contains(name) {
                let k = choose|k: int| 0 <= k < ids.len() && ids[k] == name;
                assert(rest[k] == name);
                assert(rest.contains(name));
            }
            if rest.contains(name) {
                let k = choose|k: int| 0 <= k < rest.len() && rest[k] == name;
                assert(ids[k] == name);
                assert(ids.contains(name));
            }
        }
    }
}

/// Marking an unread message as read takes one from the number of unread
/// messages of its mailbox: the list of the mailbox stays as it is, the
/// message is read afterwards, and every other message of the mailbox is
/// read or unread as before.
pub proof fn law_marking_takes_one_unread(
    es: Seq<EntryView>,
    dir: Seq<char>,
    name: Seq<char>,
    at: u128,
)
    requires
        unique(es),
        marking(es, dir, name, at).failed is None,
        !present(es, join_spec(dir, name), "read"@),
    ensures
        ({
            let t = marking(es, dir, name, at).tree;
            let ids = names_of(es, dir, true);
            &&& names_of(t, dir, true) == ids
            &&& present(t, join_spec(dir, name), "read"@)
            &&& forall|k: int|
                0 <= k < ids.len() && #[trigger] ids[k] != name ==> present(
                    t,
                    join_spec(dir, ids[k]),
                    "read"@,
                ) == present(es, join_spec(dir, ids[k]), "read"@)
            &&& unread_of(es, dir, ids) == unread_of(t, dir, names_of(t, dir, true)) + 1
        }),
{
    let path = join_spec(dir, name);
    let ids = names_of(es, dir, true);
    let node = NodeView::File(encode_utf8(crate::text::decimal_spec(at as nat)));
    let e = EntryView { dir: path, name: "read"@, node };
    let t = marking(es, dir, name, at).tree;
    lemma_join_longer(dir, name);
    lemma_write_step(open_step(started(es), dir, name, "read"@), path, "read"@, node);
    lemma_names_put_elsewhere(es, e, dir, true);
    assert(t == put_spec(es, e));
    lemma_names_distinct(es, dir, true);
    lemma_node_is_listed(es, dir, name, true);
    assert forall|k: int| 0 <= k < ids.len() && #[trigger] ids[k] != name implies present(
        t,
        join_spec(dir, ids[k]),
        "read"@,
    ) == present(es, join_spec(dir, ids[k]), "read"@) by {
        let d = join_spec(dir, ids[k]);
        if d == path {
            lemma_join_same_dir(dir, ids[k], name);
        }
        assert(lookup(t, d, "read"@) == lookup(es, d, "read"@));
    }
    lemma_unread_one_less(es, t, dir, ids, name);
}

} // verus!
