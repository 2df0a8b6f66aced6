//! A parsed message, as the mail store reads it.

use crate::disk::{copy_bytes, opt_str_view, strs};
use vstd::prelude::*;

verus! {

/// One part of a message that the parser lists among the attachments.
#[derive(Debug, Clone)]
pub struct Part {
    /// Whether the part's disposition marks it as an attachment.
    pub is_attachment: bool,
    /// The file name that the part declares, if it declares one.
    pub name: Option<String>,
    /// The decoded bytes of the part.
    pub contents: Vec<u8>,
}

/// What the mail store reads of a parsed message.
#[derive(Debug, Clone)]
pub struct ParsedMessage {
    /// The subject header, if there is one.
    pub subject: Option<String>,
    /// The sender: the address of a single-address sender header, the text of
    /// a textual one, otherwise empty.
    pub from: String,
    /// The address of the recipient header, where that header holds a single
    /// address.
    pub to: Option<String>,
    /// The date header, if there is one.
    pub date: Option<String>,
    /// The HTML body parts, in the order of the message.
    pub html: Vec<String>,
    /// The text body parts, in the order of the message.
    pub text: Vec<String>,
    /// The bytes from which the message was parsed.
    pub raw: Vec<u8>,
    /// The parts listed as attachments, in the order of the message.
    pub attachments: Vec<Part>,
}

/// What a parser found in the bytes of a message, as plain values.
#[derive(Debug, Clone)]
pub struct Found {
    /// The subject header, if there is one.
    pub subject: Option<String>,
    /// The address of the sender header, where it is a single address that
    /// has one.
    pub from_address: Option<String>,
    /// The text of the sender header, where it is plain text.
    pub from_text: Option<String>,
    /// The address of the recipient header, where it is a single address
    /// that has one.
    pub to: Option<String>,
    /// The date header, if there is one.
    pub date: Option<String>,
    /// The HTML body parts, each with its text where it has one.
    pub html: Vec<Option<String>>,
    /// The text body parts, each with its text where it has one.
    pub text: Vec<Option<String>>,
    /// The attachment parts: whether the disposition, if there is one, says
    /// "attachment"; the declared file name; the decoded bytes.
    pub attachments: Vec<(Option<bool>, Option<String>, Vec<u8>)>,
}

/// The texts of a list of optional strings.
pub open spec fn opt_strs(v: Seq<Option<String>>) -> Seq<Option<Seq<char>>> {
    v.map_values(|o: Option<String>| opt_str_view(o))
}

/// The plain values of a list of attachment parts as the parser gives them.
pub open spec fn raw_parts(v: Seq<(Option<bool>, Option<String>, Vec<u8>)>) -> Seq<
    (Option<bool>, Option<Seq<char>>, Seq<u8>),
> {
    v.map_values(|p: (Option<bool>, Option<String>, Vec<u8>)| (p.0, opt_str_view(p.1), p.2@))
}

/// The texts that are there, in their order.
pub open spec fn somes(v: Seq<Option<Seq<char>>>) -> Seq<Seq<char>>
    decreases v.len(),
{
    if v.len() == 0 {
        Seq::empty()
    } else if v.last() is Some {
        somes(v.drop_last()).push(v.last().unwrap())
    } else {
        somes(v.drop_last())
    }
}

/// The sender of a message: the address of the sender header, else its text,
/// else empty.
pub open spec fn sender_spec(address: Option<Seq<char>>, text: Option<Seq<char>>) -> Seq<char> {
    match address {
        Some(a) => a,
        None => match text {
            Some(t) => t,
            None => Seq::empty(),
        },
    }
}

/// Whether `parts` are the attachment parts `raw` that the parser gave: a part
/// counts as an attachment where its disposition says so.
pub open spec fn parts_are(
    parts: Seq<Part>,
    raw: Seq<(Option<bool>, Option<Seq<char>>, Seq<u8>)>,
) -> bool {
    parts.len() == raw.len() && forall|k: int|
        0 <= k < parts.len() ==> (#[trigger] parts[k]).is_attachment == (raw[k].0 == Some(true))
            && opt_str_view(parts[k].name) == raw[k].1 && parts[k].contents@ == raw[k].2
}

/// Whether `m` is the message that the parser found as `found` in the
/// bytes `raw`: the sender is the address of the sender header, else its
/// text, else empty; the body parts are those that have a text; a part
/// counts as an attachment where its disposition says so.
pub open spec fn assembled(m: ParsedMessage, found: Found, raw: Seq<u8>) -> bool {
    &&& opt_str_view(m.subject) == opt_str_view(found.subject)
    &&& m.from@ == sender_spec(opt_str_view(found.from_address), opt_str_view(found.from_text))
    &&& opt_str_view(m.to) == opt_str_view(found.to)
    &&& opt_str_view(m.date) == opt_str_view(found.date)
    &&& strs(m.html@) == somes(opt_strs(found.html@))
    &&& strs(m.text@) == somes(opt_strs(found.text@))
    &&& m.raw@ == raw
    &&& parts_are(m.attachments@, raw_parts(found.attachments@))
}

/// Keeps the texts that are there, in their order.
pub fn present_texts(v: &Vec<Option<String>>) -> (r: Vec<String>)
    ensures
        strs(r@) == somes(opt_strs(v@)),
{
    let mut out: Vec<String> = Vec::new();
    let mut i: usize = 0;
    assert(opt_strs(v@).take(0) =~= Seq::<Option<Seq<char>>>::empty());
    assert(strs(out@) =~= Seq::<Seq<char>>::empty());
    while i < v.len()
        invariant
            i <= v.len(),
            strs(out@) == somes(opt_strs(v@).take(i as int)),
        decreases v.len() - i,
    {
        proof {
            assert(opt_strs(v@).take(i + 1).drop_last() =~= opt_strs(v@).take(i as int));
            assert(opt_strs(v@).take(i + 1).last() == opt_str_view(v@[i as int]));
        }
        if let Some(s) = &v[i] {
            let ghost before = out@;
            out.push(s.clone());
            assert(strs(out@) =~= strs(before).push(s@));
        }
        i += 1;
    }
    assert(opt_strs(v@).take(i as int) =~= opt_strs(v@));
    out
}

/// The message that the parser found as `found` in the bytes `raw`, as the
/// mail store reads it.
pub fn assemble(found: Found, raw: Vec<u8>) -> (r: ParsedMessage)
    ensures
        assembled(r, found, raw@),
{
    let from = match &found.from_address {
        Some(a) => a.clone(),
        None => match &found.from_text {
            Some(t) => t.clone(),
            None => String::new(),
        },
    };
    let mut attachments: Vec<Part> = Vec::new();
    let mut i: usize = 0;
    while i < found.attachments.len()
        invariant
            i <= found.attachments.len(),
            attachments@.len() == i,
            forall|k: int|
                0 <= k < i ==> (#[trigger] attachments@[k]).is_attachment == (
                found.attachments@[k].0 == Some(true)) && opt_str_view(attachments@[k].name)
                    == opt_str_view(found.attachments@[k].1) && attachments@[k].contents@
                    == found.attachments@[k].2@,
        decreases found.attachments.len() - i,
    {
        let p = &found.attachments[i];
        let is_attachment = match p.0 {
            Some(b) => b,
            None => false,
        };
        let name = match &p.1 {
            Some(n) => Some(n.clone()),
            None => None,
        };
        attachments.push(Part { is_attachment, name, contents: copy_bytes(&p.2) });
        i += 1;
    }
    assert(raw_parts(found.attachments@).len() == found.attachments@.len());
    assert forall|k: int| 0 <= k < attachments@.len() implies (#[trigger] attachments@[k]).is_attachment
        == (raw_parts(found.attachments@)[k].0 == Some(true)) && opt_str_view(attachments@[k].name)
        == raw_parts(found.attachments@)[k].1 && attachments@[k].contents@ == raw_parts(
        found.attachments@,
    )[k].2 by {
        assert(raw_parts(found.attachments@)[k] == (
            found.attachments@[k].0,
            opt_str_view(found.attachments@[k].1),
            found.attachments@[k].2@,
        ));
    }
    let subject = match &found.subject {
        Some(x) => Some(x.clone()),
        None => None,
    };
    let to = match &found.to {
        Some(x) => Some(x.clone()),
        None => None,
    };
    let date = match &found.date {
        Some(x) => Some(x.clone()),
        None => None,
    };
    ParsedMessage {
        subject,
        from,
        to,
        date,
        html: present_texts(&found.html),
        text: present_texts(&found.text),
        raw,
        attachments,
    }
}

} // verus!
