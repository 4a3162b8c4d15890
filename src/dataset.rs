use vstd::prelude::*;

verus! {

/// An attachment of a document.
#[derive(Clone, Debug)]
pub struct Attachment {
    pub name: String,
    pub url: String,
}

/// A document of the corpus, with the fields that are indexed and those that filters read.
#[derive(Clone, Debug)]
pub struct Doc {
    pub url: String,
    pub infotype: String,
    pub user: String,
    pub title: String,
    pub text: String,
    pub html: String,
    pub time: String,
    pub attachments: Vec<Attachment>,
}

/// The corpus; a document's id is its position.
#[derive(Clone, Debug)]
pub struct Dataset {
    pub docs: Vec<Doc>,
}

/// The lines joined by line breaks.
pub open spec fn join_lines(lines: Seq<Seq<char>>) -> Seq<char>
    decreases lines.len(),
{
    if lines.len() == 0 {
        Seq::empty()
    } else if lines.len() == 1 {
        lines[0]
    } else {
        join_lines(lines.drop_last()) + seq!['\n'] + lines.last()
    }
}

/// The names of a document's attachments.
pub open spec fn attachment_names(doc: Doc) -> Seq<Seq<char>> {
    doc.attachments@.map_values(|a: Attachment| a.name@)
}

/// The text that is indexed for a document: title, body and attachment
/// names, one per line.
pub open spec fn indexed_text(doc: Doc) -> Seq<char> {
    doc.title@ + seq!['\n'] + doc.text@ + seq!['\n'] + join_lines(attachment_names(doc))
}

/// The text that is indexed for `doc`.
pub fn search_text(doc: &Doc) -> (r: String)
    ensures
        r@ == indexed_text(*doc),
{
    proof {
        reveal_strlit("\n");
    }
    let ghost names = attachment_names(*doc);
    let mut s = doc.title.clone();
    s.append("\n");
    s.append(doc.text.as_str());
    s.append("\n");
    let ghost head = s@;
    assert(head == doc.title@ + seq!['\n'] + doc.text@ + seq!['\n']);
    let mut i: usize = 0;
    while i < doc.attachments.len()
        invariant
            names == attachment_names(*doc),
            i <= doc.attachments@.len(),
            s@ == head + join_lines(names.subrange(0, i as int)),
        decreases doc.attachments@.len() - i,
    {
        proof {
            reveal_strlit("\n");
        }
        let ghost before = s@;
        if i > 0 {
            s.append("\n");
        }
        s.append(doc.attachments[i].name.as_str());
        let ghost sub = names.subrange(0, i + 1);
        assert(sub.drop_last() =~= names.subrange(0, i as int));
        assert(sub.last() == doc.attachments@[i as int].name@);
        if i == 0 {
            assert(sub.len() == 1);
            assert(s@ =~= head + join_lines(sub));
        } else {
            assert(s@ =~= head + join_lines(sub));
        }
        i += 1;
    }
    assert(names.subrange(0, i as int) =~= names);
    s
}

/// The indexed text of each document, in order.
pub fn search_texts(dataset: &Dataset) -> (r: Vec<String>)
    ensures
        r@.len() == dataset.docs@.len(),
        forall|i: int| 0 <= i < r@.len() ==> (#[trigger] r@[i])@ == indexed_text(dataset.docs@[i]),
{
    let mut out: Vec<String> = Vec::new();
    let mut i: usize = 0;
    while i < dataset.docs.len()
        invariant
            i <= dataset.docs@.len(),
            out@.len() == i,
            forall|k: int| 0 <= k < i ==> (#[trigger] out@[k])@ == indexed_text(dataset.docs@[k]),
        decreases dataset.docs@.len() - i,
    {
        out.push(search_text(&dataset.docs[i]));
        i += 1;
    }
    out
}

} // verus!
