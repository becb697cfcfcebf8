//! Turns a batch of chat messages into index chunks: one chunk per new message
//! that is neither hidden nor a system message, with text for display, for the
//! dense embedding (chat name and kind, thread topic, sender) and for the sparse
//! embedding (text, file snippets, mentions).
use vstd::prelude::*;

use crate::shared::{
    Chat, ChatType, ChunkView, IndexAPIDataItem, IndexAPIRequest, IndexAPIResponse,
    IndexAPIResultItem, Message,
};
use crate::text::{join, join_strings, trim, trim_str, views};

verus! {

/// The lower-case name of a chat kind.
pub open spec fn chat_type_name(t: ChatType) -> Seq<char> {
    match t {
        ChatType::Private => "private"@,
        ChatType::Group => "group"@,
        ChatType::Channel => "channel"@,
    }
}

/// The lower-case name of a chat kind, as it appears in dense content.
pub fn chat_type_label(t: ChatType) -> (r: &'static str)
    ensures
        r@ == chat_type_name(t),
{
    match t {
        ChatType::Private => "private",
        ChatType::Group => "group",
        ChatType::Channel => "channel",
    }
}

/// A message is indexed unless it is hidden or a system message.
pub open spec fn indexable(m: Message) -> bool {
    !m.is_hidden && !m.is_system
}

fn is_indexable(m: &Message) -> (r: bool)
    ensures
        r == indexable(*m),
{
    !m.is_hidden && !m.is_system
}

/// The marker put before the text of a forwarded or quoted message.
pub open spec fn forward_quote_marker(m: Message) -> Seq<char> {
    if m.is_forward {
        "[forward] "@
    } else if m.is_quote {
        "[quote] "@
    } else {
        Seq::empty()
    }
}

fn forward_quote_prefix(m: &Message) -> (r: &'static str)
    ensures
        r@ == forward_quote_marker(*m),
{
    if m.is_forward {
        "[forward] "
    } else if m.is_quote {
        "[quote] "
    } else {
        proof {
            reveal_strlit("");
        }
        ""
    }
}

/// Whether `m` belongs to the thread named `sn`.
pub open spec fn in_thread(m: Message, sn: Seq<char>) -> bool {
    match m.thread_sn {
        Some(t) => t@ == sn,
        None => false,
    }
}

/// The position of the first message of `overlap` that belongs to thread `sn`.
pub open spec fn first_in_thread(overlap: Seq<Message>, sn: Seq<char>) -> Option<int>
    decreases overlap.len(),
{
    if overlap.len() == 0 {
        None
    } else {
        match first_in_thread(overlap.drop_last(), sn) {
            Some(i) => Some(i),
            None => if in_thread(overlap.last(), sn) {
                Some(overlap.len() - 1)
            } else {
                None
            },
        }
    }
}

/// `idx` maps each thread that occurs in `overlap` to the position of its first
/// message there, and holds no other thread.
pub open spec fn thread_index_wf(overlap: Seq<Message>, idx: Seq<(String, usize)>) -> bool {
    &&& forall|k: int|
        0 <= k < idx.len() ==> first_in_thread(overlap, (#[trigger] idx[k]).0@) == Some(
            idx[k].1 as int,
        )
    &&& forall|sn: Seq<char>|
        (#[trigger] first_in_thread(overlap, sn)) is Some ==> exists|k: int|
            0 <= k < idx.len() && (#[trigger] idx[k]).0@ == sn
}

proof fn lemma_first_in_thread_bounds(overlap: Seq<Message>, sn: Seq<char>)
    ensures
        first_in_thread(overlap, sn) matches Some(i) ==> 0 <= i < overlap.len() && in_thread(
            overlap[i],
            sn,
        ),
    decreases overlap.len(),
{
    if overlap.len() > 0 {
        lemma_first_in_thread_bounds(overlap.drop_last(), sn);
    }
}

/// The thread lookup of `idx`: the position recorded for `sn`, if any.
fn thread_lookup(idx: &Vec<(String, usize)>, sn: &String) -> (r: Option<usize>)
    ensures
        r matches Some(i) ==> exists|k: int| 0 <= k < idx@.len() && idx@[k].0@ == sn@ && idx@[k].1 == i,
        r is None ==> forall|k: int| 0 <= k < idx@.len() ==> (#[trigger] idx@[k]).0@ != sn@,
{
    let n = idx.len();
    let mut k: usize = 0;
    while k < n
        invariant
            n == idx@.len(),
            k <= n,
            forall|j: int| 0 <= j < k ==> (#[trigger] idx@[j]).0@ != sn@,
        decreases n - k,
    {
        if idx[k].0 == *sn {
            return Some(idx[k].1);
        }
        k = k + 1;
    }
    None
}

/// For each thread named in `overlap`, the position of its first message.
fn build_thread_index(overlap: &Vec<Message>) -> (idx: Vec<(String, usize)>)
    ensures
        thread_index_wf(overlap@, idx@),
{
    let mut idx: Vec<(String, usize)> = Vec::new();
    let n = overlap.len();
    let mut i: usize = 0;
    while i < n
        invariant
            n == overlap@.len(),
            i <= n,
            thread_index_wf(overlap@.take(i as int), idx@),
        decreases n - i,
    {
        let ghost before = overlap@.take(i as int);
        let ghost after = overlap@.take(i + 1);
        assert(after.drop_last() =~= before);
        assert(after.last() == overlap@[i as int]);
        let ghost old_idx = idx@;
        match &overlap[i].thread_sn {
            Some(sn) => {
                if thread_lookup(&idx, sn).is_none() {
                    idx.push((sn.clone(), i));
                    proof {
                        assert(first_in_thread(before, sn@) is None);
                        assert(first_in_thread(after, sn@) == Some(i as int));
                    }
                }
            },
            None => {},
        }
        proof {
            assert forall|k: int| 0 <= k < idx@.len() implies first_in_thread(
                after,
                (#[trigger] idx@[k]).0@,
            ) == Some(idx@[k].1 as int) by {
                if k < old_idx.len() {
                    assert(idx@[k] == old_idx[k]);
                }
            }
            assert forall|s: Seq<char>| (#[trigger] first_in_thread(after, s)) is Some implies exists|
                k: int,
            | 0 <= k < idx@.len() && (#[trigger] idx@[k]).0@ == s by {
                if first_in_thread(before, s) is Some {
                    let k = choose|k: int| 0 <= k < old_idx.len() && (#[trigger] old_idx[k]).0@ == s;
                    assert(idx@[k] == old_idx[k]);
                } else {
                    let k = (idx@.len() - 1) as int;
                    assert(idx@[k].0@ == s);
                }
            }
        }
        i = i + 1;
    }
    assert(overlap@.take(n as int) =~= overlap@);
    idx
}

/// The earlier message that opened the thread of `m`, if `overlap` holds one.
pub open spec fn thread_parent(overlap: Seq<Message>, m: Message) -> Option<Message> {
    match m.thread_sn {
        Some(sn) => match first_in_thread(overlap, sn@) {
            Some(i) => Some(overlap[i]),
            None => None,
        },
        None => None,
    }
}

/// The displayed text of a chunk: `sender: text`.
pub open spec fn page_content(m: Message) -> Seq<char> {
    m.sender_id@ + ": "@ + trim(m.text@)
}

/// The text of a chunk for the dense embedding: chat line, thread topic (if the
/// thread's first message is known), sender line, marker and text, then the file
/// snippets on a line of their own when there are any.
pub open spec fn dense_content(chat: Chat, m: Message, parent: Option<Message>) -> Seq<char> {
    "Чат: "@ + chat.name@ + " ["@ + chat_type_name(chat.chat_type) + "]\n"@ + match parent {
        Some(p) => "Тема: "@ + trim(p.text@) + "\n"@,
        None => Seq::empty(),
    } + "От: "@ + m.sender_id@ + "\n"@ + forward_quote_marker(m) + trim(m.text@) + if trim(
        m.file_snippets@,
    ).len() > 0 {
        "\n"@ + trim(m.file_snippets@)
    } else {
        Seq::empty()
    }
}

/// The pieces of the sparse text: the text, the file snippets when there are
/// any, the mentions (space separated) when there are any.
pub open spec fn sparse_parts(m: Message) -> Seq<Seq<char>> {
    seq![trim(m.text@)] + if trim(m.file_snippets@).len() > 0 {
        seq![trim(m.file_snippets@)]
    } else {
        Seq::empty()
    } + if m.mentions@.len() > 0 {
        seq![join(views(m.mentions@), " "@)]
    } else {
        Seq::empty()
    }
}

/// The text of a chunk for the sparse embedding: its pieces separated by spaces.
pub open spec fn sparse_content(m: Message) -> Seq<char> {
    join(sparse_parts(m), " "@)
}

/// The chunk made of message `m` of `data`.
pub open spec fn chunk_of(data: IndexAPIDataItem, m: Message) -> ChunkView {
    ChunkView {
        page_content: page_content(m),
        dense_content: dense_content(data.chat, m, thread_parent(data.overlap_messages@, m)),
        sparse_content: sparse_content(m),
        message_ids: seq![m.id@],
    }
}

/// The chunks of the indexable messages among `msgs`, in order.
pub open spec fn chunks_of(data: IndexAPIDataItem, msgs: Seq<Message>) -> Seq<ChunkView>
    decreases msgs.len(),
{
    if msgs.len() == 0 {
        Seq::empty()
    } else if indexable(msgs.last()) {
        chunks_of(data, msgs.drop_last()).push(chunk_of(data, msgs.last()))
    } else {
        chunks_of(data, msgs.drop_last())
    }
}

/// The messages of `msgs` that are indexed, in order.
pub open spec fn indexable_messages(msgs: Seq<Message>) -> Seq<Message>
    decreases msgs.len(),
{
    if msgs.len() == 0 {
        Seq::empty()
    } else if indexable(msgs.last()) {
        indexable_messages(msgs.drop_last()).push(msgs.last())
    } else {
        indexable_messages(msgs.drop_last())
    }
}

/// There is one chunk for each indexable message and for nothing else: the
/// chunks are those of the indexable messages, in their order; each of those
/// messages is among `msgs` and is neither hidden nor a system message; each
/// chunk covers exactly its message's id.
pub proof fn lemma_one_chunk_per_indexable_message(data: IndexAPIDataItem, msgs: Seq<Message>)
    ensures
        chunks_of(data, msgs) == indexable_messages(msgs).map_values(|m: Message| chunk_of(data, m)),
        forall|i: int|
            0 <= i < indexable_messages(msgs).len() ==> !(#[trigger] indexable_messages(msgs)[i]).is_hidden
                && !indexable_messages(msgs)[i].is_system && msgs.contains(indexable_messages(msgs)[i]),
        forall|i: int|
            0 <= i < chunks_of(data, msgs).len() ==> (#[trigger] chunks_of(data, msgs)[i]).message_ids
                == seq![indexable_messages(msgs)[i].id@],
    decreases msgs.len(),
{
    if msgs.len() > 0 {
        let t = msgs.drop_last();
        lemma_one_chunk_per_indexable_message(data, t);
        let f = |m: Message| chunk_of(data, m);
        assert(chunks_of(data, msgs) =~= indexable_messages(msgs).map_values(f)) by {
            if indexable(msgs.last()) {
                assert(indexable_messages(t).push(msgs.last()).map_values(f)
                    =~= indexable_messages(t).map_values(f).push(f(msgs.last())));
            }
        }
        let im = indexable_messages(msgs);
        assert forall|i: int| 0 <= i < im.len() implies !(#[trigger] im[i]).is_hidden
            && !im[i].is_system && msgs.contains(im[i]) by {
            if i < indexable_messages(t).len() {
                assert(im[i] == indexable_messages(t)[i]);
                let k = choose|k: int| 0 <= k < t.len() && t[k] == im[i];
                assert(msgs[k] == t[k]);
            } else {
                assert(im[i] == msgs.last());
                assert(msgs[msgs.len() - 1] == msgs.last());
            }
        }
    }
}

/// Every new message that is neither hidden nor a system message gives a chunk,
/// and nothing else does: the chunks are, in order, those of the messages of
/// `msgs` that are not hidden and not system messages.
pub proof fn lemma_chunks_of_visible_messages(data: IndexAPIDataItem, msgs: Seq<Message>)
    ensures
        chunks_of(data, msgs) == msgs.filter(|m: Message| !m.is_hidden && !m.is_system).map_values(
            |m: Message| chunk_of(data, m),
        ),
        chunks_of(data, msgs).len() == msgs.filter(|m: Message| !m.is_hidden && !m.is_system).len(),
    decreases msgs.len(),
{
    reveal(Seq::filter);
    let pred = |m: Message| !m.is_hidden && !m.is_system;
    let f = |m: Message| chunk_of(data, m);
    if msgs.len() > 0 {
        let t = msgs.drop_last();
        lemma_chunks_of_visible_messages(data, t);
        if pred(msgs.last()) {
            assert(t.filter(pred).push(msgs.last()).map_values(f) =~= t.filter(pred).map_values(f).push(
                f(msgs.last()),
            ));
        }
        assert(chunks_of(data, msgs) =~= msgs.filter(pred).map_values(f));
    } else {
        assert(chunks_of(data, msgs) =~= msgs.filter(pred).map_values(f));
    }
}

/// The sparse text of a message is its trimmed text, then a space and its
/// trimmed file snippets when they are not blank, then a space and its mentions
/// joined by spaces when it has any (whether or not it has snippets).
pub proof fn lemma_sparse_content_layout(m: Message)
    ensures
        sparse_content(m) == trim(m.text@) + (if trim(m.file_snippets@).len() > 0 {
            seq![' '] + trim(m.file_snippets@)
        } else {
            Seq::empty()
        }) + (if m.mentions@.len() > 0 {
            seq![' '] + join(views(m.mentions@), seq![' '])
        } else {
            Seq::empty()
        }),
        m.mentions@.len() > 0 ==> sparse_content(m).len() > join(views(m.mentions@), seq![' ']).len()
            && sparse_content(m).subrange(
            sparse_content(m).len() - join(views(m.mentions@), seq![' ']).len() - 1,
            sparse_content(m).len() as int,
        ) == seq![' '] + join(views(m.mentions@), seq![' ']),
{
    reveal_strlit(" ");
    let sp: Seq<char> = seq![' '];
    assert(" "@ == sp);
    let t = trim(m.text@);
    let sn = trim(m.file_snippets@);
    let mj = join(views(m.mentions@), sp);
    let parts = sparse_parts(m);
    let has_sn = sn.len() > 0;
    let has_m = m.mentions@.len() > 0;
    let expected = t + (if has_sn { sp + sn } else { Seq::empty() }) + (if has_m { sp + mj } else { Seq::empty() });
    if has_sn && has_m {
        assert(parts =~= seq![t, sn, mj]);
        assert(parts.drop_last() =~= seq![t, sn]);
        assert(parts.drop_last().drop_last() =~= seq![t]);
        assert(join(parts.drop_last().drop_last(), sp) == t);
        assert(join(parts.drop_last(), sp) == t + sp + sn);
        assert(join(parts, sp) == t + sp + sn + sp + mj);
        assert(expected == t + (sp + sn) + (sp + mj));
        assert(t + sp + sn + sp + mj =~= t + (sp + sn) + (sp + mj));
    } else if has_sn {
        assert(parts =~= seq![t, sn]);
        assert(parts.drop_last() =~= seq![t]);
        assert(join(parts.drop_last(), sp) == t);
        assert(join(parts, sp) == t + sp + sn);
        assert(expected =~= t + (sp + sn));
    } else if has_m {
        assert(parts =~= seq![t, mj]);
        assert(parts.drop_last() =~= seq![t]);
        assert(join(parts.drop_last(), sp) == t);
        assert(join(parts, sp) == t + sp + mj);
        assert(expected =~= t + (sp + mj));
    } else {
        assert(parts =~= seq![t]);
        assert(join(parts, sp) =~= expected);
    }
    if has_m {
        let sc = sparse_content(m);
        let tail = sp + mj;
        let head = t + (if has_sn { sp + sn } else { Seq::empty() });
        assert(sc == head + tail);
        assert(sc.subrange(sc.len() - mj.len() - 1, sc.len() as int) =~= tail);
    }
}

fn build_page_content(m: &Message) -> (r: String)
    ensures
        r@ == page_content(*m),
{
    let mut out = String::new();
    out.append(m.sender_id.as_str());
    out.append(": ");
    out.append(trim_str(m.text.as_str()));
    out
}

fn build_dense_content(chat: &Chat, m: &Message, thread_parent: Option<&Message>) -> (r: String)
    ensures
        r@ == dense_content(*chat, *m, match thread_parent {
            Some(p) => Some(*p),
            None => None,
        }),
{
    let mut out = String::new();
    out.append("Чат: ");
    out.append(chat.name.as_str());
    out.append(" [");
    out.append(chat_type_label(chat.chat_type));
    out.append("]\n");
    let ghost head = out@;
    match thread_parent {
        Some(parent) => {
            out.append("Тема: ");
            out.append(trim_str(parent.text.as_str()));
            out.append("\n");
        },
        None => {},
    }
    let ghost topic = out@;
    out.append("От: ");
    out.append(m.sender_id.as_str());
    out.append("\n");
    out.append(forward_quote_prefix(m));
    out.append(trim_str(m.text.as_str()));
    let ghost body = out@;
    let snippets = trim_str(m.file_snippets.as_str());
    if !snippets.is_empty() {
        out.append("\n");
        out.append(snippets);
    }
    proof {
        let parent = match thread_parent {
            Some(p) => Some(*p),
            None => None,
        };
        let t = match parent {
            Some(p) => "Тема: "@ + trim(p.text@) + "\n"@,
            None => Seq::empty(),
        };
        assert(topic =~= head + t);
        let tail = if trim(m.file_snippets@).len() > 0 {
            "\n"@ + trim(m.file_snippets@)
        } else {
            Seq::empty()
        };
        assert(out@ =~= body + tail);
        assert(body =~= topic + "От: "@ + m.sender_id@ + "\n"@ + forward_quote_marker(*m) + trim(
            m.text@,
        ));
    }
    out
}

fn build_sparse_content(m: &Message) -> (r: String)
    ensures
        r@ == sparse_content(*m),
{
    let mut parts: Vec<String> = Vec::new();
    parts.push(trim_str(m.text.as_str()).to_owned());
    let snippets = trim_str(m.file_snippets.as_str());
    if !snippets.is_empty() {
        parts.push(snippets.to_owned());
    }
    if m.mentions.len() > 0 {
        parts.push(join_strings(&m.mentions, " "));
    }
    assert(views(parts@) =~= sparse_parts(*m));
    join_strings(&parts, " ")
}

/// The chunks of `data`: one per new message that is neither hidden nor a system
/// message, in the order of `new_messages`.
pub fn chunk(data: &IndexAPIDataItem) -> (r: Vec<IndexAPIResultItem>)
    ensures
        r@.len() == chunks_of(*data, data.new_messages@).len(),
        forall|i: int| 0 <= i < r@.len() ==> (#[trigger] r@[i])@ == chunks_of(*data, data.new_messages@)[i],
{
    let thread_idx = build_thread_index(&data.overlap_messages);
    let mut out: Vec<IndexAPIResultItem> = Vec::new();
    let n = data.new_messages.len();
    let mut i: usize = 0;
    while i < n
        invariant
            n == data.new_messages@.len(),
            i <= n,
            thread_index_wf(data.overlap_messages@, thread_idx@),
            out@.len() == chunks_of(*data, data.new_messages@.take(i as int)).len(),
            forall|j: int|
                0 <= j < out@.len() ==> (#[trigger] out@[j])@ == chunks_of(
                    *data,
                    data.new_messages@.take(i as int),
                )[j],
        decreases n - i,
    {
        let ghost before = data.new_messages@.take(i as int);
        let ghost after = data.new_messages@.take(i + 1);
        assert(after.drop_last() =~= before);
        let m = &data.new_messages[i];
        assert(after.last() == *m);
        if is_indexable(m) {
            let parent: Option<&Message> = match &m.thread_sn {
                Some(sn) => match thread_lookup(&thread_idx, sn) {
                    Some(k) => {
                        proof {
                            lemma_first_in_thread_bounds(data.overlap_messages@, sn@);
                        }
                        Some(&data.overlap_messages[k])
                    },
                    None => {
                        proof {
                            if first_in_thread(data.overlap_messages@, sn@) is Some {
                                let k = choose|k: int|
                                    0 <= k < thread_idx@.len() && (#[trigger] thread_idx@[k]).0@
                                        == sn@;
                                assert(thread_idx@[k].0@ != sn@);
                            }
                        }
                        None
                    },
                },
                None => None,
            };
            let ghost parent_view = match parent {
                Some(p) => Some(*p),
                None => None,
            };
            assert(parent_view == thread_parent(data.overlap_messages@, *m));
            let item = IndexAPIResultItem {
                page_content: build_page_content(m),
                dense_content: build_dense_content(&data.chat, m, parent),
                sparse_content: build_sparse_content(m),
                message_ids: vec![m.id.clone()],
            };
            assert(item@.message_ids =~= seq![m.id@]);
            out.push(item);
        }
        proof {
            assert forall|j: int| 0 <= j < out@.len() implies (#[trigger] out@[j])@ == chunks_of(
                *data,
                after,
            )[j] by {
                if j < chunks_of(*data, before).len() {
                    assert(out@[j]@ == chunks_of(*data, before)[j]);
                }
            }
        }
        i = i + 1;
    }
    assert(data.new_messages@.take(n as int) =~= data.new_messages@);
    out
}

/// The answer to an indexing request: the chunks of its batch.
pub fn index_response(req: &IndexAPIRequest) -> (r: IndexAPIResponse)
    ensures
        r.results@.len() == chunks_of(req.data, req.data.new_messages@).len(),
        forall|i: int|
            0 <= i < r.results@.len() ==> (#[trigger] r.results@[i])@ == chunks_of(
                req.data,
                req.data.new_messages@,
            )[i],
{
    IndexAPIResponse { results: chunk(&req.data) }
}

} // verus!
