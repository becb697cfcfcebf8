//! The data exchanged by the two services: chats and messages sent for indexing,
//! the chunks produced from them, and the questions and answers of search.
use vstd::prelude::*;

use crate::text::views;

verus! {

/// One chat message. The free-form attachments that the wire format carries
/// (message parts, member events) are not read by the indexing rules and are
/// not held here.
#[derive(Debug, Clone)]
pub struct Message {
    pub id: String,
    pub thread_sn: Option<String>,
    pub time: i64,
    pub text: String,
    pub sender_id: String,
    pub file_snippets: String,
    pub mentions: Vec<String>,
    pub is_system: bool,
    pub is_hidden: bool,
    pub is_forward: bool,
    pub is_quote: bool,
}

/// The kind of a chat.
#[derive(Debug, Clone, Copy, PartialEq, Eq, Structural)]
pub enum ChatType {
    Private,
    Group,
    Channel,
}

/// A chat. Its member list is not read by the indexing rules and is not held here.
#[derive(Debug, Clone)]
pub struct Chat {
    pub id: String,
    pub name: String,
    pub sn: String,
    pub chat_type: ChatType,
    pub is_public: Option<bool>,
    pub members_count: Option<i32>,
}

/// A batch of messages of one chat: `new_messages` are to be indexed,
/// `overlap_messages` are earlier messages given as context.
#[derive(Debug, Clone)]
pub struct IndexAPIDataItem {
    pub chat: Chat,
    pub overlap_messages: Vec<Message>,
    pub new_messages: Vec<Message>,
}

/// The body of an indexing request.
#[derive(Debug, Clone)]
pub struct IndexAPIRequest {
    pub data: IndexAPIDataItem,
}

/// One chunk to be stored: the text shown to users, the text for the dense
/// embedding, the text for the sparse embedding, and the messages it covers.
#[derive(Debug, Clone)]
pub struct IndexAPIResultItem {
    pub page_content: String,
    pub dense_content: String,
    pub sparse_content: String,
    pub message_ids: Vec<String>,
}

/// A chunk as plain text values.
pub struct ChunkView {
    pub page_content: Seq<char>,
    pub dense_content: Seq<char>,
    pub sparse_content: Seq<char>,
    pub message_ids: Seq<Seq<char>>,
}

impl View for IndexAPIResultItem {
    type V = ChunkView;

    open spec fn view(&self) -> ChunkView {
        ChunkView {
            page_content: self.page_content@,
            dense_content: self.dense_content@,
            sparse_content: self.sparse_content@,
            message_ids: views(self.message_ids@),
        }
    }
}

/// The answer to an indexing request.
#[derive(Debug, Clone)]
pub struct IndexAPIResponse {
    pub results: Vec<IndexAPIResultItem>,
}

/// Texts to embed sparsely.
#[derive(Debug, Clone)]
pub struct SparseEmbeddingRequest {
    pub texts: Vec<String>,
}

/// Named things that a question mentions.
#[derive(Debug, Clone)]
pub struct Entities {
    pub people: Vec<String>,
    pub emails: Vec<String>,
    pub documents: Vec<String>,
    pub names: Vec<String>,
    pub links: Vec<String>,
}

impl Default for Entities {
    fn default() -> (r: Self)
        ensures
            r.people@.len() == 0,
            r.emails@.len() == 0,
            r.documents@.len() == 0,
            r.names@.len() == 0,
            r.links@.len() == 0,
    {
        Entities {
            people: Vec::new(),
            emails: Vec::new(),
            documents: Vec::new(),
            names: Vec::new(),
            links: Vec::new(),
        }
    }
}

/// A span of time, as the two timestamps that bound it.
#[derive(Debug, Clone)]
pub struct DateRange {
    pub from: String,
    pub to: String,
}

/// A search question with the rewrites and extractions that came with it.
#[derive(Debug, Clone)]
pub struct Question {
    pub text: String,
    pub asker: String,
    pub asked_on: String,
    pub variants: Vec<String>,
    pub hyde: Vec<String>,
    pub keywords: Vec<String>,
    pub entities: Entities,
    pub date_mentions: Vec<String>,
    pub date_range: Option<DateRange>,
    pub search_text: String,
}

/// The body of a search request.
#[derive(Debug, Clone)]
pub struct SearchAPIRequest {
    pub question: Question,
}

/// One answer of search: the ids of the messages found, best first.
#[derive(Debug, Clone)]
pub struct SearchAPIResultItem {
    pub message_ids: Vec<String>,
}

/// The answer to a search request.
#[derive(Debug, Clone)]
pub struct SearchAPIResponse {
    pub results: Vec<SearchAPIResultItem>,
}

} // verus!
