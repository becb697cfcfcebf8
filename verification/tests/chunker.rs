use chat_search::index_service::chunker::{chat_type_label, chunk, index_response};
use chat_search::shared::{Chat, ChatType, IndexAPIDataItem, IndexAPIRequest, Message};

fn mk_msg(id: &str, text: &str, sender: &str) -> Message {
    Message {
        id: id.into(),
        thread_sn: None,
        time: 0,
        text: text.into(),
        sender_id: sender.into(),
        file_snippets: String::new(),
        mentions: vec![],
        is_system: false,
        is_hidden: false,
        is_forward: false,
        is_quote: false,
    }
}

fn mk_chat() -> Chat {
    Chat {
        id: "c".into(),
        name: "General".into(),
        sn: "gen".into(),
        chat_type: ChatType::Group,
        is_public: None,
        members_count: None,
    }
}

#[test]
fn one_chunk_per_new_message() {
    let data = IndexAPIDataItem {
        chat: mk_chat(),
        overlap_messages: vec![],
        new_messages: vec![mk_msg("m1", "hello", "u1"), mk_msg("m2", "world", "u2")],
    };
    let chunks = chunk(&data);
    assert_eq!(chunks.len(), 2);
    assert_eq!(chunks[0].message_ids, vec!["m1"]);
    assert_eq!(chunks[1].message_ids, vec!["m2"]);
}

#[test]
fn skips_system_and_hidden() {
    let mut sys = mk_msg("ms", "sys", "u");
    sys.is_system = true;
    let mut hid = mk_msg("mh", "hid", "u");
    hid.is_hidden = true;
    let data = IndexAPIDataItem {
        chat: mk_chat(),
        overlap_messages: vec![],
        new_messages: vec![sys, hid, mk_msg("ok", "ok", "u")],
    };
    let chunks = chunk(&data);
    assert_eq!(chunks.len(), 1);
    assert_eq!(chunks[0].message_ids, vec!["ok"]);
}

#[test]
fn page_content_contains_text_and_sender() {
    let data = IndexAPIDataItem {
        chat: mk_chat(),
        overlap_messages: vec![],
        new_messages: vec![mk_msg("m1", "ping", "alice")],
    };
    let c = chunk(&data);
    assert!(c[0].page_content.contains("alice"));
    assert!(c[0].page_content.contains("ping"));
}

#[test]
fn dense_content_includes_chat_metadata() {
    let data = IndexAPIDataItem {
        chat: mk_chat(),
        overlap_messages: vec![],
        new_messages: vec![mk_msg("m1", "ping", "alice")],
    };
    let c = chunk(&data);
    assert!(c[0].dense_content.contains("General"));
    assert!(c[0].dense_content.contains("group"));
    assert!(c[0].dense_content.contains("alice"));
    assert!(c[0].dense_content.contains("ping"));
}

#[test]
fn forward_and_quote_prefixes() {
    let mut fwd = mk_msg("f", "body", "u");
    fwd.is_forward = true;
    let mut quo = mk_msg("q", "body", "u");
    quo.is_quote = true;
    let data = IndexAPIDataItem {
        chat: mk_chat(),
        overlap_messages: vec![],
        new_messages: vec![fwd, quo],
    };
    let c = chunk(&data);
    assert!(c[0].dense_content.contains("[forward]"));
    assert!(c[1].dense_content.contains("[quote]"));
}

#[test]
fn thread_context_from_overlap() {
    let mut parent = mk_msg("p", "original", "owner");
    parent.thread_sn = Some("t1".into());
    let mut reply = mk_msg("r", "reply", "u");
    reply.thread_sn = Some("t1".into());
    let data = IndexAPIDataItem {
        chat: mk_chat(),
        overlap_messages: vec![parent],
        new_messages: vec![reply],
    };
    let c = chunk(&data);
    assert_eq!(c.len(), 1);
    assert!(c[0].dense_content.contains("Тема:"));
    assert!(c[0].dense_content.contains("original"));
}

#[test]
fn sparse_content_includes_mentions_and_snippets() {
    let mut m = mk_msg("m", "текст", "user1");
    m.mentions = vec!["@bob".into(), "@carol".into()];
    m.file_snippets = "doc-42.pdf".into();
    let data = IndexAPIDataItem {
        chat: mk_chat(),
        overlap_messages: vec![],
        new_messages: vec![m],
    };
    let c = chunk(&data);
    assert!(c[0].sparse_content.contains("текст"));
    assert!(c[0].sparse_content.contains("@bob"));
    assert!(c[0].sparse_content.contains("doc-42.pdf"));
}

#[test]
fn empty_input_yields_empty_output() {
    let data = IndexAPIDataItem {
        chat: mk_chat(),
        overlap_messages: vec![],
        new_messages: vec![],
    };
    assert_eq!(chunk(&data).len(), 0);
}

#[test]
fn post_index_returns_one_chunk_per_new_message() {
    let mut m1 = mk_msg("m1", "hello", "u1");
    m1.time = 1;
    let mut m2 = mk_msg("m2", "world", "u2");
    m2.time = 2;
    let req = IndexAPIRequest {
        data: IndexAPIDataItem {
            chat: Chat {
                id: "c".into(),
                name: "General".into(),
                sn: "sn".into(),
                chat_type: ChatType::Group,
                is_public: None,
                members_count: None,
            },
            overlap_messages: vec![],
            new_messages: vec![m1, m2],
        },
    };
    let parsed = index_response(&req);
    assert_eq!(parsed.results.len(), 2);
    assert_eq!(parsed.results[0].message_ids, vec!["m1"]);
}

#[test]
fn exact_texts_of_a_chunk() {
    let mut parent = mk_msg("p", "  first post \n", "owner");
    parent.thread_sn = Some("t1".into());
    let mut later = mk_msg("p2", "second post", "owner");
    later.thread_sn = Some("t1".into());
    let mut reply = mk_msg("r", "  answer  ", "bob");
    reply.thread_sn = Some("t1".into());
    reply.is_quote = true;
    reply.file_snippets = "  spec.pdf ".into();
    reply.mentions = vec!["@a".into(), "@b".into()];
    let data = IndexAPIDataItem {
        chat: mk_chat(),
        overlap_messages: vec![parent, later],
        new_messages: vec![reply],
    };
    let c = chunk(&data);
    assert_eq!(c.len(), 1);
    assert_eq!(c[0].page_content, "bob: answer");
    assert_eq!(
        c[0].dense_content,
        "Чат: General [group]\nТема: first post\nОт: bob\n[quote] answer\nspec.pdf"
    );
    assert_eq!(c[0].sparse_content, "answer spec.pdf @a @b");
    assert_eq!(c[0].message_ids, vec!["r"]);
}

#[test]
fn forward_marker_wins_over_quote_and_blank_snippets_are_left_out() {
    let mut m = mk_msg("m", "x", "u");
    m.is_forward = true;
    m.is_quote = true;
    m.file_snippets = "   ".into();
    let data = IndexAPIDataItem {
        chat: Chat { chat_type: ChatType::Channel, ..mk_chat() },
        overlap_messages: vec![],
        new_messages: vec![m],
    };
    let c = chunk(&data);
    assert_eq!(c[0].dense_content, "Чат: General [channel]\nОт: u\n[forward] x");
    assert_eq!(c[0].sparse_content, "x");
}

#[test]
fn no_topic_without_the_thread_in_the_overlap() {
    let mut other = mk_msg("o", "other thread", "owner");
    other.thread_sn = Some("t2".into());
    let mut reply = mk_msg("r", "reply", "u");
    reply.thread_sn = Some("t1".into());
    let data = IndexAPIDataItem {
        chat: mk_chat(),
        overlap_messages: vec![other],
        new_messages: vec![reply],
    };
    let c = chunk(&data);
    assert!(!c[0].dense_content.contains("Тема:"));
}

#[test]
fn chat_type_labels() {
    assert_eq!(chat_type_label(ChatType::Private), "private");
    assert_eq!(chat_type_label(ChatType::Group), "group");
    assert_eq!(chat_type_label(ChatType::Channel), "channel");
}

#[test]
fn unicode_whitespace_is_trimmed() {
    let mut m = mk_msg("m", "\u{3000}\u{85}hi there\u{2029}\t", "u");
    m.file_snippets = "\u{a0}\u{200a}".into();
    let data = IndexAPIDataItem {
        chat: mk_chat(),
        overlap_messages: vec![],
        new_messages: vec![m],
    };
    let c = chunk(&data);
    assert_eq!(c[0].page_content, "u: hi there");
    assert_eq!(c[0].sparse_content, "hi there");
}
