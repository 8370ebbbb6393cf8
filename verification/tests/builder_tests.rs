use archive_engine::builder::{
    build_archive, convert_channel_messages, make_msg, sort_channels, RawAuthor, RawChannel, RawExport,
    RawMessage, RawReference,
};
use archive_engine::model::ChannelMeta;

fn author(id: &str, name: &str, nick: Option<&str>) -> RawAuthor {
    RawAuthor {
        id: id.to_string(),
        name: name.to_string(),
        nickname: nick.map(|s| s.to_string()),
        color: Some("#123456".to_string()),
        avatar_url: None,
    }
}

fn raw(id: &str, ts: &str, content: &str, a: RawAuthor, reply: Option<&str>) -> RawMessage {
    RawMessage {
        id: id.to_string(),
        timestamp: ts.to_string(),
        content: content.to_string(),
        is_pinned: false,
        author: a,
        reference: reply.map(|r| RawReference { message_id: Some(r.to_string()) }),
    }
}

fn channel(id: &str, name: &str, cat: Option<&str>) -> RawChannel {
    RawChannel { id: id.to_string(), name: name.to_string(), category: cat.map(|s| s.to_string()) }
}

#[test]
fn messages_are_sorted_by_time_keeping_order_among_equals() {
    let msgs = vec![
        raw("3", "2024-01-01T00:00:03Z", "c", author("1", "a", None), None),
        raw("1", "2024-01-01T00:00:01Z", "a", author("1", "a", None), None),
        raw("9", "not a time", "z", author("1", "a", None), Some("1")),
        raw("2", "2024-01-01T00:00:01Z", "b", author("1", "a", None), Some("x")),
    ];
    let out = convert_channel_messages(&msgs);
    let ids: Vec<u64> = out.iter().map(|m| m.i).collect();
    assert_eq!(ids, vec![9, 1, 2, 3]);
    assert_eq!(out[0].t, 0);
    assert_eq!(out[0].r, Some(1));
    assert_eq!(out[2].r, None);
    assert_eq!(out[1].t, 1704067201000);
}

#[test]
fn channels_are_sorted_by_category_then_name() {
    let metas = vec![
        ChannelMeta { id: 1, n: "b".to_string(), c: "Text".to_string() },
        ChannelMeta { id: 2, n: "a".to_string(), c: "Text".to_string() },
        ChannelMeta { id: 3, n: "z".to_string(), c: "Fun".to_string() },
        ChannelMeta { id: 4, n: "a".to_string(), c: "Text".to_string() },
        ChannelMeta { id: 5, n: "é".to_string(), c: "Text".to_string() },
        ChannelMeta { id: 6, n: "Z".to_string(), c: "Text".to_string() },
    ];
    let out = sort_channels(&metas);
    let ids: Vec<u64> = out.iter().map(|c| c.id).collect();
    assert_eq!(ids, vec![3, 6, 2, 4, 1, 5]);
}

#[test]
fn build_archive_collects_authors_channels_and_messages() {
    let exports = vec![
        RawExport {
            channel: channel("10", "general", Some("Text")),
            messages: vec![
                raw("100", "2024-01-01T00:00:02Z", "hi", author("1", "alice", Some("Al")), None),
                raw("101", "2024-01-01T00:00:01Z", "yo", author("2", "bob", None), None),
            ],
        },
        RawExport {
            channel: channel("20", "alpha", None),
            messages: vec![raw("200", "2024-01-02T00:00:00Z", "again", author("1", "alice2", None), None)],
        },
        RawExport {
            channel: channel("oops", "broken", Some("Text")),
            messages: vec![raw("x", "2024-01-02T00:00:00Z", "?", author("nope", "anon", None), None)],
        },
    ];
    let a = build_archive(&exports);
    // first message of an author decides the record
    assert_eq!(a.users[&1].n, "Al");
    assert_eq!(a.users[&1].u, "alice");
    assert_eq!(a.users[&2].n, "bob");
    assert_eq!(a.users[&0].u, "anon");
    assert_eq!(a.users.len(), 3);
    // channels: Text < Uncategorized
    let names: Vec<&str> = a.channels.iter().map(|c| c.n.as_str()).collect();
    assert_eq!(names, vec!["broken", "general", "alpha"]);
    assert_eq!(a.channels[2].c, "Uncategorized");
    assert_eq!(a.channels[0].id, 0);
    // messages by time
    let ids: Vec<u64> = a.messages[&10].iter().map(|m| m.i).collect();
    assert_eq!(ids, vec![101, 100]);
    assert_eq!(a.messages[&0][0].i, 0);
    // every author is known
    for msgs in a.messages.values() {
        for m in msgs {
            assert!(a.users.contains_key(&m.a));
        }
    }
}

#[test]
fn a_later_export_of_a_channel_replaces_its_messages() {
    let exports = vec![
        RawExport { channel: channel("5", "one", None), messages: vec![raw("1", "2024-01-01T00:00:00Z", "first", author("1", "a", None), None)] },
        RawExport { channel: channel("5", "two", None), messages: vec![raw("2", "2024-01-01T00:00:00Z", "second", author("1", "a", None), None)] },
    ];
    let a = build_archive(&exports);
    assert_eq!(a.messages[&5].len(), 1);
    assert_eq!(a.messages[&5][0].c, "second");
    assert_eq!(a.channels.len(), 2);
}

#[test]
fn a_message_takes_the_time_it_is_given() {
    let m = raw("17", "not a time", "text", author("5", "a", None), Some("12"));
    let x = make_msg(&m, 1234);
    assert_eq!((x.i, x.a, x.c.as_str(), x.t, x.p, x.r), (17, 5, "text", 1234, false, Some(12)));
    let bad = raw("x", "2024-01-01T00:00:00Z", "", author("y", "a", None), Some("z"));
    let y = make_msg(&bad, -5);
    assert_eq!((y.i, y.a, y.t, y.r), (0, 0, -5, None));
}
