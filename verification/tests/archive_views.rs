use archive_engine::messages::get_messages_html;
use archive_engine::model::{ArchiveData, ChannelMeta, MinMsg, MinUser};
use archive_engine::search::{
    execute_search, export_search_results_text, get_search_results_html, push_export_text, search_lowered,
};
use archive_engine::stats::{compute_stats, DayInfo};
use archive_engine::views::{
    get_channel_name, get_heatmap_html, get_heatmap_years, get_leaderboard_html, get_message_count,
    get_msg_global_idx, get_sidebar_html, push_labelled_cell,
};
use std::collections::HashMap;

// 2024-01-01T12:00:00Z
const T0: i64 = 1704110400000;
const DAY: i64 = 86_400_000;

fn user(n: &str, u: &str, c: Option<&str>, p: Option<&str>) -> MinUser {
    MinUser { n: n.to_string(), u: u.to_string(), c: c.map(|s| s.to_string()), p: p.map(|s| s.to_string()) }
}

fn msg(i: u64, a: u64, c: &str, t: i64, p: bool, r: Option<u64>) -> MinMsg {
    MinMsg { i, a, c: c.to_string(), t, p, r }
}

fn sample() -> ArchiveData {
    let mut users = HashMap::new();
    users.insert(1, user("Alice", "alice", Some("#ff0000"), Some("http://pfp/alice.png")));
    users.insert(2, user("Bob <b>", "bob", None, None));
    users.insert(3, user("Deleted User", "Deleted User", None, None));
    users.insert(0, user("Ghost", "ghost", None, None));
    let channels = vec![
        ChannelMeta { id: 20, n: "memes".to_string(), c: "Fun".to_string() },
        ChannelMeta { id: 10, n: "general".to_string(), c: "Text".to_string() },
        ChannelMeta { id: 11, n: "random & more".to_string(), c: "Text".to_string() },
    ];
    let mut messages = HashMap::new();
    messages.insert(
        10,
        vec![
            msg(100, 1, "hello <world>", T0, false, None),
            msg(101, 1, "second\nline", T0 + 60_000, false, None),
            msg(102, 2, "a reply", T0 + 120_000, true, Some(100)),
            msg(103, 2, "  \n ", T0 + 130_000, true, None),
            msg(104, 1, "late", T0 + 2 * DAY, false, Some(999)),
            msg(105, 1, "quoting", T0 + 2 * DAY + 1000, false, Some(101)),
        ],
    );
    messages.insert(11, vec![msg(200, 3, "gone", T0 + DAY, false, None), msg(201, 0, "From Alice?", T0 + DAY, false, None)]);
    messages.insert(20, vec![msg(300, 2, "Hello again", T0 + 3 * DAY, false, None), msg(301, 1, "HELLO", T0 + DAY, false, None)]);
    ArchiveData { users, channels, messages }
}

fn escape_html(s: &str) -> String {
    s.replace('&', "&amp;").replace('<', "&lt;").replace('>', "&gt;").replace('"', "&quot;").replace('\'', "&#39;")
}

fn format_number(n: usize) -> String {
    let n_str = n.to_string();
    let mut s = String::new();
    let chars: Vec<char> = n_str.chars().collect();
    for (i, c) in chars.iter().rev().enumerate() {
        if i > 0 && i % 3 == 0 {
            s.push(',');
        }
        s.push(*c);
    }
    s.chars().rev().collect()
}

fn expected_messages_html(data: &ArchiveData, channel_id: &str, start_idx: usize, end_idx: usize, only_pins: bool) -> String {
    let c_id = channel_id.parse::<u64>().unwrap_or(0);
    let msgs = match data.messages.get(&c_id) {
        Some(m) => m,
        None => return String::new(),
    };
    let mut html = String::new();
    let mut last_author: u64 = 0;
    let mut last_time = 0;
    let iter: Box<dyn Iterator<Item = (usize, &MinMsg)>> = if only_pins {
        Box::new(msgs.iter().enumerate().filter(|(_, m)| m.p).rev())
    } else {
        Box::new(msgs.iter().enumerate().skip(start_idx).take(end_idx - start_idx + 1))
    };
    for (global_idx, msg) in iter {
        let user = data.users.get(&msg.a).unwrap();
        let safe_content = if msg.c.trim().is_empty() {
            "<span style=\"color: var(--text-muted); font-style: italic;\">[attachment]</span>".to_string()
        } else {
            escape_html(&msg.c)
        };
        let safe_name = escape_html(&user.n);
        let safe_username = escape_html(&user.u);
        let color = user.c.as_deref().unwrap_or("#ffffff");
        let mut is_grouped = !only_pins && msg.a == last_author && (msg.t - last_time) < 300000;
        let mut reply_html = String::new();
        let mut has_reply_class = "";
        if let Some(reply_id) = msg.r {
            is_grouped = false;
            has_reply_class = "has-reply";
            if let Ok(orig_idx) = msgs.binary_search_by_key(&reply_id, |m| m.i) {
                let orig_msg = &msgs[orig_idx];
                let orig_user = data.users.get(&orig_msg.a).unwrap();
                let orig_color = orig_user.c.as_deref().unwrap_or("#ffffff");
                let orig_name = escape_html(&orig_user.n);
                let orig_username = escape_html(&orig_user.u);
                let mut orig_content = orig_msg.c.replace('\n', " ");
                if orig_content.trim().is_empty() {
                    orig_content = "Attachment".to_string();
                } else if orig_content.chars().count() > 80 {
                    orig_content = orig_content.chars().take(80).collect::<String>() + "...";
                }
                let safe_orig_content = escape_html(&orig_content);
                let orig_avatar_html = if let Some(pfp) = &orig_user.p {
                    format!("<div class=\"reply-avatar avatar-wrapper\"><img src=\"__DEFAULT_PFP__\" class=\"avatar-layer\"><img src=\"{}\" loading=\"lazy\" class=\"avatar-layer\" style=\"opacity: 0;\" onload=\"this.style.opacity=1; this.previousElementSibling.style.display='none';\"></div>", pfp)
                } else {
                    "<img src=\"__DEFAULT_PFP__\" class=\"reply-avatar\">".to_string()
                };
                reply_html = format!(
                    "<div class=\"replied-message\" onclick=\"jumpToMessageById('{}', '{}')\">
                        <div class=\"reply-spine\"></div>
                        {}
                        <span class=\"reply-author\" style=\"color: {}\" title=\"{}\">{}</span>
                        <span class=\"reply-text\">{}</span>
                    </div>",
                    channel_id, reply_id, orig_avatar_html, orig_color, orig_username, orig_name, safe_orig_content
                );
            } else {
                reply_html = format!(
                    "<div class=\"replied-message\">
                        <div class=\"reply-spine\"></div>
                        <span class=\"reply-text\" style=\"font-style: italic;\">Original message was deleted.</span>
                    </div>"
                );
            }
        }
        last_author = msg.a;
        last_time = msg.t;
        let grouped_class = if is_grouped { "grouped" } else { "" };
        let classes = format!("{} {}", grouped_class, has_reply_class);
        let avatar_html = if is_grouped {
            format!("<span class=\"msg-timestamp-hover ts-time\" data-ts=\"{}\"></span>", msg.t)
        } else if let Some(pfp) = &user.p {
            format!("<div class=\"avatar avatar-wrapper\"><img src=\"__DEFAULT_PFP__\" class=\"avatar-layer\"><img src=\"{}\" loading=\"lazy\" class=\"avatar-layer\" style=\"opacity: 0;\" onload=\"this.style.opacity=1; this.previousElementSibling.style.display='none';\"></div>", pfp)
        } else {
            "<img src=\"__DEFAULT_PFP__\" class=\"avatar\">".to_string()
        };
        let header_html = if is_grouped {
            format!("<div class=\"msg-actions grouped-actions\" onclick=\"copyLink('{}', '{}')\">🔗 Copy Link</div>", channel_id, msg.i)
        } else {
            format!("<div class=\"msg-header\"><span class=\"name\" style=\"color: {}\" title=\"{}\">{}</span><span class=\"time ts-full\" data-ts=\"{}\"></span><span class=\"msg-actions\" onclick=\"copyLink('{}', '{}')\">🔗 Copy Link</span></div>", color, safe_username, safe_name, msg.t, channel_id, msg.i)
        };
        html.push_str(&format!(
            "<div class=\"msg {}\" id=\"msg-{}\">
                {}
                <div class=\"msg-content\">
                    {}
                    {}
                    <div class=\"text\">{}</div>
                </div>
            </div>",
            classes, global_idx, avatar_html, reply_html, header_html, safe_content
        ));
    }
    html
}

#[test]
fn messages_html_matches_the_viewer_markup() {
    let data = sample();
    for (s, e) in [(0usize, 5usize), (0, 0), (1, 3), (2, 100), (6, 9), (50, 60)] {
        assert_eq!(get_messages_html(&data, "10", s, e, false), expected_messages_html(&data, "10", s, e, false), "page {}..={}", s, e);
    }
    assert_eq!(get_messages_html(&data, "10", 0, 0, true), expected_messages_html(&data, "10", 0, 0, true));
    assert_eq!(get_messages_html(&data, "+20", 0, 1, false), expected_messages_html(&data, "+20", 0, 1, false));
    assert_eq!(get_messages_html(&data, "99", 0, 1, false), "");
    assert_eq!(get_messages_html(&data, "junk", 0, 1, false), "");
}

#[test]
fn grouping_and_replies() {
    let data = sample();
    let html = get_messages_html(&data, "10", 0, 5, false);
    // the second message of Alice within five minutes is grouped
    assert!(html.contains("<div class=\"msg grouped \" id=\"msg-1\">"));
    // a reply is never grouped and quotes the message it answers
    assert!(html.contains("<div class=\"msg  has-reply\" id=\"msg-2\">"));
    assert!(html.contains("jumpToMessageById('10', '100')"));
    // a reply to a missing message says it was deleted
    assert!(html.contains("Original message was deleted."));
    // a quote shows the answered message on one line
    assert!(html.contains("<span class=\"reply-text\">second line</span>"));
    // blank text is shown as an attachment
    assert!(html.contains("[attachment]"));
    // pinned view: latest first, never grouped
    let pins = get_messages_html(&data, "10", 0, 0, true);
    let p3 = pins.find("id=\"msg-3\"").unwrap();
    let p2 = pins.find("id=\"msg-2\"").unwrap();
    assert!(p3 < p2);
}

#[test]
fn long_quotes_are_cut_to_eighty_characters() {
    let mut data = sample();
    let long: String = std::iter::repeat("é").take(100).collect();
    data.messages.insert(30, vec![msg(1, 1, &long, T0, false, None), msg(2, 2, "re", T0 + 1, false, Some(1))]);
    let html = get_messages_html(&data, "30", 0, 1, false);
    assert_eq!(html, expected_messages_html(&data, "30", 0, 1, false));
    let cut: String = std::iter::repeat("é").take(80).collect::<String>() + "...";
    assert!(html.contains(&cut));
}

#[test]
fn channel_lookups() {
    let data = sample();
    assert_eq!(get_channel_name(&data, "11"), "# random & more");
    assert_eq!(get_channel_name(&data, "12"), "Unknown");
    assert_eq!(get_channel_name(&data, "x"), "Unknown");
    assert_eq!(get_message_count(&data, "10", false), 6);
    assert_eq!(get_message_count(&data, "10", true), 2);
    assert_eq!(get_message_count(&data, "77", false), 0);
    assert_eq!(get_msg_global_idx(&data, "10", 103), 3);
    assert_eq!(get_msg_global_idx(&data, "10", 200), -1);
    assert_eq!(get_msg_global_idx(&data, "nope", 100), -1);
}

#[test]
fn pinned_count_never_exceeds_total() {
    let data = sample();
    for c in ["10", "11", "20", "99"] {
        assert!(get_message_count(&data, c, true) <= get_message_count(&data, c, false));
    }
}

#[test]
fn views_show_as_many_messages_as_counted() {
    let data = sample();
    for c in ["10", "11", "20"] {
        let pinned = get_message_count(&data, c, true);
        let pins = get_messages_html(&data, c, 0, 0, true);
        assert_eq!(pins.matches("<div class=\"msg ").count(), pinned);
        let total = get_message_count(&data, c, false);
        let all = get_messages_html(&data, c, 0, total - 1, false);
        assert_eq!(all.matches("<div class=\"msg ").count(), total);
        for k in 0..total {
            assert!(all.contains(&format!("id=\"msg-{}\"", k)));
        }
    }
}

#[test]
fn pages_need_only_the_authors_they_show() {
    let mut data = sample();
    // an author missing from the users, outside the page and outside the pins
    data.messages.get_mut(&10).unwrap().push(msg(106, 42, "stranger", T0 + 5 * DAY, false, None));
    assert_eq!(get_messages_html(&data, "10", 0, 5, false), expected_messages_html(&data, "10", 0, 5, false));
    assert_eq!(get_messages_html(&data, "10", 0, 0, true), expected_messages_html(&data, "10", 0, 0, true));
    let idx = get_msg_global_idx(&data, "10", 103);
    assert_eq!(idx, 3);
    let one = get_messages_html(&data, "10", idx as usize, idx as usize, false);
    assert_eq!(one.matches("<div class=\"msg ").count(), 1);
    assert!(one.contains("id=\"msg-3\""));
    // search results need only the authors of the shown window
    let results = vec![(10u64, 0usize), (10, 6)];
    assert_eq!(get_search_results_html(&data, &results, 0, 0).matches("search-result-item").count(), 1);
    assert_eq!(get_search_results_html(&data, &vec![], 0, 9), "");
    assert_eq!(get_search_results_html(&data, &results, 2, 0), "");
}

#[test]
fn export_runs_oldest_first() {
    let data = sample();
    let results = execute_search(&data, "", true, "");
    let text = export_search_results_text(&data, &results);
    let times: Vec<i64> = results.iter().rev().map(|&(c, k)| data.messages[&c][k].t).collect();
    for w in times.windows(2) {
        assert!(w[0] <= w[1]);
    }
    assert_eq!(results.len(), 10);
    assert!(text.starts_with("01/01/24 12:00 Alice: hello <world>\n"));
    assert!(text.ends_with("01/04/24 12:00 Bob <b>: Hello again\n"));
}

#[test]
fn sidebar_groups_channels_by_category() {
    let data = sample();
    let mut expected = String::new();
    let mut current_cat = String::new();
    for ch in &data.channels {
        if ch.c.as_str() != current_cat {
            expected.push_str(&format!("<div class=\"category\">{}</div>", escape_html(&ch.c)));
            current_cat = ch.c.to_string();
        }
        expected.push_str(&format!(
            "<div class=\"channel-btn\" id=\"ch-{}\" onclick=\"selectChannel('{}')\">{}</div>",
            ch.id, ch.id, escape_html(&ch.n)
        ));
    }
    assert_eq!(get_sidebar_html(&data), expected);
    assert_eq!(get_sidebar_html(&data).matches("class=\"category\"").count(), 2);
}

#[test]
fn stats_rank_authors_and_count_days() {
    let data = sample();
    let stats = compute_stats(&data, 0);
    // Alice has 5 messages, Bob 3; the deleted user and id 0 are left out
    assert_eq!(stats.leaderboard, vec![(1, 5), (2, 3)]);
    let d0 = 19723;
    assert_eq!(stats.daily_counts.get(&d0).unwrap().count, 4);
    assert_eq!(stats.daily_counts.get(&(d0 + 1)).unwrap().count, 3);
    assert_eq!(stats.daily_counts.get(&(d0 + 2)).unwrap().count, 2);
    assert_eq!(stats.daily_counts.get(&(d0 + 3)).unwrap().count, 1);
    assert_eq!(stats.max_day, 4);
    let first = stats.daily_counts.get(&d0).unwrap();
    assert_eq!((first.first_msg_c, first.first_msg_idx, first.first_msg_t), (10, 0, T0));
    let total: usize = stats.daily_counts.values().map(|d| d.count).sum();
    assert_eq!(total, 10);
}

#[test]
fn stats_follow_the_time_zone() {
    let data = sample();
    // 13 hours west of UTC, noon UTC falls on the day before
    let stats = compute_stats(&data, 13 * 60);
    assert_eq!(stats.daily_counts.get(&19722).unwrap().count, 4);
    // an offset of a day or more counts as UTC
    let utc = compute_stats(&data, 24 * 60);
    assert_eq!(utc.daily_counts.get(&19723).unwrap().count, 4);
}

#[test]
fn leaderboard_ties_go_to_the_lower_id() {
    let mut users = HashMap::new();
    users.insert(5, user("Five", "five", None, None));
    users.insert(4, user("Four", "four", None, None));
    let mut messages = HashMap::new();
    messages.insert(1, vec![msg(1, 5, "a", T0, false, None), msg(2, 4, "b", T0, false, None)]);
    let data = ArchiveData { users, channels: vec![], messages };
    let stats = compute_stats(&data, 0);
    assert_eq!(stats.leaderboard, vec![(4, 1), (5, 1)]);
}

#[test]
fn leaderboard_html_matches_the_viewer_markup() {
    let data = sample();
    let stats = compute_stats(&data, 0);
    let mut expected = String::new();
    for (i, (uid, count)) in stats.leaderboard[0..2].iter().enumerate() {
        let rank = i + 1;
        let user = data.users.get(uid).unwrap();
        let avatar_html = if let Some(pfp) = &user.p {
            format!("<div class=\"lb-avatar avatar-wrapper\"><img src=\"__DEFAULT_PFP__\" class=\"avatar-layer\"><img src=\"{}\" loading=\"lazy\" class=\"avatar-layer\" style=\"opacity: 0;\" onload=\"this.style.opacity=1; this.previousElementSibling.style.display='none';\"></div>", pfp)
        } else {
            "<img src=\"__DEFAULT_PFP__\" class=\"lb-avatar\">".to_string()
        };
        expected.push_str(&format!(
            "<div class=\"lb-item\">
                    <div class=\"lb-rank\">#{}</div>
                    {}
                    <div class=\"lb-name\" title=\"{}\">{}</div>
                    <div class=\"lb-count\">{}</div>
                </div>",
            rank, avatar_html, escape_html(&user.u), escape_html(&user.n), format_number(*count)
        ));
    }
    assert_eq!(get_leaderboard_html(&data, &stats, 0, 10), expected);
    assert_eq!(get_leaderboard_html(&data, &stats, 2, 10), "");
    assert!(get_leaderboard_html(&data, &stats, 1, 1).contains("#2"));
}

#[test]
fn heatmap_years_and_cells() {
    let data = sample();
    let stats = compute_stats(&data, 0);
    assert_eq!(get_heatmap_years(&stats), "[2024]");
    let colors: Vec<String> = (0..=stats.max_day).map(|c| format!("c{}", c)).collect();
    let html = get_heatmap_html(&stats, 2024, &colors);
    // 2024-01-01 is a Monday: one hidden cell, then 366 days
    assert_eq!(html.matches("hidden-cell").count(), 1);
    assert_eq!(html.matches("class=\"hm-cell\"").count(), 4);
    assert_eq!(html.matches("empty-cell").count(), 362);
    assert!(html.contains("<div class=\"hm-cell\" style=\"background-color: c4;\" title=\"Jan 1, 2024: 4 messages\" onclick=\"jumpToMessage('10', 0); closeStats();\"></div>"));
    assert!(html.contains("<div class=\"hm-cell empty-cell\" title=\"Dec 31, 2024: 0 messages\"></div>"));
    let html23 = get_heatmap_html(&stats, 2023, &colors);
    // 2023-01-01 is a Sunday
    assert_eq!(html23.matches("hidden-cell").count(), 0);
    assert_eq!(html23.matches("empty-cell").count(), 365);
}

#[test]
fn heatmap_years_are_sorted_and_distinct() {
    let mut data = sample();
    data.messages.insert(40, vec![msg(1, 1, "old", T0 - 400 * DAY, false, None), msg(2, 1, "older", T0 - 800 * DAY, false, None)]);
    let stats = compute_stats(&data, 0);
    assert_eq!(get_heatmap_years(&stats), "[2021,2022,2024]");
}

#[test]
fn search_finds_text_and_authors() {
    let data = sample();
    // case-insensitive, all channels, latest first
    let r = execute_search(&data, "HELLO", true, "");
    assert_eq!(r, vec![(20, 0), (20, 1), (10, 0)]);
    // one channel
    assert_eq!(execute_search(&data, "hello", false, "10"), vec![(10, 0)]);
    // no channel selected
    assert_eq!(execute_search(&data, "hello", false, "abc"), vec![]);
    // author filter by user name, then text
    assert_eq!(execute_search(&data, "from:ali", true, ""), vec![(10, 5), (10, 4), (20, 1), (10, 1), (10, 0)]);
    assert_eq!(execute_search(&data, "from:bob hello", true, ""), vec![(20, 0)]);
    // author filter by id
    assert_eq!(execute_search(&data, "from:2", false, "10"), vec![(10, 3), (10, 2)]);
    // equal times: by channel id, then index
    assert_eq!(execute_search(&data, "", true, ""), {
        let mut all: Vec<(u64, usize, i64)> = Vec::new();
        for (c, msgs) in &data.messages {
            for (i, m) in msgs.iter().enumerate() {
                all.push((*c, i, m.t));
            }
        }
        all.sort_by(|a, b| b.2.cmp(&a.2).then(a.0.cmp(&b.0)).then(a.1.cmp(&b.1)));
        all.into_iter().map(|(c, i, _)| (c, i)).collect::<Vec<_>>()
    });
}

#[test]
fn local_search_finds_a_subset_of_global_search() {
    let data = sample();
    for q in ["hello", "from:alice", "e", ""] {
        let global = execute_search(&data, q, true, "");
        for c in ["10", "11", "20"] {
            for hit in execute_search(&data, q, false, c) {
                assert!(global.contains(&hit));
            }
        }
    }
}

#[test]
fn search_results_html_and_export() {
    let data = sample();
    let results = execute_search(&data, "hello", true, "");
    let html = get_search_results_html(&data, &results, 0, 1);
    let (c_id, global_idx) = results[0];
    let m = &data.messages[&c_id][global_idx];
    let u = &data.users[&m.a];
    let expected_first = format!(
        "<div class=\"search-result-item\" onclick=\"jumpToMessage('{}', {})\">
                <div class=\"search-result-header\">
                    {}
                    <div class=\"search-result-meta\">
                        <span class=\"search-result-name\" style=\"color: {}\" title=\"{}\">{}</span>
                        <span class=\"search-result-time ts-full\" data-ts=\"{}\"></span>
                    </div>
                </div>
                <div class=\"search-result-text\">{}</div>
                <div class=\"search-result-channel\"># {}</div>
            </div>",
        c_id, global_idx, "<img src=\"__DEFAULT_PFP__\" class=\"search-result-avatar\">", "#ffffff", escape_html(&u.u), escape_html(&u.n), m.t, escape_html(&m.c), "memes"
    );
    assert!(html.starts_with(&expected_first));
    assert_eq!(html.matches("search-result-item").count(), 2);
    assert_eq!(get_search_results_html(&data, &results, 3, 9), "");
    assert_eq!(get_search_results_html(&data, &vec![], 0, 9), "");

    let text = export_search_results_text(&data, &results);
    assert_eq!(
        text,
        "01/01/24 12:00 Alice: hello <world>\n01/02/24 12:00 Alice: HELLO\n01/04/24 12:00 Bob <b>: Hello again\n"
    );
    assert_eq!(export_search_results_text(&data, &vec![]), "");
    let blank = execute_search(&data, "from:bob", false, "10");
    assert_eq!(export_search_results_text(&data, &blank), "01/01/24 12:02 Bob <b>: a reply\n01/01/24 12:02 Bob <b>: [attachment]\n");
}

#[test]
fn search_on_a_lowered_query() {
    let data = sample();
    assert_eq!(search_lowered(&data, "hello", true, ""), execute_search(&data, "HeLLo", true, ""));
    assert_eq!(search_lowered(&data, "from:bob hello", true, ""), vec![(20, 0)]);
    // the query is taken as given: upper case finds nothing in lower-cased text
    assert_eq!(search_lowered(&data, "HELLO", true, ""), vec![]);
    assert_eq!(search_lowered(&data, "hello", false, "0"), vec![]);
}

#[test]
fn heatmap_cells_from_a_label() {
    let colors = vec!["c0".to_string(), "c1".to_string(), "c2".to_string()];
    let mut out = String::from(">");
    let info = DayInfo { count: 2, first_msg_t: 0, first_msg_c: 10, first_msg_idx: 3 };
    push_labelled_cell(&mut out, "Mar 4, 2025", Some(info), &colors);
    assert_eq!(
        out,
        "><div class=\"hm-cell\" style=\"background-color: c2;\" title=\"Mar 4, 2025: 2 messages\" onclick=\"jumpToMessage('10', 3); closeStats();\"></div>"
    );
    let mut empty = String::new();
    push_labelled_cell(&mut empty, "Mar 5, 2025", None, &colors);
    assert_eq!(empty, "<div class=\"hm-cell empty-cell\" title=\"Mar 5, 2025: 0 messages\"></div>");
}

#[test]
fn export_lines_from_a_stamp() {
    let mut out = String::from("x\n");
    push_export_text(&mut out, "01/02/24 03:04", "Ann", "hi <there>");
    push_export_text(&mut out, "stamp", "Bob", " \n ");
    assert_eq!(out, "x\n01/02/24 03:04 Ann: hi <there>\nstamp Bob: [attachment]\n");
}

#[test]
fn day_links_go_to_the_lowest_channel_on_equal_times() {
    let mut users = HashMap::new();
    users.insert(1, user("A", "a", None, None));
    let mut messages = HashMap::new();
    messages.insert(30, vec![msg(1, 1, "x", T0 + 5, false, None), msg(2, 1, "y", T0, false, None)]);
    messages.insert(12, vec![msg(3, 1, "z", T0 + 1, false, None), msg(4, 1, "w", T0, false, None), msg(5, 1, "v", T0, false, None)]);
    messages.insert(40, vec![msg(6, 1, "u", T0, false, None)]);
    let data = ArchiveData { users, channels: vec![], messages };
    let a = compute_stats(&data, 0);
    let b = compute_stats(&data, 0);
    let day = a.daily_counts.get(&19723).unwrap();
    assert_eq!((day.count, day.first_msg_t, day.first_msg_c, day.first_msg_idx), (6, T0, 12, 1));
    let other = b.daily_counts.get(&19723).unwrap();
    assert_eq!((other.first_msg_c, other.first_msg_idx), (12, 1));
    assert_eq!(a.max_day, b.max_day);
    assert_eq!(a.leaderboard, b.leaderboard);
}
