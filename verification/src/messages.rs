//! The message list of a channel.
use vstd::prelude::*;
use crate::html::{
    attachment_span, grouped_header, msg_block, msg_header, push_grouped_header, push_msg_block,
    push_msg_header, push_reply_found, push_ts_hover, reply_deleted, reply_found, ts_hover,
};
use crate::model::{ArchiveData, MinMsg, MinUser, channel_msgs};
use crate::text::{
    escape_seq, escape_html, is_blank, parse_u64, parse_u64_or_zero, push_chars, to_chars, trim,
    trim_bounds,
};
use crate::views::{avatar_of, avatar_string};

verus! {

broadcast use vstd::std_specs::hash::group_hash_axioms;

/// The name colour of a user: their own, or white.
pub open spec fn color_of(user: MinUser) -> Seq<char> {
    match user.c {
        Some(c) => c@,
        None => "#ffffff"@,
    }
}

fn color_str(user: &MinUser) -> (r: &str)
    ensures
        r@ == color_of(*user),
{
    match &user.c {
        Some(c) => c.as_str(),
        None => "#ffffff",
    }
}

/// A message's text as shown: escaped, or the attachment placeholder where it is blank.
pub open spec fn shown_content(c: Seq<char>) -> Seq<char> {
    if trim(c).len() == 0 {
        attachment_span()
    } else {
        escape_seq(c)
    }
}

pub fn shown_content_string(c: &str) -> (r: String)
    ensures
        r@ == shown_content(c@),
{
    if is_blank(c) {
        let mut s = String::new();
        s.append("<span style=\"color: var(--text-muted); font-style: italic;\">[attachment]</span>");
        s
    } else {
        escape_html(c)
    }
}

/// `s` with each line break turned into a space.
pub open spec fn newline_to_space(s: Seq<char>) -> Seq<char> {
    s.map_values(|c: char| if c == '\n' { ' ' } else { c })
}

/// The quoted text of a replied-to message: on one line, "Attachment" where it is
/// blank, cut to 80 characters followed by "..." where it is longer.
pub open spec fn reply_preview(c: Seq<char>) -> Seq<char> {
    let s = newline_to_space(c);
    if trim(s).len() == 0 {
        "Attachment"@
    } else if s.len() > 80 {
        s.take(80) + "..."@
    } else {
        s
    }
}

fn reply_preview_string(c: &str) -> (r: String)
    ensures
        r@ == reply_preview(c@),
{
    let v = to_chars(c);
    let mut w: Vec<char> = Vec::new();
    let mut i: usize = 0;
    while i < v.len()
        invariant
            i <= v@.len(),
            v@ == c@,
            w@ == newline_to_space(v@.take(i as int)),
        decreases v@.len() - i,
    {
        let ch = v[i];
        if ch == '\n' {
            w.push(' ');
        } else {
            w.push(ch);
        }
        assert(w@ =~= newline_to_space(v@.take(i + 1)));
        i += 1;
    }
    assert(v@.take(v@.len() as int) =~= v@);
    let (lo, hi) = trim_bounds(w.as_slice());
    let mut s = String::new();
    if lo == hi {
        s.append("Attachment");
    } else if w.len() > 80 {
        push_chars(&mut s, w.as_slice(), 0, 80);
        s.append("...");
        assert(w@.subrange(0, 80) =~= w@.take(80));
    } else {
        push_chars(&mut s, w.as_slice(), 0, w.len());
        assert(w@.subrange(0, w@.len() as int) =~= w@);
    }
    assert(s@ =~= reply_preview(c@));
    s
}

/// The first index at or after `k` of a message with id `id`.
pub open spec fn first_with_id(msgs: Seq<MinMsg>, id: u64, k: int) -> Option<int>
    decreases msgs.len() - k,
{
    if k < 0 || k >= msgs.len() {
        None
    } else if msgs[k].i == id {
        Some(k)
    } else {
        first_with_id(msgs, id, k + 1)
    }
}

proof fn lemma_first_with_id(msgs: Seq<MinMsg>, id: u64, k: int)
    requires
        0 <= k,
    ensures
        first_with_id(msgs, id, k) matches Some(j) ==> k <= j < msgs.len() && msgs[j].i == id,
    decreases msgs.len() - k,
{
    if k < msgs.len() && msgs[k].i != id {
        lemma_first_with_id(msgs, id, k + 1);
    }
}

fn find_by_id(msgs: &Vec<MinMsg>, id: u64) -> (r: Option<usize>)
    ensures
        r matches Some(j) ==> first_with_id(msgs@, id, 0) == Some(j as int),
        r is None ==> first_with_id(msgs@, id, 0) is None,
{
    let mut k: usize = 0;
    while k < msgs.len()
        invariant
            k <= msgs@.len(),
            first_with_id(msgs@, id, 0) == first_with_id(msgs@, id, k as int),
        decreases msgs@.len() - k,
    {
        if msgs[k].i == id {
            return Some(k);
        }
        k += 1;
    }
    None
}

/// Whether a message joins the group of the message shown before it: same author
/// within five minutes, outside the pinned view, and not a reply.
pub open spec fn is_grouped(msg: MinMsg, last_author: u64, last_time: int, only_pins: bool) -> bool {
    !only_pins && msg.a == last_author && msg.t - last_time < 300000 && msg.r is None
}

/// The quote above a reply: the replied-to message of the same channel, or a note that
/// it was deleted; nothing for a message that is no reply.
pub open spec fn reply_part(
    users: Map<u64, MinUser>,
    channel_id: Seq<char>,
    msgs: Seq<MinMsg>,
    msg: MinMsg,
) -> Seq<char> {
    match msg.r {
        None => Seq::empty(),
        Some(rid) => match first_with_id(msgs, rid, 0) {
            Some(k) => {
                let orig = msgs[k];
                let ou = users[orig.a];
                reply_found(
                    channel_id,
                    rid,
                    avatar_of("reply-avatar"@, ou.p),
                    color_of(ou),
                    ou.u@,
                    ou.n@,
                    reply_preview(orig.c@),
                )
            },
            None => reply_deleted(),
        },
    }
}

/// The HTML of message `gi` of `msgs`, after a message by `last_author` at `last_time`.
pub open spec fn message_html(
    users: Map<u64, MinUser>,
    channel_id: Seq<char>,
    msgs: Seq<MinMsg>,
    gi: int,
    last_author: u64,
    last_time: int,
    only_pins: bool,
) -> Seq<char> {
    let msg = msgs[gi];
    let user = users[msg.a];
    let grouped = is_grouped(msg, last_author, last_time, only_pins);
    let classes = (if grouped {
        "grouped"@
    } else {
        Seq::empty()
    }) + " "@ + (if msg.r is Some {
        "has-reply"@
    } else {
        Seq::empty()
    });
    let avatar = if grouped {
        ts_hover(msg.t)
    } else {
        avatar_of("avatar"@, user.p)
    };
    let header = if grouped {
        grouped_header(channel_id, msg.i)
    } else {
        msg_header(color_of(user), user.u@, user.n@, msg.t, channel_id, msg.i)
    };
    msg_block(
        classes,
        gi as usize,
        avatar,
        reply_part(users, channel_id, msgs, msg),
        header,
        shown_content(msg.c@),
    )
}

/// The indices of the pinned messages among the first `n`, latest first.
pub open spec fn pinned_desc(msgs: Seq<MinMsg>, n: int) -> Seq<int>
    decreases n,
{
    if n <= 0 {
        Seq::empty()
    } else {
        (if msgs[n - 1].p {
            seq![n - 1]
        } else {
            Seq::empty()
        }) + pinned_desc(msgs, n - 1)
    }
}

/// The indices `start..=end`, cut at the end of the channel.
pub open spec fn page_indices(len: int, start: int, end: int) -> Seq<int> {
    let hi = if end + 1 < len {
        end + 1
    } else {
        len
    };
    if hi <= start {
        Seq::empty()
    } else {
        Seq::new((hi - start) as nat, |k: int| start + k)
    }
}

/// The messages that the list shows, in order: all pinned ones latest first, or a page.
pub open spec fn shown_indices(msgs: Seq<MinMsg>, start: int, end: int, only_pins: bool) -> Seq<int> {
    if only_pins {
        pinned_desc(msgs, msgs.len() as int)
    } else {
        page_indices(msgs.len() as int, start, end)
    }
}

/// The first `n` messages of `order`; each is grouped against the one shown before it
/// (against author 0 at time 0 for the first).
pub open spec fn messages_html(
    users: Map<u64, MinUser>,
    channel_id: Seq<char>,
    msgs: Seq<MinMsg>,
    order: Seq<int>,
    n: int,
    only_pins: bool,
) -> Seq<char>
    decreases n,
{
    if n <= 0 {
        Seq::empty()
    } else {
        let (la, lt) = if n >= 2 {
            (msgs[order[n - 2]].a, msgs[order[n - 2]].t as int)
        } else {
            (0u64, 0int)
        };
        messages_html(users, channel_id, msgs, order, n - 1, only_pins) + message_html(
            users,
            channel_id,
            msgs,
            order[n - 1],
            la,
            lt,
            only_pins,
        )
    }
}

/// The users that rendering message `k` of `msgs` looks up are known: its author,
/// and the author of the message it replies to where that message is in `msgs`.
pub open spec fn message_authors_known(users: Map<u64, MinUser>, msgs: Seq<MinMsg>, k: int) -> bool {
    &&& users.contains_key(msgs[k].a)
    &&& match msgs[k].r {
        Some(rid) => match first_with_id(msgs, rid, 0) {
            Some(j) => users.contains_key(msgs[j].a),
            None => true,
        },
        None => true,
    }
}

/// The users that rendering the messages `order` of `msgs` looks up are known.
pub open spec fn shown_authors_known(users: Map<u64, MinUser>, msgs: Seq<MinMsg>, order: Seq<int>) -> bool {
    forall|t: int| 0 <= t < order.len() ==> #[trigger] message_authors_known(users, msgs, order[t])
}

fn push_message(
    out: &mut String,
    data: &ArchiveData,
    channel_id: &str,
    msgs: &Vec<MinMsg>,
    gi: usize,
    last_author: u64,
    last_time: i64,
    only_pins: bool,
)
    requires
        gi < msgs@.len(),
        message_authors_known(data.users@, msgs@, gi as int),
    ensures
        final(out)@ == old(out)@ + message_html(
            data.users@,
            channel_id@,
            msgs@,
            gi as int,
            last_author,
            last_time as int,
            only_pins,
        ),
{
    let msg = &msgs[gi];
    assert(data.users@.contains_key(msgs@[gi as int].a));
    let user = match data.users.get(&msg.a) {
        Some(u) => u,
        None => {
            return;
        },
    };
    let content = shown_content_string(msg.c.as_str());
    let color = color_str(user);
    let grouped = !only_pins && msg.a == last_author && (msg.t as i128) - (last_time as i128)
        < 300000 && msg.r.is_none();
    let mut reply = String::new();
    match msg.r {
        Some(rid) => {
            match find_by_id(msgs, rid) {
                Some(k) => {
                    proof {
                        lemma_first_with_id(msgs@, rid, 0);
                    }
                    let orig = &msgs[k];
                    let ou = match data.users.get(&orig.a) {
                        Some(u) => u,
                        None => {
                            return;
                        },
                    };
                    let oavatar = avatar_string("reply-avatar", &ou.p);
                    let preview = reply_preview_string(orig.c.as_str());
                    push_reply_found(
                        &mut reply,
                        channel_id,
                        rid,
                        oavatar.as_str(),
                        color_str(ou),
                        ou.u.as_str(),
                        ou.n.as_str(),
                        preview.as_str(),
                    );
                },
                None => {
                    reply.append("<div class=\"replied-message\">\n                        <div class=\"reply-spine\"></div>\n                        <span class=\"reply-text\" style=\"font-style: italic;\">Original message was deleted.</span>\n                    </div>");
                },
            }
        },
        None => {},
    }
    assert(reply@ =~= reply_part(data.users@, channel_id@, msgs@, *msg));
    let mut classes = String::new();
    if grouped {
        classes.append("grouped");
    }
    classes.append(" ");
    if msg.r.is_some() {
        classes.append("has-reply");
    }
    let mut avatar = String::new();
    let mut header = String::new();
    if grouped {
        push_ts_hover(&mut avatar, msg.t);
        push_grouped_header(&mut header, channel_id, msg.i);
    } else {
        avatar = avatar_string("avatar", &user.p);
        push_msg_header(
            &mut header,
            color,
            user.u.as_str(),
            user.n.as_str(),
            msg.t,
            channel_id,
            msg.i,
        );
    }
    push_msg_block(
        out,
        classes.as_str(),
        gi,
        avatar.as_str(),
        reply.as_str(),
        header.as_str(),
        content.as_str(),
    );
    proof {
        let spec_grouped = is_grouped(msgs@[gi as int], last_author, last_time as int, only_pins);
        assert(grouped == spec_grouped);
        assert(classes@ =~= (if spec_grouped {
            "grouped"@
        } else {
            Seq::empty()
        }) + " "@ + (if msg.r is Some {
            "has-reply"@
        } else {
            Seq::empty()
        }));
        if grouped {
            assert(avatar@ =~= ts_hover(msg.t));
            assert(header@ =~= grouped_header(channel_id@, msg.i));
        } else {
            assert(header@ =~= msg_header(color_of(*user), user.u@, user.n@, msg.t, channel_id@, msg.i));
        }
    }
}

/// The indices that the message list shows.
fn shown_order(msgs: &Vec<MinMsg>, start_idx: usize, end_idx: usize, only_pins: bool) -> (r: Vec<usize>)
    requires
        !only_pins ==> start_idx <= end_idx,
    ensures
        r@.len() == shown_indices(msgs@, start_idx as int, end_idx as int, only_pins).len(),
        forall|k: int|
            0 <= k < r@.len() ==> #[trigger] r@[k] as int == shown_indices(
                msgs@,
                start_idx as int,
                end_idx as int,
                only_pins,
            )[k] && r@[k] < msgs@.len(),
{
    let mut order: Vec<usize> = Vec::new();
    let len = msgs.len();
    if only_pins {
        let mut i = len;
        while i > 0
            invariant
                i <= len == msgs@.len(),
                order@.len() + pinned_desc(msgs@, i as int).len() == pinned_desc(msgs@, len as int).len(),
                forall|k: int|
                    0 <= k < order@.len() ==> #[trigger] order@[k] as int == pinned_desc(msgs@, len as int)[k] && order@[k] < len,
                forall|k: int|
                    0 <= k < pinned_desc(msgs@, i as int).len() ==> pinned_desc(msgs@, len as int)[order@.len() + k]
                        == #[trigger] pinned_desc(msgs@, i as int)[k],
            decreases i,
        {
            if msgs[i - 1].p {
                assert(pinned_desc(msgs@, i as int)[0] == i - 1);
                order.push(i - 1);
            }
            proof {
                let a = pinned_desc(msgs@, i as int);
                let b = pinned_desc(msgs@, i - 1);
                if msgs@[i - 1].p {
                    assert(a == seq![i - 1] + b);
                    assert forall|k: int| 0 <= k < b.len() implies pinned_desc(msgs@, len as int)[order@.len() + k] == #[trigger] b[k] by {
                        assert(a[k + 1] == b[k]);
                    }
                } else {
                    assert(a =~= b);
                }
            }
            i -= 1;
        }
        assert(pinned_desc(msgs@, 0).len() == 0);
    } else {
        let hi = if end_idx < len && end_idx + 1 < len {
            end_idx + 1
        } else {
            len
        };
        let mut k = start_idx;
        while k < hi
            invariant
                k == start_idx || k <= hi,
                hi <= len == msgs@.len(),
                hi as int == (if end_idx + 1 < len { end_idx + 1 } else { len as int }),
                k >= start_idx,
                order@.len() == k - start_idx,
                forall|t: int| 0 <= t < order@.len() ==> #[trigger] order@[t] == start_idx + t,
            decreases hi - k,
        {
            order.push(k);
            k += 1;
        }
        proof {
            let si = shown_indices(msgs@, start_idx as int, end_idx as int, only_pins);
            assert(si == page_indices(len as int, start_idx as int, end_idx as int));
            if hi <= start_idx {
                assert(si.len() == 0);
            } else {
                assert(si =~= Seq::new((hi - start_idx) as nat, |t: int| start_idx + t));
                assert(k == hi);
            }
        }
    }
    order
}

/// The message list of channel `channel_id`: all its pinned messages latest first,
/// or its messages `start_idx..=end_idx`. Empty for a channel not in the archive.
pub fn get_messages_html(
    data: &ArchiveData,
    channel_id: &str,
    start_idx: usize,
    end_idx: usize,
    only_pins: bool,
) -> (r: String)
    requires
        data.messages@.contains_key(parse_u64_or_zero(channel_id@)) && !only_pins ==> start_idx
            <= end_idx && end_idx - start_idx < usize::MAX,
        ({
            let msgs = channel_msgs(data.messages@, parse_u64_or_zero(channel_id@));
            data.messages@.contains_key(parse_u64_or_zero(channel_id@)) ==> shown_authors_known(
                data.users@,
                msgs,
                shown_indices(msgs, start_idx as int, end_idx as int, only_pins),
            )
        }),
    ensures
        ({
            let c = parse_u64_or_zero(channel_id@);
            let msgs = channel_msgs(data.messages@, c);
            let order = shown_indices(msgs, start_idx as int, end_idx as int, only_pins);
            r@ == if data.messages@.contains_key(c) {
                messages_html(data.users@, channel_id@, msgs, order, order.len() as int, only_pins)
            } else {
                Seq::empty()
            }
        }),
{
    let c = match parse_u64(channel_id) {
        Some(v) => v,
        None => 0,
    };
    let msgs = match data.messages.get(&c) {
        Some(m) => m,
        None => {
            return String::new();
        },
    };
    let order = shown_order(msgs, start_idx, end_idx, only_pins);
    let ghost ord = shown_indices(msgs@, start_idx as int, end_idx as int, only_pins);
    let mut html = String::new();
    let mut last_author: u64 = 0;
    let mut last_time: i64 = 0;
    let mut k: usize = 0;
    while k < order.len()
        invariant
            k <= order@.len() == ord.len(),
            forall|t: int| 0 <= t < order@.len() ==> #[trigger] order@[t] as int == ord[t] && order@[t] < msgs@.len(),
            shown_authors_known(data.users@, msgs@, ord),
            html@ == messages_html(data.users@, channel_id@, msgs@, ord, k as int, only_pins),
            k >= 1 ==> last_author == msgs@[ord[k - 1]].a && last_time == msgs@[ord[k - 1]].t,
            k == 0 ==> last_author == 0 && last_time == 0,
        decreases order@.len() - k,
    {
        let gi = order[k];
        assert(message_authors_known(data.users@, msgs@, ord[k as int]));
        push_message(&mut html, data, channel_id, msgs, gi, last_author, last_time, only_pins);
        last_author = msgs[gi].a;
        last_time = msgs[gi].t;
        k += 1;
    }
    html
}

} // verus!
