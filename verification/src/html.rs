//! The HTML fragments that the viewer is built from.
use vstd::prelude::*;
use crate::text::{dec, dec_int, escape_seq, push_escaped, push_i64, push_u64};

verus! {

/// An avatar image layered over the default one, for CSS class `cls`.
pub open spec fn avatar_wrapped(cls: Seq<char>, pfp: Seq<char>) -> Seq<char> {
    "<div class=\""@
        + cls
        + " avatar-wrapper\"><img src=\"__DEFAULT_PFP__\" class=\"avatar-layer\"><img src=\""@
        + pfp
        + "\" loading=\"lazy\" class=\"avatar-layer\" style=\"opacity: 0;\" onload=\"this.style.opacity=1; this.previousElementSibling.style.display='none';\"></div>"@
}

/// Appends `avatar_wrapped` to `out`.
pub fn push_avatar_wrapped(out: &mut String, cls: &str, pfp: &str)
    ensures
        final(out)@ == old(out)@ + avatar_wrapped(cls@, pfp@),
{
    out.append("<div class=\"");
    out.append(cls);
    out.append(" avatar-wrapper\"><img src=\"__DEFAULT_PFP__\" class=\"avatar-layer\"><img src=\"");
    out.append(pfp);
    out.append("\" loading=\"lazy\" class=\"avatar-layer\" style=\"opacity: 0;\" onload=\"this.style.opacity=1; this.previousElementSibling.style.display='none';\"></div>");
    assert(final(out)@ =~= old(out)@ + avatar_wrapped(cls@, pfp@));
}

/// The default avatar image, for CSS class `cls`.
pub open spec fn avatar_default(cls: Seq<char>) -> Seq<char> {
    "<img src=\"__DEFAULT_PFP__\" class=\""@
        + cls
        + "\">"@
}

/// Appends `avatar_default` to `out`.
pub fn push_avatar_default(out: &mut String, cls: &str)
    ensures
        final(out)@ == old(out)@ + avatar_default(cls@),
{
    out.append("<img src=\"__DEFAULT_PFP__\" class=\"");
    out.append(cls);
    out.append("\">");
    assert(final(out)@ =~= old(out)@ + avatar_default(cls@));
}

/// One leaderboard row.
pub open spec fn lb_item(rank: usize, avatar: Seq<char>, username: Seq<char>, name: Seq<char>, count: Seq<char>) -> Seq<char> {
    "<div class=\"lb-item\">\n                    <div class=\"lb-rank\">#"@
        + dec(rank as nat)
        + "</div>\n                    "@
        + avatar
        + "\n                    <div class=\"lb-name\" title=\""@
        + escape_seq(username)
        + "\">"@
        + escape_seq(name)
        + "</div>\n                    <div class=\"lb-count\">"@
        + count
        + "</div>\n                </div>"@
}

/// Appends `lb_item` to `out`.
pub fn push_lb_item(out: &mut String, rank: usize, avatar: &str, username: &str, name: &str, count: &str)
    ensures
        final(out)@ == old(out)@ + lb_item(rank, avatar@, username@, name@, count@),
{
    out.append("<div class=\"lb-item\">\n                    <div class=\"lb-rank\">#");
    push_u64(out, rank as u64);
    out.append("</div>\n                    ");
    out.append(avatar);
    out.append("\n                    <div class=\"lb-name\" title=\"");
    push_escaped(out, username);
    out.append("\">");
    push_escaped(out, name);
    out.append("</div>\n                    <div class=\"lb-count\">");
    out.append(count);
    out.append("</div>\n                </div>");
    assert(final(out)@ =~= old(out)@ + lb_item(rank, avatar@, username@, name@, count@));
}

/// A hidden heatmap cell that pads the first week.
pub open spec fn hm_hidden() -> Seq<char> {
    "<div class=\"hm-cell hidden-cell\"></div>"@
}

/// Appends `hm_hidden` to `out`.
pub fn push_hm_hidden(out: &mut String)
    ensures
        final(out)@ == old(out)@ + hm_hidden(),
{
    out.append("<div class=\"hm-cell hidden-cell\"></div>");
    assert(final(out)@ =~= old(out)@ + hm_hidden());
}

/// A heatmap cell of a day with messages.
pub open spec fn hm_cell(color: Seq<char>, title: Seq<char>, channel: u64, idx: usize) -> Seq<char> {
    "<div class=\"hm-cell\" style=\"background-color: "@
        + color
        + ";\" title=\""@
        + title
        + "\" onclick=\"jumpToMessage('"@
        + dec(channel as nat)
        + "', "@
        + dec(idx as nat)
        + "); closeStats();\"></div>"@
}

/// Appends `hm_cell` to `out`.
pub fn push_hm_cell(out: &mut String, color: &str, title: &str, channel: u64, idx: usize)
    ensures
        final(out)@ == old(out)@ + hm_cell(color@, title@, channel, idx),
{
    out.append("<div class=\"hm-cell\" style=\"background-color: ");
    out.append(color);
    out.append(";\" title=\"");
    out.append(title);
    out.append("\" onclick=\"jumpToMessage('");
    push_u64(out, channel);
    out.append("', ");
    push_u64(out, idx as u64);
    out.append("); closeStats();\"></div>");
    assert(final(out)@ =~= old(out)@ + hm_cell(color@, title@, channel, idx));
}

/// A heatmap cell of a day without messages.
pub open spec fn hm_empty(title: Seq<char>) -> Seq<char> {
    "<div class=\"hm-cell empty-cell\" title=\""@
        + title
        + "\"></div>"@
}

/// Appends `hm_empty` to `out`.
pub fn push_hm_empty(out: &mut String, title: &str)
    ensures
        final(out)@ == old(out)@ + hm_empty(title@),
{
    out.append("<div class=\"hm-cell empty-cell\" title=\"");
    out.append(title);
    out.append("\"></div>");
    assert(final(out)@ =~= old(out)@ + hm_empty(title@));
}

/// A category heading in the sidebar.
pub open spec fn category_html(cat: Seq<char>) -> Seq<char> {
    "<div class=\"category\">"@
        + escape_seq(cat)
        + "</div>"@
}

/// Appends `category_html` to `out`.
pub fn push_category_html(out: &mut String, cat: &str)
    ensures
        final(out)@ == old(out)@ + category_html(cat@),
{
    out.append("<div class=\"category\">");
    push_escaped(out, cat);
    out.append("</div>");
    assert(final(out)@ =~= old(out)@ + category_html(cat@));
}

/// A channel button in the sidebar.
pub open spec fn channel_btn(id: u64, name: Seq<char>) -> Seq<char> {
    "<div class=\"channel-btn\" id=\"ch-"@
        + dec(id as nat)
        + "\" onclick=\"selectChannel('"@
        + dec(id as nat)
        + "')\">"@
        + escape_seq(name)
        + "</div>"@
}

/// Appends `channel_btn` to `out`.
pub fn push_channel_btn(out: &mut String, id: u64, name: &str)
    ensures
        final(out)@ == old(out)@ + channel_btn(id, name@),
{
    out.append("<div class=\"channel-btn\" id=\"ch-");
    push_u64(out, id);
    out.append("\" onclick=\"selectChannel('");
    push_u64(out, id);
    out.append("')\">");
    push_escaped(out, name);
    out.append("</div>");
    assert(final(out)@ =~= old(out)@ + channel_btn(id, name@));
}

/// The quote of the message that a message replies to.
pub open spec fn reply_found(channel_id: Seq<char>, reply_id: u64, avatar: Seq<char>, color: Seq<char>, username: Seq<char>, name: Seq<char>, preview: Seq<char>) -> Seq<char> {
    "<div class=\"replied-message\" onclick=\"jumpToMessageById('"@
        + channel_id
        + "', '"@
        + dec(reply_id as nat)
        + "')\">\n                        <div class=\"reply-spine\"></div>\n                        "@
        + avatar
        + "\n                        <span class=\"reply-author\" style=\"color: "@
        + color
        + "\" title=\""@
        + escape_seq(username)
        + "\">"@
        + escape_seq(name)
        + "</span>\n                        <span class=\"reply-text\">"@
        + escape_seq(preview)
        + "</span>\n                    </div>"@
}

/// Appends `reply_found` to `out`.
pub fn push_reply_found(out: &mut String, channel_id: &str, reply_id: u64, avatar: &str, color: &str, username: &str, name: &str, preview: &str)
    ensures
        final(out)@ == old(out)@ + reply_found(channel_id@, reply_id, avatar@, color@, username@, name@, preview@),
{
    out.append("<div class=\"replied-message\" onclick=\"jumpToMessageById('");
    out.append(channel_id);
    out.append("', '");
    push_u64(out, reply_id);
    out.append("')\">\n                        <div class=\"reply-spine\"></div>\n                        ");
    out.append(avatar);
    out.append("\n                        <span class=\"reply-author\" style=\"color: ");
    out.append(color);
    out.append("\" title=\"");
    push_escaped(out, username);
    out.append("\">");
    push_escaped(out, name);
    out.append("</span>\n                        <span class=\"reply-text\">");
    push_escaped(out, preview);
    out.append("</span>\n                    </div>");
    assert(final(out)@ =~= old(out)@ + reply_found(channel_id@, reply_id, avatar@, color@, username@, name@, preview@));
}

/// The hover timestamp shown in place of the avatar of a grouped message.
pub open spec fn ts_hover(t: i64) -> Seq<char> {
    "<span class=\"msg-timestamp-hover ts-time\" data-ts=\""@
        + dec_int(t as int)
        + "\"></span>"@
}

/// Appends `ts_hover` to `out`.
pub fn push_ts_hover(out: &mut String, t: i64)
    ensures
        final(out)@ == old(out)@ + ts_hover(t),
{
    out.append("<span class=\"msg-timestamp-hover ts-time\" data-ts=\"");
    push_i64(out, t);
    out.append("\"></span>");
    assert(final(out)@ =~= old(out)@ + ts_hover(t));
}

/// The copy-link action of a grouped message.
pub open spec fn grouped_header(channel_id: Seq<char>, msg_id: u64) -> Seq<char> {
    "<div class=\"msg-actions grouped-actions\" onclick=\"copyLink('"@
        + channel_id
        + "', '"@
        + dec(msg_id as nat)
        + "')\">\u{1f517} Copy Link</div>"@
}

/// Appends `grouped_header` to `out`.
pub fn push_grouped_header(out: &mut String, channel_id: &str, msg_id: u64)
    ensures
        final(out)@ == old(out)@ + grouped_header(channel_id@, msg_id),
{
    out.append("<div class=\"msg-actions grouped-actions\" onclick=\"copyLink('");
    out.append(channel_id);
    out.append("', '");
    push_u64(out, msg_id);
    out.append("')\">\u{1f517} Copy Link</div>");
    assert(final(out)@ =~= old(out)@ + grouped_header(channel_id@, msg_id));
}

/// The header of a message: author, time and copy-link action.
pub open spec fn msg_header(color: Seq<char>, username: Seq<char>, name: Seq<char>, t: i64, channel_id: Seq<char>, msg_id: u64) -> Seq<char> {
    "<div class=\"msg-header\"><span class=\"name\" style=\"color: "@
        + color
        + "\" title=\""@
        + escape_seq(username)
        + "\">"@
        + escape_seq(name)
        + "</span><span class=\"time ts-full\" data-ts=\""@
        + dec_int(t as int)
        + "\"></span><span class=\"msg-actions\" onclick=\"copyLink('"@
        + channel_id
        + "', '"@
        + dec(msg_id as nat)
        + "')\">\u{1f517} Copy Link</span></div>"@
}

/// Appends `msg_header` to `out`.
pub fn push_msg_header(out: &mut String, color: &str, username: &str, name: &str, t: i64, channel_id: &str, msg_id: u64)
    ensures
        final(out)@ == old(out)@ + msg_header(color@, username@, name@, t, channel_id@, msg_id),
{
    out.append("<div class=\"msg-header\"><span class=\"name\" style=\"color: ");
    out.append(color);
    out.append("\" title=\"");
    push_escaped(out, username);
    out.append("\">");
    push_escaped(out, name);
    out.append("</span><span class=\"time ts-full\" data-ts=\"");
    push_i64(out, t);
    out.append("\"></span><span class=\"msg-actions\" onclick=\"copyLink('");
    out.append(channel_id);
    out.append("', '");
    push_u64(out, msg_id);
    out.append("')\">\u{1f517} Copy Link</span></div>");
    assert(final(out)@ =~= old(out)@ + msg_header(color@, username@, name@, t, channel_id@, msg_id));
}

/// One message.
pub open spec fn msg_block(classes: Seq<char>, gi: usize, avatar: Seq<char>, reply: Seq<char>, header: Seq<char>, content: Seq<char>) -> Seq<char> {
    "<div class=\"msg "@
        + classes
        + "\" id=\"msg-"@
        + dec(gi as nat)
        + "\">\n                "@
        + avatar
        + "\n                <div class=\"msg-content\">\n                    "@
        + reply
        + "\n                    "@
        + header
        + "\n                    <div class=\"text\">"@
        + content
        + "</div>\n                </div>\n            </div>"@
}

/// Appends `msg_block` to `out`.
pub fn push_msg_block(out: &mut String, classes: &str, gi: usize, avatar: &str, reply: &str, header: &str, content: &str)
    ensures
        final(out)@ == old(out)@ + msg_block(classes@, gi, avatar@, reply@, header@, content@),
{
    out.append("<div class=\"msg ");
    out.append(classes);
    out.append("\" id=\"msg-");
    push_u64(out, gi as u64);
    out.append("\">\n                ");
    out.append(avatar);
    out.append("\n                <div class=\"msg-content\">\n                    ");
    out.append(reply);
    out.append("\n                    ");
    out.append(header);
    out.append("\n                    <div class=\"text\">");
    out.append(content);
    out.append("</div>\n                </div>\n            </div>");
    assert(final(out)@ =~= old(out)@ + msg_block(classes@, gi, avatar@, reply@, header@, content@));
}

/// One search result.
pub open spec fn search_item(channel: u64, gi: usize, avatar: Seq<char>, color: Seq<char>, username: Seq<char>, name: Seq<char>, t: i64, content: Seq<char>, channel_name: Seq<char>) -> Seq<char> {
    "<div class=\"search-result-item\" onclick=\"jumpToMessage('"@
        + dec(channel as nat)
        + "', "@
        + dec(gi as nat)
        + ")\">\n                <div class=\"search-result-header\">\n                    "@
        + avatar
        + "\n                    <div class=\"search-result-meta\">\n                        <span class=\"search-result-name\" style=\"color: "@
        + color
        + "\" title=\""@
        + escape_seq(username)
        + "\">"@
        + escape_seq(name)
        + "</span>\n                        <span class=\"search-result-time ts-full\" data-ts=\""@
        + dec_int(t as int)
        + "\"></span>\n                    </div>\n                </div>\n                <div class=\"search-result-text\">"@
        + content
        + "</div>\n                <div class=\"search-result-channel\"># "@
        + escape_seq(channel_name)
        + "</div>\n            </div>"@
}

/// Appends `search_item` to `out`.
pub fn push_search_item(out: &mut String, channel: u64, gi: usize, avatar: &str, color: &str, username: &str, name: &str, t: i64, content: &str, channel_name: &str)
    ensures
        final(out)@ == old(out)@ + search_item(channel, gi, avatar@, color@, username@, name@, t, content@, channel_name@),
{
    out.append("<div class=\"search-result-item\" onclick=\"jumpToMessage('");
    push_u64(out, channel);
    out.append("', ");
    push_u64(out, gi as u64);
    out.append(")\">\n                <div class=\"search-result-header\">\n                    ");
    out.append(avatar);
    out.append("\n                    <div class=\"search-result-meta\">\n                        <span class=\"search-result-name\" style=\"color: ");
    out.append(color);
    out.append("\" title=\"");
    push_escaped(out, username);
    out.append("\">");
    push_escaped(out, name);
    out.append("</span>\n                        <span class=\"search-result-time ts-full\" data-ts=\"");
    push_i64(out, t);
    out.append("\"></span>\n                    </div>\n                </div>\n                <div class=\"search-result-text\">");
    out.append(content);
    out.append("</div>\n                <div class=\"search-result-channel\"># ");
    push_escaped(out, channel_name);
    out.append("</div>\n            </div>");
    assert(final(out)@ =~= old(out)@ + search_item(channel, gi, avatar@, color@, username@, name@, t, content@, channel_name@));
}

/// The placeholder shown for a message whose text is blank.
pub open spec fn attachment_span() -> Seq<char> {
    "<span style=\"color: var(--text-muted); font-style: italic;\">[attachment]</span>"@
}

/// The quote shown for a reply whose message is missing.
pub open spec fn reply_deleted() -> Seq<char> {
    "<div class=\"replied-message\">\n                        <div class=\"reply-spine\"></div>\n                        <span class=\"reply-text\" style=\"font-style: italic;\">Original message was deleted.</span>\n                    </div>"@
}

} // verus!
