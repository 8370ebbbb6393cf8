//! The leaderboard, heatmap and sidebar views, and channel lookups.
use vstd::prelude::*;
use crate::calendar::{
    date_label, day_weekday_from_sunday, lemma_year_days_in_range,
    lemma_year_of, lemma_year_start_step, max_year, min_year, spec_date_label, year_of, weekday_from_sunday,
    year_of_day, year_start, year_start_day,
};
use crate::html::{
    avatar_default, avatar_wrapped, category_html, channel_btn, hm_cell, hm_empty, hm_hidden,
    lb_item, push_avatar_default, push_avatar_wrapped, push_category_html, push_channel_btn,
    push_hm_cell, push_hm_empty, push_hm_hidden, push_lb_item,
};
use crate::model::{ArchiveData, ChannelMeta, MinMsg, MinUser, channel_msgs};
use crate::stats::{DayInfo, StatsCache};
use crate::text::{
    dec, dec_int, format_number, group_thousands, parse_u64, parse_u64_or_zero, push_i64,
    str_eq,
};

verus! {

broadcast use vstd::std_specs::hash::group_hash_axioms;

use vstd::std_specs::hash::spec_hash_map_iter;
use vstd::std_specs::iter::IteratorSpec;

/// The avatar of a user with picture URL `pfp`, for CSS class `cls`.
pub open spec fn avatar_of(cls: Seq<char>, pfp: Option<String>) -> Seq<char> {
    match pfp {
        Some(p) => avatar_wrapped(cls, p@),
        None => avatar_default(cls),
    }
}

pub fn push_avatar(out: &mut String, cls: &str, pfp: &Option<String>)
    ensures
        final(out)@ == old(out)@ + avatar_of(cls@, *pfp),
{
    match pfp {
        Some(p) => push_avatar_wrapped(out, cls, p.as_str()),
        None => push_avatar_default(out, cls),
    }
}

pub fn avatar_string(cls: &str, pfp: &Option<String>) -> (r: String)
    ensures
        r@ == avatar_of(cls@, *pfp),
{
    let mut s = String::new();
    push_avatar(&mut s, cls, pfp);
    assert(Seq::<char>::empty() + avatar_of(cls@, *pfp) =~= avatar_of(cls@, *pfp));
    s
}

// ---------------------------------------------------------------------------
// Leaderboard
// ---------------------------------------------------------------------------

/// Row `i` of the leaderboard `lb`; a row whose author is unknown shows nothing.
pub open spec fn leaderboard_row(users: Map<u64, MinUser>, lb: Seq<(u64, usize)>, i: int) -> Seq<
    char,
> {
    let uid = lb[i].0;
    if users.contains_key(uid) {
        let user = users[uid];
        lb_item(
            (i + 1) as usize,
            avatar_of("lb-avatar"@, user.p),
            user.u@,
            user.n@,
            group_thousands(dec(lb[i].1 as nat)),
        )
    } else {
        Seq::empty()
    }
}

/// Rows `lo..hi` of the leaderboard.
pub open spec fn leaderboard_rows(users: Map<u64, MinUser>, lb: Seq<(u64, usize)>, lo: int, hi: int) -> Seq<char>
    decreases hi - lo,
{
    if hi <= lo {
        Seq::empty()
    } else {
        leaderboard_rows(users, lb, lo, hi - 1) + leaderboard_row(users, lb, hi - 1)
    }
}

/// The leaderboard rows from `start_idx` through `end_idx` (inclusive, cut at the end).
pub open spec fn leaderboard_html(
    users: Map<u64, MinUser>,
    lb: Seq<(u64, usize)>,
    start_idx: int,
    end_idx: int,
) -> Seq<char> {
    let end = if end_idx + 1 < lb.len() {
        end_idx + 1
    } else {
        lb.len() as int
    };
    leaderboard_rows(users, lb, start_idx, end)
}

/// The HTML of leaderboard rows `start_idx..=end_idx`, ranked from 1.
pub fn get_leaderboard_html(data: &ArchiveData, stats: &StatsCache, start_idx: usize, end_idx: usize) -> (r: String)
    requires
        end_idx < usize::MAX,
    ensures
        r@ == leaderboard_html(data.users@, stats.leaderboard@, start_idx as int, end_idx as int),
{
    let len = stats.leaderboard.len();
    let end = if end_idx + 1 < len {
        end_idx + 1
    } else {
        len
    };
    if start_idx >= end {
        return String::new();
    }
    let mut html = String::new();
    let mut i = start_idx;
    while i < end
        invariant
            start_idx <= i <= end <= len == stats.leaderboard@.len(),
            html@ == leaderboard_rows(data.users@, stats.leaderboard@, start_idx as int, i as int),
        decreases end - i,
    {
        let (uid, count) = stats.leaderboard[i];
        match data.users.get(&uid) {
            Some(user) => {
                let avatar = avatar_string("lb-avatar", &user.p);
                let count_text = format_number(count);
                push_lb_item(
                    &mut html,
                    i + 1,
                    avatar.as_str(),
                    user.u.as_str(),
                    user.n.as_str(),
                    count_text.as_str(),
                );
            },
            None => {},
        }
        assert(html@ =~= leaderboard_rows(data.users@, stats.leaderboard@, start_idx as int, i + 1));
        i += 1;
    }
    html
}

// ---------------------------------------------------------------------------
// Heatmap
// ---------------------------------------------------------------------------

/// The years listed as a JSON array body: the numbers separated by commas.
pub open spec fn year_list(ys: Seq<i32>) -> Seq<char>
    decreases ys.len(),
{
    if ys.len() == 0 {
        Seq::empty()
    } else {
        year_list(ys.drop_last()) + (if ys.len() > 1 {
            ","@
        } else {
            Seq::empty()
        }) + dec_int(ys.last() as int)
    }
}

/// `ys` as a JSON array.
pub open spec fn years_json(ys: Seq<i32>) -> Seq<char> {
    "["@ + year_list(ys) + "]"@
}

pub open spec fn strictly_increasing(ys: Seq<i32>) -> bool {
    forall|i: int, j: int| 0 <= i < j < ys.len() ==> ys[i] < ys[j]
}

/// Inserts `y` into the strictly increasing `ys`, unless it is already there.
fn insert_sorted_unique(ys: &mut Vec<i32>, y: i32)
    requires
        strictly_increasing(old(ys)@),
    ensures
        strictly_increasing(final(ys)@),
        forall|x: i32| #[trigger] final(ys)@.contains(x) <==> old(ys)@.contains(x) || x == y,
{
    let mut pos: usize = 0;
    while pos < ys.len() && ys[pos] < y
        invariant
            pos <= ys@.len(),
            forall|i: int| 0 <= i < pos ==> ys@[i] < y,
        decreases ys@.len() - pos,
    {
        pos += 1;
    }
    if pos < ys.len() && ys[pos] == y {
        return;
    }
    let ghost before = ys@;
    ys.insert(pos, y);
    proof {
        assert(ys@ =~= before.take(pos as int).push(y) + before.skip(pos as int));
        assert forall|i: int, j: int| 0 <= i < j < ys@.len() implies ys@[i] < ys@[j] by {
            if pos < before.len() {
                assert(y < before[pos as int]);
            }
        }
        assert forall|x: i32| #[trigger] ys@.contains(x) <==> before.contains(x) || x == y by {
            if ys@.contains(x) {
                let i = choose|i: int| 0 <= i < ys@.len() && ys@[i] == x;
                if i < pos {
                    assert(before[i] == x);
                } else if i > pos {
                    assert(before[i - 1] == x);
                }
            }
            if before.contains(x) {
                let i = choose|i: int| 0 <= i < before.len() && before[i] == x;
                if i < pos {
                    assert(ys@[i] == x);
                } else {
                    assert(ys@[i + 1] == x);
                }
            }
            if x == y {
                assert(ys@[pos as int] == y);
            }
        }
    }
}

/// The JSON array, in increasing order and without repeats, of the years in which the
/// days of the heatmap fall.
pub fn get_heatmap_years(stats: &StatsCache) -> (r: String)
    requires
        stats.wf(),
    ensures
        exists|ys: Seq<i32>|
            {
                &&& strictly_increasing(ys)
                &&& forall|y: i32| #[trigger]
                    ys.contains(y) <==> exists|d: i32| #[trigger]
                        stats.daily_counts@.contains_key(d) && year_of(d as int) == y
                &&& r@ == years_json(ys)
            },
{
    let ghost dm = stats.daily_counts@;
    let mut years: Vec<i32> = Vec::new();
    let ghost v = spec_hash_map_iter(&stats.daily_counts).remaining();
    for (d, _info) in it: stats.daily_counts.iter()
        invariant
            dm == stats.daily_counts@,
            it.seq() == v,
            stats.wf(),
            forall|j: int| 0 <= j < it.seq().len() ==> dm.contains_key(*it.seq()[j].0),
            strictly_increasing(years@),
            forall|y: i32| #[trigger]
                years@.contains(y) ==> exists|dd: i32| #[trigger]
                    dm.contains_key(dd) && year_of(dd as int) == y,
            forall|j: int|
                0 <= j < it.index() ==> years@.contains(
                    year_of(*(#[trigger] it.seq()[j]).0 as int) as i32,
                ),
    {
        let ghost jj = it.index();
        assert(it.seq()[jj].0 == d);
        assert(dm.contains_key(*d));
        let y = year_of_day(*d);
        proof {
            lemma_year_of(y as int, *d as int);
        }
        insert_sorted_unique(&mut years, y);
    }
    let mut json = String::new();
    json.append("[");
    let mut i: usize = 0;
    while i < years.len()
        invariant
            i <= years@.len(),
            json@ == "["@ + year_list(years@.take(i as int)),
        decreases years@.len() - i,
    {
        if i > 0 {
            json.append(",");
        }
        push_i64(&mut json, years[i] as i64);
        assert(years@.take(i + 1).drop_last() =~= years@.take(i as int));
        assert(json@ =~= "["@ + year_list(years@.take(i + 1)));
        i += 1;
    }
    json.append("]");
    proof {
        assert(years@.take(years@.len() as int) =~= years@);
        assert forall|y: i32| #[trigger]
            years@.contains(y) <==> exists|d: i32| #[trigger]
                dm.contains_key(d) && year_of(d as int) == y by {
            if exists|d: i32| #[trigger] dm.contains_key(d) && year_of(d as int) == y {
                let d = choose|d: i32| #[trigger] dm.contains_key(d) && year_of(d as int) == y;
                assert(v.contains((&d, &dm[d])));
                let j = choose|j: int| 0 <= j < v.len() && v[j] == (&d, &dm[d]);
                assert(*v[j].0 == d);
            }
        }
        assert(json@ =~= years_json(years@));
    }
    json
}

/// `n` hidden cells.
pub open spec fn hidden_cells(n: nat) -> Seq<char>
    decreases n,
{
    if n == 0 {
        Seq::empty()
    } else {
        hidden_cells((n - 1) as nat) + hm_hidden()
    }
}

/// The tooltip of a heatmap cell: the date label and its message count.
pub open spec fn day_title(label: Seq<char>, count_text: Seq<char>) -> Seq<char> {
    label + ": "@ + count_text + " messages"@
}

/// The heatmap cell of a day labelled `label`, with its statistics `info` where it has
/// messages, coloured by `colors[count]`.
pub open spec fn labelled_cell(label: Seq<char>, info: Option<DayInfo>, colors: Seq<String>) -> Seq<char> {
    match info {
        Some(info) => hm_cell(
            colors[info.count as int]@,
            day_title(label, group_thousands(dec(info.count as nat))),
            info.first_msg_c,
            info.first_msg_idx,
        ),
        None => hm_empty(day_title(label, "0"@)),
    }
}

/// The heatmap cell of day `d`.
pub open spec fn heatmap_cell(daily: Map<i32, DayInfo>, colors: Seq<String>, d: int) -> Seq<char> {
    labelled_cell(
        spec_date_label(d),
        if daily.contains_key(d as i32) {
            Some(daily[d as i32])
        } else {
            None
        },
        colors,
    )
}

/// Appends the heatmap cell of a day whose date label is `label`.
pub fn push_labelled_cell(out: &mut String, label: &str, info: Option<DayInfo>, colors: &Vec<String>)
    requires
        info matches Some(i) ==> i.count < colors@.len(),
    ensures
        final(out)@ == old(out)@ + labelled_cell(label@, info, colors@),
{
    let mut title = String::new();
    title.append(label);
    title.append(": ");
    match info {
        Some(info) => {
            let count_text = format_number(info.count);
            title.append(count_text.as_str());
            title.append(" messages");
            let color = &colors[info.count];
            push_hm_cell(out, color.as_str(), title.as_str(), info.first_msg_c, info.first_msg_idx);
        },
        None => {
            title.append("0");
            title.append(" messages");
            push_hm_empty(out, title.as_str());
        },
    }
    proof {
        match info {
            Some(i) => {
                assert(title@ =~= day_title(label@, group_thousands(dec(i.count as nat))));
            },
            None => {
                assert(title@ =~= day_title(label@, "0"@));
            },
        }
    }
}

/// The cells of days `lo..hi`.
pub open spec fn heatmap_cells(daily: Map<i32, DayInfo>, colors: Seq<String>, lo: int, hi: int) -> Seq<char>
    decreases hi - lo,
{
    if hi <= lo {
        Seq::empty()
    } else {
        heatmap_cells(daily, colors, lo, hi - 1) + heatmap_cell(daily, colors, hi - 1)
    }
}

/// The heatmap of `year`: hidden cells up to the weekday of January 1 (weeks run
/// Sunday to Saturday), then one cell per day of the year.
pub open spec fn heatmap_html(daily: Map<i32, DayInfo>, colors: Seq<String>, year: int) -> Seq<char> {
    hidden_cells(weekday_from_sunday(year_start(year)) as nat) + heatmap_cells(
        daily,
        colors,
        year_start(year),
        year_start(year + 1),
    )
}

/// The heatmap cells of `year`. `colors[n]` is the colour of a day with `n` messages.
pub fn get_heatmap_html(stats: &StatsCache, year: i32, colors: &Vec<String>) -> (r: String)
    requires
        stats.wf(),
        min_year() <= year,
        year + 1 <= max_year(),
        colors@.len() > stats.max_day,
    ensures
        r@ == heatmap_html(stats.daily_counts@, colors@, year as int),
{
    let start = year_start_day(year);
    let end = year_start_day(year + 1);
    proof {
        lemma_year_start_step(year as int);
        lemma_year_days_in_range(year as int, start as int);
    }
    let empty_days = day_weekday_from_sunday(start);
    let mut html = String::new();
    let mut k: u32 = 0;
    while k < empty_days
        invariant
            k <= empty_days,
            html@ == hidden_cells(k as nat),
        decreases empty_days - k,
    {
        push_hm_hidden(&mut html);
        k += 1;
    }
    let ghost hidden = html@;
    let mut d = start;
    while d < end
        invariant
            start <= d <= end,
            start as int == year_start(year as int),
            end as int == year_start(year + 1),
            min_year() <= year < max_year(),
            stats.wf(),
            colors@.len() > stats.max_day,
            html@ == hidden + heatmap_cells(stats.daily_counts@, colors@, start as int, d as int),
        decreases end - d,
    {
        proof {
            lemma_year_days_in_range(year as int, d as int);
        }
        let label = date_label(d);
        let info: Option<DayInfo> = match stats.daily_counts.get(&d) {
            Some(i) => Some(*i),
            None => None,
        };
        push_labelled_cell(&mut html, label.as_str(), info, colors);
        assert(html@ =~= hidden + heatmap_cells(stats.daily_counts@, colors@, start as int, d + 1));
        d += 1;
    }
    html
}

// ---------------------------------------------------------------------------
// Sidebar and channel lookups
// ---------------------------------------------------------------------------

/// The sidebar entry of channel `k`: a category heading where the category differs
/// from that of the channel before it (the first channel's from the empty name), then
/// the channel button.
pub open spec fn sidebar_item(chs: Seq<ChannelMeta>, k: int) -> Seq<char> {
    let prev_cat = if k == 0 {
        ""@
    } else {
        chs[k - 1].c@
    };
    (if chs[k].c@ != prev_cat {
        category_html(chs[k].c@)
    } else {
        Seq::empty()
    }) + channel_btn(chs[k].id, chs[k].n@)
}

/// The sidebar entries of the first `n` channels.
pub open spec fn sidebar_items(chs: Seq<ChannelMeta>, n: int) -> Seq<char>
    decreases n,
{
    if n <= 0 {
        Seq::empty()
    } else {
        sidebar_items(chs, n - 1) + sidebar_item(chs, n - 1)
    }
}

/// The sidebar: channels in list order, grouped under category headings.
pub fn get_sidebar_html(data: &ArchiveData) -> (r: String)
    ensures
        r@ == sidebar_items(data.channels@, data.channels@.len() as int),
{
    let mut html = String::new();
    let n = data.channels.len();
    let mut k: usize = 0;
    while k < n
        invariant
            k <= n == data.channels@.len(),
            html@ == sidebar_items(data.channels@, k as int),
        decreases n - k,
    {
        let ch = &data.channels[k];
        let same = if k == 0 {
            str_eq(ch.c.as_str(), "")
        } else {
            str_eq(ch.c.as_str(), data.channels[k - 1].c.as_str())
        };
        if !same {
            push_category_html(&mut html, ch.c.as_str());
        }
        push_channel_btn(&mut html, ch.id, ch.n.as_str());
        assert(html@ =~= sidebar_items(data.channels@, k + 1));
        k += 1;
    }
    html
}

/// `"# "` and the name of the first channel whose id is `channel_id` (read as a
/// number, 0 where it is not one), or `"Unknown"`.
pub fn get_channel_name(data: &ArchiveData, channel_id: &str) -> (r: String)
    ensures
        ({
            let c = parse_u64_or_zero(channel_id@);
            let chs = data.channels@;
            ||| exists|k: int|
                0 <= k < chs.len() && chs[k].id == c && (forall|j: int|
                    0 <= j < k ==> chs[j].id != c) && r@ == "# "@ + chs[k].n@
            ||| (forall|k: int| 0 <= k < chs.len() ==> chs[k].id != c) && r@ == "Unknown"@
        }),
{
    let c = match parse_u64(channel_id) {
        Some(v) => v,
        None => 0,
    };
    let n = data.channels.len();
    let mut k: usize = 0;
    while k < n
        invariant
            k <= n == data.channels@.len(),
            c == parse_u64_or_zero(channel_id@),
            forall|j: int| 0 <= j < k ==> data.channels@[j].id != c,
        decreases n - k,
    {
        if data.channels[k].id == c {
            let mut s = String::new();
            s.append("# ");
            s.append(data.channels[k].n.as_str());
            proof {
                let chs = data.channels@;
                assert(s@ =~= "# "@ + chs[k as int].n@);
                assert(0 <= k < chs.len() && chs[k as int].id == c && (forall|j: int|
                    0 <= j < k ==> chs[j].id != c) && s@ == "# "@ + chs[k as int].n@);
            }
            return s;
        }
        k += 1;
    }
    let mut s = String::new();
    s.append("Unknown");
    s
}

/// How many of `s` are pinned.
pub open spec fn pinned_count(s: Seq<MinMsg>) -> nat
    decreases s.len(),
{
    if s.len() == 0 {
        0
    } else {
        pinned_count(s.drop_last()) + (if s.last().p {
            1nat
        } else {
            0
        })
    }
}

proof fn lemma_pinned_count_le(s: Seq<MinMsg>)
    ensures
        pinned_count(s) <= s.len(),
    decreases s.len(),
{
    if s.len() > 0 {
        lemma_pinned_count_le(s.drop_last());
    }
}

/// The number of messages (or of pinned messages) of the channel `channel_id`,
/// 0 for a channel that is not in the archive.
pub fn get_message_count(data: &ArchiveData, channel_id: &str, only_pins: bool) -> (r: usize)
    ensures
        ({
            let msgs = channel_msgs(data.messages@, parse_u64_or_zero(channel_id@));
            r == if only_pins {
                pinned_count(msgs)
            } else {
                msgs.len()
            }
        }),
{
    let c = match parse_u64(channel_id) {
        Some(v) => v,
        None => 0,
    };
    match data.messages.get(&c) {
        Some(msgs) => {
            if only_pins {
                let mut cnt: usize = 0;
                let mut i: usize = 0;
                while i < msgs.len()
                    invariant
                        i <= msgs@.len(),
                        cnt == pinned_count(msgs@.take(i as int)),
                    decreases msgs@.len() - i,
                {
                    proof {
                        assert(msgs@.take(i + 1).drop_last() =~= msgs@.take(i as int));
                        lemma_pinned_count_le(msgs@.take(i as int));
                    }
                    if msgs[i].p {
                        cnt += 1;
                    }
                    i += 1;
                }
                assert(msgs@.take(msgs@.len() as int) =~= msgs@);
                cnt
            } else {
                msgs.len()
            }
        },
        None => 0,
    }
}

/// The index, within channel `channel_id`, of the first message with id `msg_id`
/// (as an `i32`), or -1.
pub fn get_msg_global_idx(data: &ArchiveData, channel_id: &str, msg_id: u64) -> (r: i32)
    ensures
        ({
            let msgs = channel_msgs(data.messages@, parse_u64_or_zero(channel_id@));
            ||| exists|k: int|
                0 <= k < msgs.len() && msgs[k].i == msg_id && (forall|j: int|
                    0 <= j < k ==> msgs[j].i != msg_id) && r == k as i32
            ||| (forall|k: int| 0 <= k < msgs.len() ==> msgs[k].i != msg_id) && r == -1
        }),
{
    let c = match parse_u64(channel_id) {
        Some(v) => v,
        None => 0,
    };
    match data.messages.get(&c) {
        Some(msgs) => {
            let mut i: usize = 0;
            while i < msgs.len()
                invariant
                    i <= msgs@.len(),
                    c == parse_u64_or_zero(channel_id@),
                    data.messages@.contains_key(c),
                    data.messages@[c] == *msgs,
                    forall|j: int| 0 <= j < i ==> msgs@[j].i != msg_id,
                decreases msgs@.len() - i,
            {
                if msgs[i].i == msg_id {
                    assert(msgs@ == channel_msgs(data.messages@, c));
                    assert(0 <= i < msgs@.len() && msgs@[i as int].i == msg_id && (forall|j: int|
                        0 <= j < i ==> msgs@[j].i != msg_id));
                    return #[verifier::truncate] (i as i32);
                }
                i += 1;
            }
            -1
        },
        None => -1,
    }
}

} // verus!
