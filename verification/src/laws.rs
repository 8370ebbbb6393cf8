//! Properties of the library as a whole, each proved from the specifications that
//! the functions' own contracts use.
use vstd::prelude::*;
use crate::builder::{
    RawExport, all_messages, author_id, messages_from, msg_matches, sorted_by_time, users_from,
};
use crate::calendar::{year_start, lemma_year_start_step};
use crate::messages::{
    color_of, is_grouped, message_html, newline_to_space, pinned_desc, reply_part, reply_preview,
    shown_content, shown_indices,
};
use crate::html::{msg_block, msg_header};
use crate::calendar::{local_day, timestamp_ok};
use crate::model::{
    MinUser,
    ArchiveData, MinMsg, Pos, authors_known, lemma_positions_finite, msg_at, positions, total_messages,
};
use crate::stats::{
    DayInfo, StatsCache, day_info_ok, day_set, days_match, messages_by, no_later, ranked, timestamps_ok,
};
use crate::search::{export_line, export_lines, is_hit, message_matches};
use crate::sort::{SortKey, key_le, sorted};
use crate::text::{
    all_digits, dec, digit_char, digit_value, digits_value, escape_char, escape_seq, group_prefix,
    group_thousands, is_digit, lemma_dec_len, parse_u64_spec, trim, contains_seq, spec_to_lowercase,
};
use crate::views::{avatar_of, leaderboard_html, leaderboard_row, leaderboard_rows, pinned_count};
use crate::builder::lex_lt;

verus! {

broadcast use {
    vstd::seq_lib::group_to_multiset_ensures,
    vstd::multiset::group_multiset_axioms,
    vstd::std_specs::hash::group_hash_axioms,
};

/// A character that HTML escaping leaves out: one that could open a tag or close an
/// attribute value.
pub open spec fn is_markup(c: char) -> bool {
    c == '<' || c == '>' || c == '"' || c == '\''
}

proof fn lemma_escape_char_no_markup(c: char)
    ensures
        forall|i: int| 0 <= i < escape_char(c).len() ==> !is_markup(#[trigger] escape_char(c)[i]),
{
    reveal_strlit("&amp;");
    reveal_strlit("&lt;");
    reveal_strlit("&gt;");
    reveal_strlit("&quot;");
    reveal_strlit("&#39;");
}

/// Escaped text holds none of `< > " '`, whatever the input.
pub proof fn law_escape_removes_markup(s: Seq<char>)
    ensures
        forall|i: int| 0 <= i < escape_seq(s).len() ==> !is_markup(#[trigger] escape_seq(s)[i]),
    decreases s.len(),
{
    if s.len() > 0 {
        law_escape_removes_markup(s.drop_last());
        lemma_escape_char_no_markup(s.last());
        let a = escape_seq(s.drop_last());
        let b = escape_char(s.last());
        assert forall|i: int| 0 <= i < escape_seq(s).len() implies !is_markup(
            #[trigger] escape_seq(s)[i],
        ) by {
            if i < a.len() {
                assert(escape_seq(s)[i] == a[i]);
            } else {
                assert(escape_seq(s)[i] == b[i - a.len()]);
            }
        }
    }
}

/// Text without `& < > " '` is left as it is by escaping.
pub proof fn law_escape_keeps_plain_text(s: Seq<char>)
    requires
        forall|i: int| 0 <= i < s.len() ==> !is_markup(#[trigger] s[i]) && s[i] != '&',
    ensures
        escape_seq(s) == s,
    decreases s.len(),
{
    if s.len() > 0 {
        law_escape_keeps_plain_text(s.drop_last());
        assert(escape_seq(s) =~= s.drop_last() + seq![s.last()]);
        assert(s.drop_last() + seq![s.last()] =~= s);
    }
}

proof fn lemma_digit_roundtrip(d: nat)
    requires
        d < 10,
    ensures
        is_digit(digit_char(d)),
        digit_value(digit_char(d)) == d,
{
}

proof fn lemma_dec_value(n: nat)
    ensures
        digits_value(dec(n)) == n,
        all_digits(dec(n)),
        dec(n).len() >= 1,
    decreases n,
{
    lemma_dec_len(n);
    if n < 10 {
        lemma_digit_roundtrip(n);
        assert(dec(n).drop_last() =~= Seq::<char>::empty());
        assert(dec(n).last() == digit_char(n));
        assert(digits_value(dec(n)) == digits_value(dec(n).drop_last()) * 10 + digit_value(dec(n).last()));
    } else {
        lemma_dec_value(n / 10);
        lemma_digit_roundtrip(n % 10);
        assert(dec(n).drop_last() =~= dec(n / 10));
        assert(dec(n).last() == digit_char(n % 10));
        assert((n / 10) * 10 + n % 10 == n) by (nonlinear_arith);
        assert(digits_value(dec(n)) == digits_value(dec(n).drop_last()) * 10 + digit_value(dec(n).last()));
    }
}

/// Reading back the decimal form of a number gives the number: the ids that the
/// views write into links are found again by the lookups that parse them.
pub proof fn law_parse_reads_back_decimal(n: u64)
    ensures
        parse_u64_spec(dec(n as nat)) == Some(n),
{
    lemma_dec_value(n as nat);
    assert(is_digit(dec(n as nat)[0]));
}

/// The digits of a text with its commas taken out.
pub open spec fn without_commas(s: Seq<char>) -> Seq<char> {
    s.filter(|c: char| c != ',')
}

proof fn lemma_group_prefix_digits(d: Seq<char>, i: int)
    requires
        0 <= i <= d.len(),
        all_digits(d),
    ensures
        without_commas(group_prefix(d, i)) == d.take(i),
    decreases i,
{
    if i > 0 {
        lemma_group_prefix_digits(d, i - 1);
        let j = i - 1;
        let mid: Seq<char> = if j > 0 && (d.len() - j) % 3 == 0 {
            seq![',']
        } else {
            Seq::empty()
        };
        let f = |c: char| c != ',';
        let g = group_prefix(d, j);
        Seq::filter_distributes_over_add(g + mid, seq![d[j]], f);
        Seq::filter_distributes_over_add(g, mid, f);
        assert(mid.filter(f) =~= Seq::<char>::empty()) by {
            if mid.len() > 0 {
                reveal_with_fuel(Seq::filter, 2);
            }
        }
        assert(is_digit(d[j]));
        assert(seq![d[j]].filter(f) =~= seq![d[j]]) by {
            reveal_with_fuel(Seq::filter, 2);
        }
        assert(d.take(i) =~= d.take(j) + seq![d[j]]);
    } else {
        assert(group_prefix(d, 0).filter(|c: char| c != ',') =~= Seq::<char>::empty());
    }
}

/// Thousands separators change nothing but the commas: taking them out gives the
/// digits back.
pub proof fn law_grouping_keeps_digits(d: Seq<char>)
    requires
        all_digits(d),
    ensures
        without_commas(group_thousands(d)) == d,
{
    lemma_group_prefix_digits(d, d.len() as int);
    assert(d.take(d.len() as int) =~= d);
}

/// Every year has 365 or 366 days.
#[verifier::spinoff_prover]
pub proof fn law_year_length(y: int)
    ensures
        year_start(y + 1) - year_start(y) == 365 || year_start(y + 1) - year_start(y) == 366,
{
    lemma_year_start_step(y);
    assert(y / 4 - (y - 1) / 4 <= 1);
    assert(y / 400 - (y - 1) / 400 <= 1);
    assert(y / 100 - (y - 1) / 100 >= 0);
    assert(y / 100 - (y - 1) / 100 == 1 ==> y / 4 - (y - 1) / 4 == 1);
    assert(y / 400 - (y - 1) / 400 == 1 ==> y / 100 - (y - 1) / 100 == 1);
}

/// A channel never has more pinned messages than messages.
pub proof fn law_pinned_within_total(msgs: Seq<MinMsg>)
    ensures
        pinned_count(msgs) <= msgs.len(),
    decreases msgs.len(),
{
    if msgs.len() > 0 {
        law_pinned_within_total(msgs.drop_last());
    }
}

/// A reply is never grouped with the message before it, and the pinned view groups
/// nothing.
pub proof fn law_replies_and_pins_stand_alone(msg: MinMsg, last_author: u64, last_time: int)
    ensures
        msg.r is Some ==> !is_grouped(msg, last_author, last_time, false),
        !is_grouped(msg, last_author, last_time, true),
{
}

/// A quoted reply is at most 83 characters long and on a single line.
pub proof fn law_reply_preview_is_short(c: Seq<char>)
    ensures
        reply_preview(c).len() <= 83,
        forall|i: int| 0 <= i < reply_preview(c).len() ==> #[trigger] reply_preview(c)[i] != '\n',
{
    reveal_strlit("Attachment");
    reveal_strlit("...");
    let s = newline_to_space(c);
    assert forall|i: int| 0 <= i < s.len() implies #[trigger] s[i] != '\n' by {}
    if trim(s).len() != 0 && s.len() > 80 {
        let r = s.take(80) + "..."@;
        assert forall|i: int| 0 <= i < r.len() implies #[trigger] r[i] != '\n' by {
            if i < 80 {
                assert(r[i] == s[i]);
            }
        }
    }
}

/// Searching one channel finds no message that searching all channels misses.
pub proof fn law_channel_search_within_global(
    data: &ArchiveData,
    query: Seq<char>,
    current_channel: Seq<char>,
    any_channel: Seq<char>,
    p: Pos,
)
    requires
        is_hit(data, query, false, current_channel, p),
    ensures
        is_hit(data, query, true, any_channel, p),
{
}

/// The archive built from exports names the author of every message: the viewer's
/// author lookups all succeed on it.
pub proof fn law_built_archive_knows_all_authors(exports: Seq<RawExport>, r: &ArchiveData)
    requires
        users_from(r.users@, all_messages(exports)),
        messages_from(r.messages@, exports),
    ensures
        authors_known(r),
{
    assert forall|p: Pos| #[trigger] positions(r.messages@).contains(p) implies r.users@.contains_key(
        msg_at(r.messages@, p).a,
    ) by {
        let c = p.0;
        let i = choose|i: int|
            0 <= i < exports.len() && crate::builder::export_channel_id(exports[i]) == c && (forall|j: int|
                i < j < exports.len() ==> crate::builder::export_channel_id(#[trigger] exports[j]) != c)
                && sorted_by_time(r.messages@[c]@, exports[i].messages@);
        let src = exports[i].messages@;
        let ord = choose|ord: Seq<int>|
            {
                &&& crate::builder::is_index_perm(ord, src.len() as int)
                &&& r.messages@[c]@.len() == src.len()
                &&& forall|k: int|
                    0 <= k < r.messages@[c]@.len() ==> msg_matches(#[trigger] r.messages@[c]@[k], src[ord[k]])
                &&& forall|k: int, l: int|
                    0 <= k < l < r.messages@[c]@.len() ==> crate::builder::raw_time(src[#[trigger] ord[k]])
                        < crate::builder::raw_time(src[#[trigger] ord[l]]) || (crate::builder::raw_time(
                        src[ord[k]],
                    ) == crate::builder::raw_time(src[ord[l]]) && ord[k] < ord[l])
            };
        let k = p.1;
        assert(msg_matches(r.messages@[c]@[k], src[ord[k]]));
        let raw = src[ord[k]];
        lemma_message_in_all(exports, i, ord[k]);
        let flat = all_messages(exports);
        let f = choose|f: int| 0 <= f < flat.len() && flat[f] == raw;
        assert(author_id(flat[f]) == msg_at(r.messages@, p).a);
    }
}

proof fn lemma_message_in_all(exports: Seq<RawExport>, i: int, j: int)
    requires
        0 <= i < exports.len(),
        0 <= j < exports[i].messages@.len(),
    ensures
        exists|f: int| 0 <= f < all_messages(exports).len() && all_messages(exports)[f] == exports[i].messages@[j],
    decreases exports.len(),
{
    let front = all_messages(exports.drop_last());
    let last = exports.last().messages@;
    if i == exports.len() - 1 {
        assert(all_messages(exports)[front.len() + j] == last[j]);
    } else {
        lemma_message_in_all(exports.drop_last(), i, j);
        let f = choose|f: int| 0 <= f < front.len() && front[f] == exports.drop_last()[i].messages@[j];
        assert(all_messages(exports)[f] == front[f]);
    }
}

/// Sorting decides the order: two sorted arrangements of the same keys are equal.
/// So the leaderboard and the search results, sorted by keys that never repeat, are
/// fully determined.
pub proof fn law_sorted_arrangement_is_unique(a: Seq<SortKey>, b: Seq<SortKey>)
    requires
        sorted(a),
        sorted(b),
        a.to_multiset() == b.to_multiset(),
    ensures
        a == b,
    decreases a.len(),
{
    vstd::seq_lib::to_multiset_len(a);
    vstd::seq_lib::to_multiset_len(b);
    if a.len() > 0 {
        let x = a.last();
        let y = b.last();
        assert(a =~= a.drop_last().push(x));
        assert(b =~= b.drop_last().push(y));
        vstd::seq_lib::to_multiset_contains(a, y);
        vstd::seq_lib::to_multiset_contains(b, x);
        let iy = choose|i: int| 0 <= i < a.len() && a[i] == y;
        let ix = choose|i: int| 0 <= i < b.len() && b[i] == x;
        if iy < a.len() - 1 {
            assert(key_le(a[iy], x));
        }
        if ix < b.len() - 1 {
            assert(key_le(b[ix], y));
        }
        assert(x == y);
        vstd::seq_lib::to_multiset_build(a.drop_last(), x);
        vstd::seq_lib::to_multiset_build(b.drop_last(), y);
        assert(a.drop_last().to_multiset() =~= b.drop_last().to_multiset()) by {
            let ma = a.drop_last().to_multiset();
            let mb = b.drop_last().to_multiset();
            assert(a.to_multiset() == ma.insert(x));
            assert(b.to_multiset() == mb.insert(x));
            assert forall|z: SortKey| ma.count(z) == mb.count(z) by {
                assert(ma.insert(x).count(z) == mb.insert(x).count(z));
                if z == x {
                    assert(ma.insert(x).count(z) == ma.count(z) + 1);
                    assert(mb.insert(x).count(z) == mb.count(z) + 1);
                } else {
                    assert(ma.insert(x).count(z) == ma.count(z));
                    assert(mb.insert(x).count(z) == mb.count(z));
                }
            }
        }
        law_sorted_arrangement_is_unique(a.drop_last(), b.drop_last());
    }
}

proof fn lemma_pinned_desc(msgs: Seq<MinMsg>, n: int)
    requires
        0 <= n <= msgs.len(),
    ensures
        pinned_desc(msgs, n).len() == pinned_count(msgs.take(n)),
        forall|i: int|
            0 <= i < pinned_desc(msgs, n).len() ==> 0 <= #[trigger] pinned_desc(msgs, n)[i] < n
                && msgs[pinned_desc(msgs, n)[i]].p,
        forall|i: int, j: int|
            0 <= i < j < pinned_desc(msgs, n).len() ==> #[trigger] pinned_desc(msgs, n)[i]
                > #[trigger] pinned_desc(msgs, n)[j],
        forall|k: int|
            0 <= k < n && #[trigger] msgs[k].p ==> pinned_desc(msgs, n).contains(k),
    decreases n,
{
    if n > 0 {
        lemma_pinned_desc(msgs, n - 1);
        assert(msgs.take(n).drop_last() =~= msgs.take(n - 1));
        let rest = pinned_desc(msgs, n - 1);
        let head: Seq<int> = if msgs[n - 1].p {
            seq![n - 1]
        } else {
            Seq::empty()
        };
        assert(pinned_desc(msgs, n) == head + rest);
        assert forall|k: int| 0 <= k < n && #[trigger] msgs[k].p implies pinned_desc(
            msgs,
            n,
        ).contains(k) by {
            if k == n - 1 {
                assert(pinned_desc(msgs, n)[0] == k);
            } else {
                let i = choose|i: int| 0 <= i < rest.len() && rest[i] == k;
                assert(pinned_desc(msgs, n)[head.len() + i] == k);
            }
        }
    } else {
        assert(msgs.take(0) =~= Seq::<MinMsg>::empty());
    }
}

/// The views agree with the counts: the pinned view shows every pinned message once,
/// latest first, as many as the pinned count reports; and the page from 0 to one
/// less than the message count shows every message in order.
pub proof fn law_views_match_counts(msgs: Seq<MinMsg>, start: int, end: int)
    ensures
        shown_indices(msgs, start, end, true).len() == pinned_count(msgs),
        forall|i: int|
            0 <= i < shown_indices(msgs, start, end, true).len() ==> 0
                <= #[trigger] shown_indices(msgs, start, end, true)[i] < msgs.len()
                && msgs[shown_indices(msgs, start, end, true)[i]].p,
        forall|i: int, j: int|
            0 <= i < j < shown_indices(msgs, start, end, true).len() ==> #[trigger] shown_indices(
                msgs,
                start,
                end,
                true,
            )[i] > #[trigger] shown_indices(msgs, start, end, true)[j],
        forall|k: int|
            0 <= k < msgs.len() && #[trigger] msgs[k].p ==> shown_indices(
                msgs,
                start,
                end,
                true,
            ).contains(k),
        shown_indices(msgs, 0, msgs.len() - 1, false) == Seq::new(msgs.len(), |k: int| k),
{
    lemma_pinned_desc(msgs, msgs.len() as int);
    assert(msgs.take(msgs.len() as int) =~= msgs);
    assert(shown_indices(msgs, 0, msgs.len() - 1, false) =~= Seq::new(msgs.len(), |k: int| k));
}

/// The sum of the counts that `daily` gives the days `ds`.
pub open spec fn day_count_sum(daily: Map<i32, DayInfo>, ds: Set<i32>) -> int
    decreases ds.len(),
{
    if ds.finite() && ds.len() > 0 {
        let d = ds.choose();
        daily[d].count + day_count_sum(daily, ds.remove(d))
    } else {
        0
    }
}

/// The positions of `s` whose local day is one of `ds`.
spec fn on_days(m: Map<u64, Vec<MinMsg>>, s: Set<Pos>, west: int, ds: Set<i32>) -> Set<Pos> {
    s.filter(|p: Pos| ds.contains(local_day(msg_at(m, p).t as int, west) as i32))
}

proof fn lemma_day_count_sum(
    daily: Map<i32, DayInfo>,
    m: Map<u64, Vec<MinMsg>>,
    west: int,
    ds: Set<i32>,
)
    requires
        ds.finite(),
        ds.subset_of(daily.dom()),
        positions(m).finite(),
        timestamps_ok(m, west),
        days_match(daily, m, positions(m), west),
    ensures
        day_count_sum(daily, ds) == on_days(m, positions(m), west, ds).len(),
    decreases ds.len(),
{
    let s = positions(m);
    if ds.len() == 0 {
        assert(ds =~= Set::empty());
        assert(on_days(m, s, west, ds) =~= Set::empty());
    } else {
        let d = ds.choose();
        let rest = ds.remove(d);
        lemma_day_count_sum(daily, m, west, rest);
        let a = on_days(m, s, west, rest);
        let b = day_set(m, s, west, d as int);
        assert(daily.contains_key(d));
        assert(day_info_ok(daily[d], m, s, west, d as int));
        assert(on_days(m, s, west, ds) =~= a + b) by {
            assert forall|p: Pos| #[trigger] on_days(m, s, west, ds).contains(p) == (a + b).contains(p) by {
                if s.contains(p) {
                    assert(timestamp_ok(msg_at(m, p).t as int, west));
                }
            }
        }
        assert(a.disjoint(b)) by {
            assert forall|p: Pos| a.contains(p) implies !b.contains(p) by {
                assert(timestamp_ok(msg_at(m, p).t as int, west));
            }
        }
        vstd::set_lib::lemma_set_disjoint_lens(a, b);
    }
}

/// Every message is counted on exactly one day: the day counts of the statistics add
/// up to the number of messages in the archive.
pub proof fn law_day_counts_add_up(data: &ArchiveData, stats: &StatsCache, west: int)
    requires
        timestamps_ok(data.messages@, west),
        days_match(stats.daily_counts@, data.messages@, positions(data.messages@), west),
    ensures
        day_count_sum(stats.daily_counts@, stats.daily_counts@.dom()) == total_messages(
            data.messages@,
        ),
{
    let m = data.messages@;
    let daily = stats.daily_counts@;
    lemma_positions_finite(m);
    lemma_day_count_sum(daily, m, west, daily.dom());
    assert(on_days(m, positions(m), west, daily.dom()) =~= positions(m));
}

/// The shape of the first `i` digits of `d` with their commas: a comma stands where
/// the distance to the end matches the group that the next digits complete.
spec fn comma_pattern(p: Seq<char>, r: int) -> bool {
    &&& forall|k: int|
        0 <= k < p.len() ==> ((#[trigger] p[k] == ',') <==> (k > 0 && (p.len() - k) % 4 == (4
            - r) % 4))
    &&& p.len() % 4 != (4 - r) % 4
    &&& forall|k: int| 0 <= k < p.len() && p[k] != ',' ==> is_digit(#[trigger] p[k])
}

proof fn lemma_group_prefix_shape(d: Seq<char>, i: int)
    requires
        1 <= i <= d.len(),
        all_digits(d),
    ensures
        comma_pattern(group_prefix(d, i), (d.len() - i) % 3),
    decreases i,
{
    let n = d.len();
    let j = i - 1;
    let p = group_prefix(d, j);
    let p2 = group_prefix(d, i);
    assert(is_digit(d[j]));
    if i == 1 {
        assert(p =~= Seq::<char>::empty());
        assert(p2 =~= seq![d[0]]);
    } else {
        lemma_group_prefix_shape(d, j);
        let r = (n - j) % 3;
        if (n - j) % 3 == 0 {
            assert(p2 =~= p + seq![','] + seq![d[j]]);
            assert((n - i) % 3 == 2);
            assert forall|k: int| 0 <= k < p2.len() implies ((#[trigger] p2[k] == ',') <==> (k > 0
                && (p2.len() - k) % 4 == (4 - (n - i) % 3) % 4)) by {
                if k < p.len() {
                    assert(p2[k] == p[k]);
                }
            }
            assert forall|k: int| 0 <= k < p2.len() && p2[k] != ',' implies is_digit(
                #[trigger] p2[k],
            ) by {
                if k < p.len() {
                    assert(p2[k] == p[k]);
                }
            }
        } else {
            assert(p2 =~= p + seq![d[j]]);
            assert((n - i) % 3 == r - 1);
            assert forall|k: int| 0 <= k < p2.len() implies ((#[trigger] p2[k] == ',') <==> (k > 0
                && (p2.len() - k) % 4 == (4 - (n - i) % 3) % 4)) by {
                if k < p.len() {
                    assert(p2[k] == p[k]);
                }
            }
            assert forall|k: int| 0 <= k < p2.len() && p2[k] != ',' implies is_digit(
                #[trigger] p2[k],
            ) by {
                if k < p.len() {
                    assert(p2[k] == p[k]);
                }
            }
        }
    }
}

/// Thousands separators split the digits into groups of three, but for a first group of
/// one to three digits: the text is never empty, never starts with a comma, has a
/// comma exactly where a multiple of four characters remains, and is otherwise all
/// digits. Its length is not a multiple of four, so the first group is one to three
/// digits long.
pub proof fn law_groups_of_three(d: Seq<char>)
    requires
        all_digits(d),
        d.len() > 0,
    ensures
        group_thousands(d).len() > 0,
        group_thousands(d).len() % 4 != 0,
        forall|k: int|
            0 <= k < group_thousands(d).len() ==> ((#[trigger] group_thousands(d)[k] == ',') <==> (k
                > 0 && (group_thousands(d).len() - k) % 4 == 0)),
        forall|k: int|
            0 <= k < group_thousands(d).len() && group_thousands(d)[k] != ',' ==> is_digit(
                #[trigger] group_thousands(d)[k],
            ),
{
    lemma_group_prefix_shape(d, d.len() as int);
    lemma_group_prefix_digits(d, d.len() as int);
    assert(d.take(d.len() as int) =~= d);
}

proof fn lemma_export_lines_append(data: &ArchiveData, a: Seq<(u64, usize)>, b: Seq<(u64, usize)>)
    ensures
        export_lines(data, a + b) == export_lines(data, a) + export_lines(data, b),
    decreases b.len(),
{
    if b.len() == 0 {
        assert(a + b =~= a);
        assert(export_lines(data, a) + Seq::<char>::empty() =~= export_lines(data, a));
    } else {
        lemma_export_lines_append(data, a, b.drop_last());
        assert((a + b).drop_last() =~= a + b.drop_last());
        assert((a + b).last() == b.last());
        assert(export_lines(data, a + b) =~= export_lines(data, a) + export_lines(data, b));
    }
}

/// The export lists search results oldest first. Its text starts with the line of the
/// last (oldest) result, followed by the export of the others; and for results that
/// run newest first, as a search returns them, the exported messages run from oldest
/// to newest.
pub proof fn law_export_runs_oldest_first(data: &ArchiveData, results: Seq<(u64, usize)>)
    requires
        forall|i: int, j: int|
            0 <= i < j < results.len() ==> msg_at(
                data.messages@,
                ((#[trigger] results[i]).0, results[i].1 as int),
            ).t >= msg_at(data.messages@, ((#[trigger] results[j]).0, results[j].1 as int)).t,
    ensures
        results.len() > 0 ==> export_lines(data, results.reverse()) == export_line(
            data,
            results.last().0,
            results.last().1,
        ) + export_lines(data, results.drop_last().reverse()),
        forall|i: int, j: int|
            0 <= i < j < results.len() ==> msg_at(
                data.messages@,
                ((#[trigger] results.reverse()[i]).0, results.reverse()[i].1 as int),
            ).t <= msg_at(
                data.messages@,
                ((#[trigger] results.reverse()[j]).0, results.reverse()[j].1 as int),
            ).t,
{
    let n = results.len();
    if n > 0 {
        let first = seq![results.last()];
        assert(results.reverse() =~= first + results.drop_last().reverse());
        lemma_export_lines_append(data, first, results.drop_last().reverse());
        assert(first.drop_last() =~= Seq::<(u64, usize)>::empty());
        assert(export_lines(data, first.drop_last()) == Seq::<char>::empty());
        assert(first.last() == results.last());
        assert(export_lines(data, first) =~= export_line(data, results.last().0, results.last().1));
    }
    assert forall|i: int, j: int| 0 <= i < j < n implies msg_at(
        data.messages@,
        ((#[trigger] results.reverse()[i]).0, results.reverse()[i].1 as int),
    ).t <= msg_at(
        data.messages@,
        ((#[trigger] results.reverse()[j]).0, results.reverse()[j].1 as int),
    ).t by {
        assert(results.reverse()[i] == results[n - 1 - i]);
        assert(results.reverse()[j] == results[n - 1 - j]);
        assert(results[n - 1 - j] == results[n - 1 - j]);
    }
}

/// The day statistics are fully determined by the archive and the zone: any two
/// results of `compute_stats` on the same archive and offset have the same days, with
/// the same counts and the same first message, and the same largest count.
pub proof fn law_day_stats_are_determined(
    data: &ArchiveData,
    west: int,
    a: &StatsCache,
    b: &StatsCache,
)
    requires
        timestamps_ok(data.messages@, west),
        days_match(a.daily_counts@, data.messages@, positions(data.messages@), west),
        days_match(b.daily_counts@, data.messages@, positions(data.messages@), west),
        forall|d: i32| #[trigger] a.daily_counts@.contains_key(d) ==> a.daily_counts@[d].count <= a.max_day,
        a.max_day == 0 || exists|d: i32| #[trigger]
            a.daily_counts@.contains_key(d) && a.daily_counts@[d].count == a.max_day,
        forall|d: i32| #[trigger] b.daily_counts@.contains_key(d) ==> b.daily_counts@[d].count <= b.max_day,
        b.max_day == 0 || exists|d: i32| #[trigger]
            b.daily_counts@.contains_key(d) && b.daily_counts@[d].count == b.max_day,
    ensures
        a.daily_counts@ == b.daily_counts@,
        a.max_day == b.max_day,
{
    let m = data.messages@;
    let s = positions(m);
    let da = a.daily_counts@;
    let db = b.daily_counts@;
    lemma_days_in_both(da, db, m, west);
    lemma_days_in_both(db, da, m, west);
    assert forall|d: i32| #[trigger] da.contains_key(d) implies da[d] == db[d] by {
        let ia = da[d];
        let ib = db[d];
        assert(day_info_ok(ia, m, s, west, d as int));
        assert(day_info_ok(ib, m, s, west, d as int));
        let ds = day_set(m, s, west, d as int);
        let fa = (ia.first_msg_c, ia.first_msg_idx as int);
        let fb = (ib.first_msg_c, ib.first_msg_idx as int);
        assert(ds.contains(fa));
        assert(ds.contains(fb));
        assert(no_later(ia.first_msg_t, fa.0, fa.1, msg_at(m, fb).t, fb.0, fb.1));
        assert(no_later(ib.first_msg_t, fb.0, fb.1, msg_at(m, fa).t, fa.0, fa.1));
    }
    assert(da =~= db);
    if a.max_day != b.max_day {
        if a.max_day != 0 {
            let d = choose|d: i32| #[trigger] da.contains_key(d) && da[d].count == a.max_day;
            assert(db.contains_key(d));
        }
        if b.max_day != 0 {
            let d = choose|d: i32| #[trigger] db.contains_key(d) && db[d].count == b.max_day;
            assert(da.contains_key(d));
        }
    }
}

proof fn lemma_days_in_both(
    da: Map<i32, DayInfo>,
    db: Map<i32, DayInfo>,
    m: Map<u64, Vec<MinMsg>>,
    west: int,
)
    requires
        timestamps_ok(m, west),
        days_match(da, m, positions(m), west),
        days_match(db, m, positions(m), west),
    ensures
        forall|d: i32| #[trigger] da.contains_key(d) ==> db.contains_key(d),
{
    let s = positions(m);
    assert forall|d: i32| #[trigger] da.contains_key(d) implies db.contains_key(d) by {
        assert(day_info_ok(da[d], m, s, west, d as int));
        let f = (da[d].first_msg_c, da[d].first_msg_idx as int);
        assert(day_set(m, s, west, d as int).contains(f));
        assert(s.contains(f));
        assert(local_day(msg_at(m, f).t as int, west) == d as int);
        assert(db.contains_key(local_day(msg_at(m, f).t as int, west) as i32));
    }
}

/// A page shows exactly the messages `start..=end`, cut at the end of the channel, in
/// order, and nothing when `start` lies past the end.
pub proof fn law_page_shows_its_window(msgs: Seq<MinMsg>, start: int, end: int)
    requires
        0 <= start <= end,
    ensures
        ({
            let hi = if end + 1 < msgs.len() { end + 1 } else { msgs.len() as int };
            let page = shown_indices(msgs, start, end, false);
            &&& page.len() == if hi <= start { 0 } else { hi - start }
            &&& forall|k: int| 0 <= k < page.len() ==> #[trigger] page[k] == start + k && page[k] < msgs.len()
        }),
{
}

/// A message joins the group of the message shown before it exactly when, outside the
/// pinned view, it is no reply, has the same author, and was posted less than five
/// minutes (300000 ms) after it. A message that is not grouped shows its author's
/// avatar and a header with the author's name and its time.
pub proof fn law_grouping_needs_same_author_within_five_minutes(
    users: Map<u64, MinUser>,
    channel_id: Seq<char>,
    msgs: Seq<MinMsg>,
    gi: int,
    last_author: u64,
    last_time: int,
    only_pins: bool,
)
    ensures
        is_grouped(msgs[gi], last_author, last_time, only_pins) <==> (!only_pins && msgs[gi].r is None
            && msgs[gi].a == last_author && msgs[gi].t - last_time < 300000),
        msgs[gi].t - last_time >= 300000 || msgs[gi].a != last_author ==> message_html(
            users,
            channel_id,
            msgs,
            gi,
            last_author,
            last_time,
            only_pins,
        ) == msg_block(
            " "@ + (if msgs[gi].r is Some {
                "has-reply"@
            } else {
                Seq::empty()
            }),
            gi as usize,
            avatar_of("avatar"@, users[msgs[gi].a].p),
            reply_part(users, channel_id, msgs, msgs[gi]),
            msg_header(
                color_of(users[msgs[gi].a]),
                users[msgs[gi].a].u@,
                users[msgs[gi].a].n@,
                msgs[gi].t,
                channel_id,
                msgs[gi].i,
            ),
            shown_content(msgs[gi].c@),
        ),
{
    if msgs[gi].t - last_time >= 300000 || msgs[gi].a != last_author {
        assert(Seq::<char>::empty() + " "@ + (if msgs[gi].r is Some {
            "has-reply"@
        } else {
            Seq::empty()
        }) =~= " "@ + (if msgs[gi].r is Some {
            "has-reply"@
        } else {
            Seq::empty()
        }));
    }
}

/// The `from:` filter reads the author's user name (lower-cased) or id, never the
/// display name: a message passes it exactly when its author's lower-cased user name
/// or decimal id holds the word, and its lower-cased text holds the rest of the query.
pub proof fn law_author_filter_reads_the_user_name(
    users: Map<u64, MinUser>,
    word: Seq<char>,
    text: Seq<char>,
    msg: MinMsg,
)
    ensures
        message_matches(users, Some(word), text, msg) <==> ((contains_seq(
            spec_to_lowercase(users[msg.a].u@),
            word,
        ) || contains_seq(dec(msg.a as nat), word)) && (text.len() == 0 || contains_seq(
            spec_to_lowercase(msg.c@),
            text,
        ))),
        message_matches(users, None, text, msg) <==> (text.len() == 0 || contains_seq(
            spec_to_lowercase(msg.c@),
            text,
        )),
{
}

/// The leaderboard ranks an author exactly when the id is not 0, the author has
/// messages, and the author is not a known user whose user name or display name is
/// "Deleted User".
pub proof fn law_deleted_users_are_not_ranked(data: &ArchiveData, uid: u64)
    ensures
        ranked(data, uid) <==> (uid != 0 && messages_by(data.messages@, uid) > 0 && !(
        data.users@.contains_key(uid) && (data.users@[uid].u@ == "Deleted User"@
            || data.users@[uid].n@ == "Deleted User"@))),
{
}

/// A text comes before every longer text that starts with it, as `str` ordering puts
/// a prefix first.
pub proof fn law_prefix_sorts_first(a: Seq<char>, s: Seq<char>)
    requires
        s.len() > 0,
    ensures
        lex_lt(a, a + s),
        !lex_lt(a + s, a),
    decreases a.len(),
{
    if a.len() > 0 {
        assert((a + s).drop_first() =~= a.drop_first() + s);
        assert((a + s)[0] == a[0]);
        law_prefix_sorts_first(a.drop_first(), s);
    }
}

/// The first position at which two texts differ decides their order, by code point.
pub proof fn law_first_difference_decides(a: Seq<char>, b: Seq<char>, i: int)
    requires
        0 <= i < a.len(),
        i < b.len(),
        a.take(i) == b.take(i),
        a[i] != b[i],
    ensures
        lex_lt(a, b) <==> a[i] < b[i],
    decreases i,
{
    if i > 0 {
        assert(a[0] == a.take(i)[0]);
        assert(b[0] == b.take(i)[0]);
        assert(a.drop_first().take(i - 1) =~= a.take(i).drop_first());
        assert(b.drop_first().take(i - 1) =~= b.take(i).drop_first());
        law_first_difference_decides(a.drop_first(), b.drop_first(), i - 1);
    }
}

proof fn lemma_rows_split(users: Map<u64, MinUser>, lb: Seq<(u64, usize)>, lo: int, mid: int, hi: int)
    requires
        lo <= mid <= hi,
    ensures
        leaderboard_rows(users, lb, lo, mid) + leaderboard_rows(users, lb, mid, hi)
            == leaderboard_rows(users, lb, lo, hi),
    decreases hi - mid,
{
    if mid == hi {
        assert(leaderboard_rows(users, lb, lo, mid) + Seq::<char>::empty() =~= leaderboard_rows(
            users,
            lb,
            lo,
            mid,
        ));
    } else {
        lemma_rows_split(users, lb, lo, mid, hi - 1);
        assert(leaderboard_rows(users, lb, lo, mid) + leaderboard_rows(users, lb, mid, hi) =~= (
        leaderboard_rows(users, lb, lo, mid) + leaderboard_rows(users, lb, mid, hi - 1))
            + leaderboard_row(users, lb, hi - 1));
    }
}

/// The leaderboard window `start..=end` shows rows `start` through `end` only, cut at
/// the end of the board: nothing where `end < start`, the single row `i` for the
/// window `i..=i`, and two adjacent windows together give the window that spans them,
/// so consecutive pages never repeat a row.
pub proof fn law_leaderboard_window(
    users: Map<u64, MinUser>,
    lb: Seq<(u64, usize)>,
    start: int,
    mid: int,
    end: int,
)
    requires
        0 <= start,
    ensures
        end < start ==> leaderboard_html(users, lb, start, end) == Seq::<char>::empty(),
        start < lb.len() ==> leaderboard_html(users, lb, start, start) == leaderboard_row(
            users,
            lb,
            start,
        ),
        start <= mid + 1 && mid <= end ==> leaderboard_html(users, lb, start, mid)
            + leaderboard_html(users, lb, mid + 1, end) == leaderboard_html(users, lb, start, end),
        leaderboard_html(users, lb, start, end) == leaderboard_rows(
            users,
            lb,
            start,
            if end + 1 < lb.len() {
                end + 1
            } else {
                lb.len() as int
            },
        ),
{
    if start < lb.len() {
        assert(leaderboard_rows(users, lb, start, start) == Seq::<char>::empty());
        assert(leaderboard_rows(users, lb, start, start + 1) =~= leaderboard_row(users, lb, start));
    }
    if start <= mid + 1 && mid <= end {
        let len = lb.len() as int;
        let a = if mid + 1 < len { mid + 1 } else { len };
        let b = if end + 1 < len { end + 1 } else { len };
        if start <= a {
            lemma_rows_split(users, lb, start, a, b);
        } else {
            assert(leaderboard_rows(users, lb, start, a) == Seq::<char>::empty());
            assert(leaderboard_rows(users, lb, mid + 1, b) == Seq::<char>::empty());
            assert(leaderboard_rows(users, lb, start, b) == Seq::<char>::empty());
            assert(Seq::<char>::empty() + Seq::<char>::empty() =~= Seq::<char>::empty());
        }
    }
}

} // verus!
