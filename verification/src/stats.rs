//! Message statistics: the per-author leaderboard and the per-day heatmap.
use vstd::prelude::*;
use std::collections::HashMap;
use crate::calendar::{day_in_range, local_day, local_day_of, offset_ok, timestamp_ok, west_offset};
use crate::model::{
    ArchiveData, MinMsg, MinUser, Pos, channel_prefix, lemma_channel_prefix_finite,
    lemma_positions_finite, lemma_positions_in_finite, msg_at, positions, positions_in,
    total_messages, lemma_iter_keys_distinct,
};
use crate::sort::{SortKey, sort_keys, key_lt};
use crate::text::str_eq;

verus! {

broadcast use vstd::std_specs::hash::group_hash_axioms;

use vstd::std_specs::hash::spec_hash_map_iter;
use vstd::std_specs::iter::IteratorSpec;

/// What one local day holds: its message count and the earliest message on it.
#[derive(Clone, Copy)]
pub struct DayInfo {
    pub count: usize,
    pub first_msg_t: i64,
    pub first_msg_c: u64,
    pub first_msg_idx: usize,
}

/// The statistics that the leaderboard and the heatmap are drawn from.
pub struct StatsCache {
    /// `(author id, message count)`, most active first.
    pub leaderboard: Vec<(u64, usize)>,
    /// Keyed by local day number.
    pub daily_counts: HashMap<i32, DayInfo>,
    /// The largest count of any day, 0 when there is none.
    pub max_day: usize,
}

impl StatsCache {
    /// Each day lies in chrono's range and its count lies in `1..=max_day`.
    pub open spec fn wf(&self) -> bool {
        forall|d: i32| #[trigger]
            self.daily_counts@.contains_key(d) ==> day_in_range(d as int) && 1
                <= self.daily_counts@[d].count <= self.max_day
    }
}

/// The zone offset used for a browser offset of `mins` minutes ahead of UTC:
/// `mins * 60` seconds west, or UTC where that is not a valid offset.
pub open spec fn effective_west(mins: int) -> int {
    if offset_ok(mins * 60) {
        mins * 60
    } else {
        0
    }
}

pub open spec fn by_author(m: Map<u64, Vec<MinMsg>>, uid: u64) -> spec_fn(Pos) -> bool {
    |p: Pos| msg_at(m, p).a == uid
}

pub open spec fn on_day(m: Map<u64, Vec<MinMsg>>, west: int, day: int) -> spec_fn(Pos) -> bool {
    |p: Pos| local_day(msg_at(m, p).t as int, west) == day
}

/// How many of the positions `s` hold a message by `uid`.
pub open spec fn author_count(m: Map<u64, Vec<MinMsg>>, s: Set<Pos>, uid: u64) -> nat {
    s.filter(by_author(m, uid)).len()
}

/// The positions of `s` whose message falls on local day `day`.
pub open spec fn day_set(m: Map<u64, Vec<MinMsg>>, s: Set<Pos>, west: int, day: int) -> Set<Pos> {
    s.filter(on_day(m, west, day))
}

/// The number of messages by `uid` in the archive.
pub open spec fn messages_by(m: Map<u64, Vec<MinMsg>>, uid: u64) -> nat {
    author_count(m, positions(m), uid)
}

/// A user whose user name or display name is "Deleted User".
pub open spec fn is_deleted_user(users: Map<u64, MinUser>, uid: u64) -> bool {
    users.contains_key(uid) && (users[uid].u@ == "Deleted User"@ || users[uid].n@
        == "Deleted User"@)
}

/// An author that the leaderboard lists: a real id (not 0), not a deleted user,
/// with at least one message.
pub open spec fn ranked(data: &ArchiveData, uid: u64) -> bool {
    uid != 0 && !is_deleted_user(data.users@, uid) && messages_by(data.messages@, uid) > 0
}

/// chrono can place every message in UTC and in the zone `west` seconds behind UTC.
pub open spec fn timestamps_ok(m: Map<u64, Vec<MinMsg>>, west: int) -> bool {
    forall|p: Pos| #[trigger]
        positions(m).contains(p) ==> timestamp_ok(msg_at(m, p).t as int, west)
}

/// The archive's message count fits in a `usize`.
pub open spec fn count_fits(m: Map<u64, Vec<MinMsg>>) -> bool {
    total_messages(m) <= usize::MAX
}

pub open spec fn counts_match(counts: Map<u64, usize>, m: Map<u64, Vec<MinMsg>>, s: Set<Pos>) -> bool {
    &&& forall|uid: u64| #[trigger] counts.contains_key(uid) ==> author_count(m, s, uid) > 0
    &&& forall|uid: u64| author_count(m, s, uid) > 0 ==> #[trigger] counts.contains_key(uid)
    &&& forall|uid: u64| #[trigger]
        counts.contains_key(uid) ==> counts[uid] as int == author_count(m, s, uid)
}

/// Message `(c1, i1)` at time `t1` comes no later than message `(c2, i2)` at time
/// `t2`: by time, then by channel id, then by index.
pub open spec fn no_later(t1: i64, c1: u64, i1: int, t2: i64, c2: u64, i2: int) -> bool {
    t1 < t2 || (t1 == t2 && (c1 < c2 || (c1 == c2 && i1 <= i2)))
}

/// `info` describes day `day` over the positions `s`: its count, and its first
/// message (the earliest, ties going to the lower channel id, then the lower index).
pub open spec fn day_info_ok(
    info: DayInfo,
    m: Map<u64, Vec<MinMsg>>,
    s: Set<Pos>,
    west: int,
    day: int,
) -> bool {
    let ds = day_set(m, s, west, day);
    let first = (info.first_msg_c, info.first_msg_idx as int);
    &&& info.count as int == ds.len()
    &&& ds.contains(first)
    &&& msg_at(m, first).t == info.first_msg_t
    &&& forall|p: Pos| #[trigger]
        ds.contains(p) ==> no_later(info.first_msg_t, first.0, first.1, msg_at(m, p).t, p.0, p.1)
}

pub open spec fn days_match(
    daily: Map<i32, DayInfo>,
    m: Map<u64, Vec<MinMsg>>,
    s: Set<Pos>,
    west: int,
) -> bool {
    &&& forall|d: i32| #[trigger]
        daily.contains_key(d) ==> day_in_range(d as int) && day_info_ok(
            daily[d],
            m,
            s,
            west,
            d as int,
        )
    &&& forall|p: Pos| #[trigger]
        s.contains(p) ==> daily.contains_key(local_day(msg_at(m, p).t as int, west) as i32)
}

pub proof fn lemma_filter_insert<A>(s: Set<A>, x: A, f: spec_fn(A) -> bool)
    requires
        s.finite(),
        !s.contains(x),
    ensures
        s.filter(f).finite(),
        s.filter(f).len() <= s.len(),
        f(x) ==> s.insert(x).filter(f) == s.filter(f).insert(x),
        !f(x) ==> s.insert(x).filter(f) == s.filter(f),
        s.insert(x).filter(f).len() == s.filter(f).len() + (if f(x) {
            1int
        } else {
            0
        }),
{
    s.lemma_len_filter(f);
    if f(x) {
        assert(s.insert(x).filter(f) =~= s.filter(f).insert(x));
    } else {
        assert(s.insert(x).filter(f) =~= s.filter(f));
    }
}

/// Counts one more message, at position `(c, idx)`, into the author and day tallies.
fn tally(
    user_counts: &mut HashMap<u64, usize>,
    daily: &mut HashMap<i32, DayInfo>,
    msg: &MinMsg,
    c: u64,
    idx: usize,
    west: i32,
    Ghost(m): Ghost<Map<u64, Vec<MinMsg>>>,
    Ghost(done): Ghost<Set<Pos>>,
)
    requires
        counts_match(old(user_counts)@, m, done),
        days_match(old(daily)@, m, done, west as int),
        done.finite(),
        done.subset_of(positions(m)),
        positions(m).finite(),
        positions(m).len() <= usize::MAX,
        positions(m).contains((c, idx as int)),
        !done.contains((c, idx as int)),
        *msg == msg_at(m, (c, idx as int)),
        offset_ok(west as int),
        timestamp_ok(msg.t as int, west as int),
    ensures
        counts_match(final(user_counts)@, m, done.insert((c, idx as int))),
        days_match(final(daily)@, m, done.insert((c, idx as int)), west as int),
{
    let ghost p: Pos = (c, idx as int);
    let ghost nd = done.insert(p);
    proof {
        vstd::set_lib::lemma_len_subset(nd, positions(m));
    }
    let a = msg.a;
    let next: usize = match user_counts.get(&a) {
        Some(v) => {
            proof {
                lemma_filter_insert(done, p, by_author(m, a));
            }
            *v + 1
        },
        None => 1,
    };
    user_counts.insert(a, next);
    proof {
        assert forall|uid: u64| #[trigger]
            user_counts@.contains_key(uid) implies author_count(m, nd, uid) > 0 by {
            lemma_filter_insert(done, p, by_author(m, uid));
        }
        assert forall|uid: u64| author_count(m, nd, uid) > 0 implies #[trigger]
            user_counts@.contains_key(uid) by {
            lemma_filter_insert(done, p, by_author(m, uid));
        }
        assert forall|uid: u64| #[trigger]
            user_counts@.contains_key(uid) implies user_counts@[uid] as int == author_count(
            m,
            nd,
            uid,
        ) by {
            lemma_filter_insert(done, p, by_author(m, uid));
        }
    }
    let d = local_day_of(msg.t, west);
    let ghost old_daily = daily@;
    let ninfo = match daily.get(&d) {
        Some(info) => {
            proof {
                lemma_filter_insert(done, p, on_day(m, west as int, d as int));
            }
            let mut ni = *info;
            ni.count = info.count + 1;
            if msg.t < info.first_msg_t || (msg.t == info.first_msg_t && (c < info.first_msg_c
                || (c == info.first_msg_c && idx < info.first_msg_idx))) {
                ni.first_msg_t = msg.t;
                ni.first_msg_c = c;
                ni.first_msg_idx = idx;
            }
            ni
        },
        None => {
            proof {
                lemma_filter_insert(done, p, on_day(m, west as int, d as int));
                assert(day_set(m, done, west as int, d as int) =~= Set::empty()) by {
                    assert forall|q: Pos| !day_set(m, done, west as int, d as int).contains(q) by {
                        if day_set(m, done, west as int, d as int).contains(q) {
                            assert(old_daily.contains_key(
                                local_day(msg_at(m, q).t as int, west as int) as i32,
                            ));
                        }
                    }
                }
            }
            DayInfo { count: 1, first_msg_t: msg.t, first_msg_c: c, first_msg_idx: idx }
        },
    };
    proof {
        assert(day_info_ok(ninfo, m, nd, west as int, d as int)) by {
            lemma_filter_insert(done, p, on_day(m, west as int, d as int));
            let ds = day_set(m, nd, west as int, d as int);
            assert(ds == day_set(m, done, west as int, d as int).insert(p));
        }
    }
    daily.insert(d, ninfo);
    proof {
        assert forall|dd: i32| #[trigger]
            daily@.contains_key(dd) implies day_in_range(dd as int) && day_info_ok(
            daily@[dd],
            m,
            nd,
            west as int,
            dd as int,
        ) by {
            if dd != d {
                lemma_filter_insert(done, p, on_day(m, west as int, dd as int));
                assert(day_set(m, nd, west as int, dd as int) == day_set(
                    m,
                    done,
                    west as int,
                    dd as int,
                ));
            }
        }
        assert forall|q: Pos| #[trigger]
            nd.contains(q) implies daily@.contains_key(
            local_day(msg_at(m, q).t as int, west as int) as i32,
        ) by {
            if q != p {
                assert(done.contains(q));
            }
        }
    }
}


/// The largest day count, or 0 for an empty map.
fn day_maximum(daily: &HashMap<i32, DayInfo>) -> (r: usize)
    ensures
        forall|d: i32| #[trigger] daily@.contains_key(d) ==> daily@[d].count <= r,
        r == 0 || exists|d: i32| #[trigger] daily@.contains_key(d) && daily@[d].count == r,
{
    let mut best: usize = 0;
    let ghost dm = daily@;
    let ghost v = spec_hash_map_iter(daily).remaining();
    for (d, info) in it: daily.iter()
        invariant
            dm == daily@,
            it.seq() == v,
            forall|j: int|
                0 <= j < it.seq().len() ==> dm.contains_key(*it.seq()[j].0) && dm[*it.seq()[j].0]
                    == *it.seq()[j].1,
            forall|j: int| 0 <= j < it.index() ==> (#[trigger] it.seq()[j]).1.count <= best,
            best == 0 || exists|d: i32| #[trigger] dm.contains_key(d) && dm[d].count == best,
    {
        if info.count > best {
            best = info.count;
            assert(dm.contains_key(*d) && dm[*d].count == best);
        }
    }
    proof {
        assert forall|d: i32| #[trigger] dm.contains_key(d) implies dm[d].count <= best by {
            assert(v.contains((&d, &dm[d])));
            let j = choose|j: int| 0 <= j < v.len() && v[j] == (&d, &dm[d]);
            assert(v[j].1.count <= best);
        }
    }
    best
}

/// The sort key that orders the leaderboard: more messages first, then lower id.
pub open spec fn rank_key(uid: u64, count: usize) -> SortKey {
    ((-(count as int)) as i128, uid, 0u64)
}

/// Whether the leaderboard leaves out `uid`: id 0 or a deleted user.
fn excluded_from_ranking(data: &ArchiveData, uid: u64) -> (b: bool)
    ensures
        b == (uid == 0 || is_deleted_user(data.users@, uid)),
{
    if uid == 0 {
        return true;
    }
    match data.users.get(&uid) {
        Some(user) => str_eq(user.u.as_str(), "Deleted User") || str_eq(
            user.n.as_str(),
            "Deleted User",
        ),
        None => false,
    }
}

/// The ranked authors of `counts`, most messages first, ties by lower id.
fn build_leaderboard(data: &ArchiveData, counts: &HashMap<u64, usize>) -> (r: Vec<(u64, usize)>)
    ensures
        forall|i: int|
            0 <= i < r@.len() ==> counts@.contains_key((#[trigger] r@[i]).0) && r@[i].1
                == counts@[r@[i].0] && r@[i].0 != 0 && !is_deleted_user(data.users@, r@[i].0),
        forall|uid: u64| #[trigger]
            counts@.contains_key(uid) && uid != 0 && !is_deleted_user(data.users@, uid) ==> exists|
                i: int,
            | 0 <= i < r@.len() && r@[i].0 == uid,
        forall|i: int, j: int|
            0 <= i < j < r@.len() ==> (#[trigger] r@[i]).1 > (#[trigger] r@[j]).1 || (r@[i].1
                == r@[j].1 && r@[i].0 < r@[j].0),
{
    let ghost cm = counts@;
    let mut keys: Vec<SortKey> = Vec::new();
    let ghost mut seen: Set<u64> = Set::empty();
    let ghost v = spec_hash_map_iter(counts).remaining();
    let iter = counts.iter();
    proof {
        lemma_iter_keys_distinct(v, cm);
    }
    for (uid, cnt) in it: iter
        invariant
            cm == counts@,
            it.seq() == v,
            forall|j: int|
                0 <= j < it.seq().len() ==> cm.contains_key(*it.seq()[j].0) && cm[*it.seq()[j].0]
                    == *it.seq()[j].1,
            forall|j1: int, j2: int|
                0 <= j1 < j2 < it.seq().len() ==> *(#[trigger] it.seq()[j1]).0 != *(
                #[trigger] it.seq()[j2]).0,
            forall|j: int| 0 <= j < it.index() ==> seen.contains(*(#[trigger] it.seq()[j]).0),
            forall|j: int|
                it.index() <= j < it.seq().len() ==> !seen.contains(*(#[trigger] it.seq()[j]).0),
            forall|i: int|
                0 <= i < keys@.len() ==> seen.contains((#[trigger] keys@[i]).1) && cm.contains_key(
                    keys@[i].1,
                ) && keys@[i] == rank_key(keys@[i].1, cm[keys@[i].1]) && keys@[i].1 != 0
                    && !is_deleted_user(data.users@, keys@[i].1),
            forall|j: int|
                0 <= j < it.index() && *(#[trigger] it.seq()[j]).0 != 0 && !is_deleted_user(
                    data.users@,
                    *it.seq()[j].0,
                ) ==> keys@.contains(rank_key(*it.seq()[j].0, *it.seq()[j].1)),
            keys@.no_duplicates(),
    {
        let ghost j = it.index();
        assert(it.seq()[j] == (uid, cnt));
        if !excluded_from_ranking(data, *uid) {
            let k: SortKey = (-(*cnt as i128), *uid, 0u64);
            proof {
                assert forall|i: int| 0 <= i < keys@.len() implies keys@[i] != k by {
                    assert(seen.contains(keys@[i].1));
                }
            }
            let ghost before = keys@;
            keys.push(k);
            proof {
                assert(keys@[keys@.len() - 1] == k);
                assert(k == rank_key(*uid, *cnt));
                assert forall|x: SortKey| before.contains(x) implies keys@.contains(x) by {
                    let t = choose|t: int| 0 <= t < before.len() && before[t] == x;
                    assert(keys@[t] == x);
                }
            }
        }
        proof {
            seen = seen.insert(*uid);
        }
    }
    proof {
        assert forall|uid: u64| #[trigger]
            cm.contains_key(uid) && uid != 0 && !is_deleted_user(data.users@, uid) implies keys@.contains(
            rank_key(uid, cm[uid]),
        ) by {
            assert(v.contains((&uid, &cm[uid])));
            let j = choose|j: int| 0 <= j < v.len() && v[j] == (&uid, &cm[uid]);
            assert(*v[j].0 == uid);
        }
    }
    let sorted = sort_keys(&keys);
    let mut out: Vec<(u64, usize)> = Vec::new();
    let n = sorted.len();
    for i in 0..n
        invariant
            n == sorted@.len(),
            out@.len() == i,
            forall|t: int| 0 <= t < i ==> (#[trigger] out@[t]).0 == sorted@[t].1 && sorted@[t]
                == rank_key(out@[t].0, out@[t].1),
            forall|x: SortKey| sorted@.contains(x) <==> keys@.contains(x),
            forall|t: int|
                0 <= t < keys@.len() ==> cm.contains_key((#[trigger] keys@[t]).1) && keys@[t]
                    == rank_key(keys@[t].1, cm[keys@[t].1]),
    {
        let k = sorted[i];
        assert(keys@.contains(k));
        let ghost kt = choose|t: int| 0 <= t < keys@.len() && keys@[t] == k;
        assert(keys@[kt] == k);
        let c = (-k.0) as usize;
        out.push((k.1, c));
    }
    proof {
        assert forall|i: int|
            0 <= i < out@.len() implies cm.contains_key((#[trigger] out@[i]).0) && out@[i].1
            == cm[out@[i].0] && out@[i].0 != 0 && !is_deleted_user(data.users@, out@[i].0) by {
            assert(keys@.contains(sorted@[i]));
            let t = choose|t: int| 0 <= t < keys@.len() && keys@[t] == sorted@[i];
            assert(keys@[t] == sorted@[i]);
        }
        assert forall|uid: u64| #[trigger]
            cm.contains_key(uid) && uid != 0 && !is_deleted_user(data.users@, uid) implies exists|
            i: int,
        | 0 <= i < out@.len() && out@[i].0 == uid by {
            assert(keys@.contains(rank_key(uid, cm[uid])));
            assert(sorted@.contains(rank_key(uid, cm[uid])));
            let i = choose|i: int| 0 <= i < sorted@.len() && sorted@[i] == rank_key(uid, cm[uid]);
            assert(out@[i].0 == uid);
        }
        assert forall|i: int, j: int| 0 <= i < j < out@.len() implies (#[trigger] out@[i]).1 > (
        #[trigger] out@[j]).1 || (out@[i].1 == out@[j].1 && out@[i].0 < out@[j].0) by {
            assert(key_lt(sorted@[i], sorted@[j]));
        }
    }
    out
}

/// Tallies messages per author and per local day, and ranks the authors.
///
/// `tz_offset_mins` is the browser's offset in minutes ahead of UTC (positive west
/// of Greenwich); an offset that is not under one day counts as UTC.
pub fn compute_stats(data: &ArchiveData, tz_offset_mins: i32) -> (r: StatsCache)
    requires
        i32::MIN <= tz_offset_mins * 60 <= i32::MAX,
        count_fits(data.messages@),
        timestamps_ok(data.messages@, effective_west(tz_offset_mins as int)),
    ensures
        r.wf(),
        // the leaderboard: every ranked author once, with the number of their messages,
        // most messages first and ties by lower id
        forall|i: int|
            0 <= i < r.leaderboard@.len() ==> ranked(data, (#[trigger] r.leaderboard@[i]).0)
                && r.leaderboard@[i].1 == messages_by(data.messages@, r.leaderboard@[i].0),
        forall|uid: u64| #[trigger]
            ranked(data, uid) ==> exists|i: int|
                0 <= i < r.leaderboard@.len() && r.leaderboard@[i].0 == uid,
        forall|i: int, j: int|
            0 <= i < j < r.leaderboard@.len() ==> (#[trigger] r.leaderboard@[i]).1 > (
            #[trigger] r.leaderboard@[j]).1 || (r.leaderboard@[i].1 == r.leaderboard@[j].1
                && r.leaderboard@[i].0 < r.leaderboard@[j].0),
        // the days: each day with messages, its count and its first message
        days_match(
            r.daily_counts@,
            data.messages@,
            positions(data.messages@),
            effective_west(tz_offset_mins as int),
        ),
        forall|d: i32| #[trigger] r.daily_counts@.contains_key(d) ==> r.daily_counts@[d].count <= r.max_day,
        r.max_day == 0 || exists|d: i32| #[trigger]
            r.daily_counts@.contains_key(d) && r.daily_counts@[d].count == r.max_day,
{
    let west: i32 = match west_offset(tz_offset_mins * 60) {
        Some(w) => w,
        None => 0,
    };
    let ghost m = data.messages@;
    proof {
        lemma_positions_finite(m);
    }
    let mut user_counts: HashMap<u64, usize> = HashMap::new();
    let mut daily: HashMap<i32, DayInfo> = HashMap::new();
    let ghost mut done: Set<Pos> = Set::empty();
    let ghost mut seen: Set<u64> = Set::empty();
    proof {
        assert(positions_in(m, seen) =~= Set::empty());
        assert(counts_match(user_counts@, m, done)) by {
            assert forall|uid: u64| author_count(m, done, uid) == 0 by {
                assert(done.filter(by_author(m, uid)) =~= Set::empty());
            }
        }
    }
    let ghost v = spec_hash_map_iter(&data.messages).remaining();
    let iter = data.messages.iter();
    proof {
        lemma_iter_keys_distinct(v, m);
    }
    for (c_id, msgs) in it: iter
        invariant
            m == data.messages@,
            it.seq() == v,
            west as int == effective_west(tz_offset_mins as int),
            offset_ok(west as int),
            positions(m).finite(),
            positions(m).len() <= usize::MAX,
            timestamps_ok(m, west as int),
            forall|j: int|
                0 <= j < it.seq().len() ==> m.contains_key(*it.seq()[j].0) && m[*it.seq()[j].0]
                    == *it.seq()[j].1,
            forall|j1: int, j2: int|
                0 <= j1 < j2 < it.seq().len() ==> *(#[trigger] it.seq()[j1]).0 != *(
                #[trigger] it.seq()[j2]).0,
            forall|j: int| 0 <= j < it.index() ==> seen.contains(*(#[trigger] it.seq()[j]).0),
            forall|j: int|
                it.index() <= j < it.seq().len() ==> !seen.contains(*(#[trigger] it.seq()[j]).0),
            seen.finite(),
            done == positions_in(m, seen),
            counts_match(user_counts@, m, done),
            days_match(daily@, m, done, west as int),
    {
        let c = *c_id;
        let ghost j = it.index();
        assert(it.seq()[j] == (c_id, msgs));
        assert(!seen.contains(c));
        proof {
            lemma_positions_in_finite(m, seen);
            lemma_channel_prefix_finite(m, c, 0);
            assert(done =~= positions_in(m, seen).union(channel_prefix(m, c, 0)));
        }
        let n = msgs.len();
        let mut idx: usize = 0;
        while idx < n
            invariant
                m == data.messages@,
                offset_ok(west as int),
                positions(m).finite(),
                positions(m).len() <= usize::MAX,
                timestamps_ok(m, west as int),
                m.contains_key(c),
                m[c] == *msgs,
                n == msgs@.len(),
                idx <= n,
                !seen.contains(c),
                seen.finite(),
                done == positions_in(m, seen).union(channel_prefix(m, c, idx as int)),
                counts_match(user_counts@, m, done),
                days_match(daily@, m, done, west as int),
            decreases n - idx,
        {
            proof {
                lemma_positions_in_finite(m, seen);
                lemma_channel_prefix_finite(m, c, idx as int);
                assert(positions(m).contains((c, idx as int)));
                assert(done.subset_of(positions(m)));
                assert(timestamp_ok(msg_at(m, (c, idx as int)).t as int, west as int));
            }
            tally(&mut user_counts, &mut daily, &msgs[idx], c, idx, west, Ghost(m), Ghost(done));
            proof {
                done = done.insert((c, idx as int));
                assert(done =~= positions_in(m, seen).union(channel_prefix(m, c, idx + 1)));
            }
            idx += 1;
        }
        proof {
            assert(positions_in(m, seen).union(channel_prefix(m, c, n as int)) =~= positions_in(
                m,
                seen.insert(c),
            ));
            seen = seen.insert(c);
        }
    }
    proof {
        assert forall|k: u64| m.contains_key(k) implies seen.contains(k) by {
            assert(v.contains((&k, &m[k])));
            let j = choose|j: int| 0 <= j < v.len() && v[j] == (&k, &m[k]);
            assert(seen.contains(*v[j].0));
        }
        assert(done =~= positions(m));
    }
    let max_day = day_maximum(&daily);
    let leaderboard = build_leaderboard(data, &user_counts);
    let r = StatsCache { leaderboard, daily_counts: daily, max_day };
    proof {
        assert forall|d: i32| #[trigger] r.daily_counts@.contains_key(d) implies 1
            <= r.daily_counts@[d].count by {
            assert(day_info_ok(r.daily_counts@[d], m, done, west as int, d as int));
            let first = (r.daily_counts@[d].first_msg_c, r.daily_counts@[d].first_msg_idx as int);
            let ds = day_set(m, done, west as int, d as int);
            assert(ds.contains(first));
            done.lemma_len_filter(on_day(m, west as int, d as int));
            vstd::set::axiom_set_contains_len(ds, first);
        }
        assert forall|uid: u64| #[trigger]
            ranked(data, uid) implies exists|i: int|
            0 <= i < r.leaderboard@.len() && r.leaderboard@[i].0 == uid by {
            assert(author_count(m, done, uid) > 0);
            assert(user_counts@.contains_key(uid));
            assert(uid != 0 && !is_deleted_user(data.users@, uid));
            let i = choose|i: int| 0 <= i < leaderboard@.len() && leaderboard@[i].0 == uid;
            assert(r.leaderboard@[i].0 == uid);
        }
    }
    r
}

} // verus!

