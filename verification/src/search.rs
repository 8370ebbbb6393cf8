//! Searching messages, and showing and exporting the results.
use vstd::prelude::*;
use crate::calendar::{day_in_range, spec_utc_minute_stamp, utc_day, utc_minute_stamp};
use crate::html::{push_search_item, search_item};
use crate::messages::{color_of, shown_content, shown_content_string};
use crate::model::{
    ArchiveData, ChannelMeta, MinMsg, MinUser, Pos, msg_at,
    positions, positions_in, lemma_iter_keys_distinct,
};
use crate::sort::{SortKey, key_lt, sort_keys};
use crate::text::{
    contains_chars, contains_seq, dec, find_chars, find_seq, is_blank, parse_u64,
    parse_u64_or_zero, remove_all, remove_all_chars, spec_to_lowercase, to_chars, to_lowercase, trim, trim_bounds, u64_to_string,
};
use crate::views::{avatar_of, avatar_string};

verus! {

broadcast use {vstd::std_specs::hash::group_hash_axioms, vstd::std_specs::vec::group_vec_axioms};

use vstd::std_specs::hash::spec_hash_map_iter;
use vstd::std_specs::iter::IteratorSpec;

pub open spec fn from_prefix() -> Seq<char> {
    seq!['f', 'r', 'o', 'm', ':']
}

/// The author filter of a lower-cased query: the word after the first `from:`, up to
/// the next space.
pub open spec fn author_filter(q: Seq<char>) -> Option<Seq<char>> {
    match find_seq(q, from_prefix()) {
        Some(idx) => {
            let after = q.skip(idx + 5);
            let e = match find_seq(after, seq![' ']) {
                Some(j) => j,
                None => after.len() as int,
            };
            Some(after.take(e))
        },
        None => None,
    }
}

/// The text that a lower-cased query searches for: the query without its
/// `from:<author>` parts, trimmed.
pub open spec fn text_filter(q: Seq<char>) -> Seq<char> {
    match author_filter(q) {
        Some(target) => trim(remove_all(q, from_prefix() + target)),
        None => q,
    }
}

/// Whether a message passes the filters: its author's user name (lower-cased) or id
/// holds the author filter, and its text (lower-cased) holds the search text.
pub open spec fn message_matches(
    users: Map<u64, MinUser>,
    target: Option<Seq<char>>,
    text: Seq<char>,
    msg: MinMsg,
) -> bool {
    &&& match target {
        Some(t) => contains_seq(spec_to_lowercase(users[msg.a].u@), t) || contains_seq(
            dec(msg.a as nat),
            t,
        ),
        None => true,
    }
    &&& (text.len() == 0 || contains_seq(spec_to_lowercase(msg.c@), text))
}

/// The channels searched: all of them, or the current one (0, meaning none, where
/// `current_channel` is not a valid id).
pub open spec fn channel_selected(current_channel: Seq<char>, global: bool, c: u64) -> bool {
    global || (c == parse_u64_or_zero(current_channel) && c != 0)
}

/// The messages of the searched channels have known authors.
pub open spec fn searched_authors_known(data: &ArchiveData, global: bool, current_channel: Seq<char>) -> bool {
    forall|p: Pos| #[trigger]
        positions(data.messages@).contains(p) && channel_selected(current_channel, global, p.0)
            ==> data.users@.contains_key(msg_at(data.messages@, p).a)
}

/// The positions that a search for the query `query` finds.
pub open spec fn is_hit(
    data: &ArchiveData,
    query: Seq<char>,
    global: bool,
    current_channel: Seq<char>,
    p: Pos,
) -> bool {
    is_hit_lowered(data, spec_to_lowercase(query), global, current_channel, p)
}

/// The positions that a search for the lower-cased query `q` finds.
pub open spec fn is_hit_lowered(
    data: &ArchiveData,
    q: Seq<char>,
    global: bool,
    current_channel: Seq<char>,
    p: Pos,
) -> bool {
    &&& positions(data.messages@).contains(p)
    &&& channel_selected(current_channel, global, p.0)
    &&& message_matches(
        data.users@,
        author_filter(q),
        text_filter(q),
        msg_at(data.messages@, p),
    )
}

/// The sort key of a hit: latest first, then by channel id and index.
pub open spec fn hit_key(m: Map<u64, Vec<MinMsg>>, p: Pos) -> SortKey {
    ((-(msg_at(m, p).t as int)) as i128, p.0, p.1 as u64)
}

fn matches_exec(
    data: &ArchiveData,
    msg: &MinMsg,
    has_target: bool,
    target: &Vec<char>,
    text: &Vec<char>,
) -> (b: bool)
    requires
        data.users@.contains_key(msg.a),
    ensures
        b == message_matches(
            data.users@,
            if has_target {
                Some(target@)
            } else {
                None
            },
            text@,
            *msg,
        ),
{
    let user = match data.users.get(&msg.a) {
        Some(u) => u,
        None => {
            return false;
        },
    };
    if has_target {
        let ul = to_lowercase(user.u.as_str());
        let uv = to_chars(ul.as_str());
        let ok_name = contains_chars(uv.as_slice(), target.as_slice());
        let ok = if ok_name {
            true
        } else {
            let ids = u64_to_string(msg.a);
            let iv = to_chars(ids.as_str());
            contains_chars(iv.as_slice(), target.as_slice())
        };
        if !ok {
            return false;
        }
    }
    if text.len() == 0 {
        return true;
    }
    let cl = to_lowercase(msg.c.as_str());
    let cv = to_chars(cl.as_str());
    contains_chars(cv.as_slice(), text.as_slice())
}

/// Adds the sort keys of the hits in channel `c` to `keys`.
fn scan_channel(
    data: &ArchiveData,
    c: u64,
    msgs: &Vec<MinMsg>,
    has_target: bool,
    target: &Vec<char>,
    text: &Vec<char>,
    keys: &mut Vec<SortKey>,
    Ghost(done): Ghost<Set<Pos>>,
    Ghost(hit): Ghost<spec_fn(Pos) -> bool>,
)
    requires
        forall|k: int| 0 <= k < msgs@.len() ==> data.users@.contains_key(#[trigger] msgs@[k].a),
        data.messages@.contains_key(c),
        data.messages@[c] == *msgs,
        forall|p: Pos| !(#[trigger] done.contains(p) && p.0 == c),
        forall|p: Pos|
            positions(data.messages@).contains(p) && p.0 == c ==> #[trigger] hit(p) == message_matches(
                data.users@,
                if has_target {
                    Some(target@)
                } else {
                    None
                },
                text@,
                msg_at(data.messages@, p),
            ),
        old(keys)@.no_duplicates(),
        forall|x: SortKey| #[trigger]
            old(keys)@.contains(x) <==> exists|p: Pos|
                done.contains(p) && hit(p) && x == hit_key(data.messages@, p),
    ensures
        final(keys)@.no_duplicates(),
        forall|x: SortKey| #[trigger]
            final(keys)@.contains(x) <==> exists|p: Pos|
                #![trigger hit(p)]
                (done.contains(p) || (positions(data.messages@).contains(p) && p.0 == c)) && hit(p)
                    && x == hit_key(data.messages@, p),
{
    let ghost m = data.messages@;
    let n = msgs.len();
    let mut gi: usize = 0;
    while gi < n
        invariant
            n == msgs@.len(),
            gi <= n,
            forall|k: int| 0 <= k < msgs@.len() ==> data.users@.contains_key(#[trigger] msgs@[k].a),
            m == data.messages@,
            m.contains_key(c),
            m[c] == *msgs,
            forall|p: Pos| !(#[trigger] done.contains(p) && p.0 == c),
            forall|p: Pos|
                positions(m).contains(p) && p.0 == c ==> #[trigger] hit(p) == message_matches(
                    data.users@,
                    if has_target {
                        Some(target@)
                    } else {
                        None
                    },
                    text@,
                    msg_at(m, p),
                ),
            keys@.no_duplicates(),
            forall|x: SortKey| #[trigger]
                keys@.contains(x) <==> exists|p: Pos|
                    (done.contains(p) || (positions(m).contains(p) && p.0 == c && p.1 < gi)) && hit(p)
                        && x == hit_key(m, p),
        decreases n - gi,
    {
        let ghost p: Pos = (c, gi as int);
        assert(positions(m).contains(p));
        assert(data.users@.contains_key(msgs@[gi as int].a));
        let msg = &msgs[gi];
        let ghost before = keys@;
        if matches_exec(data, msg, has_target, target, text) {
            let k: SortKey = (-(msg.t as i128), c, gi as u64);
            assert(k == hit_key(m, p));
            proof {
                assert(!before.contains(k)) by {
                    if before.contains(k) {
                        let q = choose|q: Pos|
                            (done.contains(q) || (positions(m).contains(q) && q.0 == c && q.1 < gi))
                                && hit(q) && k == hit_key(m, q);
                        assert(q.0 == c);
                        assert(q.1 == gi as int);
                    }
                }
            }
            keys.push(k);
            proof {
                assert forall|x: SortKey| #[trigger] keys@.contains(x) <==> before.contains(x) || x == k by {
                    if keys@.contains(x) {
                        let i = choose|i: int| 0 <= i < keys@.len() && keys@[i] == x;
                        if i < before.len() {
                            assert(before[i] == x);
                        }
                    }
                    if before.contains(x) {
                        let i = choose|i: int| 0 <= i < before.len() && before[i] == x;
                        assert(keys@[i] == x);
                    }
                    if x == k {
                        assert(keys@[before.len() as int] == k);
                    }
                }
            }
        }
        proof {
            assert forall|x: SortKey| #[trigger]
                keys@.contains(x) <==> exists|q: Pos|
                    (done.contains(q) || (positions(m).contains(q) && q.0 == c && q.1 < gi + 1))
                        && hit(q) && x == hit_key(m, q) by {
                if exists|q: Pos|
                    (done.contains(q) || (positions(m).contains(q) && q.0 == c && q.1 < gi + 1))
                        && hit(q) && x == hit_key(m, q) {
                    let q = choose|q: Pos|
                        (done.contains(q) || (positions(m).contains(q) && q.0 == c && q.1 < gi + 1))
                            && hit(q) && x == hit_key(m, q);
                    if q != p {
                        assert(before.contains(x));
                    }
                }
            }
        }
        gi += 1;
    }
}

/// Searches the messages for an already lower-cased query `lowered`, and returns the
/// hits as `(channel id, index)`, latest first, then by channel id and index.
///
/// A `from:<word>` part keeps only the messages whose author's user name (lower-cased)
/// or id holds `<word>`; the rest of the query, trimmed, must occur in the lower-cased
/// message text. With `global` all channels are searched, otherwise only
/// `current_channel`.
pub fn search_lowered(data: &ArchiveData, lowered: &str, global: bool, current_channel: &str) -> (r: Vec<(u64, usize)>)
    requires
        searched_authors_known(data, global, current_channel@),
    ensures
        forall|k: int|
            0 <= k < r@.len() ==> is_hit_lowered(
                data,
                lowered@,
                global,
                current_channel@,
                ((#[trigger] r@[k]).0, r@[k].1 as int),
            ),
        forall|p: Pos| #[trigger]
            is_hit_lowered(data, lowered@, global, current_channel@, p) ==> exists|k: int|
                0 <= k < r@.len() && r@[k].0 == p.0 && r@[k].1 as int == p.1,
        forall|i: int, j: int|
            0 <= i < j < r@.len() ==> {
                let ti = msg_at(data.messages@, ((#[trigger] r@[i]).0, r@[i].1 as int)).t;
                let tj = msg_at(data.messages@, ((#[trigger] r@[j]).0, r@[j].1 as int)).t;
                ti > tj || (ti == tj && (r@[i].0 < r@[j].0 || (r@[i].0 == r@[j].0 && r@[i].1
                    < r@[j].1)))
            },
{
    let ghost m = data.messages@;
    let ghost ql = lowered@;
    let qv = to_chars(lowered);
    let from = vec!['f', 'r', 'o', 'm', ':'];
    assert(from@ =~= from_prefix());
    let mut has_target = false;
    let mut target: Vec<char> = Vec::new();
    let mut text: Vec<char> = Vec::new();
    match find_chars(qv.as_slice(), from.as_slice()) {
        Some(idx) => {
            let qlen = qv.len();
            proof {
                crate::text::lemma_find_seq(qv@, from@);
                assert(idx + from@.len() <= qv@.len());
                assert(idx + 5 <= qlen);
            }
            let start = idx + 5;
            let mut after: Vec<char> = Vec::new();
            let mut i = start;
            while i < qv.len()
                invariant
                    start <= i <= qv@.len(),
                    after@ == qv@.subrange(start as int, i as int),
                decreases qv@.len() - i,
            {
                after.push(qv[i]);
                assert(after@ =~= qv@.subrange(start as int, i + 1));
                i += 1;
            }
            assert(after@ =~= qv@.skip(start as int));
            let space = vec![' '];
            assert(space@ =~= seq![' ']);
            let e = match find_chars(after.as_slice(), space.as_slice()) {
                Some(j) => {
                    proof {
                        crate::text::lemma_find_seq(after@, space@);
                    }
                    j
                },
                None => after.len(),
            };
            let mut t: Vec<char> = Vec::new();
            let mut k: usize = 0;
            while k < e
                invariant
                    k <= e <= after@.len(),
                    t@ == after@.take(k as int),
                decreases e - k,
            {
                t.push(after[k]);
                assert(t@ =~= after@.take(k + 1));
                k += 1;
            }
            let mut remove = from.clone();
            let mut k2: usize = 0;
            while k2 < t.len()
                invariant
                    k2 <= t@.len(),
                    remove@ == from_prefix() + t@.take(k2 as int),
                decreases t@.len() - k2,
            {
                remove.push(t[k2]);
                assert(remove@ =~= from_prefix() + t@.take(k2 + 1));
                k2 += 1;
            }
            assert(t@.take(t@.len() as int) =~= t@);
            let stripped = remove_all_chars(qv.as_slice(), remove.as_slice());
            let (lo, hi) = trim_bounds(stripped.as_slice());
            let mut w: Vec<char> = Vec::new();
            let mut k3 = lo;
            while k3 < hi
                invariant
                    lo <= k3 <= hi <= stripped@.len(),
                    w@ == stripped@.subrange(lo as int, k3 as int),
                decreases hi - k3,
            {
                w.push(stripped[k3]);
                assert(w@ =~= stripped@.subrange(lo as int, k3 + 1));
                k3 += 1;
            }
            has_target = true;
            target = t;
            text = w;
            assert(author_filter(ql) == Some(target@));
            assert(text_filter(ql) == text@);
        },
        None => {
            text = qv;
            assert(author_filter(ql) is None);
        },
    }
    let ghost tgt: Option<Seq<char>> = if has_target {
        Some(target@)
    } else {
        None
    };
    assert(tgt == author_filter(ql));
    assert(text@ == text_filter(ql));
    let ghost hit = |p: Pos| is_hit_lowered(data, lowered@, global, current_channel@, p);
    let mut keys: Vec<SortKey> = Vec::new();
    let ghost mut done: Set<Pos> = Set::empty();
    let cur = match parse_u64(current_channel) {
        Some(v) => v,
        None => 0,
    };
    proof {
        assert(keys@ =~= Seq::<SortKey>::empty());
    }
    if global {
        let ghost v = spec_hash_map_iter(&data.messages).remaining();
        let ghost mut seen: Set<u64> = Set::empty();
        let iter = data.messages.iter();
        proof {
            lemma_iter_keys_distinct(v, m);
        }
        for (c_id, msgs) in it: iter
            invariant
                m == data.messages@,
                it.seq() == v,
                global,
                searched_authors_known(data, global, current_channel@),
                tgt == author_filter(ql),
                text@ == text_filter(ql),
                ql == lowered@,
                (if has_target { Some(target@) } else { None }) == tgt,
                hit == (|p: Pos| is_hit_lowered(data, lowered@, global, current_channel@, p)),
                forall|j: int|
                    0 <= j < it.seq().len() ==> m.contains_key(*it.seq()[j].0) && m[*it.seq()[j].0]
                        == *it.seq()[j].1,
                forall|j: int| 0 <= j < it.index() ==> seen.contains(*(#[trigger] it.seq()[j]).0),
                forall|j1: int, j2: int|
                    0 <= j1 < j2 < it.seq().len() ==> *(#[trigger] it.seq()[j1]).0 != *(
                    #[trigger] it.seq()[j2]).0,
                forall|j: int|
                    it.index() <= j < it.seq().len() ==> !seen.contains(*(#[trigger] it.seq()[j]).0),
                done == positions_in(m, seen),
                keys@.no_duplicates(),
                forall|x: SortKey| #[trigger]
                    keys@.contains(x) <==> exists|p: Pos|
                        done.contains(p) && hit(p) && x == hit_key(m, p),
        {
            let c = *c_id;
            let ghost j = it.index();
            assert(it.seq()[j] == (c_id, msgs));
            assert forall|k: int| 0 <= k < msgs@.len() implies data.users@.contains_key(#[trigger] msgs@[k].a) by {
                assert(positions(m).contains((c, k)));
            }
            scan_channel(data, c, msgs, has_target, &target, &text, &mut keys, Ghost(done), Ghost(hit));
            proof {
                let nd = positions_in(m, seen.insert(c));
                assert forall|x: SortKey| #[trigger]
                    keys@.contains(x) <==> exists|p: Pos|
                        nd.contains(p) && hit(p) && x == hit_key(m, p) by {
                    if exists|p: Pos| nd.contains(p) && hit(p) && x == hit_key(m, p) {
                        let p = choose|p: Pos| nd.contains(p) && hit(p) && x == hit_key(m, p);
                        assert(done.contains(p) || (positions(m).contains(p) && p.0 == c));
                    }
                    if keys@.contains(x) {
                        let p = choose|p: Pos|
                            (done.contains(p) || (positions(m).contains(p) && p.0 == c)) && hit(p)
                                && x == hit_key(m, p);
                        assert(nd.contains(p));
                    }
                }
                seen = seen.insert(c);
                done = nd;
            }
        }
        proof {
            assert forall|k: u64| m.contains_key(k) implies seen.contains(k) by {
                assert(v.contains((&k, &m[k])));
                let j = choose|j: int| 0 <= j < v.len() && v[j] == (&k, &m[k]);
                assert(seen.contains(*v[j].0));
            }
            assert(done =~= positions(m));
            assert forall|x: SortKey| #[trigger]
                keys@.contains(x) <==> exists|p: Pos| hit(p) && x == hit_key(m, p) by {
                if exists|p: Pos| hit(p) && x == hit_key(m, p) {
                    let p = choose|p: Pos| hit(p) && x == hit_key(m, p);
                    assert(positions(m).contains(p));
                    assert(done.contains(p));
                }
            }
        }
    } else if cur != 0 {
        match data.messages.get(&cur) {
            Some(msgs) => {
                assert forall|k: int| 0 <= k < msgs@.len() implies data.users@.contains_key(#[trigger] msgs@[k].a) by {
                    assert(positions(m).contains((cur, k)));
                }
                scan_channel(data, cur, msgs, has_target, &target, &text, &mut keys, Ghost(done), Ghost(hit));
                proof {
                    assert forall|x: SortKey| #[trigger]
                        keys@.contains(x) <==> exists|p: Pos| hit(p) && x == hit_key(m, p) by {
                        if exists|p: Pos| hit(p) && x == hit_key(m, p) {
                            let p = choose|p: Pos| hit(p) && x == hit_key(m, p);
                            assert(cur == parse_u64_or_zero(current_channel@));
                            assert(positions(m).contains(p));
                            assert(p.0 == cur);
                            assert((done.contains(p) || (positions(m).contains(p) && p.0 == cur)) && hit(p)
                                && x == hit_key(m, p));
                        }
                        if keys@.contains(x) {
                            let p = choose|p: Pos|
                                (done.contains(p) || (positions(m).contains(p) && p.0 == cur)) && hit(p)
                                    && x == hit_key(m, p);
                            assert(hit(p));
                        }
                    }
                }
            },
            None => {
                proof {
                    assert forall|x: SortKey| #[trigger]
                        keys@.contains(x) <==> exists|p: Pos| hit(p) && x == hit_key(m, p) by {
                        if exists|p: Pos| hit(p) && x == hit_key(m, p) {
                            let p = choose|p: Pos| hit(p) && x == hit_key(m, p);
                            assert(positions(m).contains(p));
                        }
                    }
                }
            },
        }
    } else {
        proof {
            assert forall|x: SortKey| #[trigger]
                keys@.contains(x) <==> exists|p: Pos| hit(p) && x == hit_key(m, p) by {
                if exists|p: Pos| hit(p) && x == hit_key(m, p) {
                    let p = choose|p: Pos| hit(p) && x == hit_key(m, p);
                    assert(positions(m).contains(p));
                }
            }
        }
    }
    let sorted = sort_keys(&keys);
    let mut out: Vec<(u64, usize)> = Vec::new();
    let n = sorted.len();
    for i in 0..n
        invariant
            n == sorted@.len(),
            out@.len() == i,
            m == data.messages@,
            hit == (|p: Pos| is_hit_lowered(data, lowered@, global, current_channel@, p)),
            forall|x: SortKey| sorted@.contains(x) <==> keys@.contains(x),
            forall|x: SortKey| #[trigger]
                keys@.contains(x) <==> exists|p: Pos| hit(p) && x == hit_key(m, p),
            forall|t: int|
                0 <= t < i ==> hit(((#[trigger] out@[t]).0, out@[t].1 as int)) && sorted@[t] == hit_key(
                    m,
                    (out@[t].0, out@[t].1 as int),
                ),
    {
        let k = sorted[i];
        assert(sorted@.contains(k));
        let ghost p = choose|p: Pos| hit(p) && k == hit_key(m, p);
        assert(positions(m).contains(p));
        assert(p.1 < m[p.0]@.len());
        assert(m[p.0].len() == m[p.0]@.len());
        out.push((k.1, k.2 as usize));
    }
    proof {
        assert forall|p: Pos| #[trigger]
            is_hit_lowered(data, lowered@, global, current_channel@, p) implies exists|k: int|
            0 <= k < out@.len() && out@[k].0 == p.0 && out@[k].1 as int == p.1 by {
            assert(hit(p));
            assert(keys@.contains(hit_key(m, p)));
            assert(sorted@.contains(hit_key(m, p)));
            let k = choose|k: int| 0 <= k < sorted@.len() && sorted@[k] == hit_key(m, p);
            assert(positions(m).contains(p));
            assert(m[p.0].len() == m[p.0]@.len());
            assert(sorted@[k] == hit_key(m, (out@[k].0, out@[k].1 as int)));
            assert(out@[k].0 == p.0);
            assert(out@[k].1 as int == p.1);
        }
        assert forall|i: int, j: int| 0 <= i < j < out@.len() implies {
            let ti = msg_at(data.messages@, ((#[trigger] out@[i]).0, out@[i].1 as int)).t;
            let tj = msg_at(data.messages@, ((#[trigger] out@[j]).0, out@[j].1 as int)).t;
            ti > tj || (ti == tj && (out@[i].0 < out@[j].0 || (out@[i].0 == out@[j].0
                && out@[i].1 < out@[j].1)))
        } by {
            assert(key_lt(sorted@[i], sorted@[j]));
        }
    }
    out
}

/// Searches the messages, as `search_lowered` does, for the lower-cased `query`.
pub fn execute_search(data: &ArchiveData, query: &str, global: bool, current_channel: &str) -> (r: Vec<(u64, usize)>)
    requires
        searched_authors_known(data, global, current_channel@),
    ensures
        forall|k: int|
            0 <= k < r@.len() ==> is_hit(
                data,
                query@,
                global,
                current_channel@,
                ((#[trigger] r@[k]).0, r@[k].1 as int),
            ),
        forall|p: Pos| #[trigger]
            is_hit(data, query@, global, current_channel@, p) ==> exists|k: int|
                0 <= k < r@.len() && r@[k].0 == p.0 && r@[k].1 as int == p.1,
        forall|i: int, j: int|
            0 <= i < j < r@.len() ==> {
                let ti = msg_at(data.messages@, ((#[trigger] r@[i]).0, r@[i].1 as int)).t;
                let tj = msg_at(data.messages@, ((#[trigger] r@[j]).0, r@[j].1 as int)).t;
                ti > tj || (ti == tj && (r@[i].0 < r@[j].0 || (r@[i].0 == r@[j].0 && r@[i].1
                    < r@[j].1)))
            },
{
    let lowered = to_lowercase(query);
    search_lowered(data, lowered.as_str(), global, current_channel)
}


/// The name of the first channel with id `c` from index `k` on, or "Unknown".
pub open spec fn channel_name_from(chs: Seq<ChannelMeta>, c: u64, k: int) -> Seq<char>
    decreases chs.len() - k,
{
    if k < 0 || k >= chs.len() {
        "Unknown"@
    } else if chs[k].id == c {
        chs[k].n@
    } else {
        channel_name_from(chs, c, k + 1)
    }
}

fn channel_name_str(chs: &Vec<ChannelMeta>, c: u64) -> (r: &str)
    ensures
        r@ == channel_name_from(chs@, c, 0),
{
    let mut k: usize = 0;
    while k < chs.len()
        invariant
            k <= chs@.len(),
            channel_name_from(chs@, c, 0) == channel_name_from(chs@, c, k as int),
        decreases chs@.len() - k,
    {
        if chs[k].id == c {
            return chs[k].n.as_str();
        }
        k += 1;
    }
    "Unknown"
}

/// The HTML of the search result at position `(c, gi)`.
pub open spec fn search_result_html(data: &ArchiveData, c: u64, gi: usize) -> Seq<char> {
    let msg = msg_at(data.messages@, (c, gi as int));
    let user = data.users@[msg.a];
    search_item(
        c,
        gi,
        avatar_of("search-result-avatar"@, user.p),
        color_of(user),
        user.u@,
        user.n@,
        msg.t,
        shown_content(msg.c@),
        channel_name_from(data.channels@, c, 0),
    )
}

/// Search results `lo..hi`.
pub open spec fn search_rows(data: &ArchiveData, rs: Seq<(u64, usize)>, lo: int, hi: int) -> Seq<char>
    decreases hi - lo,
{
    if hi <= lo {
        Seq::empty()
    } else {
        search_rows(data, rs, lo, hi - 1) + search_result_html(data, rs[hi - 1].0, rs[hi - 1].1)
    }
}

/// One past the last result shown for `end_idx`.
pub open spec fn results_end(len: int, end_idx: int) -> int {
    if end_idx + 1 < len {
        end_idx + 1
    } else {
        len
    }
}

/// The HTML of search results `start_idx..=end_idx` (cut at the end).
pub fn get_search_results_html(
    data: &ArchiveData,
    results: &Vec<(u64, usize)>,
    start_idx: usize,
    end_idx: usize,
) -> (r: String)
    requires
        results@.len() > 0 && start_idx < results@.len() ==> {
            let end = results_end(results@.len() as int, end_idx as int);
            &&& end_idx < usize::MAX
            &&& start_idx <= end
            &&& (end - start_idx) * 350 <= usize::MAX
            &&& forall|k: int|
                start_idx <= k < end ==> resolves(
                    data,
                    (#[trigger] results@[k]).0,
                    results@[k].1,
                )
        },
    ensures
        r@ == if results@.len() == 0 || start_idx >= results@.len() {
            Seq::empty()
        } else {
            search_rows(
                data,
                results@,
                start_idx as int,
                results_end(results@.len() as int, end_idx as int),
            )
        },
{
    let len = results.len();
    if len == 0 || start_idx >= len {
        return String::new();
    }
    let end = if end_idx + 1 < len {
        end_idx + 1
    } else {
        len
    };
    let mut html = String::new();
    let mut i = start_idx;
    while i < end
        invariant
            start_idx <= i <= end <= len == results@.len(),
            end as int == results_end(len as int, end_idx as int),
            forall|k: int|
                start_idx <= k < end ==> resolves(
                    data,
                    (#[trigger] results@[k]).0,
                    results@[k].1,
                ),
            html@ == search_rows(data, results@, start_idx as int, i as int),
        decreases end - i,
    {
        let (c, gi) = results[i];
        assert(resolves(data, c, gi));
        let msgs = match data.messages.get(&c) {
            Some(v) => v,
            None => {
                return html;
            },
        };
        let msg = &msgs[gi];
        let user = match data.users.get(&msg.a) {
            Some(u) => u,
            None => {
                return html;
            },
        };
        let chname = channel_name_str(&data.channels, c);
        let content = shown_content_string(msg.c.as_str());
        let avatar = avatar_string("search-result-avatar", &user.p);
        let color = match &user.c {
            Some(cc) => cc.as_str(),
            None => "#ffffff",
        };
        assert(color@ == color_of(*user));
        push_search_item(
            &mut html,
            c,
            gi,
            avatar.as_str(),
            color,
            user.u.as_str(),
            user.n.as_str(),
            msg.t,
            content.as_str(),
            chname,
        );
        assert(html@ =~= search_rows(data, results@, start_idx as int, i + 1));
        i += 1;
    }
    html
}

/// The message at `(c, gi)` exists and its author is known.
pub open spec fn resolves(data: &ArchiveData, c: u64, gi: usize) -> bool {
    let m = data.messages@;
    m.contains_key(c) && gi < m[c]@.len() && data.users@.contains_key(m[c]@[gi as int].a)
}

/// An export line: the time stamp, the display name and the text (or "[attachment]"
/// for blank text).
pub open spec fn export_text(stamp: Seq<char>, name: Seq<char>, content: Seq<char>) -> Seq<char> {
    stamp + " "@ + name + ": "@ + (if trim(content).len() == 0 {
        "[attachment]"@
    } else {
        content
    }) + "\n"@
}

/// Appends the export line of a message with time stamp `stamp`.
pub fn push_export_text(out: &mut String, stamp: &str, name: &str, content: &str)
    ensures
        final(out)@ == old(out)@ + export_text(stamp@, name@, content@),
{
    out.append(stamp);
    out.append(" ");
    out.append(name);
    out.append(": ");
    if is_blank(content) {
        out.append("[attachment]");
    } else {
        out.append(content);
    }
    out.append("\n");
    assert(final(out)@ =~= old(out)@ + export_text(stamp@, name@, content@));
}

/// The export line of a result: UTC time, display name and text (or "[attachment]"),
/// or nothing where the result does not resolve.
pub open spec fn export_line(data: &ArchiveData, c: u64, gi: usize) -> Seq<char> {
    if resolves(data, c, gi) {
        let msg = data.messages@[c]@[gi as int];
        let user = data.users@[msg.a];
        export_text(spec_utc_minute_stamp(msg.t as int), user.n@, msg.c@)
    } else {
        Seq::empty()
    }
}

/// The export lines of `rs`, in order.
pub open spec fn export_lines(data: &ArchiveData, rs: Seq<(u64, usize)>) -> Seq<char>
    decreases rs.len(),
{
    if rs.len() == 0 {
        Seq::empty()
    } else {
        export_lines(data, rs.drop_last()) + export_line(data, rs.last().0, rs.last().1)
    }
}

/// The search results as plain text, oldest first (the reverse of the result order).
pub fn export_search_results_text(data: &ArchiveData, results: &Vec<(u64, usize)>) -> (r: String)
    requires
        results@.len() > 0 ==> results@.len() * 128 <= usize::MAX,
        forall|k: int|
            0 <= k < results@.len() && resolves(data, (#[trigger] results@[k]).0, results@[k].1)
                ==> day_in_range(utc_day(data.messages@[results@[k].0]@[results@[k].1 as int].t as int)),
    ensures
        r@ == export_lines(data, results@.reverse()),
{
    let len = results.len();
    let mut out = String::new();
    let mut i = len;
    while i > 0
        invariant
            i <= len == results@.len(),
            forall|k: int|
                0 <= k < results@.len() && resolves(data, (#[trigger] results@[k]).0, results@[k].1)
                    ==> day_in_range(utc_day(data.messages@[results@[k].0]@[results@[k].1 as int].t as int)),
            out@ == export_lines(data, results@.reverse().take(len - i)),
        decreases i,
    {
        let (c, gi) = results[i - 1];
        let ghost rv = results@.reverse();
        assert(rv.take(len - i + 1).drop_last() =~= rv.take(len - i));
        assert(rv.take(len - i + 1).last() == results@[i - 1]);
        match data.messages.get(&c) {
            Some(msgs) => {
                if gi < msgs.len() {
                    let msg = &msgs[gi];
                    match data.users.get(&msg.a) {
                        Some(user) => {
                            assert(resolves(data, c, gi));
                            let stamp = utc_minute_stamp(msg.t);
                            push_export_text(&mut out, stamp.as_str(), user.n.as_str(), msg.c.as_str());
                        },
                        None => {},
                    }
                }
            },
            None => {},
        }
        assert(out@ =~= export_lines(data, rv.take(len - i + 1)));
        i -= 1;
    }
    assert(results@.reverse().take(len as int) =~= results@.reverse());
    out
}

} // verus!
