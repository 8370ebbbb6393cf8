//! Building the archive from chat exports: authors, channels and time-ordered messages.
use vstd::prelude::*;
use std::collections::HashMap;
use crate::calendar::{rfc3339_to_millis, spec_rfc3339_millis};
use crate::model::{ArchiveData, ChannelMeta, MinMsg, MinUser};
use crate::sort::{SortKey, key_lt, sort_keys};
use crate::text::{parse_u64, parse_u64_or_zero, parse_u64_spec, to_chars};

verus! {

broadcast use {vstd::std_specs::hash::group_hash_axioms, vstd::std_specs::vec::group_vec_axioms};

/// The author of an exported message.
pub struct RawAuthor {
    pub id: String,
    pub name: String,
    pub nickname: Option<String>,
    pub color: Option<String>,
    pub avatar_url: Option<String>,
}

/// The message that an exported message replies to.
pub struct RawReference {
    pub message_id: Option<String>,
}

/// An exported message.
pub struct RawMessage {
    pub id: String,
    pub timestamp: String,
    pub content: String,
    pub is_pinned: bool,
    pub author: RawAuthor,
    pub reference: Option<RawReference>,
}

/// The channel of an export.
pub struct RawChannel {
    pub id: String,
    pub name: String,
    pub category: Option<String>,
}

/// One exported channel with its messages.
pub struct RawExport {
    pub channel: RawChannel,
    pub messages: Vec<RawMessage>,
}

pub open spec fn opt_view(o: Option<String>) -> Option<Seq<char>> {
    match o {
        Some(s) => Some(s@),
        None => None,
    }
}

fn clone_opt(o: &Option<String>) -> (r: Option<String>)
    ensures
        opt_view(r) == opt_view(*o),
{
    match o {
        Some(s) => Some(s.clone()),
        None => None,
    }
}

/// `u` is the author record made from `a`: display name is the nickname where there
/// is one, else the user name.
pub open spec fn user_matches(u: MinUser, a: RawAuthor) -> bool {
    &&& u.n@ == (match a.nickname {
        Some(s) => s@,
        None => a.name@,
    })
    &&& u.u@ == a.name@
    &&& opt_view(u.c) == opt_view(a.color)
    &&& opt_view(u.p) == opt_view(a.avatar_url)
}

/// The time of an exported message: its RFC 3339 timestamp in milliseconds, or 0.
pub open spec fn raw_time(m: RawMessage) -> i64 {
    match spec_rfc3339_millis(m.timestamp@) {
        Some(t) => t,
        None => 0,
    }
}

/// The id replied to: the reference's message id where it is a valid number.
pub open spec fn raw_reply(m: RawMessage) -> Option<u64> {
    match m.reference {
        Some(r) => match r.message_id {
            Some(s) => parse_u64_spec(s@),
            None => None,
        },
        None => None,
    }
}

/// `x` is the message made from `m` with time `t`: ids read as numbers (0 where they
/// are not).
pub open spec fn msg_matches_at(x: MinMsg, m: RawMessage, t: i64) -> bool {
    &&& x.i == parse_u64_or_zero(m.id@)
    &&& x.a == parse_u64_or_zero(m.author.id@)
    &&& x.c@ == m.content@
    &&& x.t == t
    &&& x.p == m.is_pinned
    &&& x.r == raw_reply(m)
}

/// `x` is the message made from `m`, with the time read from its timestamp.
pub open spec fn msg_matches(x: MinMsg, m: RawMessage) -> bool {
    msg_matches_at(x, m, raw_time(m))
}

/// `x` is the channel entry made from `ch`; a channel without category is
/// "Uncategorized".
pub open spec fn channel_matches(x: ChannelMeta, ch: RawChannel) -> bool {
    &&& x.id == parse_u64_or_zero(ch.id@)
    &&& x.n@ == ch.name@
    &&& x.c@ == (match ch.category {
        Some(s) => s@,
        None => "Uncategorized"@,
    })
}

fn parse_or_zero(s: &String) -> (r: u64)
    ensures
        r == parse_u64_or_zero(s@),
{
    match parse_u64(s.as_str()) {
        Some(v) => v,
        None => 0,
    }
}

fn make_user(a: &RawAuthor) -> (u: MinUser)
    ensures
        user_matches(u, *a),
{
    let n = match &a.nickname {
        Some(s) => s.clone(),
        None => a.name.clone(),
    };
    MinUser { n, u: a.name.clone(), c: clone_opt(&a.color), p: clone_opt(&a.avatar_url) }
}

/// The archive message made from `m`, whose timestamp reads as `t` milliseconds.
pub fn make_msg(m: &RawMessage, t: i64) -> (x: MinMsg)
    ensures
        msg_matches_at(x, *m, t),
{
    let r = match &m.reference {
        Some(rf) => match &rf.message_id {
            Some(s) => parse_u64(s.as_str()),
            None => None,
        },
        None => None,
    };
    MinMsg {
        i: parse_or_zero(&m.id),
        a: parse_or_zero(&m.author.id),
        c: m.content.clone(),
        t,
        p: m.is_pinned,
        r,
    }
}

fn raw_time_exec(m: &RawMessage) -> (t: i64)
    ensures
        t == raw_time(*m),
{
    match rfc3339_to_millis(m.timestamp.as_str()) {
        Some(t) => t,
        None => 0,
    }
}

/// `ord` lists each of `0..n` once.
pub open spec fn is_index_perm(ord: Seq<int>, n: int) -> bool {
    &&& ord.len() == n
    &&& forall|k: int| 0 <= k < n ==> 0 <= #[trigger] ord[k] < n
    &&& ord.no_duplicates()
}

/// `r` is the conversion of `src` ordered by time, messages of equal time in their
/// order in `src` (a stable sort by time).
pub open spec fn sorted_by_time(r: Seq<MinMsg>, src: Seq<RawMessage>) -> bool {
    exists|ord: Seq<int>|
        {
            &&& is_index_perm(ord, src.len() as int)
            &&& r.len() == src.len()
            &&& forall|k: int| 0 <= k < r.len() ==> msg_matches(#[trigger] r[k], src[ord[k]])
            &&& forall|k: int, l: int|
                0 <= k < l < r.len() ==> raw_time(src[#[trigger] ord[k]]) < raw_time(
                    src[#[trigger] ord[l]],
                ) || (raw_time(src[ord[k]]) == raw_time(src[ord[l]]) && ord[k] < ord[l])
        }
}

/// The messages of one export, converted and stably sorted by time.
pub fn convert_channel_messages(src: &Vec<RawMessage>) -> (r: Vec<MinMsg>)
    ensures
        sorted_by_time(r@, src@),
{
    let n = src.len();
    let mut times: Vec<i64> = Vec::new();
    let mut keys: Vec<SortKey> = Vec::new();
    let mut i: usize = 0;
    while i < n
        invariant
            i <= n == src@.len(),
            times@.len() == i,
            keys@.len() == i,
            forall|k: int| 0 <= k < i ==> #[trigger] times@[k] == raw_time(src@[k]),
            forall|k: int| 0 <= k < i ==> #[trigger] keys@[k] == (times@[k] as i128, k as u64, 0u64),
        decreases n - i,
    {
        let t = raw_time_exec(&src[i]);
        times.push(t);
        keys.push((t as i128, i as u64, 0u64));
        i += 1;
    }
    proof {
        assert forall|a: int, b: int| 0 <= a < b < keys@.len() implies keys@[a] != keys@[b] by {
            assert(keys@[a].1 != keys@[b].1);
        }
    }
    let sorted = sort_keys(&keys);
    let mut out: Vec<MinMsg> = Vec::new();
    let ghost mut ord: Seq<int> = Seq::empty();
    let mut k: usize = 0;
    while k < n
        invariant
            n == src@.len() == sorted@.len() == keys@.len() == times@.len(),
            k <= n,
            forall|x: SortKey| sorted@.contains(x) <==> keys@.contains(x),
            forall|j: int| 0 <= j < n ==> #[trigger] times@[j] == raw_time(src@[j]),
            forall|j: int| 0 <= j < n ==> #[trigger] keys@[j] == (times@[j] as i128, j as u64, 0u64),
            out@.len() == k,
            ord.len() == k,
            forall|j: int| 0 <= j < k ==> 0 <= #[trigger] ord[j] < n && sorted@[j] == keys@[ord[j]],
            forall|j: int| 0 <= j < k ==> msg_matches(#[trigger] out@[j], src@[ord[j]]),
        decreases n - k,
    {
        let key = sorted[k];
        assert(sorted@.contains(key));
        let ghost j = choose|j: int| 0 <= j < keys@.len() && keys@[j] == key;
        assert(keys@[j] == key);
        let idx = key.1 as usize;
        assert(idx as int == j);
        let x = make_msg(&src[idx], times[idx]);
        out.push(x);
        proof {
            ord = ord.push(j);
        }
        k += 1;
    }
    proof {
        assert forall|a: int, b: int| 0 <= a < b < n implies ord[a] != ord[b] by {
            assert(sorted@[a] != sorted@[b]);
        }
        assert forall|a: int, b: int|
            0 <= a < b < out@.len() implies raw_time(src@[#[trigger] ord[a]]) < raw_time(
            src@[#[trigger] ord[b]],
        ) || (raw_time(src@[ord[a]]) == raw_time(src@[ord[b]]) && ord[a] < ord[b]) by {
            assert(key_lt(sorted@[a], sorted@[b]));
        }
        assert(is_index_perm(ord, n as int));
    }
    out
}

// ---------------------------------------------------------------------------
// Ordering channels by category, then name
// ---------------------------------------------------------------------------

/// Lexicographic order of texts by code point (the order of `str` comparison).
pub open spec fn lex_lt(a: Seq<char>, b: Seq<char>) -> bool
    decreases a.len(),
{
    if a.len() == 0 {
        b.len() > 0
    } else if b.len() == 0 {
        false
    } else if a[0] != b[0] {
        a[0] < b[0]
    } else {
        lex_lt(a.drop_first(), b.drop_first())
    }
}

pub proof fn lemma_lex_total(a: Seq<char>, b: Seq<char>)
    ensures
        a == b || lex_lt(a, b) || lex_lt(b, a),
        !(lex_lt(a, b) && lex_lt(b, a)),
        !lex_lt(a, a),
    decreases a.len(),
{
    if a.len() > 0 && b.len() > 0 && a[0] == b[0] {
        lemma_lex_total(a.drop_first(), b.drop_first());
        if a.drop_first() == b.drop_first() {
            assert(a =~= seq![a[0]] + a.drop_first());
            assert(b =~= seq![b[0]] + b.drop_first());
        }
    }
    if a.len() > 0 {
        lemma_lex_total(a.drop_first(), a.drop_first());
    }
    if a.len() == 0 && b.len() == 0 {
        assert(a =~= b);
    }
}

pub proof fn lemma_lex_trans(a: Seq<char>, b: Seq<char>, c: Seq<char>)
    requires
        lex_lt(a, b),
        lex_lt(b, c),
    ensures
        lex_lt(a, c),
    decreases a.len(),
{
    if a.len() > 0 && b.len() > 0 && c.len() > 0 && a[0] == b[0] && b[0] == c[0] {
        lemma_lex_trans(a.drop_first(), b.drop_first(), c.drop_first());
    }
}

fn lex_lt_exec(a: &[char], b: &[char]) -> (r: bool)
    ensures
        r == lex_lt(a@, b@),
{
    let mut i: usize = 0;
    assert(a@.skip(0) =~= a@);
    assert(b@.skip(0) =~= b@);
    while i < a.len() && i < b.len() && a[i] == b[i]
        invariant
            i <= a@.len(),
            i <= b@.len(),
            lex_lt(a@, b@) == lex_lt(a@.skip(i as int), b@.skip(i as int)),
        decreases a@.len() - i,
    {
        assert(a@.skip(i as int).drop_first() =~= a@.skip(i + 1));
        assert(b@.skip(i as int).drop_first() =~= b@.skip(i + 1));
        i += 1;
    }
    if i == a.len() {
        i < b.len()
    } else if i == b.len() {
        false
    } else {
        assert(a@.skip(i as int)[0] == a@[i as int]);
        assert(b@.skip(i as int)[0] == b@[i as int]);
        a[i] < b[i]
    }
}

/// The order of channel entries: by category, then name, then position in the input.
pub open spec fn chan_lt(c1: Seq<char>, n1: Seq<char>, i1: int, c2: Seq<char>, n2: Seq<char>, i2: int) -> bool {
    lex_lt(c1, c2) || (c1 == c2 && (lex_lt(n1, n2) || (n1 == n2 && i1 < i2)))
}

/// `r` holds the entries of `src` ordered by category, then name, entries with equal
/// category and name in their order in `src` (a stable sort).
pub open spec fn sorted_channels(r: Seq<ChannelMeta>, src: Seq<ChannelMeta>) -> bool {
    exists|ord: Seq<int>|
        {
            &&& is_index_perm(ord, src.len() as int)
            &&& r.len() == src.len()
            &&& forall|k: int|
                0 <= k < r.len() ==> (#[trigger] r[k]).id == src[ord[k]].id && r[k].n@
                    == src[ord[k]].n@ && r[k].c@ == src[ord[k]].c@
            &&& forall|k: int, l: int|
                0 <= k < l < r.len() ==> chan_lt(
                    src[#[trigger] ord[k]].c@,
                    src[ord[k]].n@,
                    ord[k],
                    src[#[trigger] ord[l]].c@,
                    src[ord[l]].n@,
                    ord[l],
                )
        }
}

/// Sorts channel entries by category, then name, keeping input order among equals.
pub fn sort_channels(src: &Vec<ChannelMeta>) -> (r: Vec<ChannelMeta>)
    ensures
        sorted_channels(r@, src@),
{
    let n = src.len();
    let mut cats: Vec<Vec<char>> = Vec::new();
    let mut names: Vec<Vec<char>> = Vec::new();
    let mut i: usize = 0;
    while i < n
        invariant
            i <= n == src@.len(),
            cats@.len() == i,
            names@.len() == i,
            forall|k: int| 0 <= k < i ==> (#[trigger] cats@[k])@ == src@[k].c@,
            forall|k: int| 0 <= k < i ==> (#[trigger] names@[k])@ == src@[k].n@,
        decreases n - i,
    {
        cats.push(to_chars(src[i].c.as_str()));
        names.push(to_chars(src[i].n.as_str()));
        i += 1;
    }
    // insertion sort of the indices
    let mut ord: Vec<usize> = Vec::new();
    let mut k: usize = 0;
    while k < n
        invariant
            k <= n == src@.len() == cats@.len() == names@.len(),
            forall|j: int| 0 <= j < n ==> (#[trigger] cats@[j])@ == src@[j].c@,
            forall|j: int| 0 <= j < n ==> (#[trigger] names@[j])@ == src@[j].n@,
            ord@.len() == k,
            forall|j: int| 0 <= j < k ==> #[trigger] ord@[j] < k,
            ord@.no_duplicates(),
            forall|a: int, b: int|
                0 <= a < b < k ==> chan_lt(
                    src@[#[trigger] ord@[a] as int].c@,
                    src@[ord@[a] as int].n@,
                    ord@[a] as int,
                    src@[#[trigger] ord@[b] as int].c@,
                    src@[ord@[b] as int].n@,
                    ord@[b] as int,
                ),
        decreases n - k,
    {
        let mut pos: usize = 0;
        loop
            invariant
                pos <= ord@.len() == k,
                k < n == src@.len() == cats@.len() == names@.len(),
                forall|j: int| 0 <= j < n ==> (#[trigger] cats@[j])@ == src@[j].c@,
                forall|j: int| 0 <= j < n ==> (#[trigger] names@[j])@ == src@[j].n@,
                forall|j: int| 0 <= j < k ==> #[trigger] ord@[j] < k,
                forall|j: int|
                    0 <= j < pos ==> chan_lt(
                        src@[#[trigger] ord@[j] as int].c@,
                        src@[ord@[j] as int].n@,
                        ord@[j] as int,
                        src@[k as int].c@,
                        src@[k as int].n@,
                        k as int,
                    ),
            ensures
                pos <= ord@.len(),
                forall|j: int|
                    0 <= j < pos ==> chan_lt(
                        src@[#[trigger] ord@[j] as int].c@,
                        src@[ord@[j] as int].n@,
                        ord@[j] as int,
                        src@[k as int].c@,
                        src@[k as int].n@,
                        k as int,
                    ),
                pos < ord@.len() ==> !chan_lt(
                    src@[ord@[pos as int] as int].c@,
                    src@[ord@[pos as int] as int].n@,
                    ord@[pos as int] as int,
                    src@[k as int].c@,
                    src@[k as int].n@,
                    k as int,
                ),
            decreases k - pos,
        {
            if pos == ord.len() {
                break;
            }
            if !chan_before(&cats, &names, ord[pos], k) {
                break;
            }
            pos += 1;
        }
        proof {
            if pos < k {
                let o = ord@[pos as int] as int;
                lemma_lex_total(src@[o].c@, src@[k as int].c@);
                lemma_lex_total(src@[o].n@, src@[k as int].n@);
                assert(chan_lt(src@[k as int].c@, src@[k as int].n@, k as int, src@[o].c@, src@[o].n@, o));
            }
        }
        let ghost before = ord@;
        ord.insert(pos, k);
        proof {
            assert(ord@ =~= before.take(pos as int).push(k) + before.skip(pos as int));
            assert forall|a: int, b: int|
                0 <= a < b < k + 1 implies chan_lt(
                src@[#[trigger] ord@[a] as int].c@,
                src@[ord@[a] as int].n@,
                ord@[a] as int,
                src@[#[trigger] ord@[b] as int].c@,
                src@[ord@[b] as int].n@,
                ord@[b] as int,
            ) by {
                let p = pos as int;
                if a < p && b < p {
                    assert(ord@[a] == before[a] && ord@[b] == before[b]);
                } else if a < p && b == p {
                    assert(ord@[a] == before[a]);
                } else if a < p && b > p {
                    assert(ord@[a] == before[a] && ord@[b] == before[b - 1]);
                } else if a == p {
                    assert(ord@[b] == before[b - 1]);
                    if b - 1 > p {
                        lemma_chan_trans(src@, k as int, before[p] as int, before[b - 1] as int);
                    }
                } else {
                    assert(ord@[a] == before[a - 1] && ord@[b] == before[b - 1]);
                }
            }
            assert forall|a: int, b: int| 0 <= a < b < ord@.len() implies ord@[a] != ord@[b] by {
                if a != pos && b != pos {
                    let a0 = if a < pos { a } else { a - 1 };
                    let b0 = if b < pos { b } else { b - 1 };
                    assert(before[a0] != before[b0]);
                }
            }
        }
        k += 1;
    }
    // build the result
    let mut out: Vec<ChannelMeta> = Vec::new();
    let mut t: usize = 0;
    while t < n
        invariant
            t <= n == src@.len() == ord@.len(),
            forall|j: int| 0 <= j < n ==> #[trigger] ord@[j] < n,
            out@.len() == t,
            forall|j: int|
                0 <= j < t ==> (#[trigger] out@[j]).id == src@[ord@[j] as int].id && out@[j].n@
                    == src@[ord@[j] as int].n@ && out@[j].c@ == src@[ord@[j] as int].c@,
        decreases n - t,
    {
        let o = ord[t];
        let e = &src[o];
        out.push(ChannelMeta { id: e.id, n: e.n.clone(), c: e.c.clone() });
        t += 1;
    }
    proof {
        let ordi = ord@.map_values(|x: usize| x as int);
        assert(is_index_perm(ordi, n as int)) by {
            assert forall|a: int, b: int| 0 <= a < b < n implies ordi[a] != ordi[b] by {
                assert(ord@[a] != ord@[b]);
            }
        }
        assert forall|a: int, b: int|
            0 <= a < b < out@.len() implies chan_lt(
            src@[#[trigger] ordi[a]].c@,
            src@[ordi[a]].n@,
            ordi[a],
            src@[#[trigger] ordi[b]].c@,
            src@[ordi[b]].n@,
            ordi[b],
        ) by {
            assert(ordi[a] == ord@[a] as int);
            assert(ordi[b] == ord@[b] as int);
        }
        assert forall|k: int| 0 <= k < out@.len() implies (#[trigger] out@[k]).id == src@[ordi[k]].id
            && out@[k].n@ == src@[ordi[k]].n@ && out@[k].c@ == src@[ordi[k]].c@ by {
            assert(ordi[k] == ord@[k] as int);
        }
    }
    out
}

fn chan_before(cats: &Vec<Vec<char>>, names: &Vec<Vec<char>>, o: usize, k: usize) -> (r: bool)
    requires
        o < k < cats@.len(),
        k < names@.len(),
    ensures
        r == chan_lt(cats@[o as int]@, names@[o as int]@, o as int, cats@[k as int]@, names@[k as int]@, k as int),
{
    proof {
        lemma_lex_total(cats@[o as int]@, cats@[k as int]@);
        lemma_lex_total(names@[o as int]@, names@[k as int]@);
    }
    lex_lt_exec(cats[o].as_slice(), cats[k].as_slice()) || (!lex_lt_exec(
        cats[k].as_slice(),
        cats[o].as_slice(),
    ) && (lex_lt_exec(names[o].as_slice(), names[k].as_slice()) || !lex_lt_exec(
        names[k].as_slice(),
        names[o].as_slice(),
    )))
}

proof fn lemma_chan_trans(src: Seq<ChannelMeta>, a: int, b: int, c: int)
    requires
        0 <= a < src.len(),
        0 <= b < src.len(),
        0 <= c < src.len(),
        chan_lt(src[a].c@, src[a].n@, a, src[b].c@, src[b].n@, b),
        chan_lt(src[b].c@, src[b].n@, b, src[c].c@, src[c].n@, c),
    ensures
        chan_lt(src[a].c@, src[a].n@, a, src[c].c@, src[c].n@, c),
{
    if lex_lt(src[a].c@, src[b].c@) && lex_lt(src[b].c@, src[c].c@) {
        lemma_lex_trans(src[a].c@, src[b].c@, src[c].c@);
    }
    if src[a].c@ == src[b].c@ && src[b].c@ == src[c].c@ {
        if lex_lt(src[a].n@, src[b].n@) && lex_lt(src[b].n@, src[c].n@) {
            lemma_lex_trans(src[a].n@, src[b].n@, src[c].n@);
        }
    }
}


/// All messages of the exports, in export order.
pub open spec fn all_messages(ex: Seq<RawExport>) -> Seq<RawMessage>
    decreases ex.len(),
{
    if ex.len() == 0 {
        Seq::empty()
    } else {
        all_messages(ex.drop_last()) + ex.last().messages@
    }
}

pub open spec fn author_id(m: RawMessage) -> u64 {
    parse_u64_or_zero(m.author.id@)
}

pub open spec fn export_channel_id(x: RawExport) -> u64 {
    parse_u64_or_zero(x.channel.id@)
}

/// The author records over messages `s`: one per author id, made from that id's
/// first message.
pub open spec fn users_from(users: Map<u64, MinUser>, s: Seq<RawMessage>) -> bool {
    &&& forall|uid: u64| #[trigger]
        users.contains_key(uid) <==> exists|k: int| 0 <= k < s.len() && author_id(s[k]) == uid
    &&& forall|uid: u64| #[trigger]
        users.contains_key(uid) ==> exists|k: int|
            0 <= k < s.len() && author_id(s[k]) == uid && (forall|j: int|
                0 <= j < k ==> author_id(#[trigger] s[j]) != uid) && user_matches(users[uid], s[k].author)
}

/// The message lists over exports `ex`: per channel id, the messages of the last export
/// of that channel, sorted by time.
pub open spec fn messages_from(msgs: Map<u64, Vec<MinMsg>>, ex: Seq<RawExport>) -> bool {
    &&& forall|c: u64| #[trigger]
        msgs.contains_key(c) <==> exists|i: int| 0 <= i < ex.len() && export_channel_id(ex[i]) == c
    &&& forall|c: u64| #[trigger]
        msgs.contains_key(c) ==> exists|i: int|
            0 <= i < ex.len() && export_channel_id(ex[i]) == c && (forall|j: int|
                i < j < ex.len() ==> export_channel_id(#[trigger] ex[j]) != c) && sorted_by_time(
                msgs[c]@,
                ex[i].messages@,
            )
}

/// Builds the archive from chat exports: authors by their first message, each
/// channel's messages (from its last export) sorted by time, and the channel list
/// sorted by category and name.
pub fn build_archive(exports: &Vec<RawExport>) -> (r: ArchiveData)
    ensures
        users_from(r.users@, all_messages(exports@)),
        messages_from(r.messages@, exports@),
        exists|metas: Seq<ChannelMeta>|
            {
                &&& metas.len() == exports@.len()
                &&& forall|i: int|
                    0 <= i < metas.len() ==> channel_matches(#[trigger] metas[i], exports@[i].channel)
                &&& sorted_channels(r.channels@, metas)
            },
{
    broadcast use vstd::string::group_string_axioms;

    let mut users: HashMap<u64, MinUser> = HashMap::new();
    let mut messages: HashMap<u64, Vec<MinMsg>> = HashMap::new();
    let mut metas: Vec<ChannelMeta> = Vec::new();
    let ghost mut seen: Seq<RawMessage> = Seq::empty();
    let ne = exports.len();
    let mut e: usize = 0;
    proof {
        assert(exports@.take(0) =~= Seq::<RawExport>::empty());
        assert(users_from(users@, seen));
        assert(messages_from(messages@, exports@.take(0)));
    }
    while e < ne
        invariant
            e <= ne == exports@.len(),
            seen == all_messages(exports@.take(e as int)),
            users_from(users@, seen),
            messages_from(messages@, exports@.take(e as int)),
            metas@.len() == e,
            forall|i: int| 0 <= i < e ==> channel_matches(#[trigger] metas@[i], exports@[i].channel),
        decreases ne - e,
    {
        let x = &exports[e];
        let nm = x.messages.len();
        let mut j: usize = 0;
        let ghost base = seen;
        while j < nm
            invariant
                j <= nm == x.messages@.len(),
                seen == base + x.messages@.take(j as int),
                users_from(users@, seen),
            decreases nm - j,
        {
            let m = &x.messages[j];
            let aid = parse_or_zero(&m.author.id);
            let ghost before = seen;
            if !users.contains_key(&aid) {
                let u = make_user(&m.author);
                users.insert(aid, u);
                proof {
                    let s2 = before.push(*m);
                    assert forall|uid: u64| #[trigger]
                        users@.contains_key(uid) implies exists|k: int|
                            0 <= k < s2.len() && author_id(s2[k]) == uid && (forall|jj: int|
                                0 <= jj < k ==> author_id(#[trigger] s2[jj]) != uid) && user_matches(
                                users@[uid],
                                s2[k].author,
                            ) by {
                        if uid == aid {
                            assert(author_id(s2[before.len() as int]) == uid);
                            assert forall|jj: int| 0 <= jj < before.len() implies author_id(
                                #[trigger] s2[jj],
                            ) != uid by {
                                assert(s2[jj] == before[jj]);
                            }
                        } else if users@.contains_key(uid) {
                            let k = choose|k: int|
                                0 <= k < before.len() && author_id(before[k]) == uid && (forall|jj: int|
                                    0 <= jj < k ==> author_id(#[trigger] before[jj]) != uid)
                                    && user_matches(users@[uid], before[k].author);
                            assert(s2[k] == before[k]);
                            assert forall|jj: int| 0 <= jj < k implies author_id(#[trigger] s2[jj])
                                != uid by {
                                assert(s2[jj] == before[jj]);
                            }
                        }
                    }
                    assert forall|uid: u64| #[trigger]
                        users@.contains_key(uid) <==> exists|k: int|
                            0 <= k < s2.len() && author_id(s2[k]) == uid by {
                        if exists|k: int| 0 <= k < s2.len() && author_id(s2[k]) == uid {
                            let k = choose|k: int| 0 <= k < s2.len() && author_id(s2[k]) == uid;
                            if k < before.len() {
                                assert(s2[k] == before[k]);
                            }
                        }
                        if users@.contains_key(uid) && uid != aid {
                            let k = choose|k: int| 0 <= k < before.len() && author_id(before[k]) == uid;
                            assert(s2[k] == before[k]);
                        }
                        if uid == aid {
                            assert(author_id(s2[before.len() as int]) == uid);
                        }
                    }
                }
            } else {
                proof {
                    let s2 = before.push(*m);
                    assert forall|uid: u64| #[trigger]
                        users@.contains_key(uid) implies exists|k: int|
                            0 <= k < s2.len() && author_id(s2[k]) == uid && (forall|jj: int|
                                0 <= jj < k ==> author_id(#[trigger] s2[jj]) != uid) && user_matches(
                                users@[uid],
                                s2[k].author,
                            ) by {
                        if users@.contains_key(uid) {
                            let k = choose|k: int|
                                0 <= k < before.len() && author_id(before[k]) == uid && (forall|jj: int|
                                    0 <= jj < k ==> author_id(#[trigger] before[jj]) != uid)
                                    && user_matches(users@[uid], before[k].author);
                            assert(s2[k] == before[k]);
                            assert forall|jj: int| 0 <= jj < k implies author_id(#[trigger] s2[jj])
                                != uid by {
                                assert(s2[jj] == before[jj]);
                            }
                        }
                    }
                    assert forall|uid: u64| #[trigger]
                        users@.contains_key(uid) <==> exists|k: int|
                            0 <= k < s2.len() && author_id(s2[k]) == uid by {
                        if exists|k: int| 0 <= k < s2.len() && author_id(s2[k]) == uid {
                            let k = choose|k: int| 0 <= k < s2.len() && author_id(s2[k]) == uid;
                            if k < before.len() {
                                assert(s2[k] == before[k]);
                            } else {
                                assert(author_id(s2[k]) == aid);
                            }
                        }
                        if users@.contains_key(uid) {
                            let k = choose|k: int| 0 <= k < before.len() && author_id(before[k]) == uid;
                            assert(s2[k] == before[k]);
                        }
                    }
                }
            }
            proof {
                assert(base + x.messages@.take(j + 1) =~= before.push(*m));
                seen = before.push(*m);
            }
            j += 1;
        }
        let cid = parse_or_zero(&x.channel.id);
        let msgs = convert_channel_messages(&x.messages);
        let cat = match &x.channel.category {
            Some(c) => c.clone(),
            None => "Uncategorized".to_string(),
        };
        metas.push(ChannelMeta { id: cid, n: x.channel.name.clone(), c: cat });
        let ghost old_msgs = messages@;
        messages.insert(cid, msgs);
        proof {
            let ex1 = exports@.take(e + 1);
            let ex0 = exports@.take(e as int);
            assert(ex1.drop_last() =~= ex0);
            assert(x.messages@.take(nm as int) =~= x.messages@);
            assert(seen == all_messages(ex1));
            assert forall|c: u64| #[trigger]
                messages@.contains_key(c) <==> exists|i: int| 0 <= i < ex1.len() && export_channel_id(ex1[i]) == c by {
                if exists|i: int| 0 <= i < ex1.len() && export_channel_id(ex1[i]) == c {
                    let i = choose|i: int| 0 <= i < ex1.len() && export_channel_id(ex1[i]) == c;
                    if i < e {
                        assert(ex0[i] == ex1[i]);
                    }
                }
                if old_msgs.contains_key(c) {
                    let i = choose|i: int| 0 <= i < ex0.len() && export_channel_id(ex0[i]) == c;
                    assert(ex0[i] == ex1[i]);
                }
                if c == cid {
                    assert(export_channel_id(ex1[e as int]) == c);
                }
            }
            assert forall|c: u64| #[trigger]
                messages@.contains_key(c) implies exists|i: int|
                    0 <= i < ex1.len() && export_channel_id(ex1[i]) == c && (forall|jj: int|
                        i < jj < ex1.len() ==> export_channel_id(#[trigger] ex1[jj]) != c) && sorted_by_time(
                        messages@[c]@,
                        ex1[i].messages@,
                    ) by {
                if c == cid {
                    assert(export_channel_id(ex1[e as int]) == c);
                    assert(ex1[e as int] == *x);
                } else {
                    let i = choose|i: int|
                        0 <= i < ex0.len() && export_channel_id(ex0[i]) == c && (forall|jj: int|
                            i < jj < ex0.len() ==> export_channel_id(#[trigger] ex0[jj]) != c) && sorted_by_time(
                            old_msgs[c]@,
                            ex0[i].messages@,
                        );
                    assert(ex0[i] == ex1[i]);
                    assert forall|jj: int| i < jj < ex1.len() implies export_channel_id(#[trigger] ex1[jj]) != c by {
                        if jj < e {
                            assert(ex0[jj] == ex1[jj]);
                        }
                    }
                }
            }
            assert(channel_matches(metas@[e as int], exports@[e as int].channel));
        }
        e += 1;
    }
    let channels = sort_channels(&metas);
    assert(exports@.take(ne as int) =~= exports@);
    let r = ArchiveData { users, channels, messages };
    assert(metas@.len() == exports@.len() && (forall|i: int|
        0 <= i < metas@.len() ==> channel_matches(#[trigger] metas@[i], exports@[i].channel))
        && sorted_channels(r.channels@, metas@));
    r
}

} // verus!
