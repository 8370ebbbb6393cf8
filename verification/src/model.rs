//! The archive: users, channels and the messages of each channel.
use vstd::prelude::*;
use std::collections::HashMap;

verus! {

/// A channel as listed in the sidebar.
pub struct ChannelMeta {
    pub id: u64,
    /// Channel name.
    pub n: String,
    /// Category name.
    pub c: String,
}

/// A message author.
pub struct MinUser {
    /// Display name (nickname or user name).
    pub n: String,
    /// User name, used for searching.
    pub u: String,
    /// Name colour.
    pub c: Option<String>,
    /// Avatar URL.
    pub p: Option<String>,
}

/// A message.
pub struct MinMsg {
    /// Message id.
    pub i: u64,
    /// Author id.
    pub a: u64,
    /// Text content.
    pub c: String,
    /// Time, in milliseconds since the epoch.
    pub t: i64,
    /// Pinned.
    pub p: bool,
    /// Id of the message this one replies to.
    pub r: Option<u64>,
}

/// Everything the viewer shows: authors by id, the channel list, and the
/// messages of each channel by channel id.
pub struct ArchiveData {
    pub users: HashMap<u64, MinUser>,
    pub channels: Vec<ChannelMeta>,
    pub messages: HashMap<u64, Vec<MinMsg>>,
}

/// A message position: a channel id and an index into that channel's messages.
pub type Pos = (u64, int);

/// All message positions of a message map.
pub open spec fn positions(m: Map<u64, Vec<MinMsg>>) -> Set<Pos> {
    Set::new(|p: Pos| m.contains_key(p.0) && 0 <= p.1 < m[p.0]@.len())
}

/// The message at a position.
pub open spec fn msg_at(m: Map<u64, Vec<MinMsg>>, p: Pos) -> MinMsg {
    m[p.0]@[p.1]
}

/// The messages of channel `c`, or none for a channel the map does not hold.
pub open spec fn channel_msgs(m: Map<u64, Vec<MinMsg>>, c: u64) -> Seq<MinMsg> {
    if m.contains_key(c) {
        m[c]@
    } else {
        Seq::empty()
    }
}

/// Every message's author is a known user.
pub open spec fn authors_known(data: &ArchiveData) -> bool {
    forall|p: Pos| #[trigger]
        positions(data.messages@).contains(p) ==> data.users@.contains_key(
            msg_at(data.messages@, p).a,
        )
}

/// The positions of channel `c` whose index lies below `k`.
pub open spec fn channel_prefix(m: Map<u64, Vec<MinMsg>>, c: u64, k: int) -> Set<Pos> {
    Set::new(|p: Pos| p.0 == c && 0 <= p.1 < k)
}

pub proof fn lemma_channel_prefix_finite(m: Map<u64, Vec<MinMsg>>, c: u64, k: int)
    requires
        0 <= k,
    ensures
        channel_prefix(m, c, k).finite(),
        channel_prefix(m, c, k).len() == k,
    decreases k,
{
    if k == 0 {
        assert(channel_prefix(m, c, k) =~= Set::empty());
    } else {
        lemma_channel_prefix_finite(m, c, k - 1);
        assert(channel_prefix(m, c, k) =~= channel_prefix(m, c, k - 1).insert((c, k - 1)));
    }
}

/// The positions of the channels in `keys`.
pub open spec fn positions_in(m: Map<u64, Vec<MinMsg>>, keys: Set<u64>) -> Set<Pos> {
    Set::new(|p: Pos| keys.contains(p.0) && m.contains_key(p.0) && 0 <= p.1 < m[p.0]@.len())
}

pub proof fn lemma_positions_in_finite(m: Map<u64, Vec<MinMsg>>, keys: Set<u64>)
    requires
        keys.finite(),
    ensures
        positions_in(m, keys).finite(),
    decreases keys.len(),
{
    if keys.len() == 0 {
        assert(keys =~= Set::empty());
        assert(positions_in(m, keys) =~= Set::empty());
    } else {
        let k = keys.choose();
        lemma_positions_in_finite(m, keys.remove(k));
        if m.contains_key(k) {
            lemma_channel_prefix_finite(m, k, m[k]@.len() as int);
            assert(positions_in(m, keys) =~= positions_in(m, keys.remove(k)).union(
                channel_prefix(m, k, m[k]@.len() as int),
            ));
        } else {
            assert(positions_in(m, keys) =~= positions_in(m, keys.remove(k)));
        }
    }
}

/// A message map has finitely many positions.
pub proof fn lemma_positions_finite(m: Map<u64, Vec<MinMsg>>)
    requires
        m.dom().finite(),
    ensures
        positions(m).finite(),
{
    lemma_positions_in_finite(m, m.dom());
    assert(positions(m) =~= positions_in(m, m.dom()));
}

/// The number of messages in the archive.
pub open spec fn total_messages(m: Map<u64, Vec<MinMsg>>) -> nat {
    positions(m).len()
}

/// The keys that a map's iteration yields are pairwise different.
pub proof fn lemma_iter_keys_distinct<K, V>(v: Seq<(&K, &V)>, m: Map<K, V>)
    requires
        v.no_duplicates(),
        forall|j: int| 0 <= j < v.len() ==> m.contains_key(*v[j].0) && m[*v[j].0] == *v[j].1,
    ensures
        forall|j1: int, j2: int| 0 <= j1 < j2 < v.len() ==> *(#[trigger] v[j1]).0 != *(#[trigger] v[j2]).0,
{
    assert forall|j1: int, j2: int| 0 <= j1 < j2 < v.len() implies *(#[trigger] v[j1]).0 != *(#[trigger] v[j2]).0 by {
        if *v[j1].0 == *v[j2].0 {
            assert(v[j1] == v[j2]);
        }
    }
}

} // verus!
