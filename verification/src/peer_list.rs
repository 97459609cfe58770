//! The peer directory: the membership table with its consistency rules.
//!
//! Records are keyed by the composite identity (display name, endpoint); no
//! two records ever share a key. A tombstone set remembers recently evicted
//! endpoints for a grace window, so that hearsay cannot resurrect a peer that
//! was just declared dead. All times are ticks of one monotonic clock, handed
//! in by the caller.

use vstd::prelude::*;
use vstd::string::StrSliceExecFns;
use vstd::string::StringExecFns;
use crate::endpoint::Endpoint;
use crate::endpoint::endpoint_chars;
use crate::endpoint::endpoint_to_string;
use crate::text::str_contains_char;
use crate::text::str_eq;
use crate::text::str_starts_with;

verus! {

/// One known peer: its endpoint, its display name, and the time of the most
/// recent datagram received directly from that exact endpoint.
#[derive(Clone, Debug)]
pub struct PeerInfo {
    pub addr: Endpoint,
    pub username: String,
    pub last_seen: u64,
}

/// The mathematical shadow of a `PeerInfo`: the name as a character sequence.
pub struct RecordV {
    pub addr: Endpoint,
    pub username: Seq<char>,
    pub last_seen: u64,
}

impl View for PeerInfo {
    type V = RecordV;

    open spec fn view(&self) -> RecordV {
        RecordV { addr: self.addr, username: self.username@, last_seen: self.last_seen }
    }
}

/// The membership table and the tombstone set.
#[derive(Debug)]
pub struct PeerList {
    peers: Vec<PeerInfo>,
    recently_removed: Vec<(Endpoint, u64)>,
}

/// Whether two records carry the same (display name, endpoint) identity.
pub open spec fn same_key(r: RecordV, name: Seq<char>, addr: Endpoint) -> bool {
    r.username == name && r.addr == addr
}

/// Whether some record in `s` has the identity (name, addr).
pub open spec fn has_key(s: Seq<RecordV>, name: Seq<char>, addr: Endpoint) -> bool {
    exists|i: int| 0 <= i < s.len() && same_key(#[trigger] s[i], name, addr)
}

/// Whether some record in `s` sits at the endpoint `addr`.
pub open spec fn has_addr(s: Seq<RecordV>, addr: Endpoint) -> bool {
    exists|i: int| 0 <= i < s.len() && (#[trigger] s[i]).addr == addr
}

/// The generated label for a peer that advertised no usable name: the label
/// is bound to the endpoint it was heard from.
pub open spec fn anon_label(addr: Endpoint) -> Seq<char> {
    "anonymous@"@ + endpoint_chars(addr)
}

/// Whether a claimed name is unusable as a display name: empty, or itself
/// looking like an address.
pub open spec fn looks_like_address(name: Seq<char>) -> bool {
    name.len() == 0 || name.contains(':')
}

/// The name a record would be stored under: an unusable claimed name is
/// replaced by the generated anonymous label for the endpoint.
pub open spec fn effective_name(claimed: Seq<char>, addr: Endpoint) -> Seq<char> {
    if looks_like_address(claimed) {
        anon_label(addr)
    } else {
        claimed
    }
}

/// Whether a name is an anonymous label (its own or a gossiped one).
pub open spec fn is_anon(name: Seq<char>) -> bool {
    name.len() >= "anonymous@"@.len() && name.subrange(0, "anonymous@"@.len() as int)
        == "anonymous@"@
}

/// Ticks elapsed from `t` to `now` on the monotonic clock, saturating at 0.
pub open spec fn elapsed(now: int, t: int) -> int {
    if t <= now {
        now - t
    } else {
        0
    }
}

/// Whether a record has been idle longer than `timeout`.
pub open spec fn is_stale(r: RecordV, timeout: int, now: int) -> bool {
    elapsed(now, r.last_seen as int) > timeout
}

/// The eviction time of `addr` in the tombstone sequence, if tombstoned.
pub open spec fn tomb_time(t: Seq<(Endpoint, u64)>, addr: Endpoint) -> Option<u64>
    decreases t.len(),
{
    if t.len() == 0 {
        None
    } else if t[0].0 == addr {
        Some(t[0].1)
    } else {
        tomb_time(t.drop_first(), addr)
    }
}

/// Whether `addr` is tombstoned and the eviction is younger than `grace`.
pub open spec fn tombstoned_within(
    t: Seq<(Endpoint, u64)>,
    addr: Endpoint,
    grace: int,
    now: int,
) -> bool {
    match tomb_time(t, addr) {
        Some(when) => elapsed(now, when as int) < grace,
        None => false,
    }
}

/// `pre` with every record at `addr` refreshed to `now`; other records, and
/// the order, untouched.
pub open spec fn refresh_addr(pre: Seq<RecordV>, addr: Endpoint, now: u64) -> Seq<RecordV> {
    pre.map(
        |i: int, r: RecordV|
            if r.addr == addr {
                RecordV { addr: r.addr, username: r.username, last_seen: now }
            } else {
                r
            },
    )
}

/// `pre` with the records at `addr` among the first `k` refreshed to `now`:
/// the intermediate states of a left-to-right refresh.
pub open spec fn refresh_upto(pre: Seq<RecordV>, addr: Endpoint, now: u64, k: int) -> Seq<
    RecordV,
> {
    pre.map(
        |i: int, r: RecordV|
            if i < k && r.addr == addr {
                RecordV { addr: r.addr, username: r.username, last_seen: now }
            } else {
                r
            },
    )
}

/// What `add_or_update_peer` does to the records. An anonymous label only
/// refreshes records already at that exact endpoint — on an unknown endpoint
/// it creates nothing. A usable name refreshes its exact (name, endpoint)
/// record, or is inserted as a new record.
pub open spec fn upsert_post(
    pre: Seq<RecordV>,
    post: Seq<RecordV>,
    addr: Endpoint,
    claimed: Seq<char>,
    now: u64,
) -> bool {
    let name = effective_name(claimed, addr);
    if is_anon(name) {
        post == refresh_addr(pre, addr, now)
    } else if has_key(pre, name, addr) {
        exists|i: int|
            0 <= i < pre.len() && same_key(#[trigger] pre[i], name, addr) && post == pre.update(
                i,
                RecordV { addr, username: name, last_seen: now },
            )
    } else {
        post == pre.push(RecordV { addr, username: name, last_seen: now })
    }
}

/// The records from position `i` on that are not stale, in order.
pub open spec fn live_from(s: Seq<RecordV>, timeout: int, now: int, i: int) -> Seq<RecordV>
    decreases s.len() - i,
{
    if i < 0 || i >= s.len() {
        Seq::empty()
    } else if is_stale(s[i], timeout, now) {
        live_from(s, timeout, now, i + 1)
    } else {
        seq![s[i]] + live_from(s, timeout, now, i + 1)
    }
}

/// The records from position `i` on that are stale, in order.
pub open spec fn stale_from(s: Seq<RecordV>, timeout: int, now: int, i: int) -> Seq<RecordV>
    decreases s.len() - i,
{
    if i < 0 || i >= s.len() {
        Seq::empty()
    } else if is_stale(s[i], timeout, now) {
        seq![s[i]] + stale_from(s, timeout, now, i + 1)
    } else {
        stale_from(s, timeout, now, i + 1)
    }
}

/// Pairwise distinctness of record identities in a sequence.
pub open spec fn keys_distinct(s: Seq<RecordV>) -> bool {
    forall|i: int, j: int|
        0 <= i < j < s.len() ==> !same_key(#[trigger] s[i], (#[trigger] s[j]).username, s[j].addr)
}

/// Pairwise distinctness of tombstoned endpoints.
pub open spec fn addrs_distinct(t: Seq<(Endpoint, u64)>) -> bool {
    forall|i: int, j: int| 0 <= i < j < t.len() ==> (#[trigger] t[i]).0 != (#[trigger] t[j]).0
}

/// Whether `x` occurs in `s` at or after position `i`.
pub open spec fn appears_from(s: Seq<RecordV>, x: RecordV, i: int) -> bool {
    exists|j: int| #![trigger s[j]] i <= j < s.len() && x == s[j]
}

/// Every record of `live_from` is a record of `s` at or after `i`, and is
/// not stale.
pub proof fn lemma_live_from_elems(s: Seq<RecordV>, timeout: int, now: int, i: int)
    ensures
        forall|k: int|
            #![trigger live_from(s, timeout, now, i)[k]]
            0 <= k < live_from(s, timeout, now, i).len() ==> appears_from(
                s,
                live_from(s, timeout, now, i)[k],
                i,
            ) && !is_stale(live_from(s, timeout, now, i)[k], timeout, now),
    decreases s.len() - i,
{
    if 0 <= i < s.len() {
        lemma_live_from_elems(s, timeout, now, i + 1);
        let cur = live_from(s, timeout, now, i);
        let rest = live_from(s, timeout, now, i + 1);
        assert forall|k: int|
            #![trigger live_from(s, timeout, now, i)[k]]
            0 <= k < live_from(s, timeout, now, i).len() implies appears_from(
            s,
            live_from(s, timeout, now, i)[k],
            i,
        ) && !is_stale(live_from(s, timeout, now, i)[k], timeout, now) by {
            if !is_stale(s[i], timeout, now) {
                if k == 0 {
                    assert(cur[k] == s[i]);
                } else {
                    assert(cur[k] == rest[k - 1]);
                    assert(appears_from(s, rest[k - 1], i + 1));
                    let j = choose|j: int| #![trigger s[j]] i + 1 <= j < s.len() && rest[k - 1] == s[j];
                    assert(cur[k] == s[j]);
                }
            } else {
                assert(cur[k] == rest[k]);
                assert(appears_from(s, rest[k], i + 1));
                let j = choose|j: int| #![trigger s[j]] i + 1 <= j < s.len() && rest[k] == s[j];
                assert(cur[k] == s[j]);
            }
        }
    }
}

/// Every record of `stale_from` is a record of `s` at or after `i`, and is
/// stale.
pub proof fn lemma_stale_from_elems(s: Seq<RecordV>, timeout: int, now: int, i: int)
    ensures
        forall|k: int|
            #![trigger stale_from(s, timeout, now, i)[k]]
            0 <= k < stale_from(s, timeout, now, i).len() ==> appears_from(
                s,
                stale_from(s, timeout, now, i)[k],
                i,
            ) && is_stale(stale_from(s, timeout, now, i)[k], timeout, now),
    decreases s.len() - i,
{
    if 0 <= i < s.len() {
        lemma_stale_from_elems(s, timeout, now, i + 1);
        let cur = stale_from(s, timeout, now, i);
        let rest = stale_from(s, timeout, now, i + 1);
        assert forall|k: int|
            #![trigger stale_from(s, timeout, now, i)[k]]
            0 <= k < stale_from(s, timeout, now, i).len() implies appears_from(
            s,
            stale_from(s, timeout, now, i)[k],
            i,
        ) && is_stale(stale_from(s, timeout, now, i)[k], timeout, now) by {
            if is_stale(s[i], timeout, now) {
                if k == 0 {
                    assert(cur[k] == s[i]);
                } else {
                    assert(cur[k] == rest[k - 1]);
                    assert(appears_from(s, rest[k - 1], i + 1));
                    let j = choose|j: int| #![trigger s[j]] i + 1 <= j < s.len() && rest[k - 1] == s[j];
                    assert(cur[k] == s[j]);
                }
            } else {
                assert(cur[k] == rest[k]);
                assert(appears_from(s, rest[k], i + 1));
                let j = choose|j: int| #![trigger s[j]] i + 1 <= j < s.len() && rest[k] == s[j];
                assert(cur[k] == s[j]);
            }
        }
    }
}

/// A selection from a key-distinct sequence, taken in order, is key-distinct
/// itself.
pub proof fn lemma_live_from_distinct(s: Seq<RecordV>, timeout: int, now: int, i: int)
    requires
        keys_distinct(s),
    ensures
        keys_distinct(live_from(s, timeout, now, i)),
    decreases s.len() - i,
{
    if 0 <= i < s.len() {
        lemma_live_from_distinct(s, timeout, now, i + 1);
        let cur = live_from(s, timeout, now, i);
        let rest = live_from(s, timeout, now, i + 1);
        if !is_stale(s[i], timeout, now) {
            lemma_live_from_elems(s, timeout, now, i + 1);
            assert forall|a: int, b: int|
                0 <= a < b < cur.len() implies !same_key(
                #[trigger] cur[a],
                (#[trigger] cur[b]).username,
                cur[b].addr,
            ) by {
                if a == 0 {
                    assert(cur[b] == rest[b - 1]);
                    assert(appears_from(s, rest[b - 1], i + 1));
                    let j = choose|j: int| #![trigger s[j]] i + 1 <= j < s.len() && rest[b - 1] == s[j];
                    assert(!same_key(s[i], s[j].username, s[j].addr));
                } else {
                    assert(cur[a] == rest[a - 1] && cur[b] == rest[b - 1]);
                }
            }
        }
    }
}

/// The stale records of a key-distinct sequence are key-distinct: an evicted
/// identity is reported once.
pub proof fn lemma_stale_from_distinct(s: Seq<RecordV>, timeout: int, now: int, i: int)
    requires
        keys_distinct(s),
    ensures
        keys_distinct(stale_from(s, timeout, now, i)),
    decreases s.len() - i,
{
    if 0 <= i < s.len() {
        lemma_stale_from_distinct(s, timeout, now, i + 1);
        let cur = stale_from(s, timeout, now, i);
        let rest = stale_from(s, timeout, now, i + 1);
        if is_stale(s[i], timeout, now) {
            lemma_stale_from_elems(s, timeout, now, i + 1);
            assert forall|a: int, b: int|
                0 <= a < b < cur.len() implies !same_key(
                #[trigger] cur[a],
                (#[trigger] cur[b]).username,
                cur[b].addr,
            ) by {
                if a == 0 {
                    assert(cur[b] == rest[b - 1]);
                    assert(appears_from(s, rest[b - 1], i + 1));
                    let j = choose|j: int| #![trigger s[j]] i + 1 <= j < s.len() && rest[b - 1] == s[j];
                    assert(!same_key(s[i], s[j].username, s[j].addr));
                } else {
                    assert(cur[a] == rest[a - 1] && cur[b] == rest[b - 1]);
                }
            }
        }
    }
}

/// Whether two records describe the same peer on the same host: same display
/// name and same IP, the port ignored. A peer that restarted under a new
/// ephemeral port falls in the same group as its old record.
pub open spec fn same_group(r1: RecordV, r2: RecordV) -> bool {
    r1.username == r2.username && r1.addr.ip0 == r2.addr.ip0 && r1.addr.ip1 == r2.addr.ip1
        && r1.addr.ip2 == r2.addr.ip2 && r1.addr.ip3 == r2.addr.ip3
}

/// Whether the record at `j` outranks the record at `i`: contacted more
/// recently, or equally recent and earlier in the table.
pub open spec fn beats(s: Seq<RecordV>, j: int, i: int) -> bool {
    s[j].last_seen > s[i].last_seen || (s[j].last_seen == s[i].last_seen && j < i)
}

/// Whether the record at `i` survives consolidation: nothing in its group
/// outranks it.
pub open spec fn keeps(s: Seq<RecordV>, i: int) -> bool {
    forall|j: int|
        0 <= j < s.len() && j != i && same_group(s[i], #[trigger] s[j]) ==> !beats(s, j, i)
}

/// The surviving records from position `i` on, in order.
pub open spec fn kept_from(s: Seq<RecordV>, i: int) -> Seq<RecordV>
    decreases s.len() - i,
{
    if i < 0 || i >= s.len() {
        Seq::empty()
    } else if keeps(s, i) {
        seq![s[i]] + kept_from(s, i + 1)
    } else {
        kept_from(s, i + 1)
    }
}

/// Whether `x` occurs in `s` at or after `i` as a surviving record.
pub open spec fn appears_kept_from(s: Seq<RecordV>, x: RecordV, i: int) -> bool {
    exists|j: int| #![trigger s[j]] i <= j < s.len() && x == s[j] && keeps(s, j)
}

/// Every surviving record is a record of `s` that nothing in its group
/// outranks.
pub proof fn lemma_kept_from_elems(s: Seq<RecordV>, i: int)
    ensures
        forall|k: int|
            #![trigger kept_from(s, i)[k]]
            0 <= k < kept_from(s, i).len() ==> appears_kept_from(s, kept_from(s, i)[k], i),
    decreases s.len() - i,
{
    if 0 <= i < s.len() {
        lemma_kept_from_elems(s, i + 1);
        let cur = kept_from(s, i);
        let rest = kept_from(s, i + 1);
        assert forall|k: int|
            #![trigger kept_from(s, i)[k]]
            0 <= k < kept_from(s, i).len() implies appears_kept_from(s, kept_from(s, i)[k], i) by {
            if keeps(s, i) {
                if k == 0 {
                    assert(cur[k] == s[i]);
                } else {
                    assert(cur[k] == rest[k - 1]);
                    assert(appears_kept_from(s, rest[k - 1], i + 1));
                    let j = choose|j: int|
                        #![trigger s[j]]
                        i + 1 <= j < s.len() && rest[k - 1] == s[j] && keeps(s, j);
                    assert(cur[k] == s[j]);
                }
            } else {
                assert(cur[k] == rest[k]);
                assert(appears_kept_from(s, rest[k], i + 1));
                let j = choose|j: int|
                    #![trigger s[j]]
                    i + 1 <= j < s.len() && rest[k] == s[j] && keeps(s, j);
                assert(cur[k] == s[j]);
            }
        }
    }
}

/// The surviving records of a key-distinct table are key-distinct.
pub proof fn lemma_kept_from_distinct(s: Seq<RecordV>, i: int)
    requires
        keys_distinct(s),
    ensures
        keys_distinct(kept_from(s, i)),
    decreases s.len() - i,
{
    if 0 <= i < s.len() {
        lemma_kept_from_distinct(s, i + 1);
        let cur = kept_from(s, i);
        let rest = kept_from(s, i + 1);
        if keeps(s, i) {
            lemma_kept_from_elems(s, i + 1);
            assert forall|a: int, b: int|
                0 <= a < b < cur.len() implies !same_key(
                #[trigger] cur[a],
                (#[trigger] cur[b]).username,
                cur[b].addr,
            ) by {
                if a == 0 {
                    assert(cur[b] == rest[b - 1]);
                    assert(appears_kept_from(s, rest[b - 1], i + 1));
                    let j = choose|j: int|
                        #![trigger s[j]]
                        i + 1 <= j < s.len() && rest[b - 1] == s[j] && keeps(s, j);
                    assert(!same_key(s[i], s[j].username, s[j].addr));
                } else {
                    assert(cur[a] == rest[a - 1] && cur[b] == rest[b - 1]);
                }
            }
        }
    }
}

/// Every surviving record is kept: `kept_from` contains each record that
/// nothing in its group outranks.
pub proof fn lemma_kept_from_complete(s: Seq<RecordV>, i: int, j: int)
    requires
        i <= j < s.len(),
        0 <= i,
        keeps(s, j),
    ensures
        exists|k: int| 0 <= k < kept_from(s, i).len() && #[trigger] kept_from(s, i)[k] == s[j],
    decreases s.len() - i,
{
    let cur = kept_from(s, i);
    let rest = kept_from(s, i + 1);
    if j == i {
        assert(cur[0] == s[i]);
    } else {
        lemma_kept_from_complete(s, i + 1, j);
        let k = choose|k: int| 0 <= k < rest.len() && #[trigger] rest[k] == s[j];
        if keeps(s, i) {
            assert(cur[k + 1] == rest[k]);
        } else {
            assert(cur[k] == rest[k]);
        }
    }
}

/// Every record's group has a surviving member at least as fresh as it: the
/// group's most recently contacted record survives.
pub proof fn lemma_group_best(s: Seq<RecordV>, i: int)
    requires
        0 <= i < s.len(),
    ensures
        exists|j: int|
            0 <= j < s.len() && same_group(s[i], #[trigger] s[j]) && keeps(s, j)
                && s[j].last_seen >= s[i].last_seen,
    decreases u64::MAX - s[i].last_seen, i,
{
    if keeps(s, i) {
        assert(same_group(s[i], s[i]) && keeps(s, i) && s[i].last_seen >= s[i].last_seen);
    } else {
        let j = choose|j: int|
            0 <= j < s.len() && j != i && same_group(s[i], #[trigger] s[j]) && beats(s, j, i);
        lemma_group_best(s, j);
        let k = choose|k: int|
            0 <= k < s.len() && same_group(s[j], #[trigger] s[k]) && keeps(s, k)
                && s[k].last_seen >= s[j].last_seen;
        assert(same_group(s[i], s[k]));
        assert(s[k].last_seen >= s[i].last_seen);
    }
}

/// The consolidation law: afterwards no two records share (name, IP), every
/// record kept comes from the table, and each prior record's group survives
/// through its most recently contacted member.
pub proof fn lemma_consolidate_collapses(s: Seq<RecordV>)
    requires
        keys_distinct(s),
    ensures
        forall|a: int, b: int|
            0 <= a < b < kept_from(s, 0).len() ==> !same_group(
                #[trigger] kept_from(s, 0)[a],
                #[trigger] kept_from(s, 0)[b],
            ),
        forall|k: int|
            #![trigger kept_from(s, 0)[k]]
            0 <= k < kept_from(s, 0).len() ==> appears_from(s, kept_from(s, 0)[k], 0),
        forall|i: int|
            0 <= i < s.len() ==> exists|k: int|
                0 <= k < kept_from(s, 0).len() && same_group(#[trigger] s[i], kept_from(s, 0)[k])
                    && kept_from(s, 0)[k].last_seen >= s[i].last_seen,
{
    let kept = kept_from(s, 0);
    lemma_kept_from_elems(s, 0);
    lemma_kept_from_distinct(s, 0);
    assert forall|a: int, b: int|
        0 <= a < b < kept.len() implies !same_group(
        #[trigger] kept_from(s, 0)[a],
        #[trigger] kept_from(s, 0)[b],
    ) by {
        if same_group(kept[a], kept[b]) {
            assert(appears_kept_from(s, kept_from(s, 0)[a], 0));
            assert(appears_kept_from(s, kept_from(s, 0)[b], 0));
            let ja = choose|j: int| #![trigger s[j]] 0 <= j < s.len() && kept[a] == s[j] && keeps(s, j);
            let jb = choose|j: int| #![trigger s[j]] 0 <= j < s.len() && kept[b] == s[j] && keeps(s, j);
            assert(!same_key(kept[a], kept[b].username, kept[b].addr));
            assert(ja != jb);
            assert(same_group(s[ja], s[jb]));
            assert(same_group(s[jb], s[ja]));
            if beats(s, ja, jb) {
                assert(!beats(s, ja, jb));
            } else {
                assert(beats(s, jb, ja));
                assert(!beats(s, jb, ja));
            }
        }
    }
    assert forall|k: int|
        #![trigger kept_from(s, 0)[k]]
        0 <= k < kept.len() implies appears_from(s, kept_from(s, 0)[k], 0) by {
        assert(appears_kept_from(s, kept_from(s, 0)[k], 0));
        let j = choose|j: int| #![trigger s[j]] 0 <= j < s.len() && kept[k] == s[j] && keeps(s, j);
        assert(kept[k] == s[j]);
    }
    assert forall|i: int|
        0 <= i < s.len() implies exists|k: int|
        0 <= k < kept_from(s, 0).len() && same_group(#[trigger] s[i], kept_from(s, 0)[k])
            && kept_from(s, 0)[k].last_seen >= s[i].last_seen by {
        lemma_group_best(s, i);
        let j = choose|j: int|
            0 <= j < s.len() && same_group(s[i], #[trigger] s[j]) && keeps(s, j)
                && s[j].last_seen >= s[i].last_seen;
        lemma_kept_from_complete(s, 0, j);
        let k = choose|k: int| 0 <= k < kept_from(s, 0).len() && #[trigger] kept_from(s, 0)[k] == s[j];
        assert(same_group(s[i], kept_from(s, 0)[k]));
    }
}

/// The tombstones from position `i` on whose eviction is younger than
/// `max_age`, in order.
pub open spec fn fresh_tombs_from(t: Seq<(Endpoint, u64)>, max_age: int, now: int, i: int) -> Seq<
    (Endpoint, u64),
>
    decreases t.len() - i,
{
    if i < 0 || i >= t.len() {
        Seq::empty()
    } else if elapsed(now, t[i].1 as int) < max_age {
        seq![t[i]] + fresh_tombs_from(t, max_age, now, i + 1)
    } else {
        fresh_tombs_from(t, max_age, now, i + 1)
    }
}

/// Whether `x` occurs in `t` at or after position `i`.
pub open spec fn tomb_appears_from(t: Seq<(Endpoint, u64)>, x: (Endpoint, u64), i: int) -> bool {
    exists|j: int| #![trigger t[j]] i <= j < t.len() && x == t[j]
}

/// Every kept tombstone comes from the original sequence.
pub proof fn lemma_fresh_tombs_elems(t: Seq<(Endpoint, u64)>, max_age: int, now: int, i: int)
    ensures
        forall|k: int|
            #![trigger fresh_tombs_from(t, max_age, now, i)[k]]
            0 <= k < fresh_tombs_from(t, max_age, now, i).len() ==> tomb_appears_from(
                t,
                fresh_tombs_from(t, max_age, now, i)[k],
                i,
            ),
    decreases t.len() - i,
{
    if 0 <= i < t.len() {
        lemma_fresh_tombs_elems(t, max_age, now, i + 1);
        let cur = fresh_tombs_from(t, max_age, now, i);
        let rest = fresh_tombs_from(t, max_age, now, i + 1);
        assert forall|k: int|
            #![trigger fresh_tombs_from(t, max_age, now, i)[k]]
            0 <= k < fresh_tombs_from(t, max_age, now, i).len() implies tomb_appears_from(
            t,
            fresh_tombs_from(t, max_age, now, i)[k],
            i,
        ) by {
            if elapsed(now, t[i].1 as int) < max_age {
                if k == 0 {
                    assert(cur[k] == t[i]);
                } else {
                    assert(cur[k] == rest[k - 1]);
                    assert(tomb_appears_from(t, rest[k - 1], i + 1));
                    let j = choose|j: int| #![trigger t[j]] i + 1 <= j < t.len() && rest[k - 1] == t[j];
                    assert(cur[k] == t[j]);
                }
            } else {
                assert(cur[k] == rest[k]);
                assert(tomb_appears_from(t, rest[k], i + 1));
                let j = choose|j: int| #![trigger t[j]] i + 1 <= j < t.len() && rest[k] == t[j];
                assert(cur[k] == t[j]);
            }
        }
    }
}

/// Keeping some tombstones of an endpoint-distinct set, in order, leaves an
/// endpoint-distinct set.
pub proof fn lemma_fresh_tombs_distinct(t: Seq<(Endpoint, u64)>, max_age: int, now: int, i: int)
    requires
        addrs_distinct(t),
    ensures
        addrs_distinct(fresh_tombs_from(t, max_age, now, i)),
    decreases t.len() - i,
{
    if 0 <= i < t.len() {
        lemma_fresh_tombs_distinct(t, max_age, now, i + 1);
        let cur = fresh_tombs_from(t, max_age, now, i);
        let rest = fresh_tombs_from(t, max_age, now, i + 1);
        if elapsed(now, t[i].1 as int) < max_age {
            lemma_fresh_tombs_elems(t, max_age, now, i + 1);
            assert forall|a: int, b: int|
                0 <= a < b < cur.len() implies (#[trigger] cur[a]).0 != (#[trigger] cur[b]).0 by {
                if a == 0 {
                    assert(cur[b] == rest[b - 1]);
                    assert(tomb_appears_from(t, rest[b - 1], i + 1));
                    let j = choose|j: int| #![trigger t[j]] i + 1 <= j < t.len() && rest[b - 1] == t[j];
                    assert(t[i].0 != t[j].0);
                } else {
                    assert(cur[a] == rest[a - 1] && cur[b] == rest[b - 1]);
                }
            }
        }
    }
}

/// Shifting the scan start by one steps into the tail sequence.
pub proof fn lemma_fresh_tombs_shift(t: Seq<(Endpoint, u64)>, max_age: int, now: int, i: int)
    requires
        i >= 0,
        t.len() > 0,
    ensures
        fresh_tombs_from(t, max_age, now, i + 1) == fresh_tombs_from(
            t.drop_first(),
            max_age,
            now,
            i,
        ),
    decreases t.len() - i,
{
    if i < t.len() - 1 {
        assert(t.drop_first()[i] == t[i + 1]);
        lemma_fresh_tombs_shift(t, max_age, now, i + 1);
    } else {
        assert(fresh_tombs_from(t, max_age, now, i + 1) =~= Seq::<(Endpoint, u64)>::empty());
        assert(fresh_tombs_from(t.drop_first(), max_age, now, i) =~= Seq::<(Endpoint, u64)>::empty());
    }
}

/// Dropping old tombstones, endpoint by endpoint: a tombstone survives the
/// collection exactly when its eviction is younger than `max_age`.
pub proof fn lemma_fresh_tombs_pointwise(t: Seq<(Endpoint, u64)>, max_age: int, now: int)
    requires
        addrs_distinct(t),
    ensures
        forall|a: Endpoint|
            #[trigger] tomb_time(fresh_tombs_from(t, max_age, now, 0), a) == (match tomb_time(
                t,
                a,
            ) {
                Some(w) => if elapsed(now, w as int) < max_age {
                    Some(w)
                } else {
                    None
                },
                None => None,
            }),
    decreases t.len(),
{
    if t.len() == 0 {
        assert(fresh_tombs_from(t, max_age, now, 0) =~= Seq::<(Endpoint, u64)>::empty());
    } else {
        let h = t[0];
        let tail = t.drop_first();
        assert(addrs_distinct(tail)) by {
            assert forall|x: int, y: int|
                0 <= x < y < tail.len() implies (#[trigger] tail[x]).0 != (
            #[trigger] tail[y]).0 by {
                assert(tail[x] == t[x + 1] && tail[y] == t[y + 1]);
            }
        }
        lemma_fresh_tombs_pointwise(tail, max_age, now);
        lemma_fresh_tombs_shift(t, max_age, now, 0);
        lemma_tomb_time_none(tail, h.0);
        assert forall|x: int| 0 <= x < tail.len() implies (#[trigger] tail[x]).0 != h.0 by {
            assert(tail[x] == t[x + 1]);
        }
        assert(tomb_time(tail, h.0) is None);
        let kept = fresh_tombs_from(t, max_age, now, 0);
        let kept_tail = fresh_tombs_from(tail, max_age, now, 0);
        assert forall|a: Endpoint|
            #[trigger] tomb_time(kept, a) == (match tomb_time(t, a) {
                Some(w) => if elapsed(now, w as int) < max_age {
                    Some(w)
                } else {
                    None
                },
                None => None,
            }) by {
            if elapsed(now, h.1 as int) < max_age {
                assert(kept == seq![h] + kept_tail);
                assert(kept[0] == h);
                assert(kept.drop_first() =~= kept_tail);
                if a == h.0 {
                    assert(tomb_time(t, a) == Some(h.1));
                    assert(tomb_time(kept, a) == Some(h.1));
                } else {
                    assert(tomb_time(kept, a) == tomb_time(kept_tail, a));
                    assert(tomb_time(t, a) == tomb_time(tail, a));
                }
            } else {
                assert(kept == kept_tail);
                if a == h.0 {
                    assert(tomb_time(t, a) == Some(h.1));
                    assert(tomb_time(kept_tail, a) is None);
                } else {
                    assert(tomb_time(t, a) == tomb_time(tail, a));
                }
            }
        }
    }
}

/// `tomb_time` finds no entry exactly when no entry carries the endpoint.
pub proof fn lemma_tomb_time_none(t: Seq<(Endpoint, u64)>, addr: Endpoint)
    ensures
        tomb_time(t, addr) is None <==> forall|i: int| 0 <= i < t.len() ==> (#[trigger] t[i]).0
            != addr,
    decreases t.len(),
{
    if t.len() > 0 {
        lemma_tomb_time_none(t.drop_first(), addr);
        assert forall|i: int| 1 <= i < t.len() implies t.drop_first()[i - 1] == t[i] by {}
        if t[0].0 != addr {
            if tomb_time(t.drop_first(), addr) is None {
                assert forall|i: int| 0 <= i < t.len() implies (#[trigger] t[i]).0 != addr by {
                    if i > 0 {
                        assert(t.drop_first()[i - 1].0 != addr);
                    }
                }
            }
        }
    }
}

/// Overwriting the time of entry `i` moves only that endpoint's time.
pub proof fn lemma_tomb_time_update(t: Seq<(Endpoint, u64)>, i: int, now: u64)
    requires
        0 <= i < t.len(),
        addrs_distinct(t),
    ensures
        forall|a: Endpoint|
            #[trigger] tomb_time(t.update(i, (t[i].0, now)), a) == if a == t[i].0 {
                Some(now)
            } else {
                tomb_time(t, a)
            },
    decreases t.len(),
{
    let u = t.update(i, (t[i].0, now));
    if i == 0 {
        assert forall|a: Endpoint|
            #[trigger] tomb_time(u, a) == (if a == t[0].0 {
                Some(now)
            } else {
                tomb_time(t, a)
            }) by {
            assert(u[0] == (t[0].0, now));
            if a != t[0].0 {
                assert(u.drop_first() =~= t.drop_first());
            }
        }
    } else {
        assert(t.drop_first().update(i - 1, (t.drop_first()[i - 1].0, now)) =~= u.drop_first());
        assert forall|a: int, b: int|
            0 <= a < b < t.drop_first().len() implies (#[trigger] t.drop_first()[a]).0 != (
        #[trigger] t.drop_first()[b]).0 by {
            assert(t.drop_first()[a] == t[a + 1] && t.drop_first()[b] == t[b + 1]);
        }
        lemma_tomb_time_update(t.drop_first(), i - 1, now);
        assert forall|a: Endpoint|
            #[trigger] tomb_time(u, a) == (if a == t[i].0 {
                Some(now)
            } else {
                tomb_time(t, a)
            }) by {
            assert(u[0] == t[0]);
            assert(t.drop_first()[i - 1] == t[i]);
            assert(tomb_time(t.drop_first().update(i - 1, (t.drop_first()[i - 1].0, now)), a)
                == if a == t.drop_first()[i - 1].0 {
                    Some(now)
                } else {
                    tomb_time(t.drop_first(), a)
                });
            if a == t[0].0 {
                assert(t[0].0 != t[i].0);
                assert(tomb_time(u, a) == Some(u[0].1));
                assert(tomb_time(t, a) == Some(t[0].1));
            } else {
                assert(tomb_time(u, a) == tomb_time(u.drop_first(), a));
                assert(tomb_time(t, a) == tomb_time(t.drop_first(), a));
            }
        }
    }
}

/// Appending a fresh endpoint adds only that endpoint's time.
pub proof fn lemma_tomb_time_push(t: Seq<(Endpoint, u64)>, addr: Endpoint, now: u64)
    ensures
        forall|a: Endpoint|
            #[trigger] tomb_time(t.push((addr, now)), a) == if tomb_time(t, a) is Some {
                tomb_time(t, a)
            } else if a == addr {
                Some(now)
            } else {
                None::<u64>
            },
    decreases t.len(),
{
    let u = t.push((addr, now));
    if t.len() == 0 {
        assert forall|a: Endpoint|
            #[trigger] tomb_time(u, a) == (if tomb_time(t, a) is Some {
                tomb_time(t, a)
            } else if a == addr {
                Some(now)
            } else {
                None::<u64>
            }) by {
            assert(tomb_time(t, a) is None);
            assert(u[0] == (addr, now));
            if a == addr {
                assert(tomb_time(u, a) == Some(now));
            } else {
                assert(u.drop_first() =~= Seq::<(Endpoint, u64)>::empty());
                assert(tomb_time(u, a) == tomb_time(u.drop_first(), a));
                assert(tomb_time(u.drop_first(), a) is None);
            }
        }
    } else {
        assert(t.drop_first().push((addr, now)) =~= u.drop_first());
        lemma_tomb_time_push(t.drop_first(), addr, now);
        assert forall|a: Endpoint|
            #[trigger] tomb_time(u, a) == (if tomb_time(t, a) is Some {
                tomb_time(t, a)
            } else if a == addr {
                Some(now)
            } else {
                None::<u64>
            }) by {
            assert(u[0] == t[0]);
            assert(tomb_time(t.drop_first().push((addr, now)), a) == if tomb_time(
                t.drop_first(),
                a,
            ) is Some {
                tomb_time(t.drop_first(), a)
            } else if a == addr {
                Some(now)
            } else {
                None::<u64>
            });
            if a == t[0].0 {
            } else {
                assert(tomb_time(u, a) == tomb_time(u.drop_first(), a));
                assert(tomb_time(t, a) == tomb_time(t.drop_first(), a));
            }
        }
    }
}

/// Applying `upsert_post` keeps record identities pairwise distinct.
pub proof fn lemma_upsert_preserves_distinct(
    pre: Seq<RecordV>,
    post: Seq<RecordV>,
    addr: Endpoint,
    claimed: Seq<char>,
    now: u64,
)
    requires
        keys_distinct(pre),
        upsert_post(pre, post, addr, claimed, now),
    ensures
        keys_distinct(post),
{
    let name = effective_name(claimed, addr);
    if is_anon(name) {
        assert forall|a: int, b: int|
            0 <= a < b < post.len() implies !same_key(
            #[trigger] post[a],
            (#[trigger] post[b]).username,
            post[b].addr,
        ) by {
            assert(post[a].username == pre[a].username && post[a].addr == pre[a].addr);
            assert(post[b].username == pre[b].username && post[b].addr == pre[b].addr);
            assert(!same_key(pre[a], pre[b].username, pre[b].addr));
        }
    } else if has_key(pre, name, addr) {
        let i = choose|i: int|
            0 <= i < pre.len() && same_key(#[trigger] pre[i], name, addr) && post == pre.update(
                i,
                RecordV { addr, username: name, last_seen: now },
            );
        assert forall|a: int, b: int|
            0 <= a < b < post.len() implies !same_key(
            #[trigger] post[a],
            (#[trigger] post[b]).username,
            post[b].addr,
        ) by {
            assert(post[a].username == pre[a].username && post[a].addr == pre[a].addr);
            assert(post[b].username == pre[b].username && post[b].addr == pre[b].addr);
            assert(!same_key(pre[a], pre[b].username, pre[b].addr));
        }
    } else {
        assert forall|a: int, b: int|
            0 <= a < b < post.len() implies !same_key(
            #[trigger] post[a],
            (#[trigger] post[b]).username,
            post[b].addr,
        ) by {
            if b < pre.len() {
                assert(!same_key(pre[a], pre[b].username, pre[b].addr));
            } else {
                assert(post[a] == pre[a]);
                assert(!has_key(pre, name, addr));
            }
        }
    }
}

/// Idempotence of upsert: recording the same usable (name, endpoint) twice,
/// at clock ticks `n1 <= n2`, leaves exactly one record under that identity,
/// its contact time the later tick — repeated upserts pile up nothing and
/// `last_seen` never moves backwards.
pub proof fn lemma_upsert_idempotent(
    pre: Seq<RecordV>,
    mid: Seq<RecordV>,
    post: Seq<RecordV>,
    addr: Endpoint,
    claimed: Seq<char>,
    n1: u64,
    n2: u64,
)
    requires
        keys_distinct(pre),
        !is_anon(effective_name(claimed, addr)),
        n1 <= n2,
        upsert_post(pre, mid, addr, claimed, n1),
        upsert_post(mid, post, addr, claimed, n2),
    ensures
        post.len() == mid.len(),
        keys_distinct(post),
        exists|i: int|
            0 <= i < post.len() && same_key(
                #[trigger] post[i],
                effective_name(claimed, addr),
                addr,
            ) && post[i].last_seen == n2 >= n1,
{
    let name = effective_name(claimed, addr);
    lemma_upsert_preserves_distinct(pre, mid, addr, claimed, n1);
    lemma_upsert_preserves_distinct(mid, post, addr, claimed, n2);
    if has_key(pre, name, addr) {
        let i = choose|i: int|
            0 <= i < pre.len() && same_key(#[trigger] pre[i], name, addr) && mid == pre.update(
                i,
                RecordV { addr, username: name, last_seen: n1 },
            );
        assert(same_key(mid[i], name, addr));
        assert(has_key(mid, name, addr));
    } else {
        assert(mid == pre.push(RecordV { addr, username: name, last_seen: n1 }));
        assert(same_key(mid[pre.len() as int], name, addr));
        assert(has_key(mid, name, addr));
    }
    let j = choose|j: int|
        0 <= j < mid.len() && same_key(#[trigger] mid[j], name, addr) && post == mid.update(
            j,
            RecordV { addr, username: name, last_seen: n2 },
        );
    assert(same_key(post[j], name, addr) && post[j].last_seen == n2);
}

/// Anonymous gating: an unusable claimed name (empty or address-like) on an
/// endpoint with no record leaves the table exactly as it was; it never
/// creates a record.
pub proof fn lemma_anonymous_gating(
    pre: Seq<RecordV>,
    post: Seq<RecordV>,
    addr: Endpoint,
    claimed: Seq<char>,
    now: u64,
)
    requires
        looks_like_address(claimed),
        upsert_post(pre, post, addr, claimed, now),
    ensures
        post.len() == pre.len(),
        !has_addr(pre, addr) ==> post == pre,
{
    lemma_anon_label_is_anon(addr);
    assert(post == refresh_addr(pre, addr, now));
    if !has_addr(pre, addr) {
        assert forall|i: int| 0 <= i < pre.len() implies #[trigger] post[i] == pre[i] by {
            assert(pre[i].addr != addr);
        }
        assert(post =~= pre);
    }
}

/// A stale record at `j >= i` is reported by `stale_from`.
pub proof fn lemma_stale_from_complete(s: Seq<RecordV>, timeout: int, now: int, i: int, j: int)
    requires
        0 <= i <= j < s.len(),
        is_stale(s[j], timeout, now),
    ensures
        exists|k: int|
            0 <= k < stale_from(s, timeout, now, i).len() && #[trigger] stale_from(
                s,
                timeout,
                now,
                i,
            )[k] == s[j],
    decreases s.len() - i,
{
    let cur = stale_from(s, timeout, now, i);
    let rest = stale_from(s, timeout, now, i + 1);
    if j == i {
        assert(cur[0] == s[i]);
    } else {
        lemma_stale_from_complete(s, timeout, now, i + 1, j);
        let k = choose|k: int| 0 <= k < rest.len() && #[trigger] rest[k] == s[j];
        if is_stale(s[i], timeout, now) {
            assert(cur[k + 1] == rest[k]);
        } else {
            assert(cur[k] == rest[k]);
        }
    }
}

/// The eviction law: a record idle longer than the timeout is absent from
/// the surviving records, and its identity appears in the evicted report —
/// exactly once, since the report is key-distinct.
pub proof fn lemma_eviction(s: Seq<RecordV>, timeout: int, now: int)
    requires
        keys_distinct(s),
    ensures
        forall|i: int|
            0 <= i < s.len() && is_stale(#[trigger] s[i], timeout, now) ==> !has_key(
                live_from(s, timeout, now, 0),
                s[i].username,
                s[i].addr,
            ),
        forall|i: int|
            0 <= i < s.len() && is_stale(#[trigger] s[i], timeout, now) ==> exists|k: int|
                0 <= k < stale_from(s, timeout, now, 0).len() && stale_from(s, timeout, now, 0)[k]
                    == s[i],
        keys_distinct(stale_from(s, timeout, now, 0)),
{
    lemma_stale_from_distinct(s, timeout, now, 0);
    lemma_live_from_elems(s, timeout, now, 0);
    let live = live_from(s, timeout, now, 0);
    assert forall|i: int|
        0 <= i < s.len() && is_stale(#[trigger] s[i], timeout, now) implies !has_key(
        live,
        s[i].username,
        s[i].addr,
    ) by {
        if has_key(live, s[i].username, s[i].addr) {
            let k = choose|k: int|
                0 <= k < live.len() && same_key(#[trigger] live[k], s[i].username, s[i].addr);
            assert(appears_from(s, live_from(s, timeout, now, 0)[k], 0));
            assert(!is_stale(live_from(s, timeout, now, 0)[k], timeout, now));
            let j = choose|j: int| #![trigger s[j]] 0 <= j < s.len() && live[k] == s[j];
            assert(j != i);
            if j < i {
                assert(!same_key(s[j], s[i].username, s[i].addr));
            } else {
                assert(!same_key(s[i], s[j].username, s[j].addr));
            }
        }
    }
    assert forall|i: int|
        0 <= i < s.len() && is_stale(#[trigger] s[i], timeout, now) implies exists|k: int|
        0 <= k < stale_from(s, timeout, now, 0).len() && stale_from(s, timeout, now, 0)[k] == s[i] by {
        lemma_stale_from_complete(s, timeout, now, 0, i);
    }
}

/// Tombstone suppression: an endpoint whose tombstone was written at
/// `evict_time` is under the grace window exactly while fewer than `grace`
/// ticks have passed — within the window a gossiped re-insertion is
/// refused, after it the endpoint may be learned again.
pub proof fn lemma_tombstone_suppression(
    t: Seq<(Endpoint, u64)>,
    a: Endpoint,
    evict_time: u64,
    grace: int,
    now: int,
)
    requires
        tomb_time(t, a) == Some(evict_time),
    ensures
        elapsed(now, evict_time as int) < grace ==> tombstoned_within(t, a, grace, now),
        elapsed(now, evict_time as int) >= grace ==> !tombstoned_within(t, a, grace, now),
{
}

/// The generated anonymous label is recognized as anonymous.
pub proof fn lemma_anon_label_is_anon(addr: Endpoint)
    ensures
        is_anon(anon_label(addr)),
{
    let p = "anonymous@"@;
    assert(anon_label(addr).subrange(0, p.len() as int) =~= p);
}

/// The mathematical shadows of a sequence of records.
pub open spec fn views_of(v: Seq<PeerInfo>) -> Seq<RecordV> {
    v.map(|i: int, p: PeerInfo| p@)
}

/// `views_of` commutes with appending one record.
pub proof fn lemma_views_push(v: Seq<PeerInfo>, p: PeerInfo)
    ensures
        views_of(v.push(p)) == views_of(v).push(p@),
{
    assert(views_of(v.push(p)) =~= views_of(v).push(p@));
}

impl PeerList {
    /// The records of the table, as mathematical values.
    pub closed spec fn records(self) -> Seq<RecordV> {
        views_of(self.peers@)
    }

    /// The tombstone set: endpoint and eviction time of each recent eviction.
    pub closed spec fn tombstones(self) -> Seq<(Endpoint, u64)> {
        self.recently_removed@
    }

    /// Well-formedness: no two records share a key, no two tombstones share
    /// an endpoint.
    pub open spec fn wf(self) -> bool {
        keys_distinct(self.records()) && addrs_distinct(self.tombstones())
    }

    /// An empty directory.
    pub fn new() -> (r: PeerList)
        ensures
            r.wf(),
            r.records() == Seq::<RecordV>::empty(),
            r.tombstones() == Seq::<(Endpoint, u64)>::empty(),
    {
        let r = PeerList { peers: Vec::new(), recently_removed: Vec::new() };
        proof {
            assert(r.records() =~= Seq::<RecordV>::empty());
        }
        r
    }

    /// The username recorded at exactly `addr` (IP and port both matching),
    /// if any: the record at the least such position.
    pub fn find_username_by_addr(&self, addr: &Endpoint) -> (r: Option<String>)
        ensures
            r is Some <==> has_addr(self.records(), *addr),
            r matches Some(u) ==> exists|i: int|
                0 <= i < self.records().len() && (#[trigger] self.records()[i]).addr == *addr
                    && self.records()[i].username == u@,
    {
        let n = self.peers.len();
        let mut i: usize = 0;
        while i < n
            invariant
                0 <= i <= n,
                n == self.peers.len(),
                forall|m: int| 0 <= m < i ==> (#[trigger] self.records()[m]).addr != *addr,
            decreases n - i,
        {
            if self.peers[i].addr == *addr {
                let u = self.peers[i].username.clone();
                proof {
                    assert(self.records()[i as int].addr == *addr);
                }
                return Some(u);
            }
            proof {
                assert(self.records()[i as int].addr != *addr);
            }
            i = i + 1;
        }
        None
    }

    /// The position of the record with identity (`name`, `addr`), if any.
    fn key_index(&self, addr: &Endpoint, name: &str) -> (r: Option<usize>)
        ensures
            r matches Some(i) ==> i < self.records().len() && same_key(
                self.records()[i as int],
                name@,
                *addr,
            ),
            r is None ==> !has_key(self.records(), name@, *addr),
    {
        let n = self.peers.len();
        let mut i: usize = 0;
        while i < n
            invariant
                0 <= i <= n,
                n == self.peers.len(),
                forall|m: int| 0 <= m < i ==> !same_key(#[trigger] self.records()[m], name@, *addr),
            decreases n - i,
        {
            if self.peers[i].addr == *addr && str_eq(self.peers[i].username.as_str(), name) {
                proof {
                    assert(same_key(self.records()[i as int], name@, *addr));
                }
                return Some(i);
            }
            proof {
                assert(!same_key(self.records()[i as int], name@, *addr));
            }
            i = i + 1;
        }
        None
    }

    /// Records a datagram received directly from `addr` under the name it
    /// claimed. An unusable claimed name (empty, or address-like) becomes the
    /// generated anonymous label, which never creates a record: it only
    /// refreshes what already sits at that exact endpoint. A usable name
    /// refreshes its exact (name, endpoint) record or is inserted fresh; a
    /// different name already known at that endpoint is never overwritten.
    pub fn add_or_update_peer(&mut self, addr: Endpoint, username: String, now: u64)
        requires
            old(self).wf(),
        ensures
            final(self).wf(),
            final(self).tombstones() == old(self).tombstones(),
            upsert_post(old(self).records(), final(self).records(), addr, username@, now),
    {
        let ghost ename = effective_name(username@, addr);
        let name: String = if username.as_str().is_empty() || str_contains_char(
            username.as_str(),
            ':',
        ) {
            let mut label = String::from_str("anonymous@");
            let rendered = endpoint_to_string(&addr);
            label.append(rendered.as_str());
            proof {
                assert(looks_like_address(username@));
                assert(label@ == anon_label(addr));
            }
            label
        } else {
            username
        };
        proof {
            assert(name@ == ename);
        }
        let anon = str_starts_with(name.as_str(), "anonymous@");
        proof {
            assert(anon == is_anon(ename));
        }
        if anon {
            let n = self.peers.len();
            let mut i: usize = 0;
            proof {
                assert(self.records() =~= refresh_upto(old(self).records(), addr, now, 0));
            }
            while i < n
                invariant
                    0 <= i <= n,
                    n == self.peers.len(),
                    self.peers@.len() == old(self).records().len(),
                    self.tombstones() == old(self).tombstones(),
                    self.records() == refresh_upto(old(self).records(), addr, now, i as int),
                decreases n - i,
            {
                let ghost before = self.records();
                if self.peers[i].addr == addr {
                    self.peers[i].last_seen = now;
                    proof {
                        assert(self.records()[i as int].last_seen == now);
                        assert(self.records()[i as int].username == before[i as int].username);
                        assert(self.records()[i as int].addr == before[i as int].addr);
                        assert(forall|m: int|
                            0 <= m < before.len() && m != i ==> #[trigger] self.records()[m]
                                == before[m]);
                    }
                }
                proof {
                    let goal = refresh_upto(old(self).records(), addr, now, i as int + 1);
                    assert forall|m: int| 0 <= m < before.len() implies #[trigger] self.records()[m]
                        == goal[m] by {
                        assert(before[m] == refresh_upto(old(self).records(), addr, now, i as int)[m]);
                    }
                    assert(self.records() =~= goal);
                }
                i = i + 1;
            }
            proof {
                assert(self.records() =~= refresh_addr(old(self).records(), addr, now));
                assert forall|a: int, b: int|
                    0 <= a < b < self.records().len() implies !same_key(
                    #[trigger] self.records()[a],
                    (#[trigger] self.records()[b]).username,
                    self.records()[b].addr,
                ) by {
                    assert(self.records()[a].username == old(self).records()[a].username
                        && self.records()[a].addr == old(self).records()[a].addr);
                    assert(self.records()[b].username == old(self).records()[b].username
                        && self.records()[b].addr == old(self).records()[b].addr);
                    assert(!same_key(
                        old(self).records()[a],
                        old(self).records()[b].username,
                        old(self).records()[b].addr,
                    ));
                }
                assert(self.wf());
            }
        } else {
            match self.key_index(&addr, name.as_str()) {
                Some(i) => {
                    self.peers[i].last_seen = now;
                    proof {
                        assert(self.records() =~= old(self).records().update(
                            i as int,
                            RecordV { addr, username: ename, last_seen: now },
                        ));
                        assert forall|a: int, b: int|
                            0 <= a < b < self.records().len() implies !same_key(
                            #[trigger] self.records()[a],
                            (#[trigger] self.records()[b]).username,
                            self.records()[b].addr,
                        ) by {
                            assert(self.records()[a].username == old(self).records()[a].username
                                && self.records()[a].addr == old(self).records()[a].addr);
                            assert(self.records()[b].username == old(self).records()[b].username
                                && self.records()[b].addr == old(self).records()[b].addr);
                            assert(!same_key(
                                old(self).records()[a],
                                old(self).records()[b].username,
                                old(self).records()[b].addr,
                            ));
                        }
                        assert(self.tombstones() == old(self).tombstones());
                        assert(self.wf());
                    }
                },
                None => {
                    self.peers.push(PeerInfo { addr, username: name, last_seen: now });
                    proof {
                        assert(self.records() =~= old(self).records().push(
                            RecordV { addr, username: ename, last_seen: now },
                        ));
                        assert forall|a: int, b: int|
                            0 <= a < b < self.records().len() implies !same_key(
                            #[trigger] self.records()[a],
                            (#[trigger] self.records()[b]).username,
                            self.records()[b].addr,
                        ) by {
                            if b < old(self).records().len() {
                                assert(!same_key(
                                    old(self).records()[a],
                                    old(self).records()[b].username,
                                    old(self).records()[b].addr,
                                ));
                            } else {
                                assert(!has_key(old(self).records(), ename, addr));
                                assert(self.records()[a] == old(self).records()[a]);
                            }
                        }
                        assert(self.tombstones() == old(self).tombstones());
                        assert(self.wf());
                    }
                },
            }
        }
    }

    /// A field-wise copy of one record.
    fn clone_record(p: &PeerInfo) -> (r: PeerInfo)
        ensures
            r@ == p@,
    {
        PeerInfo { addr: p.addr, username: p.username.clone(), last_seen: p.last_seen }
    }

    /// A snapshot of every record, in table order.
    pub fn get_peers(&self) -> (r: Vec<PeerInfo>)
        ensures
            views_of(r@) == self.records(),
    {
        let mut out: Vec<PeerInfo> = Vec::new();
        let n = self.peers.len();
        let mut i: usize = 0;
        proof {
            assert(views_of(out@) =~= self.records().subrange(0, 0));
        }
        while i < n
            invariant
                0 <= i <= n,
                n == self.peers.len(),
                views_of(out@) == self.records().subrange(0, i as int),
            decreases n - i,
        {
            let c = Self::clone_record(&self.peers[i]);
            let ghost prev = out@;
            out.push(c);
            proof {
                lemma_views_push(prev, c);
                assert(self.records()[i as int] == self.peers@[i as int]@);
                assert(self.records().subrange(0, i as int + 1) =~= self.records().subrange(
                    0,
                    i as int,
                ).push(self.records()[i as int]));
                assert(views_of(out@) == self.records().subrange(0, i as int + 1));
            }
            i = i + 1;
        }
        proof {
            assert(self.records().subrange(0, n as int) =~= self.records());
        }
        out
    }

    /// Sets the tombstone for `addr` to `now`, overwriting an older one.
    fn tomb_set(&mut self, addr: Endpoint, now: u64)
        requires
            addrs_distinct(old(self).tombstones()),
        ensures
            final(self).records() == old(self).records(),
            addrs_distinct(final(self).tombstones()),
            forall|a: Endpoint|
                #[trigger] tomb_time(final(self).tombstones(), a) == if a == addr {
                    Some(now)
                } else {
                    tomb_time(old(self).tombstones(), a)
                },
    {
        let n = self.recently_removed.len();
        let mut i: usize = 0;
        while i < n
            invariant
                0 <= i <= n,
                n == self.recently_removed.len(),
                self.records() == old(self).records(),
                self.tombstones() == old(self).tombstones(),
                addrs_distinct(old(self).tombstones()),
                forall|m: int| 0 <= m < i ==> (#[trigger] self.tombstones()[m]).0 != addr,
            decreases n - i,
        {
            if self.recently_removed[i].0 == addr {
                proof {
                    assert(self.tombstones()[i as int].0 == addr);
                }
                proof {
                    assert(old(self).tombstones().len() == n as int);
                    assert(addrs_distinct(old(self).tombstones()));
                }
                self.recently_removed[i] = (addr, now);
                proof {
                    let t = old(self).tombstones();
                    assert(t.len() == n as int);
                    assert(self.tombstones() =~= t.update(i as int, (t[i as int].0, now)));
                    lemma_tomb_time_update(t, i as int, now);
                    assert forall|a: int, b: int|
                        0 <= a < b < self.tombstones().len() implies (
                    #[trigger] self.tombstones()[a]).0 != (#[trigger] self.tombstones()[b]).0 by {
                        assert(self.tombstones()[a].0 == t[a].0);
                        assert(self.tombstones()[b].0 == t[b].0);
                    }
                }
                return ;
            }
            i = i + 1;
        }
        proof {
            lemma_tomb_time_none(self.tombstones(), addr);
        }
        self.recently_removed.push((addr, now));
        proof {
            let t = old(self).tombstones();
            assert(self.tombstones() =~= t.push((addr, now)));
            lemma_tomb_time_push(t, addr, now);
            assert(tomb_time(t, addr) is None);
            assert forall|a: Endpoint|
                #[trigger] tomb_time(self.tombstones(), a) == (if a == addr {
                    Some(now)
                } else {
                    tomb_time(t, a)
                }) by {
                if a != addr && tomb_time(t, a) is None {
                    assert(tomb_time(t.push((addr, now)), a) == None::<u64>);
                }
            }
            assert forall|a: int, b: int|
                0 <= a < b < self.tombstones().len() implies (#[trigger] self.tombstones()[a]).0
                != (#[trigger] self.tombstones()[b]).0 by {
                if b == t.len() {
                    assert(self.tombstones()[a].0 == t[a].0);
                    assert(t[a].0 != addr);
                } else {
                    assert(self.tombstones()[a].0 == t[a].0);
                    assert(self.tombstones()[b].0 == t[b].0);
                }
            }
        }
    }

    /// Removes every record idle longer than `timeout`, tombstones each
    /// evicted endpoint at `now`, and returns the evicted records, each
    /// exactly once, in table order.
    pub fn remove_stale_peers(&mut self, timeout: u64, now: u64) -> (removed: Vec<PeerInfo>)
        requires
            old(self).wf(),
        ensures
            final(self).wf(),
            final(self).records() == live_from(
                old(self).records(),
                timeout as int,
                now as int,
                0,
            ),
            views_of(removed@) == stale_from(
                old(self).records(),
                timeout as int,
                now as int,
                0,
            ),
            forall|a: Endpoint|
                #[trigger] tomb_time(final(self).tombstones(), a) == if has_addr(
                    stale_from(old(self).records(), timeout as int, now as int, 0),
                    a,
                ) {
                    Some(now)
                } else {
                    tomb_time(old(self).tombstones(), a)
                },
    {
        let ghost s = old(self).records();
        let ghost ti = timeout as int;
        let ghost ni = now as int;
        let mut keep: Vec<PeerInfo> = Vec::new();
        let mut removed: Vec<PeerInfo> = Vec::new();
        let n = self.peers.len();
        let mut i: usize = 0;
        proof {
            assert(views_of(keep@) + live_from(s, ti, ni, 0) =~= live_from(
                s,
                ti,
                ni,
                0,
            ));
            assert(views_of(removed@) + stale_from(s, ti, ni, 0) =~= stale_from(
                s,
                ti,
                ni,
                0,
            ));
        }
        while i < n
            invariant
                0 <= i <= n,
                n == self.peers.len(),
                self.records() == old(self).records(),
                self.tombstones() == old(self).tombstones(),
                s == self.records(),
                ti == timeout as int,
                ni == now as int,
                views_of(keep@) + live_from(s, ti, ni, i as int) == live_from(
                    s,
                    ti,
                    ni,
                    0,
                ),
                views_of(removed@) + stale_from(s, ti, ni, i as int)
                    == stale_from(s, ti, ni, 0),
            decreases n - i,
        {
            let last = self.peers[i].last_seen;
            let stale = last <= now && now - last > timeout;
            proof {
                assert(stale == is_stale(s[i as int], ti, ni));
            }
            let c = Self::clone_record(&self.peers[i]);
            if stale {
                removed.push(c);
                proof {
                    assert(views_of(removed@) =~= views_of(removed@).drop_last().push(s[i as int]));
                    assert(views_of(removed@) + stale_from(s, ti, ni, i as int
                        + 1) =~= views_of(removed@).drop_last() + stale_from(
                        s,
                        ti,
                        ni,
                        i as int,
                    ));
                }
            } else {
                keep.push(c);
                proof {
                    assert(views_of(keep@) =~= views_of(keep@).drop_last().push(s[i as int]));
                    assert(views_of(keep@) + live_from(s, ti, ni, i as int + 1)
                        =~= views_of(keep@).drop_last() + live_from(
                        s,
                        ti,
                        ni,
                        i as int,
                    ));
                }
            }
            i = i + 1;
        }
        proof {
            assert(live_from(s, ti, ni, n as int) =~= Seq::<RecordV>::empty());
            assert(stale_from(s, ti, ni, n as int) =~= Seq::<RecordV>::empty());
            assert(views_of(keep@) =~= views_of(keep@)
                + live_from(s, ti, ni, n as int));
            assert(views_of(removed@) =~= views_of(removed@) + stale_from(s, ti, ni, n as int));
        }
        self.peers = keep;
        let ghost gone = stale_from(s, ti, ni, 0);
        let m = removed.len();
        let mut k: usize = 0;
        proof {
            assert(gone.subrange(0, 0) =~= Seq::<RecordV>::empty());
            assert forall|a: Endpoint|
                #[trigger] tomb_time(self.tombstones(), a) == (if has_addr(
                    gone.subrange(0, 0),
                    a,
                ) {
                    Some(now)
                } else {
                    tomb_time(old(self).tombstones(), a)
                }) by {}
        }
        while k < m
            invariant
                0 <= k <= m,
                m == removed.len(),
                ti == timeout as int,
                ni == now as int,
                s == old(self).records(),
                gone == stale_from(s, ti, ni, 0),
                keys_distinct(s),
                views_of(removed@) == gone,
                self.records() == live_from(s, ti, ni, 0),
                addrs_distinct(self.tombstones()),
                forall|a: Endpoint|
                    #[trigger] tomb_time(self.tombstones(), a) == if has_addr(
                        gone.subrange(0, k as int),
                        a,
                    ) {
                        Some(now)
                    } else {
                        tomb_time(old(self).tombstones(), a)
                    },
            decreases m - k,
        {
            let a = removed[k].addr;
            proof {
                assert(gone[k as int] == views_of(removed@)[k as int]);
                assert(gone[k as int].addr == a);
            }
            self.tomb_set(a, now);
            proof {
                assert forall|x: Endpoint|
                    #[trigger] tomb_time(self.tombstones(), x) == (if has_addr(
                        gone.subrange(0, k as int + 1),
                        x,
                    ) {
                        Some(now)
                    } else {
                        tomb_time(old(self).tombstones(), x)
                    }) by {
                    if x == a {
                        assert(gone.subrange(0, k as int + 1)[k as int].addr == x);
                        assert(has_addr(gone.subrange(0, k as int + 1), x));
                    } else {
                        if has_addr(gone.subrange(0, k as int), x) {
                            let w = choose|w: int|
                                0 <= w < gone.subrange(0, k as int).len() && (#[trigger] gone.subrange(
                                    0,
                                    k as int,
                                )[w]).addr == x;
                            assert(gone.subrange(0, k as int + 1)[w].addr == x);
                        } else {
                            if has_addr(gone.subrange(0, k as int + 1), x) {
                                let w = choose|w: int|
                                    0 <= w < gone.subrange(0, k as int + 1).len() && (
                                    #[trigger] gone.subrange(0, k as int + 1)[w]).addr == x;
                                assert(w < k as int);
                                assert(gone.subrange(0, k as int)[w].addr == x);
                            }
                        }
                    }
                }
            }
            k = k + 1;
        }
        proof {
            assert(gone.subrange(0, m as int) =~= gone);
            lemma_live_from_distinct(s, ti, ni, 0);
        }
        removed
    }

    /// Whether the record at `i` survives consolidation.
    fn survives(&self, i: usize) -> (r: bool)
        requires
            i < self.peers@.len(),
        ensures
            r == keeps(self.records(), i as int),
    {
        let n = self.peers.len();
        let mut j: usize = 0;
        while j < n
            invariant
                0 <= j <= n,
                n == self.peers.len(),
                i < n,
                forall|m: int|
                    0 <= m < j && m != i && same_group(
                        self.records()[i as int],
                        #[trigger] self.records()[m],
                    ) ==> !beats(self.records(), m, i as int),
            decreases n - j,
        {
            if j != i {
                proof {
                    assert(self.records()[i as int] == self.peers@[i as int]@);
                    assert(self.records()[j as int] == self.peers@[j as int]@);
                }
                let grouped = self.peers[j].addr.ip0 == self.peers[i].addr.ip0
                    && self.peers[j].addr.ip1 == self.peers[i].addr.ip1
                    && self.peers[j].addr.ip2 == self.peers[i].addr.ip2
                    && self.peers[j].addr.ip3 == self.peers[i].addr.ip3 && str_eq(
                    self.peers[j].username.as_str(),
                    self.peers[i].username.as_str(),
                );
                if grouped {
                    let lj = self.peers[j].last_seen;
                    let li = self.peers[i].last_seen;
                    if lj > li || (lj == li && j < i) {
                        proof {
                            assert(same_group(
                                self.records()[i as int],
                                self.records()[j as int],
                            ));
                            assert(beats(self.records(), j as int, i as int));
                        }
                        return false;
                    }
                }
            }
            j = j + 1;
        }
        true
    }

    /// Collapses records that share (display name, IP) but differ in port:
    /// within each such group only the most recently contacted record stays.
    pub fn consolidate(&mut self)
        requires
            old(self).wf(),
        ensures
            final(self).wf(),
            final(self).tombstones() == old(self).tombstones(),
            final(self).records() == kept_from(old(self).records(), 0),
    {
        let ghost s = old(self).records();
        let mut kept: Vec<PeerInfo> = Vec::new();
        let n = self.peers.len();
        let mut i: usize = 0;
        proof {
            assert(views_of(kept@) + kept_from(s, 0) =~= kept_from(s, 0));
        }
        while i < n
            invariant
                0 <= i <= n,
                n == self.peers.len(),
                self.records() == old(self).records(),
                self.tombstones() == old(self).tombstones(),
                s == self.records(),
                views_of(kept@) + kept_from(s, i as int) == kept_from(s, 0),
            decreases n - i,
        {
            let keep_it = self.survives(i);
            if keep_it {
                let c = Self::clone_record(&self.peers[i]);
                let ghost prev = kept@;
                kept.push(c);
                proof {
                    lemma_views_push(prev, c);
                    assert(self.records()[i as int] == self.peers@[i as int]@);
                    assert(views_of(kept@) + kept_from(s, i as int + 1) =~= views_of(prev)
                        + kept_from(s, i as int));
                }
            }
            i = i + 1;
        }
        proof {
            assert(kept_from(s, n as int) =~= Seq::<RecordV>::empty());
            assert(views_of(kept@) =~= views_of(kept@) + kept_from(s, n as int));
        }
        self.peers = kept;
        proof {
            lemma_kept_from_distinct(s, 0);
        }
    }

    /// Drops tombstones older than `max_age`, keeping the rest.
    pub fn clean_removed_list(&mut self, max_age: u64, now: u64)
        requires
            old(self).wf(),
        ensures
            final(self).wf(),
            final(self).records() == old(self).records(),
            final(self).tombstones() == fresh_tombs_from(
                old(self).tombstones(),
                max_age as int,
                now as int,
                0,
            ),
    {
        let ghost t = old(self).tombstones();
        let ghost mi = max_age as int;
        let ghost ni = now as int;
        let mut kept: Vec<(Endpoint, u64)> = Vec::new();
        let n = self.recently_removed.len();
        let mut i: usize = 0;
        proof {
            assert(kept@ + fresh_tombs_from(t, mi, ni, 0) =~= fresh_tombs_from(t, mi, ni, 0));
        }
        while i < n
            invariant
                0 <= i <= n,
                n == self.recently_removed.len(),
                self.records() == old(self).records(),
                self.tombstones() == old(self).tombstones(),
                t == self.tombstones(),
                mi == max_age as int,
                ni == now as int,
                kept@ + fresh_tombs_from(t, mi, ni, i as int) == fresh_tombs_from(t, mi, ni, 0),
            decreases n - i,
        {
            let entry = self.recently_removed[i];
            let fresh = if entry.1 <= now {
                now - entry.1 < max_age
            } else {
                0 < max_age
            };
            proof {
                assert(fresh == (elapsed(ni, t[i as int].1 as int) < mi));
            }
            if fresh {
                kept.push(entry);
                proof {
                    assert(kept@ + fresh_tombs_from(t, mi, ni, i as int + 1) =~= kept@.drop_last()
                        + fresh_tombs_from(t, mi, ni, i as int));
                }
            }
            i = i + 1;
        }
        proof {
            assert(fresh_tombs_from(t, mi, ni, n as int) =~= Seq::<(Endpoint, u64)>::empty());
            assert(kept@ =~= kept@ + fresh_tombs_from(t, mi, ni, n as int));
        }
        self.recently_removed = kept;
        proof {
            lemma_fresh_tombs_distinct(t, mi, ni, 0);
        }
    }

    /// Whether `addr` was evicted within the last `grace_period` ticks.
    pub fn was_recently_removed(&self, addr: &Endpoint, grace_period: u64, now: u64) -> (r: bool)
        ensures
            r == tombstoned_within(self.tombstones(), *addr, grace_period as int, now as int),
    {
        let n = self.recently_removed.len();
        let mut i: usize = 0;
        proof {
            assert(self.tombstones().skip(0) =~= self.tombstones());
        }
        while i < n
            invariant
                0 <= i <= n,
                n == self.tombstones().len(),
                tomb_time(self.tombstones(), *addr) == tomb_time(
                    self.tombstones().skip(i as int),
                    *addr,
                ),
                forall|m: int| 0 <= m < i ==> (#[trigger] self.tombstones()[m]).0 != *addr,
            decreases n - i,
        {
            proof {
                assert(self.tombstones().skip(i as int)[0] == self.tombstones()[i as int]);
            }
            if self.recently_removed[i].0 == *addr {
                let when = self.recently_removed[i].1;
                proof {
                    assert(tomb_time(self.tombstones().skip(i as int), *addr) == Some(when));
                }
                return if when <= now {
                    now - when < grace_period
                } else {
                    0 < grace_period
                };
            }
            proof {
                assert(self.tombstones().skip(i as int).drop_first() =~= self.tombstones().skip(
                    i as int + 1,
                ));
            }
            i = i + 1;
        }
        proof {
            assert(self.tombstones().skip(n as int) =~= Seq::<(Endpoint, u64)>::empty());
        }
        false
    }
}

} // verus!
