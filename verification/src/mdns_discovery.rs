//! The alternate, mDNS-flavoured discovery path: hostname sanitizing, the
//! registered service description, and the record-processing logic, over
//! plain modelled DNS records. Listening for the records themselves happens
//! outside the library.

use vstd::prelude::*;
use vstd::string::StrSliceExecFns;
use vstd::string::StringExecFns;
use crate::endpoint::Endpoint;
use crate::peer_list::PeerList;
use crate::peer_list::RecordV;
use crate::peer_list::effective_name;
use crate::peer_list::is_anon;
use crate::text::str_eq;
use crate::heartbeats::lemma_upsert_prefix;

verus! {

/// Names what `char::is_alphanumeric` holds of a character: the Unicode
/// alphanumeric property, a fact of the character alone.
pub uninterp spec fn is_alnum(c: char) -> bool;

/// Relies on char::is_alphanumeric: whether the character is alphabetic or
/// a number by its Unicode category.
#[verifier::external_body]
fn char_is_alphanumeric(c: char) -> (r: bool)
    ensures
        r == is_alnum(c),
{
    c.is_alphanumeric()
}

/// Names what str's `to_lowercase` returns: the Unicode lowercase of a
/// character sequence, a function of the characters alone.
pub uninterp spec fn lower_of(s: Seq<char>) -> Seq<char>;

/// Relies on str::to_lowercase: the lowercase equivalent of the text,
/// depending on its characters alone. Case mapping only ever expands a
/// character into one or more characters, so nonempty text stays nonempty.
#[verifier::external_body]
fn to_lowercase_str(s: &str) -> (r: String)
    ensures
        r@ == lower_of(s@),
        s@.len() > 0 ==> r@.len() > 0,
{
    s.to_lowercase()
}

/// Every character kept as is if alphanumeric, replaced by a hyphen else.
pub open spec fn hyphen_mapped(s: Seq<char>) -> Seq<char> {
    s.map(|i: int, c: char| if is_alnum(c) { c } else { '-' })
}

/// Count of leading hyphens.
pub open spec fn lead_hyphens(s: Seq<char>, i: int) -> int
    decreases s.len() - i,
{
    if 0 <= i < s.len() && s[i] == '-' {
        1 + lead_hyphens(s, i + 1)
    } else {
        0
    }
}

/// Count of trailing hyphens before position `j`.
pub open spec fn trail_hyphens(s: Seq<char>, j: int) -> int
    decreases j,
{
    if 0 < j <= s.len() && s[j - 1] == '-' {
        1 + trail_hyphens(s, j - 1)
    } else {
        0
    }
}

/// `s` with leading and trailing hyphens removed.
pub open spec fn hyphen_trimmed(s: Seq<char>) -> Seq<char> {
    let a = lead_hyphens(s, 0);
    if a == s.len() {
        Seq::empty()
    } else {
        s.subrange(a, s.len() - trail_hyphens(s, s.len() as int))
    }
}

/// What `sanitize_hostname` returns: non-alphanumeric characters become
/// hyphens, outer hyphens are trimmed, an empty result becomes "user", and
/// the rest is lowercased.
pub open spec fn sanitized_chars(s: Seq<char>) -> Seq<char> {
    let t = hyphen_trimmed(hyphen_mapped(s));
    if t.len() == 0 {
        "user"@
    } else {
        lower_of(t)
    }
}

/// Sanitizes a name for use as a DNS hostname label. The result is never
/// empty.
pub fn sanitize_hostname(input: &str) -> (r: String)
    ensures
        r@ == sanitized_chars(input@),
        r@.len() > 0,
{
    let ghost sv = input@;
    let ghost mapped = hyphen_mapped(sv);
    let len = input.unicode_len();
    let mut work = String::new();
    let mut i: usize = 0;
    proof {
        assert(work@ =~= mapped.subrange(0, 0));
    }
    while i < len
        invariant
            0 <= i <= len,
            len == sv.len(),
            sv == input@,
            mapped == hyphen_mapped(sv),
            work@ == mapped.subrange(0, i as int),
        decreases len - i,
    {
        let c = input.get_char(i);
        if char_is_alphanumeric(c) {
            work.push(c);
        } else {
            work.push('-');
        }
        proof {
            assert(mapped[i as int] == (if is_alnum(sv[i as int]) {
                sv[i as int]
            } else {
                '-'
            }));
            assert(work@ =~= mapped.subrange(0, i as int + 1));
        }
        i = i + 1;
    }
    proof {
        assert(mapped.subrange(0, len as int) =~= mapped);
        assert(mapped.len() == len);
    }
    let mut a: usize = 0;
    while a < len && work.as_str().get_char(a) == '-'
        invariant
            0 <= a <= len,
            work@ == mapped,
            mapped.len() == len,
            lead_hyphens(mapped, 0) == a + lead_hyphens(mapped, a as int),
        decreases len - a,
    {
        a = a + 1;
    }
    proof {
        assert(lead_hyphens(mapped, a as int) == 0);
        assert(lead_hyphens(mapped, 0) == a);
    }
    if a == len {
        proof {
            assert(hyphen_trimmed(mapped).len() == 0);
            reveal_strlit("user");
        }
        return String::from_str("user");
    }
    let probe = work.as_str().get_char(a);
    proof {
        assert(probe != '-') by {
            if probe == '-' {
                assert(lead_hyphens(mapped, a as int) == 1 + lead_hyphens(mapped, a as int + 1));
            }
        }
    }
    let mut b: usize = len;
    while b > a && work.as_str().get_char(b - 1) == '-'
        invariant
            a < b <= len,
            a < len,
            work@ == mapped,
            mapped.len() == len,
            mapped[a as int] != '-',
            lead_hyphens(mapped, 0) == a as int,
            lead_hyphens(mapped, a as int) == 0,
            trail_hyphens(mapped, len as int) == (len - b) + trail_hyphens(mapped, b as int),
        decreases b,
    {
        b = b - 1;
    }
    proof {
        assert(trail_hyphens(mapped, b as int) == 0);
        assert(trail_hyphens(mapped, len as int) == len - b);
        assert(hyphen_trimmed(mapped) == mapped.subrange(a as int, b as int));
    }
    let core_part = work.as_str().substring_char(a, b);
    proof {
        assert(core_part@ == hyphen_trimmed(mapped));
        assert(core_part@.len() > 0);
    }
    to_lowercase_str(core_part)
}

/// The service name this chat advertises under.
pub open spec fn service_name_chars() -> Seq<char> {
    "_pung-chat._udp.local"@
}

/// The registered mDNS service description of this instance.
pub struct MdnsService {
    pub username: String,
    pub port: u16,
    pub service_name: String,
}

impl MdnsService {
    /// Describes this instance's mDNS registration.
    pub fn register(username: String, port: u16) -> (r: MdnsService)
        ensures
            r.username == username,
            r.port == port,
            r.service_name@ == service_name_chars(),
    {
        MdnsService { username, port, service_name: String::from_str("_pung-chat._udp.local") }
    }
}

/// A peer as mDNS described it.
pub struct DiscoveredPeer {
    pub hostname: String,
    pub endpoint: Endpoint,
    pub username: Option<String>,
    pub txt_records: Vec<(String, String)>,
}

impl DiscoveredPeer {
    /// The name to record the peer under: its advertised username, or its
    /// hostname when none was advertised.
    pub fn get_username(&self) -> (r: String)
        ensures
            r@ == (match self.username {
                Some(u) => u@,
                None => self.hostname@,
            }),
    {
        match &self.username {
            Some(u) => u.clone(),
            None => self.hostname.clone(),
        }
    }
}

/// One DNS record of a response, reduced to what the logic reads.
pub enum DnsRecord {
    A { ip0: u8, ip1: u8, ip2: u8, ip3: u8 },
    Srv { port: u16, target: String },
    Txt { entries: Vec<String> },
    Other,
}

/// The entries of a TXT block, as character sequences.
pub open spec fn entry_views(v: Seq<String>) -> Seq<Seq<char>> {
    v.map(|i: int, s: String| s@)
}

/// The position of the first '=' in `e` at or after `i`, or the length.
pub open spec fn eq_pos_from(e: Seq<char>, i: int) -> int
    decreases e.len() - i,
{
    if 0 <= i < e.len() {
        if e[i] == '=' {
            i
        } else {
            eq_pos_from(e, i + 1)
        }
    } else {
        e.len() as int
    }
}

/// The value a TXT entry advertises under the key "username", if that is
/// what it carries: the text after the first '=' when the text before it is
/// exactly "username".
pub open spec fn entry_username(e: Seq<char>) -> Option<Seq<char>> {
    let p = eq_pos_from(e, 0);
    if p < e.len() && e.subrange(0, p) == "username"@ {
        Some(e.subrange(p + 1, e.len() as int))
    } else {
        None
    }
}

/// The last advertised username among the entries, if any.
pub open spec fn entries_username(es: Seq<Seq<char>>) -> Option<Seq<char>>
    decreases es.len(),
{
    if es.len() == 0 {
        None
    } else {
        match entry_username(es.last()) {
            Some(v) => Some(v),
            None => entries_username(es.drop_last()),
        }
    }
}

/// The last advertised username across all TXT blocks of a response.
pub open spec fn txt_username(rs: Seq<DnsRecord>) -> Option<Seq<char>>
    decreases rs.len(),
{
    if rs.len() == 0 {
        None
    } else {
        match rs.last() {
            DnsRecord::Txt { entries } => match entries_username(entry_views(entries@)) {
                Some(v) => Some(v),
                None => txt_username(rs.drop_last()),
            },
            _ => txt_username(rs.drop_last()),
        }
    }
}

/// The port and target hostname of the last SRV record, if any.
pub open spec fn last_srv(rs: Seq<DnsRecord>) -> Option<(u16, Seq<char>)>
    decreases rs.len(),
{
    if rs.len() == 0 {
        None
    } else {
        match rs.last() {
            DnsRecord::Srv { port, target } => Some((port, target@)),
            _ => last_srv(rs.drop_last()),
        }
    }
}

/// The name a response's peers are recorded under: the advertised username,
/// or the SRV target when none was advertised.
pub open spec fn response_name(rs: Seq<DnsRecord>, target: Seq<char>) -> Seq<char> {
    match txt_username(rs) {
        Some(u) => u,
        None => target,
    }
}

/// The endpoints a response names, from position `i` on: one per A record,
/// at the SRV port, our own endpoint skipped.
pub open spec fn response_endpoints_from(
    rs: Seq<DnsRecord>,
    port: u16,
    local: Endpoint,
    i: int,
) -> Seq<Endpoint>
    decreases rs.len() - i,
{
    if i < 0 || i >= rs.len() {
        Seq::empty()
    } else {
        let rest = response_endpoints_from(rs, port, local, i + 1);
        match rs[i] {
            DnsRecord::A { ip0, ip1, ip2, ip3 } => {
                let ep = Endpoint { ip0, ip1, ip2, ip3, port };
                if ep == local {
                    rest
                } else {
                    seq![ep] + rest
                }
            },
            _ => rest,
        }
    }
}

/// Processes one mDNS response. With no SRV record nothing is recorded.
/// With one, every endpoint the response names — each A address at the SRV
/// port, our own endpoint skipped — is recorded under the response's name,
/// in order, and the returned report lists exactly those (name, endpoint)
/// pairs. Existing records keep their identities; records at endpoints the
/// response does not name are untouched.
pub fn process_response(
    records: &Vec<DnsRecord>,
    peer_list: &mut PeerList,
    local_addr: Endpoint,
    now: u64,
) -> (added: Vec<(String, Endpoint)>)
    requires
        old(peer_list).wf(),
    ensures
        final(peer_list).wf(),
        final(peer_list).tombstones() == old(peer_list).tombstones(),
        old(peer_list).records().len() <= final(peer_list).records().len(),
        forall|i: int|
            0 <= i < old(peer_list).records().len() ==> final(peer_list).records()[i].username == (
            #[trigger] old(peer_list).records()[i]).username && final(peer_list).records()[i].addr
                == old(peer_list).records()[i].addr,
        last_srv(records@) is None ==> final(peer_list).records() == old(peer_list).records()
            && added@.len() == 0,
        last_srv(records@) matches Some((p, h)) ==> {
            let name = response_name(records@, h);
            let eps = response_endpoints_from(records@, p, local_addr, 0);
            &&& added@.len() == eps.len()
            &&& forall|j: int|
                0 <= j < added@.len() ==> (#[trigger] added@[j]).0@ == name && added@[j].1 == eps[j]
            &&& forall|i: int|
                0 <= i < old(peer_list).records().len() && !eps.contains(
                    (#[trigger] old(peer_list).records()[i]).addr,
                ) ==> final(peer_list).records()[i] == old(peer_list).records()[i]
            &&& forall|j: int|
                0 <= j < eps.len() && !is_anon(effective_name(name, #[trigger] eps[j]))
                    ==> crate::peer_list::has_key(
                    final(peer_list).records(),
                    effective_name(name, eps[j]),
                    eps[j],
                )
            &&& forall|i: int|
                old(peer_list).records().len() <= i < final(peer_list).records().len() ==> {
                    let rec = #[trigger] final(peer_list).records()[i];
                    &&& eps.contains(rec.addr)
                    &&& rec.username == effective_name(name, rec.addr)
                    &&& rec.last_seen == now
                }
        },
{
    let ghost rs = records@;
    let ghost pre = old(peer_list).records();
    let mut ips: Vec<(u8, u8, u8, u8)> = Vec::new();
    let mut port: Option<u16> = None;
    let mut hostname: Option<String> = None;
    let mut username: Option<String> = None;
    let n = records.len();
    let mut i: usize = 0;
    proof {
        assert(rs.subrange(0, 0) =~= Seq::<DnsRecord>::empty());
    }
    while i < n
        invariant
            0 <= i <= n,
            n == rs.len(),
            rs == records@,
            (match (port, hostname) {
                (Some(pv), Some(hv)) => last_srv(rs.subrange(0, i as int)) == Some((pv, hv@)),
                (None, None) => last_srv(rs.subrange(0, i as int)) is None,
                _ => false,
            }),
            (match username {
                Some(uv) => txt_username(rs.subrange(0, i as int)) == Some(uv@),
                None => txt_username(rs.subrange(0, i as int)) is None,
            }),
        decreases n - i,
    {
        let ghost prefix = rs.subrange(0, i as int);
        proof {
            assert(rs.subrange(0, i as int + 1).drop_last() =~= prefix);
            assert(rs.subrange(0, i as int + 1).last() == rs[i as int]);
        }
        match &records[i] {
            DnsRecord::A { ip0, ip1, ip2, ip3 } => {
                ips.push((*ip0, *ip1, *ip2, *ip3));
            },
            DnsRecord::Srv { port: p, target } => {
                port = Some(*p);
                hostname = Some(target.clone());
            },
            DnsRecord::Txt { entries } => {
                let ghost txt_before = match &username {
                    Some(uv) => Some(uv@),
                    None => None::<Seq<char>>,
                };
                let m = entries.len();
                let mut j: usize = 0;
                proof {
                    assert(entry_views(entries@).subrange(0, 0) =~= Seq::<Seq<char>>::empty());
                }
                while j < m
                    invariant
                        0 <= j <= m,
                        m == entries@.len(),
                        (match username {
                            Some(uv) => (match entries_username(
                                entry_views(entries@).subrange(0, j as int),
                            ) {
                                Some(v) => v == uv@,
                                None => txt_before == Some(uv@),
                            }),
                            None => entries_username(
                                entry_views(entries@).subrange(0, j as int),
                            ) is None && txt_before is None,
                        }),
                    decreases m - j,
                {
                    let entry = entries[j].as_str();
                    let ghost ev = entries@[j as int]@;
                    let elen = entry.unicode_len();
                    let mut t: usize = 0;
                    while t < elen && entry.get_char(t) != '='
                        invariant
                            0 <= t <= elen,
                            elen == ev.len(),
                            ev == entry@,
                            eq_pos_from(ev, 0) == eq_pos_from(ev, t as int),
                        decreases elen - t,
                    {
                        t = t + 1;
                    }
                    proof {
                        assert(eq_pos_from(ev, 0) == t as int);
                        assert(entry_views(entries@).subrange(0, j as int + 1).drop_last()
                            =~= entry_views(entries@).subrange(0, j as int));
                        assert(entry_views(entries@).subrange(0, j as int + 1).last() == ev);
                    }
                    if t < elen {
                        let key = entry.substring_char(0, t);
                        let value = entry.substring_char(t + 1, elen);
                        if str_eq(key, "username") {
                            username = Some(String::from_str(value));
                            proof {
                                assert(entry_username(ev) == Some(ev.subrange(
                                    t as int + 1,
                                    ev.len() as int,
                                )));
                            }
                        } else {
                            proof {
                                assert(entry_username(ev) is None);
                            }
                        }
                    } else {
                        proof {
                            assert(entry_username(ev) is None);
                        }
                    }
                    j = j + 1;
                }
                proof {
                    assert(entry_views(entries@).subrange(0, m as int) =~= entry_views(entries@));
                }
            },
            DnsRecord::Other => {},
        }
        i = i + 1;
    }
    proof {
        assert(rs.subrange(0, n as int) =~= rs);
    }
    let mut added: Vec<(String, Endpoint)> = Vec::new();
    let (p, h) = match (port, hostname) {
        (Some(p), Some(h)) => (p, h),
        _ => {
            return added;
        },
    };
    let name: String = match username {
        Some(u) => u,
        None => h,
    };
    proof {
        assert(name@ == response_name(rs, (last_srv(rs)->0).1));
    }
    let ghost gname = name@;
    let ghost geps = response_endpoints_from(rs, p, local_addr, 0);
    let k = records.len();
    let mut w: usize = 0;
    proof {
        assert(added@ =~= Seq::<(String, Endpoint)>::empty());
    }
    while w < k
        invariant
            0 <= w <= k,
            k == rs.len(),
            rs == records@,
            gname == name@,
            geps == response_endpoints_from(rs, p, local_addr, 0),
            peer_list.wf(),
            peer_list.tombstones() == old(peer_list).tombstones(),
            pre == old(peer_list).records(),
            pre.len() <= peer_list.records().len(),
            added@.len() + response_endpoints_from(rs, p, local_addr, w as int).len()
                == geps.len(),
            forall|j: int|
                0 <= j < added@.len() ==> (#[trigger] added@[j]).0@ == gname && added@[j].1
                    == geps[j],
            forall|j: int|
                0 <= j < added@.len() ==> #[trigger] geps[j] == added@[j].1,
            forall|j2: int|
                added@.len() <= j2 < geps.len() ==> #[trigger] geps[j2]
                    == response_endpoints_from(rs, p, local_addr, w as int)[j2 - added@.len()],
            forall|i2: int|
                0 <= i2 < pre.len() ==> (#[trigger] peer_list.records()[i2]).username
                    == pre[i2].username && peer_list.records()[i2].addr == pre[i2].addr,
            forall|i2: int|
                0 <= i2 < pre.len() && !geps.subrange(0, added@.len() as int).contains(
                    (#[trigger] pre[i2]).addr,
                ) ==> peer_list.records()[i2] == pre[i2],
            forall|j: int|
                0 <= j < added@.len() && !is_anon(effective_name(gname, #[trigger] geps[j]))
                    ==> crate::peer_list::has_key(
                    peer_list.records(),
                    effective_name(gname, geps[j]),
                    geps[j],
                ),
            forall|i2: int|
                pre.len() <= i2 < peer_list.records().len() ==> {
                    let rec = #[trigger] peer_list.records()[i2];
                    &&& geps.subrange(0, added@.len() as int).contains(rec.addr)
                    &&& rec.username == effective_name(gname, rec.addr)
                    &&& rec.last_seen == now
                },
        decreases k - w,
    {
        let ghost suffix = response_endpoints_from(rs, p, local_addr, w as int);
        match &records[w] {
            DnsRecord::A { ip0, ip1, ip2, ip3 } => {
                let socket_addr = Endpoint { ip0: *ip0, ip1: *ip1, ip2: *ip2, ip3: *ip3, port: p };
                if !(socket_addr == local_addr) {
                    proof {
                        assert(suffix == seq![socket_addr] + response_endpoints_from(
                            rs,
                            p,
                            local_addr,
                            w as int + 1,
                        ));
                        assert(geps[added@.len() as int] == socket_addr);
                    }
                    let ghost before = peer_list.records();
                    peer_list.add_or_update_peer(socket_addr, name.clone(), now);
                    proof {
                        lemma_upsert_prefix(
                            before,
                            peer_list.records(),
                            socket_addr,
                            gname,
                            now,
                        );
                    }
                    added.push((name.clone(), socket_addr));
                    proof {
                        let cnt = added@.len() as int;
                        assert(geps.subrange(0, cnt) =~= geps.subrange(0, cnt - 1).push(
                            socket_addr,
                        ));
                        assert forall|i2: int|
                            0 <= i2 < pre.len() && !geps.subrange(0, cnt).contains(
                                (#[trigger] pre[i2]).addr,
                            ) implies peer_list.records()[i2] == pre[i2] by {
                            assert(!geps.subrange(0, cnt - 1).contains(pre[i2].addr)) by {
                                if geps.subrange(0, cnt - 1).contains(pre[i2].addr) {
                                    let q = choose|q: int|
                                        0 <= q < cnt - 1 && #[trigger] geps.subrange(
                                            0,
                                            cnt - 1,
                                        )[q] == pre[i2].addr;
                                    assert(geps.subrange(0, cnt)[q] == pre[i2].addr);
                                }
                            }
                            assert(pre[i2].addr != socket_addr) by {
                                assert(geps.subrange(0, cnt)[cnt - 1] == socket_addr);
                            }
                            assert(before[i2] == pre[i2]);
                        }
                        assert forall|j: int|
                            0 <= j < added@.len() && !is_anon(effective_name(
                                gname,
                                #[trigger] geps[j],
                            )) implies crate::peer_list::has_key(
                            peer_list.records(),
                            effective_name(gname, geps[j]),
                            geps[j],
                        ) by {
                            if j < added@.len() - 1 {
                                assert(crate::peer_list::has_key(
                                    before,
                                    effective_name(gname, geps[j]),
                                    geps[j],
                                ));
                                let q = choose|q: int|
                                    0 <= q < before.len() && crate::peer_list::same_key(
                                        #[trigger] before[q],
                                        effective_name(gname, geps[j]),
                                        geps[j],
                                    );
                                assert(peer_list.records()[q].username == before[q].username
                                    && peer_list.records()[q].addr == before[q].addr);
                            }
                        }
                        assert forall|i2: int|
                            pre.len() <= i2 < peer_list.records().len() implies {
                            let rec = #[trigger] peer_list.records()[i2];
                            &&& geps.subrange(0, cnt).contains(rec.addr)
                            &&& rec.username == effective_name(gname, rec.addr)
                            &&& rec.last_seen == now
                        } by {
                            if i2 < before.len() {
                                assert(peer_list.records()[i2] == before[i2]);
                                assert(geps.subrange(0, cnt - 1).contains(before[i2].addr));
                                let q = choose|q: int|
                                    0 <= q < cnt - 1 && #[trigger] geps.subrange(0, cnt - 1)[q]
                                        == before[i2].addr;
                                assert(geps.subrange(0, cnt)[q] == before[i2].addr);
                            } else {
                                assert(peer_list.records()[i2] == (RecordV {
                                    addr: socket_addr,
                                    username: effective_name(gname, socket_addr),
                                    last_seen: now,
                                }));
                                assert(geps.subrange(0, cnt)[cnt - 1] == socket_addr);
                            }
                        }
                    }
                } else {
                    proof {
                        assert(suffix =~= response_endpoints_from(rs, p, local_addr, w as int + 1));
                    }
                }
            },
            _ => {
                proof {
                    assert(suffix =~= response_endpoints_from(rs, p, local_addr, w as int + 1));
                }
            },
        }
        w = w + 1;
    }
    proof {
        assert(response_endpoints_from(rs, p, local_addr, k as int)
            =~= Seq::<Endpoint>::empty());
        assert(geps.subrange(0, added@.len() as int) =~= geps);
    }
    added
}

} // verus!