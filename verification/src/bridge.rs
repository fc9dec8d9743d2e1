//! The bridge's decisions. The bridge reads UDP datagrams and overlay messages and sends
//! both on; here is what it decides for each (drop, publish, deliver, relay), as steps
//! from the bridge state and an input to the next state and an action. Reading, sending
//! and the clock are left to the caller.

use std::collections::HashSet;
use vstd::prelude::*;
use vstd::string::StringExecFns;
use vstd::utf8::{decode_utf8, encode_utf8, valid_utf8};

use crate::config::BridgeConfig;
use crate::dedupe::{
    expire_before, lemma_expired_is_new, lemma_repeat_within_ttl, seen_after_add, times_sorted,
    SeenCache, SeenEntry,
};
use crate::multicast::{address, byte_sum, mapped_index, MulticastConfig};
use crate::overlay::OverlayMeta;
use crate::wire::{decode_udp_event, spec_decode, utf8_lossy};

verus! {

broadcast use vstd::std_specs::hash::group_hash_axioms;

/// The bridge state as the decisions see it.
pub struct BridgeView {
    pub site_id: Seq<char>,
    pub bridge_id: Seq<char>,
    pub udp_port: u16,
    pub forward_remote: bool,
    pub max_hops: u32,
    /// The UDP port this bridge sends multicast datagrams from.
    pub send_port: u16,
    /// The multicast setting: three leading octets, first and last of the last octets.
    pub mcast: (u8, u8, u8, u8, u8),
    /// The records of the ids seen, oldest first.
    pub seen: Seq<SeenEntry>,
    pub seen_ttl: u64,
    pub seen_max: nat,
    /// UDP source ports known to belong to bridges: datagrams from them are not taken in.
    pub known_ports: Set<u16>,
}

/// The state of one bridge.
pub struct BridgeState {
    site_id: String,
    bridge_id: String,
    udp_port: u16,
    forward_remote: bool,
    max_hops: u32,
    send_port: u16,
    mcast: MulticastConfig,
    seen: SeenCache,
    known_ports: HashSet<u16>,
}

impl View for BridgeState {
    type V = BridgeView;

    closed spec fn view(&self) -> BridgeView {
        BridgeView {
            site_id: self.site_id@,
            bridge_id: self.bridge_id@,
            udp_port: self.udp_port,
            forward_remote: self.forward_remote,
            max_hops: self.max_hops,
            send_port: self.send_port,
            mcast: self.mcast@,
            seen: self.seen.entries(),
            seen_ttl: self.seen.ttl(),
            seen_max: self.seen.max_entries(),
            known_ports: self.known_ports@,
        }
    }
}

/// Where to send a relayed datagram, and the copy to publish on, if any.
pub struct Relay {
    /// The multicast group.
    pub target: [u8; 4],
    /// The UDP port.
    pub port: u16,
    /// The metadata of the copy published on the overlay, if the message travels on.
    pub forward: Option<OverlayMeta>,
}

/// The state after recording a locally originated event id at `now`.
pub open spec fn spec_originate(v: BridgeView, id: Seq<char>, now: u64) -> BridgeView {
    BridgeView { seen: seen_after_add(v.seen, v.seen_ttl, v.seen_max, id, now).0, ..v }
}

/// An overlay message with id `id` from bridge `sender` sending from `port` arrives at `now`:
/// its port becomes known, its id is recorded unless still alive, and it is taken in
/// exactly when its id was new and it was not sent by this bridge.
pub open spec fn spec_admit_overlay(
    v: BridgeView,
    id: Seq<char>,
    sender: Seq<char>,
    port: u16,
    now: u64,
) -> (BridgeView, bool) {
    let (seen1, fresh) = seen_after_add(v.seen, v.seen_ttl, v.seen_max, id, now);
    (BridgeView { seen: seen1, known_ports: v.known_ports.insert(port), ..v }, fresh && sender
        != v.bridge_id)
}

/// Lower-case hexadecimal digits.
pub open spec fn is_lower_hex(c: char) -> bool {
    ('0' <= c <= '9') || ('a' <= c <= 'f')
}

/// An event id of site `site`: the site, a colon, and 32 lower-case hexadecimal digits.
pub open spec fn is_event_id_of(id: Seq<char>, site: Seq<char>) -> bool {
    &&& id.len() == site.len() + 33
    &&& id.take(site.len() as int) == site
    &&& id[site.len() as int] == ':'
    &&& forall|i: int| site.len() < i < id.len() ==> is_lower_hex(#[trigger] id[i])
}

/// Calls `uuid::Uuid::new_v4()` and formats it with `.simple()`.
/// Claimed, as the uuid source shows: 32 lower-case hexadecimal digits. Which digits
/// (random) is left unsaid.
#[verifier::external_body]
fn new_uuid_simple() -> (token: String)
    ensures
        token@.len() == 32,
        forall|i: int| 0 <= i < 32 ==> is_lower_hex(#[trigger] token@[i]),
{
    uuid::Uuid::new_v4().simple().to_string()
}

/// The event id of `site_id` with `token`: `site_id:token`.
pub fn event_id_for(site_id: &str, token: &str) -> (id: String)
    ensures
        id@ == site_id@ + seq![':'] + token@,
{
    let mut id = String::from_str(site_id);
    let colon = ":";
    proof {
        reveal_strlit(":");
    }
    id.append(colon);
    id.append(token);
    id
}

impl BridgeState {
    /// The state of a bridge with configuration `cfg`, multicast setting `mcast`, sending
    /// from `send_port`: nothing seen yet, and only its own send port known.
    pub fn new(cfg: &BridgeConfig, mcast: MulticastConfig, send_port: u16) -> (s: Self)
        ensures
            s@.site_id == cfg.site_id@,
            s@.bridge_id == cfg.bridge_id@,
            s@.udp_port == cfg.udp_port,
            s@.forward_remote == cfg.forward_remote,
            s@.max_hops == cfg.max_hops,
            s@.send_port == send_port,
            s@.mcast == mcast@,
            s@.seen == Seq::<SeenEntry>::empty(),
            s@.seen_ttl == (if cfg.seen_ttl_seconds * 1_000_000_000 <= u64::MAX {
                cfg.seen_ttl_seconds * 1_000_000_000
            } else {
                u64::MAX as int
            }),
            s@.seen_max == cfg.seen_max_entries,
            s@.known_ports == Set::<u16>::empty().insert(send_port),
    {
        let mut known_ports: HashSet<u16> = HashSet::new();
        known_ports.insert(send_port);
        BridgeState {
            site_id: cfg.site_id.clone(),
            bridge_id: cfg.bridge_id.clone(),
            udp_port: cfg.udp_port,
            forward_remote: cfg.forward_remote,
            max_hops: cfg.max_hops,
            send_port,
            mcast,
            seen: SeenCache::new(cfg.seen_ttl_nanos(), cfg.seen_max_entries),
            known_ports,
        }
    }

    /// A fresh event id of this bridge's site: the site, a colon and a random token.
    pub fn new_event_id(&self) -> (id: String)
        ensures
            is_event_id_of(id@, self@.site_id),
    {
        let token = new_uuid_simple();
        let id = event_id_for(self.site_id.as_str(), token.as_str());
        proof {
            let site = self@.site_id;
            assert(id@.take(site.len() as int) =~= site);
            assert forall|i: int| site.len() < i < id@.len() implies is_lower_hex(#[trigger] id@[i]) by {
                assert(id@[i] == token@[i - site.len() - 1]);
            }
        }
        id
    }

    /// An event `event` entering the overlay here under id `event_id` at `now`: the id is
    /// recorded (so the overlay's copies of it are not taken in again), and the metadata
    /// names this site as origin and this bridge as sender, with no hops.
    pub fn originate(&mut self, event_id: String, event: String, now: u64) -> (meta: OverlayMeta)
        ensures
            final(self)@ == spec_originate(old(self)@, event_id@, now),
            meta.id@ == event_id@,
            meta.origin@ == old(self)@.site_id,
            meta.sender@ == old(self)@.bridge_id,
            meta.sender_udp_port == old(self)@.send_port,
            meta.hops == 0,
            meta.event@ == event@,
            meta.via is None,
    {
        let _ = self.seen.add_if_new(event_id.as_str(), now);
        OverlayMeta {
            id: event_id,
            origin: self.site_id.clone(),
            sender: self.bridge_id.clone(),
            sender_udp_port: self.send_port,
            hops: 0,
            event,
            via: None,
        }
    }

    /// A UDP datagram from source port `src_port` read at `now`, to enter the overlay under
    /// id `event_id`. It is dropped when its port belongs to a bridge (so what bridges
    /// rebroadcast does not loop back) or when it is not a well-formed event; otherwise the
    /// event originates here and its metadata is returned for publishing.
    pub fn admit_udp_with_id(
        &mut self,
        src_port: u16,
        datagram: &[u8],
        event_id: String,
        now: u64,
    ) -> (r: Option<OverlayMeta>)
        ensures
            r is None <==> (old(self)@.known_ports.contains(src_port) || spec_decode(
                datagram@,
            ) is Err),
            r is None ==> final(self)@ == old(self)@,
            r matches Some(meta) ==> {
                let name = spec_decode(datagram@)->Ok_0.0;
                &&& final(self)@ == spec_originate(old(self)@, event_id@, now)
                &&& meta.id@ == event_id@
                &&& meta.origin@ == old(self)@.site_id
                &&& meta.sender@ == old(self)@.bridge_id
                &&& meta.sender_udp_port == old(self)@.send_port
                &&& meta.hops == 0
                &&& meta.via is None
                &&& meta.event@ == utf8_lossy(name)
                &&& (valid_utf8(name) ==> meta.event@ == decode_utf8(name))
            },
    {
        if self.known_ports.contains(&src_port) {
            return None;
        }
        match decode_udp_event(datagram) {
            Ok(decoded) => Some(self.originate(event_id, decoded.event_name, now)),
            Err(_) => None,
        }
    }

    /// As `admit_udp_with_id`, under a fresh id of this site.
    pub fn admit_udp(&mut self, src_port: u16, datagram: &[u8], now: u64) -> (r: Option<OverlayMeta>)
        ensures
            r is None <==> (old(self)@.known_ports.contains(src_port) || spec_decode(
                datagram@,
            ) is Err),
            r is None ==> final(self)@ == old(self)@,
            r matches Some(meta) ==> {
                let name = spec_decode(datagram@)->Ok_0.0;
                &&& final(self)@ == spec_originate(old(self)@, meta.id@, now)
                &&& is_event_id_of(meta.id@, old(self)@.site_id)
                &&& meta.origin@ == old(self)@.site_id
                &&& meta.sender@ == old(self)@.bridge_id
                &&& meta.sender_udp_port == old(self)@.send_port
                &&& meta.hops == 0
                &&& meta.via is None
                &&& meta.event@ == utf8_lossy(name)
                &&& (valid_utf8(name) ==> meta.event@ == decode_utf8(name))
            },
    {
        let event_id = self.new_event_id();
        self.admit_udp_with_id(src_port, datagram, event_id, now)
    }

    /// An overlay message arriving at `now`: its sender's port becomes known, its id is
    /// recorded unless still alive, and it is taken in (to be delivered and perhaps relayed)
    /// exactly when the id was new and this bridge did not send it.
    pub fn admit_overlay(&mut self, meta: &OverlayMeta, now: u64) -> (admitted: bool)
        ensures
            (final(self)@, admitted) == spec_admit_overlay(
                old(self)@,
                meta.id@,
                meta.sender@,
                meta.sender_udp_port,
                now,
            ),
    {
        self.known_ports.insert(meta.sender_udp_port);
        let fresh = self.seen.add_if_new(meta.id.as_str(), now);
        if !fresh {
            return false;
        }
        !(meta.sender == self.bridge_id)
    }

    /// What to do with a message taken in: send its datagram to the multicast group of its
    /// event on the UDP port, and, when relaying is on and the message has made fewer than
    /// `max_hops` hops, publish a copy one hop further on, relayed by this site and sent by
    /// this bridge. The group computation being `u8` and `u32` arithmetic, the range may
    /// not span all 256 values and the event's byte sum may not exceed `u32::MAX`.
    pub fn relay(&self, meta: OverlayMeta) -> (r: Relay)
        requires
            self@.mcast.3 <= self@.mcast.4,
            self@.mcast.4 - self@.mcast.3 < 255,
            byte_sum(encode_utf8(meta.event@)) <= u32::MAX,
        ensures
            r.target == address(
                self@.mcast.0,
                self@.mcast.1,
                self@.mcast.2,
                mapped_index(self@.mcast.3, self@.mcast.4, byte_sum(encode_utf8(meta.event@))),
            ),
            r.target[0] == self@.mcast.0 && r.target[1] == self@.mcast.1 && r.target[2]
                == self@.mcast.2,
            r.target[3] as int == self@.mcast.3 + ((byte_sum(encode_utf8(meta.event@)) % 256) * (
            self@.mcast.4 - self@.mcast.3 + 1)) / 256,
            r.port == self@.udp_port,
            r.forward is Some <==> (self@.forward_remote && meta.hops < self@.max_hops),
            r.forward matches Some(f) ==> {
                &&& f.id == meta.id
                &&& f.origin == meta.origin
                &&& f.event == meta.event
                &&& f.hops == meta.hops + 1
                &&& f.hops <= self@.max_hops
                &&& f.via matches Some(v) && v@ == self@.site_id
                &&& f.sender@ == self@.bridge_id
                &&& f.sender_udp_port == self@.send_port
            },
    {
        let target = self.mcast.event_to_multicast(meta.event.as_str());
        let port = self.udp_port;
        if self.forward_remote && meta.hops < self.max_hops {
            let mut f = meta;
            f.hops = f.hops + 1;
            f.via = Some(self.site_id.clone());
            f.sender = self.bridge_id.clone();
            f.sender_udp_port = self.send_port;
            Relay { target, port, forward: Some(f) }
        } else {
            Relay { target, port, forward: None }
        }
    }
}

/// A bridge never takes in a message it sent itself, whatever its id and whenever it comes.
pub proof fn lemma_own_messages_not_admitted(v: BridgeView, id: Seq<char>, port: u16, now: u64)
    ensures
        !spec_admit_overlay(v, id, v.bridge_id, port, now).1,
{
}

/// Each event is delivered at most once per time-to-live: once a message was taken in at
/// `now`, a message with the same id (from any sender) arriving at `now2`, whose expiry
/// threshold does not pass `now`, is not taken in; provided the bridge keeps at least one
/// record.
pub proof fn lemma_admitted_once(
    v: BridgeView,
    id: Seq<char>,
    sender1: Seq<char>,
    port1: u16,
    now: u64,
    sender2: Seq<char>,
    port2: u16,
    now2: u64,
)
    requires
        v.seen_max > 0,
        spec_admit_overlay(v, id, sender1, port1, now).1,
        expire_before(now2, v.seen_ttl) <= now,
    ensures
        !spec_admit_overlay(spec_admit_overlay(v, id, sender1, port1, now).0, id, sender2, port2, now2).1,
{
    lemma_repeat_within_ttl(v.seen, v.seen_ttl, v.seen_max, id, now, now2);
}

/// An event that entered the overlay here at `now` under an id not recorded before is not
/// taken in again when copies of it come back over the overlay within the time-to-live,
/// whoever relayed them; provided the bridge keeps at least one record.
pub proof fn lemma_originated_not_readmitted(
    v: BridgeView,
    id: Seq<char>,
    now: u64,
    sender: Seq<char>,
    port: u16,
    now2: u64,
)
    requires
        v.seen_max > 0,
        seen_after_add(v.seen, v.seen_ttl, v.seen_max, id, now).1,
        expire_before(now2, v.seen_ttl) <= now,
    ensures
        !spec_admit_overlay(spec_originate(v, id, now), id, sender, port, now2).1,
{
    lemma_repeat_within_ttl(v.seen, v.seen_ttl, v.seen_max, id, now, now2);
}

/// Loop suppression: after a message from a bridge sending from `port` arrives, that port
/// is known, so UDP datagrams from it are no longer taken in; known ports are never
/// forgotten.
pub proof fn lemma_sender_port_known(v: BridgeView, id: Seq<char>, sender: Seq<char>, port: u16, now: u64)
    ensures
        spec_admit_overlay(v, id, sender, port, now).0.known_ports.contains(port),
        v.known_ports.subset_of(spec_admit_overlay(v, id, sender, port, now).0.known_ports),
{
}

/// Admission, the positive half: a message whose id has no live record and whose sender
/// is not this bridge is taken in, whatever its id, origin, site prefix or port. An id has
/// no live record when no record holds it, or when the records are in time order and
/// every record of it is older than the expiry threshold at `now`. The other ids' records
/// and the known ports do not matter.
pub proof fn lemma_fresh_foreign_admitted(
    v: BridgeView,
    id: Seq<char>,
    sender: Seq<char>,
    port: u16,
    now: u64,
)
    requires
        sender != v.bridge_id,
        (forall|i: int| 0 <= i < v.seen.len() ==> #[trigger] v.seen[i].1 != id) || (times_sorted(
            v.seen,
        ) && forall|i: int|
            0 <= i < v.seen.len() && #[trigger] v.seen[i].1 == id ==> v.seen[i].0 < expire_before(
                now,
                v.seen_ttl,
            )),
    ensures
        spec_admit_overlay(v, id, sender, port, now).1,
{
    if forall|i: int| 0 <= i < v.seen.len() ==> #[trigger] v.seen[i].1 != id {
        let eb = expire_before(now, v.seen_ttl);
        let p = crate::dedupe::pruned(v.seen, eb);
        crate::dedupe::lemma_pruned_is_suffix(v.seen, eb);
        if crate::dedupe::holds_id(p, id) {
            let j = choose|j: int| 0 <= j < p.len() && #[trigger] p[j].1 == id;
            let k = v.seen.len() - p.len();
            assert(p[j] == v.seen[j + k]);
        }
    } else {
        lemma_expired_is_new(v.seen, v.seen_ttl, v.seen_max, id, now);
    }
}

} // verus!
