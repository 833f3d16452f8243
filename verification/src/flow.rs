//! The decisions of a flow node: the control-stream handshake, the
//! handlers of topic subscriptions, what a subscription update announces,
//! how control messages change the topology, and how a publication is
//! delivered locally and routed to the remote subscribers.
use vstd::prelude::*;
use crate::named_table::NamedTable;
use crate::routing::{
    forwards_to, is_routing_tree, lists_target, name_set, string_views, table_well_formed, update_fits,
    DescriptorView, ForwardingTargets, GlobalGraph, GraphView, NodeDescriptor, NodeRole,
    TopologyUpdate,
};
use crate::topic::{match_topic, topic_matches};

verus! {

/// The version of the control protocol that this node speaks.
pub const PROTOCOL_VERSION: u32 = 1u32;

/// The application protocol name that flow nodes announce when the
/// configuration names none: "stric-flow".
pub open spec fn flow_protocol_name() -> Seq<u8> {
    seq![115u8, 116u8, 114u8, 105u8, 99u8, 45u8, 102u8, 108u8, 111u8, 119u8]
}

/// The application protocol names a flow node announces: the configured
/// ones, or "stric-flow" alone when none is configured.
pub fn alpn_or_default(names: Vec<Vec<u8>>) -> (r: Vec<Vec<u8>>)
    ensures
        names@.len() > 0 ==> r@ == names@,
        names@.len() == 0 ==> r@.len() == 1 && r@[0]@ == flow_protocol_name(),
{
    if names.len() > 0 {
        names
    } else {
        let name: Vec<u8> = vec![115u8, 116u8, 114u8, 105u8, 99u8, 45u8, 102u8, 108u8, 111u8, 119u8];
        assert(name@ =~= flow_protocol_name());
        vec![name]
    }
}

/// Metadata kept with each connection of a flow node.
#[derive(Clone, Debug)]
pub struct FlowConnectionMetadata {
    /// The identifier of the peer, once the handshake has told it.
    pub peer_node_id: Option<String>,
}

impl Default for FlowConnectionMetadata {
    /// No peer known yet.
    fn default() -> (m: Self)
        ensures
            m.peer_node_id is None,
    {
        FlowConnectionMetadata { peer_node_id: None }
    }
}

/// A pluggable estimate of the cost of routing between two nodes.
pub trait RoutingMetric: Send + Sync {
    /// The cost of the link from `node_a` to `node_b`, given its base hop
    /// cost and its round-trip time in microseconds.
    fn estimate_cost(&self, node_a: &str, node_b: &str, base_hop_cost: u32, rtt_micros: u64) -> u32;
}

/// The metric that counts hops: a link costs its base hop cost.
pub struct HopCountMetric;

impl RoutingMetric for HopCountMetric {
    fn estimate_cost(&self, _node_a: &str, _node_b: &str, base_hop_cost: u32, _rtt_micros: u64) -> (c: u32)
        ensures
            c == base_hop_cost,
    {
        base_hop_cost
    }
}

/// What the handshake reads of a control message from the peer.
#[derive(Clone, Debug)]
pub enum PeerMessage {
    /// The peer's handshake: its protocol version and identifier.
    Handshake { protocol_version: u32, node_id: String },
    /// The peer's answer to our handshake.
    HandshakeAck { accepted: bool, reject_reason: String },
    /// Any other control message.
    Other,
}

/// The reason sent to a peer whose protocol version is not ours.
pub open spec fn unsupported_version_reason() -> Seq<char> {
    "Unsupported protocol version"@
}

/// How to answer the peer's first control message.
#[derive(Clone, Debug)]
pub enum HandshakeReply {
    /// Acknowledge the handshake of the peer with this identifier.
    Accept { peer_id: String },
    /// Send a refusal with the given reason, then fail with the given error.
    Reject { reason: String, error: String },
    /// Fail with the given error without answering.
    Fail { error: String },
}

/// Answers the peer's first control message: a handshake in our protocol
/// version is accepted; one in another version is refused with "Unsupported
/// protocol version" and fails with "Protocol version mismatch"; any other
/// message fails with "Expected FlowHandshake".
pub fn answer_handshake(msg: &PeerMessage) -> (r: HandshakeReply)
    ensures
        match msg {
            PeerMessage::Handshake { protocol_version, node_id } => if *protocol_version
                == PROTOCOL_VERSION {
                r matches HandshakeReply::Accept { peer_id } && peer_id@ == node_id@
            } else {
                r matches HandshakeReply::Reject { reason, error } && reason@
                    == unsupported_version_reason() && error@ == "Protocol version mismatch"@
            },
            _ => r matches HandshakeReply::Fail { error } && error@ == "Expected FlowHandshake"@,
        },
{
    match msg {
        PeerMessage::Handshake { protocol_version, node_id } => {
            if *protocol_version == PROTOCOL_VERSION {
                HandshakeReply::Accept { peer_id: node_id.clone() }
            } else {
                HandshakeReply::Reject {
                    reason: String::from_str("Unsupported protocol version"),
                    error: String::from_str("Protocol version mismatch"),
                }
            }
        },
        _ => HandshakeReply::Fail { error: String::from_str("Expected FlowHandshake") },
    }
}

/// Checks the peer's answer to our handshake: an acceptance completes the
/// handshake; a refusal fails with "Handshake rejected: " and its reason; any
/// other message fails with "Expected HandshakeAck".
pub fn check_handshake_ack(msg: &PeerMessage) -> (r: Result<(), String>)
    ensures
        match msg {
            PeerMessage::HandshakeAck { accepted, reject_reason } => if *accepted {
                r is Ok
            } else {
                r matches Err(e) && e@ == "Handshake rejected: "@ + reject_reason@
            },
            _ => r matches Err(e) && e@ == "Expected HandshakeAck"@,
        },
{
    match msg {
        PeerMessage::HandshakeAck { accepted, reject_reason } => {
            if *accepted {
                Ok(())
            } else {
                let mut e = String::from_str("Handshake rejected: ");
                e.append(reject_reason.as_str());
                Err(e)
            }
        },
        _ => Err(String::from_str("Expected HandshakeAck")),
    }
}

/// Whether `k` is the position of the first pattern in `patterns` that
/// matches `topic`.
pub open spec fn is_first_match(patterns: Seq<Seq<char>>, topic: Seq<char>, k: int) -> bool {
    &&& 0 <= k < patterns.len()
    &&& topic_matches(patterns[k], topic)
    &&& forall|j: int| 0 <= j < k ==> !topic_matches(#[trigger] patterns[j], topic)
}

/// Whether some pattern in `patterns` matches `topic`.
pub open spec fn any_match(patterns: Seq<Seq<char>>, topic: Seq<char>) -> bool {
    exists|j: int| 0 <= j < patterns.len() && topic_matches(#[trigger] patterns[j], topic)
}

/// The position of the first of `patterns` that matches `topic`.
pub fn first_matching_pattern(patterns: &Vec<String>, topic: &str) -> (r: Option<usize>)
    ensures
        match r {
            Some(k) => is_first_match(patterns@.map_values(|p: String| p@), topic@, k as int),
            None => !any_match(patterns@.map_values(|p: String| p@), topic@),
        },
{
    let ghost views = patterns@.map_values(|p: String| p@);
    let mut i: usize = 0;
    while i < patterns.len()
        invariant
            i <= patterns@.len(),
            views == patterns@.map_values(|p: String| p@),
            forall|j: int| 0 <= j < i ==> !topic_matches(#[trigger] views[j], topic@),
        decreases patterns@.len() - i,
    {
        if match_topic(patterns[i].as_str(), topic) {
            return Some(i);
        }
        i = i + 1;
    }
    None
}

/// The handlers of a node's subscriptions, by topic pattern, in the order
/// the patterns were first subscribed.
pub struct TopicHandlers<H> {
    handlers: NamedTable<H>,
}

impl<H> TopicHandlers<H> {
    /// The patterns and their handlers, in order.
    pub closed spec fn entries(&self) -> Seq<(Seq<char>, H)> {
        self.handlers.entries()
    }

    /// The subscribed patterns, in order.
    pub open spec fn patterns(&self) -> Seq<Seq<char>> {
        self.entries().map_values(|e: (Seq<char>, H)| e.0)
    }

    /// No pattern is subscribed twice.
    pub closed spec fn wf(&self) -> bool {
        self.handlers.wf()
    }

    /// No subscriptions.
    pub fn new() -> (t: Self)
        ensures
            t.wf(),
            t.entries() == Seq::<(Seq<char>, H)>::empty(),
    {
        TopicHandlers { handlers: NamedTable::new() }
    }

    /// Subscribes `handler` to `pattern`, replacing, in its place, the
    /// handler subscribed to that pattern before; a new pattern comes last.
    pub fn subscribe(&mut self, pattern: &str, handler: H)
        requires
            old(self).wf(),
        ensures
            final(self).wf(),
            (exists|i: int|
                0 <= i < old(self).entries().len() && old(self).entries()[i].0 == pattern@
                    && final(self).entries() == old(self).entries().update(i, (pattern@, handler)))
                || (!old(self).patterns().contains(pattern@) && final(self).entries()
                == old(self).entries().push((pattern@, handler))),
    {
        proof {
            self.handlers.lemma_map_is_entries();
            if !self.handlers.map().contains_key(pattern@) {
                assert forall|i: int| 0 <= i < self.patterns().len() implies self.patterns()[i] != pattern@ by {
                    assert(self.patterns()[i] == self.entries()[i].0);
                }
            }
        }
        self.handlers.insert(pattern, handler);
    }

    /// The subscribed patterns, in order.
    pub fn pattern_list(&self) -> (v: Vec<String>)
        ensures
            v@.map_values(|p: String| p@) == self.patterns(),
    {
        let mut v: Vec<String> = Vec::new();
        let mut i: usize = 0;
        while i < self.handlers.len()
            invariant
                i <= self.entries().len(),
                v@.len() == i,
                forall|j: int| 0 <= j < i ==> #[trigger] v@[j]@ == self.entries()[j].0,
            decreases self.entries().len() - i,
        {
            v.push(self.handlers.name_at(i).clone());
            i = i + 1;
        }
        assert(v@.map_values(|p: String| p@) =~= self.patterns());
        v
    }

    /// The handler of the first subscribed pattern that matches `topic`.
    pub fn handler_for(&self, topic: &str) -> (r: Option<&H>)
        ensures
            match r {
                Some(h) => exists|k: int| is_first_match(self.patterns(), topic@, k) && *h == self.entries()[k].1,
                None => !any_match(self.patterns(), topic@),
            },
    {
        let mut i: usize = 0;
        while i < self.handlers.len()
            invariant
                i <= self.entries().len(),
                forall|j: int| 0 <= j < i ==> !topic_matches(#[trigger] self.patterns()[j], topic@),
            decreases self.entries().len() - i,
        {
            if match_topic(self.handlers.name_at(i).as_str(), topic) {
                assert(is_first_match(self.patterns(), topic@, i as int));
                return Some(self.handlers.value_at(i));
            }
            i = i + 1;
        }
        None
    }
}

/// The prefix of the capability keys that announce subscriptions.
pub open spec fn sub_prefix() -> Seq<char> {
    seq!['s', 'u', 'b', ':']
}

/// The capability key that announces a subscription to `pattern`.
pub open spec fn subscription_key(pattern: Seq<char>) -> Seq<char> {
    sub_prefix() + pattern
}

/// Whether the capability key `key` announces a subscription whose pattern
/// matches `topic`.
pub open spec fn key_subscribes_to(key: Seq<char>, topic: Seq<char>) -> bool {
    &&& key.len() >= 4
    &&& key.take(4) == sub_prefix()
    &&& topic_matches(key.skip(4), topic)
}

/// Whether a node's announced capabilities subscribe it to `topic`.
pub open spec fn subscribes_to(d: DescriptorView, topic: Seq<char>) -> bool {
    exists|i: int| 0 <= i < d.capabilities.len() && key_subscribes_to(#[trigger] d.capabilities[i].0, topic)
}

/// The nodes whose announced capabilities subscribe them to `topic`.
pub open spec fn subscriber_set(v: GraphView, topic: Seq<char>) -> Set<Seq<char>> {
    Set::new(|n: Seq<char>| v.metadata.contains_key(n) && subscribes_to(v.metadata[n], topic))
}

/// Whether the capability key `key` announces a subscription whose pattern
/// matches `topic`.
pub fn key_matches(key: &String, topic: &str) -> (b: bool)
    ensures
        b == key_subscribes_to(key@, topic@),
{
    let k = key.as_str();
    let n = k.unicode_len();
    if n < 4 {
        return false;
    }
    if k.get_char(0) == 's' && k.get_char(1) == 'u' && k.get_char(2) == 'b' && k.get_char(3) == ':' {
        assert(key@.take(4) =~= sub_prefix());
        let rest = k.substring_char(4, n);
        assert(rest@ =~= key@.skip(4));
        match_topic(rest, topic)
    } else {
        assert(key@.take(4)[0] == key@[0] && key@.take(4)[1] == key@[1] && key@.take(4)[2] == key@[2]
            && key@.take(4)[3] == key@[3]);
        false
    }
}

/// Whether a node's announced capabilities subscribe it to `topic`.
pub fn descriptor_subscribes(d: &NodeDescriptor, topic: &str) -> (b: bool)
    ensures
        b == subscribes_to(d@, topic@),
{
    let mut i: usize = 0;
    while i < d.capabilities.len()
        invariant
            i <= d.capabilities@.len(),
            forall|j: int| 0 <= j < i ==> !key_subscribes_to(#[trigger] d@.capabilities[j].0, topic@),
        decreases d.capabilities@.len() - i,
    {
        if key_matches(&d.capabilities[i].0, topic) {
            assert(key_subscribes_to(d@.capabilities[i as int].0, topic@));
            return true;
        }
        i = i + 1;
    }
    false
}

/// The nodes whose announced capabilities subscribe them to `topic`, each
/// once.
/// Whether the descriptor subscribes its node to `topic`, kept opaque
/// while a list is scanned.
#[verifier::opaque]
spec fn announces(d: DescriptorView, topic: Seq<char>) -> bool {
    subscribes_to(d, topic)
}

#[verifier::rlimit(30)]
pub fn subscribers_of(graph: &GlobalGraph, topic: &str) -> (subs: Vec<String>)
    requires
        graph.wf(),
    ensures
        name_set(subs@) == subscriber_set(graph@, topic@),
        string_views(subs@).no_duplicates(),
{
    let (descs, _links) = graph.get_descriptors();
    let mut out: Vec<String> = Vec::new();
    // which descriptor each listed node comes from, and where each
    // subscribing descriptor's node was listed
    let ghost mut origin: Seq<int> = Seq::empty();
    let ghost mut slot: Seq<int> = Seq::empty();
    let mut i: usize = 0;
    while i < descs.len()
        invariant
            i <= descs@.len(),
            origin.len() == out@.len(),
            slot.len() == i,
            forall|k: int|
                0 <= k < out@.len() ==> 0 <= #[trigger] origin[k] < i && out@[k]@ == descs@[origin[k]].node_id@
                    && announces(descs@[origin[k]]@, topic@),
            forall|j: int|
                0 <= j < i && announces((#[trigger] descs@[j])@, topic@) ==> 0 <= slot[j] < out@.len()
                    && out@[slot[j]]@ == descs@[j].node_id@,
            forall|a: int, b: int| 0 <= a < b < out@.len() ==> (#[trigger] out@[a])@ != (#[trigger] out@[b])@,
            forall|a: int, b: int|
                0 <= a < descs@.len() && 0 <= b < descs@.len() && a != b ==> (#[trigger] descs@[a]).node_id@
                    != (#[trigger] descs@[b]).node_id@,
        decreases descs@.len() - i,
    {
        let ghost out0 = out@;
        let ghost cur = i as int;
        let sub = descriptor_subscribes(&descs[i], topic);
        proof {
            reveal(announces);
        }
        if sub {
            proof {
                assert forall|k: int| 0 <= k < out@.len() implies (#[trigger] out@[k])@ != descs@[cur].node_id@ by {
                    assert(origin[k] != cur);
                }
            }
            out.push(descs[i].node_id.clone());
            proof {
                origin = origin.push(cur);
                slot = slot.push(out0.len() as int);
                assert forall|k: int| 0 <= k < out0.len() implies #[trigger] out@[k] == out0[k] by {}
            }
        } else {
            proof {
                slot = slot.push(0);
            }
        }
        i = i + 1;
    }
    proof {
        reveal(announces);
        let v = graph@;
        assert forall|n: Seq<char>| name_set(out@).contains(n) <==> #[trigger] subscriber_set(v, topic@).contains(n) by {
            if name_set(out@).contains(n) {
                let k = choose|k: int| 0 <= k < string_views(out@).len() && string_views(out@)[k] == n;
                assert(string_views(out@)[k] == out@[k]@);
                let j = origin[k];
                assert(v.metadata.contains_key(descs@[j].node_id@));
            }
            if subscriber_set(v, topic@).contains(n) {
                let j = choose|j: int| 0 <= j < descs@.len() && (#[trigger] descs@[j]).node_id@ == n;
                assert(v.metadata[descs@[j].node_id@] == descs@[j]@);
                let k = slot[j];
                assert(string_views(out@)[k] == n);
            }
        }
        assert(name_set(out@) =~= subscriber_set(v, topic@));
        assert forall|a: int, b: int| 0 <= a < string_views(out@).len() && 0 <= b < string_views(out@).len() && a != b
            implies string_views(out@)[a] != string_views(out@)[b] by {
            if a < b {
                assert(out@[a]@ != out@[b]@);
            } else {
                assert(out@[b]@ != out@[a]@);
            }
        }
    }
    out
}

/// A forwarding table that routes a publication from `source` to the nodes
/// of `subs` along a shortest-path tree of `v`: well formed, empty when
/// `source` is unknown, and otherwise listing exactly the tree's links that
/// lie on a path from a subscriber up to `source`.
pub open spec fn routes_to_subscribers(
    v: GraphView,
    source: Seq<char>,
    subs: Set<Seq<char>>,
    table: Seq<(String, ForwardingTargets)>,
) -> bool {
    &&& table_well_formed(table)
    &&& !v.nodes.contains(source) ==> table.len() == 0
    &&& v.nodes.contains(source) ==> exists|
        dist: Map<Seq<char>, int>,
        parent: Map<Seq<char>, Seq<char>>,
        rank: Map<Seq<char>, nat>,
    |
        #[trigger] is_routing_tree(v, source, dist, parent, rank) && forall|u: Seq<char>, y: Seq<char>|
            #[trigger] forwards_to(parent, rank, subs, u, y) <==> lists_target(table, u, y)
}

/// What publishing a message on a topic does.
pub struct PublishPlan {
    /// Whether a local subscription matches the topic, so that the message
    /// is handed to a local handler.
    pub deliver_locally: bool,
    /// The forwarding table towards the remote subscribers; none when no
    /// node subscribes to the topic.
    pub forwarding_table: Option<Vec<(String, ForwardingTargets)>>,
}

/// Plans the publication of a message on `topic` by the node `local_node_id`
/// whose own subscriptions are `local_patterns`: whether it is delivered
/// locally, and the forwarding table from this node to every node that
/// announced a subscription matching the topic.
pub fn plan_publish(graph: &GlobalGraph, local_node_id: &str, local_patterns: &Vec<String>, topic: &str) -> (p:
    PublishPlan)
    requires
        graph.wf(),
    ensures
        p.deliver_locally == any_match(local_patterns@.map_values(|q: String| q@), topic@),
        p.forwarding_table is None <==> subscriber_set(graph@, topic@) == Set::<Seq<char>>::empty(),
        p.forwarding_table matches Some(t) ==> routes_to_subscribers(
            graph@,
            local_node_id@,
            subscriber_set(graph@, topic@),
            t@,
        ),
{
    let subscribers = subscribers_of(graph, topic);
    let deliver_locally = first_matching_pattern(local_patterns, topic).is_some();
    if subscribers.len() == 0 {
        proof {
            assert(name_set(subscribers@) =~= Set::<Seq<char>>::empty());
        }
        return PublishPlan { deliver_locally, forwarding_table: None };
    }
    let table = graph.compute_forwarding_table(local_node_id, &subscribers);
    proof {
        assert(string_views(subscribers@)[0] == subscribers@[0]@);
        assert(name_set(subscribers@).contains(subscribers@[0]@));
    }
    PublishPlan { deliver_locally, forwarding_table: Some(table) }
}

/// The next hops that `relay` forwards to in `table`, if it is a relay.
pub fn targets_of<'a>(table: &'a Vec<(String, ForwardingTargets)>, relay: &str) -> (r: Option<&'a ForwardingTargets>)
    ensures
        match r {
            Some(t) => exists|i: int| 0 <= i < table@.len() && table@[i].0@ == relay@ && *t == table@[i].1,
            None => forall|i: int| 0 <= i < table@.len() ==> (#[trigger] table@[i]).0@ != relay@,
        },
{
    let key = relay.to_owned();
    let mut i: usize = 0;
    while i < table.len()
        invariant
            i <= table@.len(),
            key@ == relay@,
            forall|j: int| 0 <= j < i ==> (#[trigger] table@[j]).0@ != relay@,
        decreases table@.len() - i,
    {
        if table[i].0 == key {
            return Some(&table[i].1);
        }
        i = i + 1;
    }
    None
}

/// One entry of a subscription update.
#[derive(Clone, Debug)]
pub struct SubscriptionEntry {
    pub flow_id: String,
    /// The topic pattern.
    pub pattern: String,
    /// Whether the entry subscribes (rather than unsubscribes).
    pub subscribe: bool,
}

/// Whether some entry of `entries` subscribes to a pattern whose key is `key`.
pub open spec fn key_of_subscribed_entry(entries: Seq<SubscriptionEntry>, key: Seq<char>) -> bool {
    exists|j: int|
        0 <= j < entries.len() && (#[trigger] entries[j]).subscribe && key == subscription_key(entries[j].pattern@)
}

/// Whether some capability of `caps` has the key `key`.
pub open spec fn has_capability_key(caps: Seq<(Seq<char>, Seq<char>)>, key: Seq<char>) -> bool {
    exists|i: int| 0 <= i < caps.len() && (#[trigger] caps[i]).0 == key
}

/// Whether `caps` announces exactly the subscriptions of `entries`: one key
/// `sub:<pattern>` with an empty value for each pattern that an entry
/// subscribes, each key once.
pub open spec fn announces_subscriptions(caps: Seq<(Seq<char>, Seq<char>)>, entries: Seq<SubscriptionEntry>) -> bool {
    &&& forall|i: int| 0 <= i < caps.len() ==> (#[trigger] caps[i]).1 == Seq::<char>::empty()
    &&& forall|a: int, b: int| 0 <= a < b < caps.len() ==> (#[trigger] caps[a]).0 != (#[trigger] caps[b]).0
    &&& forall|i: int| 0 <= i < caps.len() ==> key_of_subscribed_entry(entries, (#[trigger] caps[i]).0)
    &&& forall|j: int|
        0 <= j < entries.len() && (#[trigger] entries[j]).subscribe ==> has_capability_key(
            caps,
            subscription_key(entries[j].pattern@),
        )
}

/// The position of the capability with the key `key`, if there is one.
fn key_position(caps: &Vec<(String, String)>, key: &String) -> (r: Option<usize>)
    ensures
        match r {
            Some(m) => m < caps@.len() && caps@[m as int].0@ == key@,
            None => forall|m: int| 0 <= m < caps@.len() ==> (#[trigger] caps@[m]).0@ != key@,
        },
{
    let mut k: usize = 0;
    while k < caps.len()
        invariant
            k <= caps@.len(),
            forall|m: int| 0 <= m < k ==> (#[trigger] caps@[m]).0@ != key@,
        decreases caps@.len() - k,
    {
        if caps[k].0 == *key {
            return Some(k);
        }
        k = k + 1;
    }
    None
}

/// The values of a list of capabilities.
pub open spec fn capability_views(caps: Seq<(String, String)>) -> Seq<(Seq<char>, Seq<char>)> {
    caps.map_values(|c: (String, String)| (c.0@, c.1@))
}

/// The capabilities that a subscription update announces.
pub fn subscription_capabilities(entries: &Vec<SubscriptionEntry>) -> (caps: Vec<(String, String)>)
    ensures
        announces_subscriptions(capability_views(caps@), entries@),
{
    let mut caps: Vec<(String, String)> = Vec::new();
    // where each capability's key comes from, and where each subscribing
    // entry's key went
    let ghost mut origin: Seq<int> = Seq::empty();
    let ghost mut slot: Seq<int> = Seq::empty();
    let mut i: usize = 0;
    while i < entries.len()
        invariant
            i <= entries@.len(),
            origin.len() == caps@.len(),
            slot.len() == i,
            forall|k: int| 0 <= k < caps@.len() ==> (#[trigger] caps@[k]).1@ == Seq::<char>::empty(),
            forall|a: int, b: int| 0 <= a < b < caps@.len() ==> (#[trigger] caps@[a]).0@ != (#[trigger] caps@[b]).0@,
            forall|k: int|
                0 <= k < caps@.len() ==> 0 <= #[trigger] origin[k] < i && entries@[origin[k]].subscribe
                    && caps@[k].0@ == subscription_key(entries@[origin[k]].pattern@),
            forall|j: int|
                0 <= j < i && (#[trigger] entries@[j]).subscribe ==> 0 <= slot[j] < caps@.len()
                    && caps@[slot[j]].0@ == subscription_key(entries@[j].pattern@),
        decreases entries@.len() - i,
    {
        let ghost caps0 = caps@;
        let ghost cur = i as int;
        if entries[i].subscribe {
            let mut key = String::from_str("sub:");
            key.append(entries[i].pattern.as_str());
            proof {
                reveal_strlit("sub:");
                assert(key@ =~= subscription_key(entries@[cur].pattern@));
            }
            match key_position(&caps, &key) {
                Some(m) => {
                    proof {
                        slot = slot.push(m as int);
                    }
                },
                None => {
                    caps.push((key, String::new()));
                    proof {
                        origin = origin.push(cur);
                        slot = slot.push(caps0.len() as int);
                        assert forall|k: int| 0 <= k < caps0.len() implies #[trigger] caps@[k] == caps0[k] by {}
                    }
                },
            }
        } else {
            proof {
                slot = slot.push(0);
            }
        }
        i = i + 1;
    }
    proof {
        let v = capability_views(caps@);
        assert forall|k: int| 0 <= k < v.len() implies (#[trigger] v[k]).1 == Seq::<char>::empty() by {
            assert(v[k] == (caps@[k].0@, caps@[k].1@));
        }
        assert forall|a: int, b: int| 0 <= a < b < v.len() implies (#[trigger] v[a]).0 != (#[trigger] v[b]).0 by {
            assert(v[a].0 == caps@[a].0@ && v[b].0 == caps@[b].0@);
        }
        assert forall|k: int| 0 <= k < v.len() implies key_of_subscribed_entry(entries@, #[trigger] v[k].0) by {
            assert(v[k].0 == caps@[k].0@);
            let j = origin[k];
            assert(0 <= j < entries@.len() && entries@[j].subscribe && v[k].0 == subscription_key(entries@[j].pattern@));
        }
        assert forall|j: int| 0 <= j < entries@.len() && (#[trigger] entries@[j]).subscribe implies has_capability_key(
            v,
            subscription_key(entries@[j].pattern@),
        ) by {
            let k = slot[j];
            assert(v[k].0 == caps@[k].0@);
        }
    }
    caps
}

/// The descriptor that a subscription update announces for its node: a
/// flow node, heard of at `now_millis`, whose capabilities announce the
/// update's subscriptions.
pub fn subscription_descriptor(node_id: String, entries: &Vec<SubscriptionEntry>, now_millis: u64) -> (d:
    NodeDescriptor)
    ensures
        d.node_id@ == node_id@,
        d.role == NodeRole::Flow,
        d.last_seen == now_millis,
        announces_subscriptions(d@.capabilities, entries@),
{
    let capabilities = subscription_capabilities(entries);
    let d = NodeDescriptor { node_id, role: NodeRole::Flow, capabilities, last_seen: now_millis };
    assert(d@.capabilities =~= capability_views(d.capabilities@));
    d
}

/// What the control engine reads of a control message.
#[derive(Clone, Debug)]
pub enum ControlMessage {
    /// A batch of topology changes.
    TopologyUpdate(TopologyUpdate),
    /// The full list of a node's subscriptions.
    SubscriptionUpdate { node_id: String, entries: Vec<SubscriptionEntry> },
    /// A liveness probe, stamped with when it was sent.
    Ping { sent_at: u64 },
    /// Any other control message.
    Other,
}

/// Whether the graph can take in what `msg` may add: every addition keeps
/// the node and link counts within the graph's `u32` indices.
pub open spec fn fits_in_graph(graph: &GlobalGraph, msg: &ControlMessage) -> bool {
    match msg {
        ControlMessage::TopologyUpdate(u) => update_fits(graph@, *u),
        ControlMessage::SubscriptionUpdate { node_id, entries } => graph@.nodes.contains(node_id@)
            || graph.node_count() < u32::MAX,
        _ => true,
    }
}

/// Handles a control message received from the peer `from`: a topology
/// update is applied to the graph; a subscription update records its node's
/// subscriptions, heard of at `now_millis`; a ping is answered by a pong that
/// echoes its stamp, which this returns; anything else is ignored.
pub fn handle_control_message(graph: &mut GlobalGraph, msg: ControlMessage, now_millis: u64) -> (pong:
    Option<u64>)
    requires
        old(graph).wf(),
        fits_in_graph(old(graph), &msg),
    ensures
        final(graph).wf(),
        match msg {
            ControlMessage::TopologyUpdate(u) => final(graph)@ == old(graph)@.apply(u) && pong is None,
            ControlMessage::SubscriptionUpdate { node_id, entries } => pong is None && exists|d: DescriptorView|
                final(graph)@ == old(graph)@.with_node(d) && d.node_id == node_id@ && d.role == NodeRole::Flow
                    && d.last_seen == now_millis && #[trigger] announces_subscriptions(d.capabilities, entries@),
            ControlMessage::Ping { sent_at } => final(graph)@ == old(graph)@ && pong == Some(sent_at),
            ControlMessage::Other => final(graph)@ == old(graph)@ && pong is None,
        },
{
    match msg {
        ControlMessage::TopologyUpdate(u) => {
            graph.apply_update(u);
            None
        },
        ControlMessage::SubscriptionUpdate { node_id, entries } => {
            let d = subscription_descriptor(node_id, &entries, now_millis);
            let ghost dv = d@;
            graph.add_node(d);
            assert(announces_subscriptions(dv.capabilities, entries@));
            None
        },
        ControlMessage::Ping { sent_at } => Some(sent_at),
        ControlMessage::Other => None,
    }
}

/// A subscription update makes its node a subscriber of exactly the topics
/// that one of its subscribed patterns matches: after the node announces
/// the capabilities of the update, a publication on `topic` counts the node
/// among its subscribers if and only if some subscribing entry's pattern
/// matches `topic`.
pub proof fn law_subscription_update_decides_subscribers(
    v: GraphView,
    d: DescriptorView,
    entries: Seq<SubscriptionEntry>,
    topic: Seq<char>,
)
    requires
        announces_subscriptions(d.capabilities, entries),
    ensures
        subscriber_set(v.with_node(d), topic).contains(d.node_id) <==> exists|j: int|
            0 <= j < entries.len() && (#[trigger] entries[j]).subscribe && topic_matches(entries[j].pattern@, topic),
{
    let w = v.with_node(d);
    assert(w.metadata[d.node_id] == d);
    assert forall|p: Seq<char>| #[trigger] subscription_key(p).take(4) == sub_prefix() && subscription_key(p).skip(4) == p by {
        assert(subscription_key(p).take(4) =~= sub_prefix());
        assert(subscription_key(p).skip(4) =~= p);
    }
    if subscribes_to(d, topic) {
        let i = choose|i: int| 0 <= i < d.capabilities.len() && key_subscribes_to(#[trigger] d.capabilities[i].0, topic);
        assert(key_of_subscribed_entry(entries, d.capabilities[i].0));
        let j = choose|j: int|
            0 <= j < entries.len() && (#[trigger] entries[j]).subscribe && d.capabilities[i].0 == subscription_key(
                entries[j].pattern@,
            );
        assert(subscription_key(entries[j].pattern@).skip(4) == entries[j].pattern@);
    }
    if exists|j: int| 0 <= j < entries.len() && (#[trigger] entries[j]).subscribe && topic_matches(entries[j].pattern@, topic) {
        let j = choose|j: int| 0 <= j < entries.len() && (#[trigger] entries[j]).subscribe && topic_matches(entries[j].pattern@, topic);
        assert(has_capability_key(d.capabilities, subscription_key(entries[j].pattern@)));
        let i = choose|i: int| 0 <= i < d.capabilities.len() && (#[trigger] d.capabilities[i]).0 == subscription_key(entries[j].pattern@);
        assert(subscription_key(entries[j].pattern@).take(4) == sub_prefix());
        assert(key_subscribes_to(d.capabilities[i].0, topic));
    }
}

} // verus!
