//! The explorer's state and what it does with the worker's events: the
//! connection status, subscriptions, the message list with its memory and
//! count limits, the export store, the browse tree, deduplication, rate
//! limiting and the JSON display cache.

use std::collections::hash_map::DefaultHasher;
use std::collections::HashMap;
use std::collections::VecDeque;
use std::time::Instant;
use vstd::prelude::*;
use vstd::std_specs::hash::DefaultHasherAdditionalSpecFns;
use vstd::string::{StrSliceExecFns, StringExecFns, StringSliceAdditionalSpecFns};
use vstd::utf8::*;

use crate::clock::{nanos_between, now};
use crate::colors::ExplorerColors;
use crate::dedup::Deduper;
use crate::hashing::{compute_payload_hash, payload_hash};
use crate::payload_store::{opt_str_view, str_equal, EntryView, PayloadEntry, PayloadStoreMap};
use crate::preview::{byte_prefix, cut_at, json_display, list_payload, tree_preview, MAX_STORED_PAYLOAD, MAX_UI_DISPLAY_SIZE, PAYLOAD_PREVIEW_SIZE};
use crate::transfer::{insert_payload, insert_payload_result, parse_chunk_key, spec_is_sane, spec_parse_chunk_key, ChunkMeta};
use crate::tree::{created_on_path, holds_chunk, holds_recorded, node_at, others_unchanged, path_parts, tree_sorted};
use crate::types::{
    content_bytes, ConnectionStatus, DetailView, MessageType, Subscription, ZenohCommand, ZenohEvent, ZenohMessage, ZenohNode,
};
use crate::utils::RateLimiter;

verus! {

broadcast use {vstd::string::group_string_axioms, vstd::std_specs::hash::group_hash_axioms};

/// Largest payload kept in the export store (4 GiB).
pub const MAX_EXPORT_PAYLOAD: u64 = 4294967296;

/// Largest number of cached JSON renderings before the cache is cleared.
pub const MAX_JSON_CACHE: usize = 100;

/// The browse tree, whose nodes always keep their children in key order.
pub struct BrowseTree {
    root: ZenohNode,
}

impl BrowseTree {
    #[verifier::type_invariant]
    spec fn sorted(self) -> bool {
        tree_sorted(self.root)
    }

    /// The tree's root node.
    pub closed spec fn spec_root(self) -> ZenohNode {
        self.root
    }

    /// An empty tree under a root named `root`.
    pub fn new() -> (res: BrowseTree)
        ensures
            res.spec_root().key@ == "root"@,
            res.spec_root().children@.len() == 0,
            res.spec_root().message_count == 0,
            res.spec_root().last_payload is None,
            res.spec_root().last_encoding is None,
            !res.spec_root().is_local,
    {
        proof {
            reveal_strlit("root");
        }
        let root = ZenohNode::new(String::from_str("root"));
        proof {
            assert forall|p: Seq<Seq<char>>| #[trigger] node_at(root, p) is Some implies crate::tree::keys_sorted(
                node_at(root, p)->0.children@,
            ) by {
                if p.len() > 0 {
                    assert(crate::tree::child_named(root.children@, p[0]) is None);
                }
            }
        }
        BrowseTree { root }
    }

    /// The tree's root node.
    pub fn root(&self) -> (res: &ZenohNode)
        ensures
            *res == self.spec_root(),
            tree_sorted(*res),
    {
        proof {
            use_type_invariant(self);
        }
        &self.root
    }

    /// Records a message received on `key` (see `ZenohNode::insert_path`).
    pub fn insert_path(&mut self, key: &str, payload: String, encoding: String, is_local: bool)
        ensures
            final(self).spec_root().key == old(self).spec_root().key,
            holds_recorded(
                node_at(old(self).spec_root(), path_parts(key@)),
                node_at(final(self).spec_root(), path_parts(key@)),
                payload@,
                encoding@,
                is_local,
            ),
            others_unchanged(old(self).spec_root(), final(self).spec_root(), path_parts(key@)),
            created_on_path(old(self).spec_root(), final(self).spec_root(), path_parts(key@)),
    {
        proof {
            use_type_invariant(&*self);
        }
        let mut root = ZenohNode::new(String::new());
        std::mem::swap(&mut root, &mut self.root);
        root.insert_path(key, payload, encoding, is_local);
        self.root = root;
    }

    /// Records a chunk of a transfer on `topic` (see
    /// `ZenohNode::record_chunk`).
    pub fn record_chunk(&mut self, topic: &str, meta: ChunkMeta)
        ensures
            final(self).spec_root().key == old(self).spec_root().key,
            holds_chunk(
                node_at(old(self).spec_root(), path_parts(topic@)),
                node_at(final(self).spec_root(), path_parts(topic@)),
                meta,
            ),
            others_unchanged(old(self).spec_root(), final(self).spec_root(), path_parts(topic@)),
            created_on_path(old(self).spec_root(), final(self).spec_root(), path_parts(topic@)),
    {
        proof {
            use_type_invariant(&*self);
        }
        let mut root = ZenohNode::new(String::new());
        std::mem::swap(&mut root, &mut self.root);
        root.record_chunk(topic, meta);
        self.root = root;
    }
}

/// The text is one JSON document, as `serde_json::from_str` accepts it.
pub uninterp spec fn json_accepts(text: Seq<char>) -> bool;

/// The text of a JSON document printed with indentation, as
/// `serde_json::to_string_pretty` prints what `serde_json::from_str` reads
/// from it.
pub uninterp spec fn json_pretty_text(text: Seq<char>) -> Seq<char>;

/// Reads the text with `serde_json::from_str` into a `serde_json::Value`
/// and prints that with `serde_json::to_string_pretty`: a result exactly
/// when the text is JSON (printing a `Value` never fails: its map keys are
/// strings and the output is a buffer), and then the printed text, which
/// depends on the text alone.
#[verifier::external_body]
fn pretty_of_text(text: &str) -> (res: Option<String>)
    ensures
        res is Some == json_accepts(text@),
        res matches Some(r) ==> r@ == json_pretty_text(text@),
{
    let value = serde_json::from_str::<serde_json::Value>(text).ok()?;
    serde_json::to_string_pretty(&value).ok()
}

/// `shown` is what is shown of the printed JSON `pretty`: the text itself
/// when it has at most `MAX_UI_DISPLAY_SIZE` bytes, else the text cut at
/// its last character boundary within that size, with a note of the bytes
/// hidden.
pub open spec fn json_shown(pretty: Seq<char>, shown: Seq<char>) -> bool {
    if encode_utf8(pretty).len() <= MAX_UI_DISPLAY_SIZE {
        shown == pretty
    } else {
        exists|end: nat|
            #[trigger] cut_at(pretty, MAX_UI_DISPLAY_SIZE as nat, end) && shown == byte_prefix(pretty, end)
                + "\n... [+"@ + crate::text::dec_digits((encode_utf8(pretty).len() - end) as nat)
                + " bytes of JSON hidden]"@
    }
}

/// What is shown of a payload's JSON: `None` when the text is no JSON,
/// else its printed text as `json_shown` cuts it.
pub open spec fn json_rendering_of(text: Seq<char>, res: Option<String>) -> bool {
    if json_accepts(text) {
        res matches Some(r) && json_shown(json_pretty_text(text), r@)
    } else {
        res is None
    }
}

/// What is shown for a payload's pretty-printed JSON: the printed text cut
/// to the display size (see `json_display`), or nothing when there is no
/// printed text (the payload is no JSON).
pub fn json_view_of(pretty: Option<String>) -> (res: Option<String>)
    ensures
        match pretty {
            Some(p) => res matches Some(r) && json_shown(p@, r@),
            None => res is None,
        },
{
    match pretty {
        Some(p) => Some(json_display(p.as_str())),
        None => None,
    }
}

/// The index of the first query reply on `key` in `msgs`, from `i` on.
pub open spec fn reply_index_from(msgs: Seq<ZenohMessage>, key: Seq<char>, i: int) -> Option<int>
    decreases msgs.len() - i,
{
    if i < 0 || i >= msgs.len() {
        None
    } else if msgs[i].key@ == key && msgs[i].message_type == MessageType::QueryReply {
        Some(i)
    } else {
        reply_index_from(msgs, key, i + 1)
    }
}

/// A reply index is a query reply on the key, within the list.
proof fn lemma_reply_index(msgs: Seq<ZenohMessage>, key: Seq<char>, i: int)
    requires
        0 <= i,
    ensures
        reply_index_from(msgs, key, i) matches Some(j) ==> i <= j < msgs.len() && msgs[j].key@ == key
            && msgs[j].message_type == MessageType::QueryReply,
    decreases msgs.len() - i,
{
    if i < msgs.len() {
        lemma_reply_index(msgs, key, i + 1);
    }
}

/// The raw bytes of a message: its payload bytes, or the bytes of its
/// payload text when it carries none.
pub open spec fn raw_bytes_of(m: ZenohMessage) -> Seq<u8> {
    match m.payload_bytes {
        Some(b) => b@,
        None => encode_utf8(m.payload@),
    }
}

/// The sum of the messages' sizes.
pub open spec fn sizes_sum(msgs: Seq<ZenohMessage>) -> nat
    decreases msgs.len(),
{
    if msgs.len() == 0 {
        0
    } else {
        msgs[0].size_bytes as nat + sizes_sum(msgs.drop_first())
    }
}

/// `x - y`, or zero.
pub open spec fn sat_sub(x: nat, y: nat) -> nat {
    if x >= y {
        (x - y) as nat
    } else {
        0
    }
}

/// How many of the oldest messages are dropped, one at a time, while the
/// list is not empty and either the memory would exceed `max_mem` with the
/// new message of `size` bytes or the list holds `max_n` messages.
pub open spec fn pops_while(msgs: Seq<ZenohMessage>, cur: nat, size: nat, max_mem: nat, max_n: nat) -> nat
    decreases msgs.len(),
{
    if msgs.len() > 0 && (cur + size > max_mem || msgs.len() >= max_n) {
        1 + pops_while(msgs.drop_first(), sat_sub(cur, msgs[0].size_bytes as nat), size, max_mem, max_n)
    } else {
        0
    }
}

/// One more drop: the memory after `k + 1` drops is that after `k` less
/// the next message's size.
proof fn lemma_memory_after_pops_step(msgs: Seq<ZenohMessage>, cur: nat, k: nat)
    requires
        k < msgs.len(),
    ensures
        memory_after_pops(msgs, cur, k + 1) == sat_sub(memory_after_pops(msgs, cur, k), msgs[k as int].size_bytes as nat),
    decreases k,
{
    if k > 0 {
        let c1 = sat_sub(cur, msgs[0].size_bytes as nat);
        lemma_memory_after_pops_step(msgs.drop_first(), c1, (k - 1) as nat);
        assert(msgs.drop_first()[k - 1] == msgs[k as int]);
        assert(memory_after_pops(msgs, cur, k) == memory_after_pops(msgs.drop_first(), c1, (k - 1) as nat));
        assert(memory_after_pops(msgs, cur, k + 1) == memory_after_pops(msgs.drop_first(), c1, k));
    } else {
        assert(memory_after_pops(msgs, cur, 1) == memory_after_pops(msgs.drop_first(), sat_sub(cur, msgs[0].size_bytes as nat), 0));
    }
}

/// Memory in use after dropping the first `k` messages.
pub open spec fn memory_after_pops(msgs: Seq<ZenohMessage>, cur: nat, k: nat) -> nat
    decreases k,
{
    if k == 0 || msgs.len() == 0 {
        cur
    } else {
        memory_after_pops(msgs.drop_first(), sat_sub(cur, msgs[0].size_bytes as nat), (k - 1) as nat)
    }
}

/// The number of oldest messages the message list drops to take a new
/// message of `size` bytes: while the memory would exceed the limit, the
/// oldest are dropped (also while the list is full); then, if the list is
/// still full, one more.
pub open spec fn eviction_count(msgs: Seq<ZenohMessage>, cur: nat, size: nat, max_mem: nat, max_n: nat) -> nat {
    let k1 = if cur + size > max_mem && msgs.len() > 0 {
        pops_while(msgs, cur, size, max_mem, max_n)
    } else {
        0
    };
    if msgs.len() - k1 >= max_n && msgs.len() - k1 > 0 {
        k1 + 1
    } else {
        k1
    }
}

/// `m` as shown in the message list: its payload text cut for the list,
/// without raw bytes, with its footprint recomputed.
pub open spec fn shown_as(m: ZenohMessage, shown: ZenohMessage) -> bool {
    &&& shown.key == m.key
    &&& shown.encoding == m.encoding
    &&& shown.timestamp == m.timestamp
    &&& shown.message_type == m.message_type
    &&& shown.is_local == m.is_local
    &&& shown.source == m.source
    &&& shown.filename == m.filename
    &&& shown.payload_bytes is None
    &&& shown.size_bytes >= 24
    &&& shown.size_bytes >= content_bytes(shown) + 24 || shown.size_bytes == usize::MAX
    &&& (encode_utf8(m.payload@).len() <= MAX_STORED_PAYLOAD ==> shown.payload@ == m.payload@)
    &&& (encode_utf8(m.payload@).len() > MAX_STORED_PAYLOAD ==> exists|end: nat|
        #[trigger] cut_at(m.payload@, MAX_STORED_PAYLOAD as nat, end) && shown.payload@ == byte_prefix(
            m.payload@,
            end,
        ) + "... [truncated - use Export for full]"@)
}

/// `max_mb` mebibytes in bytes, saturating.
pub open spec fn max_memory_bytes(max_mb: usize) -> nat {
    if max_mb * 1048576 <= usize::MAX {
        (max_mb * 1048576) as nat
    } else {
        usize::MAX as nat
    }
}

/// The explorer's state: what the GUI shows and edits, and what the
/// worker's events change.
pub struct ZenohExplorer {
    pub detail_view: DetailView,
    pub connection_status: ConnectionStatus,
    pub discovered_peers: usize,
    pub discovered_routers: usize,
    pub selected_topic: Option<String>,
    pub connect_transport: String,
    pub connect_address: String,
    pub connect_port: String,
    pub listen_port: String,
    pub connection_mode: String,
    pub config_json: String,
    pub subscribe_key: String,
    pub subscribe_reliability: String,
    pub subscribe_mode: String,
    pub publish_key: String,
    pub publish_payload: String,
    pub publish_payload_bytes: Option<Vec<u8>>,
    pub publish_payload_filename: Option<String>,
    pub publish_payload_expanded: bool,
    pub import_memory_bytes: usize,
    pub publish_encoding: String,
    pub query_selector: String,
    pub query_value: String,
    pub query_timeout: String,
    pub messages: VecDeque<ZenohMessage>,
    pub subscriptions: Vec<Subscription>,
    pub browse_tree: BrowseTree,
    pub tree_filter: String,
    pub dark_mode: bool,
    pub max_messages: usize,
    pub max_memory_mb: usize,
    pub current_memory_bytes: usize,
    pub message_filter: String,
    pub auto_scroll: bool,
    pub query_alert: Option<String>,
    pub ui_alert: Option<String>,
    pub messages_dropped: usize,
    pub rate_limiter: RateLimiter,
    pub rate_limit_drops: usize,
    pub memory_warning_shown: bool,
    pub last_health_check: Instant,
    pub worker_healthy: bool,
    pub deduper: Deduper,
    pub messages_deduped: usize,
    pub queryable_enabled: bool,
    pub queryable_pattern: String,
    pub paused_keys: Vec<String>,
    /// Rendered JSON by payload hash, with the text it was rendered from.
    pub json_parse_cache: HashMap<u64, (String, Option<String>)>,
    pub payload_store: PayloadStoreMap,
}

/// `x + 1`, saturating.
pub open spec fn inc(x: usize) -> usize {
    if x < usize::MAX {
        (x + 1) as usize
    } else {
        x
    }
}

/// Whether `keys` holds `key`.
pub open spec fn holds_key(keys: Seq<String>, key: Seq<char>) -> bool {
    exists|i: int| 0 <= i < keys.len() && (#[trigger] keys[i])@ == key
}

impl ZenohExplorer {
    /// The initial state: disconnected, the default connection, subscription,
    /// publication and query forms, nothing received, a limit of 50,000
    /// messages and 100 MiB, at most 1000 messages a second, deduplication
    /// over 60 seconds, and a queryable pattern of `**`.
    pub fn new() -> (res: ZenohExplorer)
        ensures
            res.connection_status is Disconnected,
            res.messages@.len() == 0,
            res.subscriptions@.len() == 0,
            res.payload_store@ == Map::<Seq<char>, EntryView>::empty(),
            res.max_messages == 50000,
            res.max_memory_mb == 100,
            res.current_memory_bytes == 0,
            res.rate_limiter.max_messages_per_second == 1000,
            res.rate_limiter.message_count == 0,
            res.deduper.enabled,
            res.deduper.ttl_nanos == 60_000_000_000,
            res.worker_healthy,
            res.dark_mode,
            res.detail_view == DetailView::TopicDetails,
            res.discovered_peers == 0 && res.discovered_routers == 0,
            res.selected_topic is None,
            res.connect_transport@ == "tcp"@,
            res.connect_address@.len() == 0,
            res.connect_port@ == "7447"@,
            res.listen_port@ == "7447"@,
            res.connection_mode@ == "peer"@,
            res.config_json@ == "{}"@,
            res.subscribe_key@ == "demo/**"@,
            res.subscribe_reliability@ == "reliable"@,
            res.subscribe_mode@ == "push"@,
            res.publish_key@ == "demo/test"@,
            res.publish_payload@ == "Hello Zenoh!"@,
            res.publish_payload_bytes is None,
            res.publish_payload_filename is None,
            !res.publish_payload_expanded,
            res.import_memory_bytes == 0,
            res.publish_encoding@ == "text/plain"@,
            res.query_selector@ == "demo/**"@,
            res.query_value@.len() == 0,
            res.query_timeout@ == "5000"@,
            res.browse_tree.spec_root().key@ == "root"@,
            res.browse_tree.spec_root().children@.len() == 0,
            res.browse_tree.spec_root().message_count == 0,
            res.tree_filter@.len() == 0,
            res.message_filter@.len() == 0,
            res.auto_scroll,
            res.query_alert is None,
            res.ui_alert is None,
            res.messages_dropped == 0,
            res.rate_limit_drops == 0,
            !res.memory_warning_shown,
            res.deduper.recorded() == Set::<u64>::empty(),
            res.messages_deduped == 0,
            !res.queryable_enabled,
            res.queryable_pattern@ == "**"@,
            res.paused_keys@.len() == 0,
            res.json_parse_cache@.len() == 0,
            cache_consistent(res.json_parse_cache@),
    {
        ZenohExplorer {
            detail_view: DetailView::TopicDetails,
            connection_status: ConnectionStatus::Disconnected,
            discovered_peers: 0,
            discovered_routers: 0,
            selected_topic: None,
            connect_transport: String::from_str("tcp"),
            connect_address: String::new(),
            connect_port: String::from_str("7447"),
            listen_port: String::from_str("7447"),
            connection_mode: String::from_str("peer"),
            config_json: String::from_str("{}"),
            subscribe_key: String::from_str("demo/**"),
            subscribe_reliability: String::from_str("reliable"),
            subscribe_mode: String::from_str("push"),
            publish_key: String::from_str("demo/test"),
            publish_payload: String::from_str("Hello Zenoh!"),
            publish_payload_bytes: None,
            publish_payload_filename: None,
            publish_payload_expanded: false,
            import_memory_bytes: 0,
            publish_encoding: String::from_str("text/plain"),
            query_selector: String::from_str("demo/**"),
            query_value: String::new(),
            query_timeout: String::from_str("5000"),
            messages: VecDeque::new(),
            subscriptions: Vec::new(),
            browse_tree: BrowseTree::new(),
            tree_filter: String::new(),
            dark_mode: true,
            max_messages: 50000,
            max_memory_mb: 100,
            current_memory_bytes: 0,
            message_filter: String::new(),
            auto_scroll: true,
            query_alert: None,
            ui_alert: None,
            messages_dropped: 0,
            rate_limiter: RateLimiter::new(1000),
            rate_limit_drops: 0,
            memory_warning_shown: false,
            last_health_check: now(),
            worker_healthy: true,
            deduper: Deduper::new(60_000_000_000),
            messages_deduped: 0,
            queryable_enabled: false,
            queryable_pattern: String::from_str("**"),
            paused_keys: Vec::new(),
            json_parse_cache: HashMap::new(),
            payload_store: PayloadStoreMap::new(),
        }
    }

    /// Background color of the current theme.
    pub fn background_color(&self) -> (res: u32)
        ensures
            res == if self.dark_mode {
                ExplorerColors::DARK_BACKGROUND
            } else {
                ExplorerColors::BACKGROUND
            },
    {
        if self.dark_mode {
            ExplorerColors::DARK_BACKGROUND
        } else {
            ExplorerColors::BACKGROUND
        }
    }

    /// Card background color of the current theme.
    pub fn card_background_color(&self) -> (res: u32)
        ensures
            res == if self.dark_mode {
                ExplorerColors::DARK_CARD_BACKGROUND
            } else {
                ExplorerColors::CARD_BACKGROUND
            },
    {
        if self.dark_mode {
            ExplorerColors::DARK_CARD_BACKGROUND
        } else {
            ExplorerColors::CARD_BACKGROUND
        }
    }

    /// Primary text color of the current theme.
    pub fn text_color(&self) -> (res: u32)
        ensures
            res == if self.dark_mode {
                ExplorerColors::DARK_TEXT_PRIMARY
            } else {
                ExplorerColors::TEXT_PRIMARY
            },
    {
        if self.dark_mode {
            ExplorerColors::DARK_TEXT_PRIMARY
        } else {
            ExplorerColors::TEXT_PRIMARY
        }
    }

    /// Secondary text color of the current theme.
    pub fn text_secondary_color(&self) -> (res: u32)
        ensures
            res == if self.dark_mode {
                ExplorerColors::DARK_TEXT_SECONDARY
            } else {
                ExplorerColors::TEXT_SECONDARY
            },
    {
        if self.dark_mode {
            ExplorerColors::DARK_TEXT_SECONDARY
        } else {
            ExplorerColors::TEXT_SECONDARY
        }
    }

    /// Tertiary text color of the current theme.
    pub fn text_tertiary_color(&self) -> (res: u32)
        ensures
            res == if self.dark_mode {
                ExplorerColors::DARK_TEXT_TERTIARY
            } else {
                ExplorerColors::TEXT_TERTIARY
            },
    {
        if self.dark_mode {
            ExplorerColors::DARK_TEXT_TERTIARY
        } else {
            ExplorerColors::TEXT_TERTIARY
        }
    }

    /// Whether display of messages on `key` is paused.
    pub fn is_paused(&self, key: &str) -> (res: bool)
        ensures
            res == holds_key(self.paused_keys@, key@),
    {
        let mut i: usize = 0;
        while i < self.paused_keys.len()
            invariant
                i <= self.paused_keys@.len(),
                forall|j: int| 0 <= j < i ==> (#[trigger] self.paused_keys@[j])@ != key@,
            decreases self.paused_keys.len() - i,
        {
            if str_equal(self.paused_keys[i].as_str(), key) {
                return true;
            }
            i = i + 1;
        }
        false
    }

    /// Pauses or resumes the display of messages on `key` (storage and the
    /// tree still follow them).
    pub fn toggle_pause(&mut self, key: &str)
        ensures
            holds_key(final(self).paused_keys@, key@) == !holds_key(old(self).paused_keys@, key@),
            forall|k: Seq<char>|
                k != key@ ==> holds_key(final(self).paused_keys@, k) == holds_key(old(self).paused_keys@, k),
            *final(self) == (ZenohExplorer { paused_keys: final(self).paused_keys, ..*old(self) }),
    {
        let mut kept: Vec<String> = Vec::new();
        let mut found = false;
        let mut i: usize = 0;
        while i < self.paused_keys.len()
            invariant
                i <= self.paused_keys@.len(),
                found == holds_key(self.paused_keys@.take(i as int), key@),
                forall|k: Seq<char>|
                    k != key@ ==> holds_key(kept@, k) == holds_key(self.paused_keys@.take(i as int), k),
                !holds_key(kept@, key@),
            decreases self.paused_keys.len() - i,
        {
            let ghost before = kept@;
            let ghost pre = self.paused_keys@.take(i as int);
            let k = self.paused_keys[i].clone();
            proof {
                assert(self.paused_keys@.take(i + 1) =~= pre.push(self.paused_keys@[i as int]));
            }
            if str_equal(k.as_str(), key) {
                found = true;
            } else {
                kept.push(k);
            }
            proof {
                let post = self.paused_keys@.take(i + 1);
                assert forall|x: Seq<char>| #![trigger holds_key(post, x)] holds_key(post, x) == (holds_key(pre, x)
                    || self.paused_keys@[i as int]@ == x) by {
                    if holds_key(post, x) && !holds_key(pre, x) {
                        let j = choose|j: int| 0 <= j < post.len() && (#[trigger] post[j])@ == x;
                        if j < pre.len() {
                            assert(pre[j] == post[j]);
                        }
                    }
                    if holds_key(pre, x) {
                        let j = choose|j: int| 0 <= j < pre.len() && (#[trigger] pre[j])@ == x;
                        assert(post[j] == pre[j]);
                    }
                    if self.paused_keys@[i as int]@ == x {
                        assert(post[i as int] == self.paused_keys@[i as int]);
                    }
                }
                assert forall|x: Seq<char>| #![trigger holds_key(kept@, x)] holds_key(kept@, x) == (holds_key(before, x)
                    || (kept@.len() > before.len() && kept@.last()@ == x)) by {
                    if holds_key(kept@, x) && !holds_key(before, x) {
                        let j = choose|j: int| 0 <= j < kept@.len() && (#[trigger] kept@[j])@ == x;
                        if j < before.len() {
                            assert(before[j] == kept@[j]);
                        }
                    }
                    if holds_key(before, x) {
                        let j = choose|j: int| 0 <= j < before.len() && (#[trigger] before[j])@ == x;
                        assert(kept@[j] == before[j]);
                    }
                    if kept@.len() > before.len() && kept@.last()@ == x {
                        assert(kept@[kept@.len() - 1] == kept@.last());
                    }
                }
            }
            i = i + 1;
        }
        proof {
            assert(self.paused_keys@.take(self.paused_keys@.len() as int) =~= self.paused_keys@);
        }
        if !found {
            let ghost before = kept@;
            kept.push(String::from_str(key));
            proof {
                assert forall|x: Seq<char>| #![trigger holds_key(kept@, x)] holds_key(kept@, x) == (holds_key(before, x)
                    || x == key@) by {
                    if holds_key(kept@, x) && !holds_key(before, x) {
                        let j = choose|j: int| 0 <= j < kept@.len() && (#[trigger] kept@[j])@ == x;
                        if j < before.len() {
                            assert(before[j] == kept@[j]);
                        }
                    }
                    if holds_key(before, x) {
                        let j = choose|j: int| 0 <= j < before.len() && (#[trigger] before[j])@ == x;
                        assert(kept@[j] == before[j]);
                    }
                    if x == key@ {
                        assert(kept@[before.len() as int]@ == x);
                    }
                }
            }
        }
        self.paused_keys = kept;
    }
}


/// The export store after a message is received: its raw bytes are
/// stored under its key by the store's insertion policy when they are at
/// most 4 GiB; larger payloads are not stored.
pub open spec fn stored_on_receipt(
    old: Map<Seq<char>, EntryView>,
    new: Map<Seq<char>, EntryView>,
    message: ZenohMessage,
) -> bool {
    if raw_bytes_of(message).len() <= MAX_EXPORT_PAYLOAD {
        insert_payload_result(
            old,
            message.key@,
            EntryView {
                bytes: raw_bytes_of(message),
                received_at: message.timestamp,
                filename: opt_str_view(message.filename),
            },
            new,
        )
    } else {
        new == old
    }
}

/// The message list after a message is received: unchanged when it is not
/// displayed; otherwise the oldest messages are dropped as
/// `eviction_count` says and the message, as shown, is appended. The
/// memory stays within its limit unless the list holds only that message,
/// the list stays within its count limit, and the memory in use stays the
/// sum of the listed messages' sizes.
pub open spec fn listed_on_receipt(old: ZenohExplorer, new: ZenohExplorer, message: ZenohMessage, display: bool) -> bool {
    if !display {
        new.messages@ == old.messages@ && new.current_memory_bytes == old.current_memory_bytes
            && new.messages_dropped == old.messages_dropped
    } else {
        let old_msgs = old.messages@;
        let shown = new.messages@.last();
        let k = eviction_count(
            old_msgs,
            old.current_memory_bytes as nat,
            shown.size_bytes as nat,
            max_memory_bytes(old.max_memory_mb),
            old.max_messages as nat,
        );
        &&& new.messages@.len() > 0
        &&& shown_as(message, shown)
        &&& k <= old_msgs.len()
        &&& new.messages@ == old_msgs.skip(k as int).push(shown)
        &&& new.messages_dropped as nat == add_capped(old.messages_dropped, k)
        &&& new.current_memory_bytes <= max_memory_bytes(old.max_memory_mb) || new.messages@.len() == 1
        &&& old_msgs.len() <= old.max_messages && old.max_messages >= 1 ==> new.messages@.len()
            <= old.max_messages
        &&& old.current_memory_bytes == sizes_sum(old_msgs) && sizes_sum(old_msgs) + shown.size_bytes
            <= usize::MAX ==> new.current_memory_bytes == sizes_sum(new.messages@)
    }
}

/// The browse-tree preview of a payload (see `tree_preview`).
pub open spec fn is_tree_preview(payload: Seq<char>, preview: Seq<char>) -> bool {
    &&& encode_utf8(payload).len() <= PAYLOAD_PREVIEW_SIZE ==> preview == payload
    &&& encode_utf8(payload).len() > PAYLOAD_PREVIEW_SIZE ==> exists|end: nat|
        #[trigger] cut_at(payload, PAYLOAD_PREVIEW_SIZE as nat, end) && preview == byte_prefix(payload, end)
            + "\n... [+"@ + crate::text::dec_digits((encode_utf8(payload).len() - end) as nat)
            + " bytes - use Export for full]"@
}

/// The browse tree after a message is received: a chunk with sane
/// metadata is recorded in the transfer of its topic's node, other chunk
/// traffic leaves the tree as it is; any other message is recorded on its
/// key's node with its payload preview, marked local when it is a local
/// publication.
pub open spec fn tree_on_receipt(old: BrowseTree, new: BrowseTree, message: ZenohMessage) -> bool {
    if let Some((topic_bytes, meta)) = spec_parse_chunk_key(encode_utf8(message.key@)) {
        if spec_is_sane(meta) {
            exists|topic: Seq<char>|
                encode_utf8(topic) == topic_bytes && #[trigger] holds_chunk(
                    node_at(old.spec_root(), path_parts(topic)),
                    node_at(new.spec_root(), path_parts(topic)),
                    meta,
                ) && others_unchanged(old.spec_root(), new.spec_root(), path_parts(topic))
                    && created_on_path(old.spec_root(), new.spec_root(), path_parts(topic))
                    && new.spec_root().key == old.spec_root().key
        } else {
            new == old
        }
    } else {
        exists|preview: Seq<char>|
            #[trigger] is_tree_preview(message.payload@, preview) && holds_recorded(
                node_at(old.spec_root(), path_parts(message.key@)),
                node_at(new.spec_root(), path_parts(message.key@)),
                preview,
                message.encoding@,
                message.is_local && message.message_type == MessageType::Publish,
            ) && others_unchanged(old.spec_root(), new.spec_root(), path_parts(message.key@))
                && created_on_path(old.spec_root(), new.spec_root(), path_parts(message.key@))
                && new.spec_root().key == old.spec_root().key
    }
}

/// The message is displayed in the list: it is not chunk traffic and its
/// key is not paused.
pub open spec fn displayed(m: ZenohMessage, paused: Seq<String>) -> bool {
    spec_parse_chunk_key(encode_utf8(m.key@)) is None && !holds_key(paused, m.key@)
}

/// Nothing that receiving a message changes has changed: the message
/// list, the memory in use, the export store, the tree and the counters.
pub open spec fn receipt_untouched(old: ZenohExplorer, new: ZenohExplorer) -> bool {
    &&& new.messages@ == old.messages@
    &&& new.current_memory_bytes == old.current_memory_bytes
    &&& new.payload_store@ == old.payload_store@
    &&& new.browse_tree == old.browse_tree
    &&& new.messages_dropped == old.messages_dropped
}

/// The deduplication hash of a message: its key's bytes, `0xFF`, then all
/// of its raw payload bytes (see `Deduper::hash_message`).
pub open spec fn dedup_hash(m: ZenohMessage) -> u64 {
    DefaultHasher::spec_finish(seq![encode_utf8(m.key@), seq![0xFFu8], raw_bytes_of(m)])
}

/// Deduplication applies to a message: it is enabled and the message is no
/// query reply.
pub open spec fn dedup_applies(d: Deduper, m: ZenohMessage) -> bool {
    d.enabled && m.message_type != MessageType::QueryReply
}

/// An accepted message is stored, recorded in the tree and listed when
/// displayed; a query reply clears the query alert; nothing is counted as
/// dropped.
pub open spec fn accepted(old: ZenohExplorer, new: ZenohExplorer, m: ZenohMessage) -> bool {
    &&& new.rate_limit_drops == old.rate_limit_drops
    &&& new.messages_deduped == old.messages_deduped
    &&& stored_on_receipt(old.payload_store@, new.payload_store@, m)
    &&& tree_on_receipt(old.browse_tree, new.browse_tree, m)
    &&& listed_on_receipt(old, new, m, displayed(m, old.paused_keys@))
    &&& new.max_messages == old.max_messages
    &&& new.max_memory_mb == old.max_memory_mb
    &&& new.paused_keys == old.paused_keys
    &&& new.query_alert == if m.message_type == MessageType::QueryReply {
        None
    } else {
        old.query_alert
    }
}

/// What receiving a message that is not a repeated query reply does, once
/// the deduper answered `seen` (whether its hash was recorded within the
/// window) and the rate limiter `admitted`:
/// - a duplicate (deduplication applies and `seen`) is counted, nothing
///   else changes;
/// - otherwise a message not admitted is counted as rate-limited, nothing
///   else changes;
/// - otherwise it is accepted, and its hash is recorded as seen at `at`
///   when deduplication applies (see `recorded_at`).
pub open spec fn decided(
    old: ZenohExplorer,
    new: ZenohExplorer,
    m: ZenohMessage,
    seen: bool,
    admitted: bool,
    at: Instant,
) -> bool {
    if dedup_applies(old.deduper, m) && seen {
        new == (ZenohExplorer { messages_deduped: inc(old.messages_deduped), ..old })
    } else if !admitted {
        new == (ZenohExplorer { rate_limit_drops: inc(old.rate_limit_drops), ..old })
    } else {
        &&& accepted(old, new, m)
        &&& new.rate_limiter == old.rate_limiter
        &&& new.deduper.recorded() == if dedup_applies(old.deduper, m) {
            old.deduper.recorded().insert(dedup_hash(m))
        } else {
            old.deduper.recorded()
        }
        &&& new.deduper.enabled == old.deduper.enabled
        &&& new.deduper.ttl_nanos == old.deduper.ttl_nanos
        &&& dedup_applies(old.deduper, m) ==> crate::dedup::recorded_at(old.deduper, new.deduper, dedup_hash(m), at)
        &&& !dedup_applies(old.deduper, m) ==> new.deduper == old.deduper
    }
}

/// What receiving a message that is not a repeated query reply does, with
/// the deduper and the rate limiter asked by the clock:
/// - a duplicate: deduplication applies and its hash was recorded; it is
///   counted, and nothing is recorded or admitted;
/// - a message over the rate limit: the window's count had reached the
///   limit (the limiter is left as it was); it is counted, and its hash is
///   not recorded, so its retransmission is no duplicate;
/// - an accepted message: admitted by the limiter (see `rate_checked`),
///   its hash recorded when deduplication applies, and see `accepted`.
/// The deduper only forgets hashes outside of the one it records.
pub open spec fn received(old: ZenohExplorer, new: ZenohExplorer, m: ZenohMessage) -> bool {
    &&& new.deduper.enabled == old.deduper.enabled
    &&& new.deduper.ttl_nanos == old.deduper.ttl_nanos
    &&& !dedup_applies(old.deduper, m) ==> new.deduper == old.deduper
    &&& {
        ||| {
            &&& dedup_applies(old.deduper, m) && old.deduper.recorded().contains(dedup_hash(m))
            &&& new.messages_deduped == inc(old.messages_deduped)
            &&& new.rate_limit_drops == old.rate_limit_drops
            &&& new.rate_limiter == old.rate_limiter
            &&& new.deduper.recorded().subset_of(old.deduper.recorded())
            &&& receipt_untouched(old, new)
        }
        ||| {
            &&& old.rate_limiter.message_count >= old.rate_limiter.max_messages_per_second
            &&& new.rate_limit_drops == inc(old.rate_limit_drops)
            &&& new.messages_deduped == old.messages_deduped
            &&& new.rate_limiter == old.rate_limiter
            &&& new.deduper.recorded().subset_of(old.deduper.recorded())
            &&& receipt_untouched(old, new)
        }
        ||| {
            &&& accepted(old, new, m)
            &&& exists|over: bool, at: Instant|
                #[trigger] crate::utils::rate_checked(old.rate_limiter, new.rate_limiter, true, over, at)
            &&& dedup_applies(old.deduper, m) ==> new.deduper.recorded().contains(dedup_hash(m))
                && new.deduper.recorded().subset_of(old.deduper.recorded().insert(dedup_hash(m)))
        }
    }
}

/// A message whose hash was not recorded is no duplicate, and it gets
/// its hash recorded only by being accepted: so a message dropped by the
/// rate limiter leaves its retransmission free to be accepted.
pub proof fn law_unrecorded_message_is_no_duplicate(old: ZenohExplorer, new: ZenohExplorer, m: ZenohMessage)
    requires
        received(old, new, m),
        !old.deduper.recorded().contains(dedup_hash(m)),
    ensures
        new.messages_deduped == old.messages_deduped,
        new.deduper.recorded().contains(dedup_hash(m)) ==> accepted(old, new, m),
{
}

/// A message dropped by the rate limiter is no duplicate when it comes
/// again: with deduplication on and its hash not recorded, a first
/// processing that counted it as rate-limited records nothing, and a
/// second processing that the limiter lets through (no drop counted)
/// accepts it: it is stored, recorded in the tree and listed, its hash is
/// recorded, and no duplicate is counted by either call. The drop counter
/// must not have reached its limit, where a further drop would not show.
pub proof fn law_rate_limited_message_is_accepted_later(
    s0: ZenohExplorer,
    s1: ZenohExplorer,
    s2: ZenohExplorer,
    m: ZenohMessage,
)
    requires
        on_message(s0, s1, m),
        on_message(s1, s2, m),
        dedup_applies(s0.deduper, m),
        !s0.deduper.recorded().contains(dedup_hash(m)),
        s1.rate_limit_drops == s0.rate_limit_drops + 1,
        s2.rate_limit_drops == s1.rate_limit_drops,
        s1.rate_limit_drops < usize::MAX,
    ensures
        !s1.deduper.recorded().contains(dedup_hash(m)),
        s1.messages_deduped == s0.messages_deduped,
        s2.messages_deduped == s1.messages_deduped,
        accepted(s1, s2, m),
        s2.deduper.recorded().contains(dedup_hash(m)),
{
}

/// What processing one received message does (see
/// `ZenohExplorer::process_single_message`).
pub open spec fn on_message(old: ZenohExplorer, new: ZenohExplorer, message: ZenohMessage) -> bool {
    &&& {
        let r = if message.message_type == MessageType::QueryReply {
            reply_index_from(old.messages@, message.key@, 0)
        } else {
            None
        };
        if r is Some && message.is_local && !old.messages@[r->0].is_local {
            &&& new.messages@ == old.messages@.update(r->0, message)
            &&& new.payload_store@ == old.payload_store@
            &&& new.browse_tree == old.browse_tree
        } else if r is Some && !message.is_local && old.messages@[r->0].is_local {
            receipt_untouched(old, new)
        } else {
            received(old, new, message)
        }
    }
    &&& new.max_messages == old.max_messages
    &&& new.max_memory_mb == old.max_memory_mb
    &&& new.paused_keys == old.paused_keys
}

/// Processing the messages of a batch one after another leads from `old`
/// to `new` through the given intermediate states.
pub open spec fn on_messages(states: Seq<ZenohExplorer>, messages: Seq<ZenohMessage>) -> bool {
    &&& states.len() == messages.len() + 1
    &&& forall|i: int| 0 <= i < messages.len() ==> on_message(states[i], states[i + 1], #[trigger] messages[i])
}

/// Shrinks a string's buffer to its length, with `String::shrink_to_fit`:
/// the text is unchanged.
#[verifier::external_body]
fn shrink_to_fit(s: &mut String)
    ensures
        final(s)@ == old(s)@,
{
    s.shrink_to_fit()
}

/// Adding a message at the end adds its size to the sum.
proof fn lemma_sizes_sum_push(msgs: Seq<ZenohMessage>, m: ZenohMessage)
    ensures
        sizes_sum(msgs.push(m)) == sizes_sum(msgs) + m.size_bytes,
    decreases msgs.len(),
{
    if msgs.len() > 0 {
        assert(msgs.push(m).drop_first() =~= msgs.drop_first().push(m));
        assert(msgs.push(m)[0] == msgs[0]);
        lemma_sizes_sum_push(msgs.drop_first(), m);
    } else {
        assert(msgs.push(m).drop_first() =~= Seq::<ZenohMessage>::empty());
        assert(msgs.push(m)[0] == m);
        assert(sizes_sum(Seq::<ZenohMessage>::empty()) == 0);
    }
}

/// `x + 1` for counters, saturating.
fn bump(x: usize) -> (res: usize)
    ensures
        res == inc(x),
{
    if x < usize::MAX {
        x + 1
    } else {
        x
    }
}

/// `min(x + k, usize::MAX)`.
pub open spec fn add_capped(x: usize, k: nat) -> nat {
    if x + k <= usize::MAX {
        (x + k) as nat
    } else {
        usize::MAX as nat
    }
}

impl ZenohExplorer {
    /// Stores a message and, when `display` is set, adds it to the message
    /// list within the memory and count limits:
    /// - its raw bytes (its payload bytes, or its text's bytes) go to the
    ///   export store when they are at most 4 GiB;
    /// - for the list, a payload longer than `MAX_STORED_PAYLOAD` bytes is
    ///   cut and marked, the message's footprint is recomputed, and the
    ///   oldest messages are dropped (see `eviction_count`) before it is
    ///   appended.
    #[verifier::rlimit(50)]
    #[verifier::spinoff_prover]
    pub fn add_message_with_limits(&mut self, message: ZenohMessage, display: bool)
        ensures
            stored_on_receipt(old(self).payload_store@, final(self).payload_store@, message),
            listed_on_receipt(*old(self), *final(self), message, display),
            final(self).browse_tree == old(self).browse_tree,
            final(self).max_messages == old(self).max_messages,
            final(self).max_memory_mb == old(self).max_memory_mb,
            final(self).paused_keys == old(self).paused_keys,
            final(self).rate_limit_drops == old(self).rate_limit_drops,
            final(self).messages_deduped == old(self).messages_deduped,
            final(self).deduper == old(self).deduper,
            final(self).rate_limiter == old(self).rate_limiter,
            final(self).query_alert == old(self).query_alert,
    {
        let mut message = message;
        let ghost received_msg = message;
        let mut taken: Option<Vec<u8>> = None;
        std::mem::swap(&mut taken, &mut message.payload_bytes);
        let raw: Vec<u8> = match taken {
            Some(b) => b,
            None => message.payload.as_str().as_bytes_vec(),
        };
        if (raw.len() as u64) <= MAX_EXPORT_PAYLOAD {
            let entry = PayloadEntry {
                bytes: raw,
                received_at: message.timestamp,
                filename: crate::payload_store::clone_opt_string(&message.filename),
            };
            insert_payload(&mut self.payload_store, message.key.clone(), entry);
        }
        let ghost store_after = self.payload_store;
        if !display {
            proof {
                assert(self.messages@ == old(self).messages@);
            }
            return;
        }
        if message.payload.as_str().as_bytes().len() > MAX_STORED_PAYLOAD {
            message.payload = list_payload(message.payload.as_str());
            shrink_to_fit(&mut message.payload);
        } else {
            proof {
                assert(message.payload@ == received_msg.payload@);
            }
        }
        let size = message.calculate_size();
        message.size_bytes = size;
        let max_mem: usize = match self.max_memory_mb.checked_mul(1048576) {
            Some(m) => m,
            None => usize::MAX,
        };
        let ghost m0 = self.messages@;
        let ghost c0 = self.current_memory_bytes as nat;
        let ghost d0 = self.messages_dropped;
        let ghost max_n = self.max_messages as nat;
        let ghost k1: nat = 0;
        if (self.current_memory_bytes as u128) + (size as u128) > (max_mem as u128) && self.messages.len() > 0 {
            while self.messages.len() > 0 && ((self.current_memory_bytes as u128) + (size as u128) > (max_mem
                as u128) || self.messages.len() >= self.max_messages)
                invariant
                    k1 <= m0.len(),
                    self.messages@ == m0.skip(k1 as int),
                    self.current_memory_bytes as nat == memory_after_pops(m0, c0, k1),
                    pops_while(m0, c0, size as nat, max_mem as nat, max_n) == k1 + pops_while(
                        self.messages@,
                        self.current_memory_bytes as nat,
                        size as nat,
                        max_mem as nat,
                        max_n,
                    ),
                    self.messages_dropped as nat == add_capped(d0, k1),
                    max_n == self.max_messages,
                    c0 == sizes_sum(m0) ==> self.current_memory_bytes == sizes_sum(self.messages@),
                    self.browse_tree == old(self).browse_tree,
                    self.max_messages == old(self).max_messages,
                    self.max_memory_mb == old(self).max_memory_mb,
                    self.payload_store == store_after,
                    self.paused_keys == old(self).paused_keys,
                    self.rate_limit_drops == old(self).rate_limit_drops,
                    self.messages_deduped == old(self).messages_deduped,
                    self.deduper == old(self).deduper,
                    self.rate_limiter == old(self).rate_limiter,
                    self.query_alert == old(self).query_alert,
                decreases self.messages@.len(),
            {
                let ghost before = self.messages@;
                let ghost cur_before = self.current_memory_bytes as nat;
                let old_msg = self.messages.pop_front().unwrap();
                self.current_memory_bytes = self.current_memory_bytes.saturating_sub(old_msg.size_bytes);
                self.messages_dropped = bump(self.messages_dropped);
                proof {
                    assert(before.drop_first() =~= self.messages@);
                    assert(m0.skip(k1 + 1int) =~= before.drop_first());
                    lemma_memory_after_pops_step(m0, c0, k1);
                    k1 = k1 + 1;
                }
            }
        }
        proof {
            assert(max_mem as nat == max_memory_bytes(self.max_memory_mb)) by {
                if self.max_memory_mb * 1048576 <= usize::MAX {
                } else {
                }
            }
        }
        let ghost k2: nat = 0;
        if self.messages.len() >= self.max_messages {
            let ghost before = self.messages@;
            if let Some(old_msg) = self.messages.pop_front() {
                self.current_memory_bytes = self.current_memory_bytes.saturating_sub(old_msg.size_bytes);
                self.messages_dropped = bump(self.messages_dropped);
                proof {
                    assert(before.drop_first() =~= self.messages@);
                    assert(m0.skip(k1 + 1int) =~= before.drop_first());
                    k2 = 1;
                }
            }
        }
        let ghost mid = self.messages@;
        self.current_memory_bytes = self.current_memory_bytes.saturating_add(size);
        self.messages.push_back(message);
        proof {
            assert(self.messages@ == mid.push(message));
            lemma_sizes_sum_push(mid, message);
            assert(self.messages@.last() == message);
            let shown = self.messages@.last();
            let k = eviction_count(m0, c0, shown.size_bytes as nat, max_memory_bytes(old(self).max_memory_mb), max_n);
            assert(shown_as(received_msg, shown));
            assert(k == k1 + k2);
            assert(self.messages@ == m0.skip(k as int).push(shown));
            assert(self.messages_dropped as nat == add_capped(old(self).messages_dropped, k));
        }
    }
}


impl ZenohExplorer {
    /// Records a received message in the browse tree: a chunk with sane
    /// metadata in its topic's transfer, any other message on its key's
    /// node.
    pub fn add_message_to_browse_tree(&mut self, message: &ZenohMessage)
        ensures
            tree_on_receipt(old(self).browse_tree, final(self).browse_tree, *message),
            final(self).messages == old(self).messages,
            final(self).payload_store == old(self).payload_store,
            final(self).current_memory_bytes == old(self).current_memory_bytes,
            final(self).messages_dropped == old(self).messages_dropped,
            final(self).max_messages == old(self).max_messages,
            final(self).max_memory_mb == old(self).max_memory_mb,
            final(self).paused_keys == old(self).paused_keys,
            final(self).rate_limit_drops == old(self).rate_limit_drops,
            final(self).messages_deduped == old(self).messages_deduped,
            final(self).deduper == old(self).deduper,
            final(self).rate_limiter == old(self).rate_limiter,
            final(self).query_alert == old(self).query_alert,
    {
        if let Some((topic, meta)) = parse_chunk_key(message.key.as_str()) {
            if meta.is_sane() {
                self.browse_tree.record_chunk(topic, meta);
                proof {
                    assert(encode_utf8(topic@) == topic.spec_bytes());
                }
            }
            return;
        }
        let preview = tree_preview(message.payload.as_str());
        let mark_local = message.is_local && message.message_type == MessageType::Publish;
        self.browse_tree.insert_path(message.key.as_str(), preview, message.encoding.clone(), mark_local);
        proof {
            assert(is_tree_preview(message.payload@, preview@));
        }
    }

    /// Whether any listed message is a query reply on `key`; the first one.
    fn find_reply(&self, key: &str) -> (res: Option<usize>)
        ensures
            match res {
                Some(i) => reply_index_from(self.messages@, key@, 0) == Some(i as int) && i < self.messages@.len(),
                None => reply_index_from(self.messages@, key@, 0) is None,
            },
    {
        let n = self.messages.len();
        let mut i: usize = 0;
        while i < n
            invariant
                n == self.messages@.len(),
                i <= n,
                reply_index_from(self.messages@, key@, 0) == reply_index_from(self.messages@, key@, i as int),
            decreases n - i,
        {
            let m = &self.messages[i];
            if m.message_type == MessageType::QueryReply && str_equal(m.key.as_str(), key) {
                proof {
                    lemma_reply_index(self.messages@, key@, i as int);
                }
                return Some(i);
            }
            proof {
                assert(reply_index_from(self.messages@, key@, i as int) == reply_index_from(self.messages@, key@, i + 1));
            }
            i = i + 1;
        }
        None
    }

    /// Processes one received message through the query-reply rule,
    /// deduplication, rate limiting and storage:
    /// - a query reply on a key that already has one listed: a local reply
    ///   replaces a remote one, a remote reply never replaces a local one;
    /// - otherwise see `received`: duplicates and messages over the rate
    ///   limit are counted and dropped (a dropped message's hash is not
    ///   recorded, so its retransmission is no duplicate); accepted messages
    ///   are stored, recorded in the tree and listed unless they are chunk
    ///   traffic or their key is paused.
    pub fn process_single_message(&mut self, message: ZenohMessage)
        ensures
            on_message(*old(self), *final(self), message),
    {
        let ghost r = if message.message_type == MessageType::QueryReply {
            reply_index_from(self.messages@, message.key@, 0)
        } else {
            None
        };
        if message.message_type == MessageType::QueryReply {
            if let Some(idx) = self.find_reply(message.key.as_str()) {
                let existing_local = self.messages[idx].is_local;
                if message.is_local && !existing_local {
                    let ghost before = self.messages@;
                    let _ = self.messages.remove(idx);
                    self.messages.insert(idx, message);
                    proof {
                        assert(self.messages@ =~= before.update(idx as int, message));
                    }
                    return;
                } else if !message.is_local && existing_local {
                    return;
                }
            }
        }
        let check = self.deduper.enabled && message.message_type != MessageType::QueryReply;
        let ghost before = *self;
        let seen = if check {
            let hash = Self::message_hash(&message);
            self.deduper.seen_recently(hash)
        } else {
            false
        };
        let ghost swept = *self;
        let admitted: bool;
        if check && seen {
            admitted = true;
        } else {
            let ghost lim0 = self.rate_limiter;
            let a = self.rate_limiter.check_and_update();
            proof {
                let (over, at) = choose|over: bool, at: Instant|
                    #[trigger] crate::utils::rate_checked(lim0, self.rate_limiter, a, over, at);
                assert(crate::utils::rate_checked(lim0, self.rate_limiter, a, over, at));
                if !a {
                    assert(!over);
                    assert(self.rate_limiter == lim0);
                    assert(lim0.message_count >= lim0.max_messages_per_second);
                }
            }
            admitted = a;
        }
        let ghost mid = *self;
        let at = now();
        self.process_checked(message, seen, admitted, at);
        proof {
            assert(mid.messages == before.messages);
            assert(mid.payload_store == before.payload_store);
            assert(mid.browse_tree == before.browse_tree);
            assert(mid.paused_keys == before.paused_keys);
            assert(self.deduper.enabled == before.deduper.enabled);
            assert(self.deduper.ttl_nanos == before.deduper.ttl_nanos);
            assert(!dedup_applies(before.deduper, message) ==> self.deduper == before.deduper);
            if check && seen {
                assert(before.deduper.recorded().contains(dedup_hash(message)));
                assert(receipt_untouched(before, *self));
                assert(self.rate_limiter == before.rate_limiter);
            } else if !admitted {
                assert(receipt_untouched(before, *self));
                assert(self.rate_limiter == before.rate_limiter);
                assert(before.rate_limiter.message_count >= before.rate_limiter.max_messages_per_second);
            } else {
                assert(accepted(mid, *self, message));
                assert(accepted(before, *self, message));
            }
            assert(received(before, *self, message));
        }
    }

    /// The deduplication hash of a message (see `dedup_hash`).
    fn message_hash(message: &ZenohMessage) -> (res: u64)
        ensures
            res == dedup_hash(*message),
    {
        match &message.payload_bytes {
            Some(b) => Deduper::hash_message(message.key.as_str(), b.as_slice()),
            None => Deduper::hash_message(message.key.as_str(), message.payload.as_str().as_bytes()),
        }
    }

    /// Processes a received message that is not a repeated query reply,
    /// given the deduper's answer `seen` (whether its hash was recorded
    /// within the window), the rate limiter's answer `admitted` and the time
    /// `at` it arrived; see `decided`.
    pub fn process_checked(&mut self, message: ZenohMessage, seen: bool, admitted: bool, at: Instant)
        ensures
            decided(*old(self), *final(self), message, seen, admitted, at),
    {
        let check = self.deduper.enabled && message.message_type != MessageType::QueryReply;
        if check && seen {
            self.messages_deduped = bump(self.messages_deduped);
            return;
        }
        if !admitted {
            self.rate_limit_drops = bump(self.rate_limit_drops);
            return;
        }
        if check {
            let hash = Self::message_hash(&message);
            self.deduper.record_at(hash, at);
        }
        let is_query_reply = message.message_type == MessageType::QueryReply;
        let is_chunk = parse_chunk_key(message.key.as_str()).is_some();
        let display = !is_chunk && !self.is_paused(message.key.as_str());
        proof {
            assert(display == displayed(message, self.paused_keys@));
        }
        let ghost mid2 = *self;
        self.add_message_to_browse_tree(&message);
        self.add_message_with_limits(message, display);
        if is_query_reply {
            self.query_alert = None;
        }
        proof {
            assert(listed_on_receipt(mid2, *self, message, display));
        }
    }
}

impl ZenohExplorer {
    /// Updates the state with one event from the worker:
    /// - the two connection phases move the status to connecting the
    ///   monitor session, then to connected;
    /// - a disconnection clears the discovery counts and the subscriptions;
    /// - discovery updates, connection errors and subscription changes are
    ///   recorded; a query without answers raises the query alert;
    /// - messages are processed one by one;
    /// - an answer to a health check marks the worker healthy.
    pub fn process_event(&mut self, event: ZenohEvent)
        ensures
            event is PublishingConnected ==> final(self).connection_status is ConnectingMonitor,
            event is MonitorConnected ==> final(self).connection_status is Connected,
            event is Disconnected ==> final(self).connection_status is Disconnected
                && final(self).discovered_peers == 0 && final(self).discovered_routers == 0
                && final(self).subscriptions@.len() == 0,
            event matches ZenohEvent::DiscoveryUpdate { peers, routers } ==> final(self).discovered_peers
                == peers && final(self).discovered_routers == routers,
            event matches ZenohEvent::ConnectionError(err) ==> final(self).connection_status matches ConnectionStatus::Error(
                e,
            ) && e@ == err@,
            event matches ZenohEvent::SubscriptionCreated { id, key_expr } ==> final(self).subscriptions@.len()
                == old(self).subscriptions@.len() + 1 && final(self).subscriptions@.drop_last() == old(
                self,
            ).subscriptions@ && final(self).subscriptions@.last().id@ == id@
                && final(self).subscriptions@.last().key_expr@ == key_expr@
                && final(self).subscriptions@.last().reliability@ == old(self).subscribe_reliability@
                && final(self).subscriptions@.last().mode@ == old(self).subscribe_mode@,
            event matches ZenohEvent::SubscriptionRemoved { id } ==> final(self).subscriptions@ == old(
                self,
            ).subscriptions@.filter(|s: Subscription| s.id@ != id@),
            event matches ZenohEvent::QueryNoResponses { selector } ==> final(self).query_alert matches Some(a)
                && a@ == "No queryables available for '"@ + selector@
                + "'. \n\nQueries require active services (queryables) to respond. \nTry using Subscribe instead to monitor data."@,
            event is Pong ==> final(self).worker_healthy,
            event matches ZenohEvent::MessageReceived(m) ==> on_message(*old(self), *final(self), m),
            event matches ZenohEvent::MessageBatch(ms) ==> exists|states: Seq<ZenohExplorer>|
                #[trigger] on_messages(states, ms@) && states[0] == *old(self) && states.last() == *final(self),
            event is PublishingConnected || event is MonitorConnected || event is ConnectionError ==> *final(self)
                == (ZenohExplorer { connection_status: final(self).connection_status, ..*old(self) }),
            event is Disconnected ==> *final(self) == (ZenohExplorer {
                connection_status: final(self).connection_status,
                discovered_peers: 0,
                discovered_routers: 0,
                subscriptions: final(self).subscriptions,
                ..*old(self)
            }),
            event is DiscoveryUpdate ==> *final(self) == (ZenohExplorer {
                discovered_peers: final(self).discovered_peers,
                discovered_routers: final(self).discovered_routers,
                ..*old(self)
            }),
            event is SubscriptionCreated || event is SubscriptionRemoved ==> *final(self) == (ZenohExplorer {
                subscriptions: final(self).subscriptions,
                ..*old(self)
            }),
            event is QueryNoResponses ==> *final(self) == (ZenohExplorer { query_alert: final(self).query_alert, ..*old(self) }),
            event is Pong ==> *final(self) == (ZenohExplorer {
                worker_healthy: true,
                last_health_check: final(self).last_health_check,
                ..*old(self)
            }),
    {
        match event {
            ZenohEvent::PublishingConnected => {
                self.connection_status = ConnectionStatus::ConnectingMonitor;
            },
            ZenohEvent::MonitorConnected => {
                self.connection_status = ConnectionStatus::Connected;
            },
            ZenohEvent::Disconnected => {
                self.connection_status = ConnectionStatus::Disconnected;
                self.discovered_peers = 0;
                self.discovered_routers = 0;
                self.subscriptions.clear();
            },
            ZenohEvent::DiscoveryUpdate { peers, routers } => {
                self.discovered_peers = peers;
                self.discovered_routers = routers;
            },
            ZenohEvent::ConnectionError(err) => {
                self.connection_status = ConnectionStatus::Error(err);
            },
            ZenohEvent::MessageReceived(message) => {
                self.process_single_message(message);
            },
            ZenohEvent::MessageBatch(messages) => {
                let ghost all = messages@;
                let mut batch = messages;
                let ghost mut states: Seq<ZenohExplorer> = seq![*self];
                let ghost mut done: int = 0;
                while batch.len() > 0
                    invariant
                        0 <= done <= all.len(),
                        batch@ == all.skip(done),
                        states.len() == done + 1,
                        states.last() == *self,
                        states[0] == *old(self),
                        forall|i: int| 0 <= i < done ==> on_message(states[i], states[i + 1], #[trigger] all[i]),
                    decreases batch.len(),
                {
                    let message = batch.remove(0);
                    proof {
                        assert(message == all[done]);
                    }
                    self.process_single_message(message);
                    proof {
                        let prev = states;
                        states = states.push(*self);
                        assert forall|i: int| 0 <= i < done + 1 implies on_message(states[i], states[i + 1], #[trigger] all[i]) by {
                            if i < done {
                                assert(states[i] == prev[i]);
                                assert(states[i + 1] == prev[i + 1]);
                            }
                        }
                        done = done + 1;
                        assert(batch@ =~= all.skip(done));
                    }
                }
                proof {
                    assert(done == all.len());
                    assert(on_messages(states, all));
                }
            },
            ZenohEvent::SubscriptionCreated { id, key_expr } => {
                let sub = Subscription {
                    id,
                    key_expr,
                    reliability: self.subscribe_reliability.clone(),
                    mode: self.subscribe_mode.clone(),
                };
                self.subscriptions.push(sub);
            },
            ZenohEvent::SubscriptionRemoved { id } => {
                let ghost old_subs = self.subscriptions@;
                let ghost keep = |s: Subscription| s.id@ != id@;
                let mut kept: Vec<Subscription> = Vec::new();
                let mut i: usize = 0;
                proof {
                    assert(old_subs.take(0).filter(keep) =~= Seq::<Subscription>::empty()) by {
                        reveal_with_fuel(Seq::filter, 1);
                    }
                }
                while i < self.subscriptions.len()
                    invariant
                        self.subscriptions@ == old_subs,
                        i <= old_subs.len(),
                        kept@ == old_subs.take(i as int).filter(keep),
                        forall|s: Subscription| #[trigger] keep(s) == (s.id@ != id@),
                    decreases self.subscriptions.len() - i,
                {
                    let s = &self.subscriptions[i];
                    proof {
                        assert(old_subs.take(i + 1).drop_last() =~= old_subs.take(i as int));
                        assert(old_subs.take(i + 1).last() == *s);
                        reveal_with_fuel(Seq::filter, 1);
                    }
                    if !str_equal(s.id.as_str(), id.as_str()) {
                        let c = Subscription {
                            id: s.id.clone(),
                            key_expr: s.key_expr.clone(),
                            reliability: s.reliability.clone(),
                            mode: s.mode.clone(),
                        };
                        kept.push(c);
                        proof {
                            assert(c == *s);
                        }
                    }
                    i = i + 1;
                }
                proof {
                    assert(old_subs.take(old_subs.len() as int) =~= old_subs);
                }
                self.subscriptions = kept;
            },
            ZenohEvent::QueryNoResponses { selector } => {
                let mut alert = String::from_str("No queryables available for '");
                alert.append(selector.as_str());
                alert.append(
                    "'. \n\nQueries require active services (queryables) to respond. \nTry using Subscribe instead to monitor data.",
                );
                self.query_alert = Some(alert);
            },
            ZenohEvent::Pong => {
                self.worker_healthy = true;
                self.last_health_check = now();
            },
        }
    }

    /// The health check `elapsed_nanos` after the worker last answered
    /// (see `health_outcome`). Returns whether a health check is due.
    pub fn health_check_after(&mut self, elapsed_nanos: u128) -> (due: bool)
        ensures
            (due, final(self).worker_healthy) == health_outcome(old(self).worker_healthy, elapsed_nanos),
            *final(self) == (ZenohExplorer { worker_healthy: final(self).worker_healthy, ..*old(self) }),
    {
        if elapsed_nanos > 5_000_000_000 {
            if elapsed_nanos > 15_000_000_000 {
                self.worker_healthy = false;
            }
            true
        } else {
            false
        }
    }

    /// The periodic health check, timed by the clock since the worker's
    /// last answer (see `health_outcome`). Returns whether a health check
    /// is due (the caller sends it).
    pub fn health_check(&mut self) -> (due: bool)
        ensures
            exists|elapsed: u128|
                (due, final(self).worker_healthy) == #[trigger] health_outcome(old(self).worker_healthy, elapsed),
            *final(self) == (ZenohExplorer { worker_healthy: final(self).worker_healthy, ..*old(self) }),
    {
        let elapsed = nanos_between(&self.last_health_check, &now());
        self.health_check_after(elapsed)
    }
}

/// The health check `elapsed` nanoseconds after the worker last answered,
/// as (a check is due, the worker counts as healthy): a check is due once
/// more than five seconds passed; after more than fifteen seconds the
/// worker counts as unhealthy, before that it keeps its status.
pub open spec fn health_outcome(healthy: bool, elapsed: u128) -> (bool, bool) {
    (elapsed > 5_000_000_000, healthy && elapsed <= 15_000_000_000)
}

/// Every cached rendering is the rendering of its text (see
/// `json_rendering_of`).
pub open spec fn cache_consistent(c: Map<u64, (String, Option<String>)>) -> bool {
    forall|h: u64| #[trigger] c.contains_key(h) ==> json_rendering_of(c[h].0@, c[h].1)
}

/// The cache holds a rendering of exactly this text under `h`.
pub open spec fn cache_hit(c: Map<u64, (String, Option<String>)>, h: u64, text: Seq<char>) -> bool {
    c.contains_key(h) && c[h].0@ == text
}

impl ZenohExplorer {
    /// Formatted JSON of a payload, cached by the payload's hash (with the
    /// text, so that a rendering is only reused for the same text):
    /// payloads over `MAX_UI_DISPLAY_SIZE` bytes are not parsed; a cached
    /// rendering of the same text is returned as cached; otherwise the
    /// payload is parsed and printed (see `json_view_of`), and the result is
    /// cached (the cache is cleared once it holds more than `MAX_JSON_CACHE`
    /// results). So the result is present exactly when the payload is JSON.
    pub fn get_cached_json(&mut self, payload: &str) -> (res: Option<String>)
        ensures
            payload.spec_bytes().len() > MAX_UI_DISPLAY_SIZE ==> res is None
                && final(self).json_parse_cache@ == old(self).json_parse_cache@,
            payload.spec_bytes().len() <= MAX_UI_DISPLAY_SIZE ==> ({
                    let h = payload_hash(payload.spec_bytes());
                    &&& cache_hit(final(self).json_parse_cache@, h, payload@)
                    &&& opt_str_view(final(self).json_parse_cache@[h].1) == opt_str_view(res)
                    &&& cache_hit(old(self).json_parse_cache@, h, payload@) ==> opt_str_view(res) == opt_str_view(
                        old(self).json_parse_cache@[h].1,
                    )
                    &&& !cache_hit(old(self).json_parse_cache@, h, payload@) ==> json_rendering_of(payload@, res)
                }),
            cache_consistent(old(self).json_parse_cache@) ==> cache_consistent(final(self).json_parse_cache@)
                && (payload.spec_bytes().len() <= MAX_UI_DISPLAY_SIZE ==> json_rendering_of(payload@, res)),
            *final(self) == (ZenohExplorer { json_parse_cache: final(self).json_parse_cache, ..*old(self) }),
    {
        if payload.as_bytes().len() > MAX_UI_DISPLAY_SIZE {
            return None;
        }
        let hash = compute_payload_hash(payload);
        if let Some(cached) = self.json_parse_cache.get(&hash) {
            if str_equal(cached.0.as_str(), payload) {
                let res = crate::payload_store::clone_opt_string(&cached.1);
                proof {
                    assert(cache_hit(self.json_parse_cache@, hash, payload@));
                }
                return res;
            }
        }
        proof {
            assert(!cache_hit(self.json_parse_cache@, hash, payload@));
        }
        let result = json_view_of(pretty_of_text(payload));
        if self.json_parse_cache.len() > MAX_JSON_CACHE {
            self.json_parse_cache.clear();
        }
        let ghost before = self.json_parse_cache@;
        let stored = crate::payload_store::clone_opt_string(&result);
        let entry = (String::from_str(payload), stored);
        let ghost e = entry;
        self.json_parse_cache.insert(hash, entry);
        proof {
            assert(self.json_parse_cache@ == before.insert(hash, e));
            assert(cache_hit(self.json_parse_cache@, hash, payload@));
            assert(opt_str_view(self.json_parse_cache@[hash].1) == opt_str_view(result));
            assert(json_rendering_of(payload@, result));
            assert(json_rendering_of(e.0@, e.1));
            if cache_consistent(old(self).json_parse_cache@) {
                assert(cache_consistent(before)) by {
                    if before != old(self).json_parse_cache@ {
                        assert(before =~= Map::<u64, (String, Option<String>)>::empty());
                    }
                }
                assert forall|h: u64| #[trigger] self.json_parse_cache@.contains_key(h) implies json_rendering_of(
                    self.json_parse_cache@[h].0@,
                    self.json_parse_cache@[h].1,
                ) by {
                    if h != hash {
                        assert(before.contains_key(h));
                    }
                }
            }
        }
        result
    }
}


/// A number parsed from the text (as `usize` parses), if it parses.
fn parse_usize(text: &str) -> (res: Option<usize>)
    ensures
        match crate::text::spec_parse_bounded(text.spec_bytes(), usize::MAX as nat) {
            Some(v) => res == Some(v as usize),
            None => res is None,
        },
{
    match crate::text::parse_bounded(text.as_bytes(), usize::MAX as u64) {
        Some(v) => Some(v as usize),
        None => None,
    }
}

/// `v` clamped to `[lo, hi]`.
pub open spec fn clamp(v: nat, lo: nat, hi: nat) -> nat {
    if v < lo {
        lo
    } else if v > hi {
        hi
    } else {
        v
    }
}

/// Number of most recent messages the message list renders.
pub const MAX_RENDERED_MESSAGES: usize = 500;

/// The message passes the list's filter: the filter is empty, or occurs in
/// the key or in the payload's first `MAX_HASH_BYTES` bytes (cut at a
/// character boundary).
pub open spec fn passes_filter(key: Seq<char>, payload: Seq<char>, filter: Seq<char>) -> bool {
    filter.len() == 0 || crate::tree::contains_text(key, filter) || exists|end: nat|
        #[trigger] cut_at(payload, crate::hashing::MAX_HASH_BYTES as nat, end) && crate::tree::contains_text(
            byte_prefix(payload, end),
            filter,
        )
}

/// Whether a message passes the message list's filter.
pub fn message_matches_filter(message: &ZenohMessage, filter: &str) -> (res: bool)
    ensures
        res == passes_filter(message.key@, message.payload@, filter@),
{
    if filter.unicode_len() == 0 {
        return true;
    }
    if crate::tree::str_contains(message.key.as_str(), filter) {
        return true;
    }
    let end = crate::preview::safe_truncate_index(message.payload.as_str(), crate::hashing::MAX_HASH_BYTES);
    let (head, _tail) = message.payload.as_str().split_at(end);
    proof {
        encode_utf8_decode_utf8(head@);
        assert(cut_at(message.payload@, crate::hashing::MAX_HASH_BYTES as nat, end as nat));
        assert(head@ == byte_prefix(message.payload@, end as nat));
        assert forall|e: nat| #[trigger] cut_at(message.payload@, crate::hashing::MAX_HASH_BYTES as nat, e) implies e
            == end by {
            crate::preview::lemma_safe_truncation_unique(
                encode_utf8(message.payload@),
                crate::hashing::MAX_HASH_BYTES as nat,
                e,
                end as nat,
            );
        }
    }
    crate::tree::str_contains(head, filter)
}

/// Index of the first message the list renders: only the last
/// `MAX_RENDERED_MESSAGES` are rendered.
pub fn first_rendered(count: usize) -> (res: usize)
    ensures
        res == if count > MAX_RENDERED_MESSAGES {
            count - MAX_RENDERED_MESSAGES
        } else {
            0
        },
{
    count.saturating_sub(MAX_RENDERED_MESSAGES)
}

/// A query's timeout in milliseconds: the text parsed as `u64`, or 5000.
pub fn query_timeout_ms(text: &str) -> (res: u64)
    ensures
        res == match crate::text::spec_parse_bounded(text.spec_bytes(), u64::MAX as nat) {
            Some(v) => v as u64,
            None => 5000,
        },
{
    match crate::text::parse_bounded(text.as_bytes(), u64::MAX) {
        Some(v) => v,
        None => 5000,
    }
}

impl ZenohExplorer {
    /// Clears the message list and its counters.
    pub fn clear_messages(&mut self)
        ensures
            final(self).messages@.len() == 0,
            final(self).current_memory_bytes == 0,
            final(self).messages_dropped == 0,
            final(self).rate_limit_drops == 0,
            *final(self) == (ZenohExplorer {
                messages: final(self).messages,
                current_memory_bytes: 0,
                messages_dropped: 0,
                rate_limit_drops: 0,
                ..*old(self)
            }),
    {
        self.messages.clear();
        self.current_memory_bytes = 0;
        self.messages_dropped = 0;
        self.rate_limit_drops = 0;
    }

    /// Sets the memory limit from the text, in MiB clamped to 10..=1000;
    /// text that does not parse leaves it as it is.
    pub fn set_memory_limit(&mut self, text: &str)
        ensures
            match crate::text::spec_parse_bounded(text.spec_bytes(), usize::MAX as nat) {
                Some(v) => final(self).max_memory_mb as nat == clamp(v, 10, 1000),
                None => final(self).max_memory_mb == old(self).max_memory_mb,
            },
            *final(self) == (ZenohExplorer { max_memory_mb: final(self).max_memory_mb, ..*old(self) }),
    {
        if let Some(v) = parse_usize(text) {
            self.max_memory_mb = if v < 10 {
                10
            } else if v > 1000 {
                1000
            } else {
                v
            };
        }
    }

    /// Sets the message limit from the text, clamped to 100..=50000; text
    /// that does not parse leaves it as it is.
    pub fn set_message_limit(&mut self, text: &str)
        ensures
            match crate::text::spec_parse_bounded(text.spec_bytes(), usize::MAX as nat) {
                Some(v) => final(self).max_messages as nat == clamp(v, 100, 50000),
                None => final(self).max_messages == old(self).max_messages,
            },
            *final(self) == (ZenohExplorer { max_messages: final(self).max_messages, ..*old(self) }),
    {
        if let Some(v) = parse_usize(text) {
            self.max_messages = if v < 100 {
                100
            } else if v > 50000 {
                50000
            } else {
                v
            };
        }
    }

    /// Sets the rate limit from the text, in messages a second clamped to
    /// 10..=10000; text that does not parse leaves it as it is.
    pub fn set_rate_limit(&mut self, text: &str)
        ensures
            match crate::text::spec_parse_bounded(text.spec_bytes(), usize::MAX as nat) {
                Some(v) => final(self).rate_limiter.max_messages_per_second as nat == clamp(v, 10, 10000),
                None => final(self).rate_limiter.max_messages_per_second
                    == old(self).rate_limiter.max_messages_per_second,
            },
            *final(self) == (ZenohExplorer {
                rate_limiter: RateLimiter {
                    max_messages_per_second: final(self).rate_limiter.max_messages_per_second,
                    ..old(self).rate_limiter
                },
                ..*old(self)
            }),
    {
        if let Some(v) = parse_usize(text) {
            self.rate_limiter.max_messages_per_second = if v < 10 {
                10
            } else if v > 10000 {
                10000
            } else {
                v
            };
        }
    }
}


/// The header's discovery summary: routers as `{n}R` and peers as `{n}P`
/// (each only when there is at least one), space-separated in parentheses;
/// nothing when there are neither.
pub fn discovery_summary(peers: usize, routers: usize) -> (res: Option<String>)
    ensures
        peers == 0 && routers == 0 ==> res is None,
        peers > 0 && routers > 0 ==> (res matches Some(t) && t@ == "("@ + crate::text::dec_digits(routers as nat)
            + "R"@ + " "@ + crate::text::dec_digits(peers as nat) + "P"@ + ")"@),
        peers > 0 && routers == 0 ==> (res matches Some(t) && t@ == "("@ + crate::text::dec_digits(peers as nat)
            + "P"@ + ")"@),
        peers == 0 && routers > 0 ==> (res matches Some(t) && t@ == "("@ + crate::text::dec_digits(routers as nat)
            + "R"@ + ")"@),
{
    if peers == 0 && routers == 0 {
        return None;
    }
    let mut t = String::from_str("(");
    if routers > 0 {
        crate::text::push_decimal(&mut t, routers as u128);
        t.append("R");
        if peers > 0 {
            t.append(" ");
        }
    }
    if peers > 0 {
        crate::text::push_decimal(&mut t, peers as u128);
        t.append("P");
    }
    t.append(")");
    Some(t)
}

/// The header's drop counters: `({d} dropped, {r} rate limited)` when
/// messages were rate limited, else `({d} dropped)`; nothing when neither
/// counter is set.
pub fn drop_summary(dropped: usize, rate_limited: usize) -> (res: Option<String>)
    ensures
        dropped == 0 && rate_limited == 0 ==> res is None,
        rate_limited > 0 ==> (res matches Some(t) && t@ == "("@ + crate::text::dec_digits(dropped as nat)
            + " dropped, "@ + crate::text::dec_digits(rate_limited as nat) + " rate limited)"@),
        dropped > 0 && rate_limited == 0 ==> (res matches Some(t) && t@ == "("@ + crate::text::dec_digits(
            dropped as nat,
        ) + " dropped)"@),
{
    if dropped == 0 && rate_limited == 0 {
        return None;
    }
    let mut t = String::from_str("(");
    crate::text::push_decimal(&mut t, dropped as u128);
    if rate_limited > 0 {
        t.append(" dropped, ");
        crate::text::push_decimal(&mut t, rate_limited as u128);
        t.append(" rate limited)");
    } else {
        t.append(" dropped)");
    }
    Some(t)
}

/// Whether a query reply came from this instance's queryable: its
/// attachment, read as text, contains `source:local`.
pub fn reply_is_local(attachment: Option<&str>) -> (res: bool)
    ensures
        res == (attachment matches Some(a) && crate::tree::contains_text(a@, "source:local"@)),
{
    match attachment {
        Some(a) => crate::tree::str_contains(a, "source:local"),
        None => false,
    }
}

/// The chunk count of a transfer's progress line:
/// `{received}/{total} chunks received, {size} total`.
pub fn chunk_progress_line(p: crate::transfer::ChunkProgress) -> (res: String)
    ensures
        res@ == crate::text::dec_digits(p.received as nat) + "/"@ + crate::text::dec_digits(p.total_chunks as nat)
            + " chunks received, "@ + crate::transfer::spec_format_size(p.total_size as nat) + " total"@,
{
    let mut t = String::new();
    crate::text::push_decimal(&mut t, p.received as u128);
    t.append("/");
    crate::text::push_decimal(&mut t, p.total_chunks as u128);
    t.append(" chunks received, ");
    let size = crate::transfer::format_size(p.total_size);
    t.append(size.as_str());
    t.append(" total");
    t
}

/// The progress line of a transfer node in the tree:
/// `{received}/{total} chunks · {size}`.
pub fn transfer_line(t: &crate::types::TransferState) -> (res: String)
    ensures
        res@ == crate::text::dec_digits(t.received@.len()) + "/"@ + crate::text::dec_digits(t.total_chunks as nat)
            + " chunks · "@ + crate::transfer::spec_format_size(t.total_size as nat),
{
    let mut line = String::new();
    crate::text::push_decimal(&mut line, t.received.len() as u128);
    line.append("/");
    crate::text::push_decimal(&mut line, t.total_chunks as u128);
    line.append(" chunks · ");
    let size = crate::transfer::format_size(t.total_size);
    line.append(size.as_str());
    line
}

/// Whether a transfer holds as many chunks as it has; recorded chunks have
/// distinct indices below the count, so then it holds every chunk (see
/// `law_full_transfer_has_every_chunk`).
pub fn transfer_complete(t: &crate::types::TransferState) -> (res: bool)
    ensures
        res == (t.received@.len() == t.total_chunks),
{
    t.received.len() == t.total_chunks
}

/// Chunks of a transfer still missing (none once all arrived).
pub fn chunks_missing(p: crate::transfer::ChunkProgress) -> (res: usize)
    ensures
        res == if p.received < p.total_chunks {
            p.total_chunks - p.received
        } else {
            0
        },
{
    p.total_chunks.saturating_sub(p.received)
}


/// Most messages shown in a topic's history.
pub const MAX_TOPIC_HISTORY: usize = 50;

impl ZenohExplorer {
    /// Positions of the newest listed messages on `topic`, newest first, at
    /// most `MAX_TOPIC_HISTORY` of them: every later one is among them.
    pub fn topic_history(&self, topic: &str) -> (res: Vec<usize>)
        ensures
            res@.len() <= MAX_TOPIC_HISTORY,
            forall|i: int| 0 <= i < res@.len() ==> (#[trigger] res@[i]) < self.messages@.len() && self.messages@[res@[i] as int].key@ == topic@,
            forall|i: int, j: int| 0 <= i < j < res@.len() ==> #[trigger] res@[i] > #[trigger] res@[j],
            res@.len() < MAX_TOPIC_HISTORY ==> forall|p: int|
                0 <= p < self.messages@.len() && self.messages@[p].key@ == topic@ ==> res@.contains(p as usize),
            res@.len() == MAX_TOPIC_HISTORY ==> forall|p: int|
                res@.last() <= p < self.messages@.len() && self.messages@[p].key@ == topic@ ==> res@.contains(p as usize),
    {
        let mut res: Vec<usize> = Vec::new();
        let mut i: usize = self.messages.len();
        while i > 0 && res.len() < MAX_TOPIC_HISTORY
            invariant
                i <= self.messages@.len(),
                res@.len() <= MAX_TOPIC_HISTORY,
                forall|k: int| 0 <= k < res@.len() ==> i <= (#[trigger] res@[k]) < self.messages@.len() && self.messages@[res@[k] as int].key@ == topic@,
                forall|a: int, b: int| 0 <= a < b < res@.len() ==> #[trigger] res@[a] > #[trigger] res@[b],
                forall|p: int| i <= p < self.messages@.len() && self.messages@[p].key@ == topic@ ==> res@.contains(p as usize),
            decreases i,
        {
            i = i - 1;
            if str_equal(self.messages[i].key.as_str(), topic) {
                let ghost before = res@;
                res.push(i);
                proof {
                    assert forall|p: int| i <= p < self.messages@.len() && self.messages@[p].key@ == topic@ implies res@.contains(p as usize) by {
                        if p == i {
                            assert(res@[before.len() as int] == i);
                        } else {
                            let k = choose|k: int| 0 <= k < before.len() && before[k] == p as usize;
                            assert(res@[k] == p as usize);
                        }
                    }
                }
            }
        }
        res
    }
}


impl ZenohExplorer {
    /// Positions of the newest listed query replies, newest first, at most
    /// `MAX_TOPIC_HISTORY` of them: every later one is among them.
    pub fn recent_query_replies(&self) -> (res: Vec<usize>)
        ensures
            res@.len() <= MAX_TOPIC_HISTORY,
            forall|i: int| 0 <= i < res@.len() ==> (#[trigger] res@[i]) < self.messages@.len() && self.messages@[res@[i] as int].message_type == MessageType::QueryReply,
            forall|i: int, j: int| 0 <= i < j < res@.len() ==> #[trigger] res@[i] > #[trigger] res@[j],
            res@.len() < MAX_TOPIC_HISTORY ==> forall|p: int|
                0 <= p < self.messages@.len() && self.messages@[p].message_type == MessageType::QueryReply ==> res@.contains(p as usize),
            res@.len() == MAX_TOPIC_HISTORY ==> forall|p: int|
                res@.last() <= p < self.messages@.len() && self.messages@[p].message_type == MessageType::QueryReply ==> res@.contains(p as usize),
    {
        let mut res: Vec<usize> = Vec::new();
        let mut i: usize = self.messages.len();
        while i > 0 && res.len() < MAX_TOPIC_HISTORY
            invariant
                i <= self.messages@.len(),
                res@.len() <= MAX_TOPIC_HISTORY,
                forall|k: int| 0 <= k < res@.len() ==> i <= (#[trigger] res@[k]) < self.messages@.len() && self.messages@[res@[k] as int].message_type == MessageType::QueryReply,
                forall|a: int, b: int| 0 <= a < b < res@.len() ==> #[trigger] res@[a] > #[trigger] res@[b],
                forall|p: int| i <= p < self.messages@.len() && self.messages@[p].message_type == MessageType::QueryReply ==> res@.contains(p as usize),
            decreases i,
        {
            i = i - 1;
            if self.messages[i].message_type == MessageType::QueryReply {
                let ghost before = res@;
                res.push(i);
                proof {
                    assert forall|p: int| i <= p < self.messages@.len() && self.messages@[p].message_type == MessageType::QueryReply implies res@.contains(p as usize) by {
                        if p == i {
                            assert(res@[before.len() as int] == i);
                        } else {
                            let k = choose|k: int| 0 <= k < before.len() && before[k] == p as usize;
                            assert(res@[k] == p as usize);
                        }
                    }
                }
            }
        }
        res
    }
}


impl ZenohExplorer {
    /// The Connect button: the publishing session is being connected, and
    /// the command opens it with the form's locator (see `locator_for`),
    /// listen port, mode and additional configuration.
    pub fn connect_clicked(&mut self) -> (cmd: ZenohCommand)
        ensures
            *final(self) == (ZenohExplorer {
                connection_status: ConnectionStatus::ConnectingPublishing,
                ..*old(self)
            }),
            cmd matches ZenohCommand::Connect { locators, listen_port, mode, config_json } && {
                &&& old(self).connect_address@.len() == 0 ==> locators@.len() == 0
                &&& old(self).connect_address@.len() > 0 ==> locators@ == old(self).connect_transport@ + "/"@
                    + old(self).connect_address@ + ":"@ + old(self).connect_port@
                &&& listen_port@ == old(self).listen_port@
                &&& mode@ == old(self).connection_mode@
                &&& config_json@ == old(self).config_json@
            },
    {
        let locators = crate::connection::locator_for(
            self.connect_transport.as_str(),
            self.connect_address.as_str(),
            self.connect_port.as_str(),
        );
        self.connection_status = ConnectionStatus::ConnectingPublishing;
        ZenohCommand::Connect {
            locators,
            listen_port: self.listen_port.clone(),
            mode: self.connection_mode.clone(),
            config_json: self.config_json.clone(),
        }
    }

    /// The Disconnect button: the explorer shows itself disconnected, forgets
    /// its subscriptions, and the command closes the sessions.
    pub fn disconnect_clicked(&mut self) -> (cmd: ZenohCommand)
        ensures
            *final(self) == (ZenohExplorer {
                connection_status: ConnectionStatus::Disconnected,
                subscriptions: final(self).subscriptions,
                ..*old(self)
            }),
            final(self).subscriptions@.len() == 0,
            cmd is Disconnect,
    {
        self.connection_status = ConnectionStatus::Disconnected;
        self.subscriptions = Vec::new();
        ZenohCommand::Disconnect
    }

    /// The Enable Queryable checkbox set to `enabled`: unchanged, it gives
    /// nothing and changes nothing; otherwise the flag takes the new value
    /// and the command enables the queryable on the form's key pattern, or
    /// disables it.
    pub fn set_queryable(&mut self, enabled: bool) -> (cmd: Option<ZenohCommand>)
        ensures
            enabled == old(self).queryable_enabled ==> cmd is None && *final(self) == *old(self),
            enabled != old(self).queryable_enabled ==> {
                &&& *final(self) == (ZenohExplorer { queryable_enabled: enabled, ..*old(self) })
                &&& enabled ==> (cmd matches Some(ZenohCommand::EnableQueryable { key_expr })
                    && key_expr@ == old(self).queryable_pattern@)
                &&& !enabled ==> (cmd matches Some(c) && c is DisableQueryable)
            },
    {
        if enabled == self.queryable_enabled {
            return None;
        }
        self.queryable_enabled = enabled;
        if enabled {
            Some(ZenohCommand::EnableQueryable { key_expr: self.queryable_pattern.clone() })
        } else {
            Some(ZenohCommand::DisableQueryable)
        }
    }

    /// The Publish button, enabled when connected with a key: the command
    /// publishes the imported file's bytes (moved out of the form) or else
    /// the payload text's bytes, with the key, the encoding and the imported
    /// file's name; the form is cleared of the payload and the import.
    /// Disabled (not connected, or no key), it gives nothing and changes
    /// nothing.
    pub fn publish_clicked(&mut self) -> (cmd: Option<ZenohCommand>)
        ensures
            !(old(self).connection_status is Connected && old(self).publish_key@.len() > 0) ==> cmd is None
                && *final(self) == *old(self),
            old(self).connection_status is Connected && old(self).publish_key@.len() > 0 ==> {
                &&& cmd matches Some(ZenohCommand::Publish { key, payload, encoding, from_import, filename }) && {
                    &&& key@ == old(self).publish_key@
                    &&& payload@ == match old(self).publish_payload_bytes {
                        Some(b) => b@,
                        None => encode_utf8(old(self).publish_payload@),
                    }
                    &&& encoding@ == old(self).publish_encoding@
                    &&& from_import == old(self).publish_payload_bytes is Some
                    &&& opt_str_view(filename) == opt_str_view(old(self).publish_payload_filename)
                }
                &&& *final(self) == (ZenohExplorer {
                    publish_payload_bytes: None,
                    publish_payload_filename: None,
                    publish_payload: final(self).publish_payload,
                    publish_payload_expanded: false,
                    import_memory_bytes: 0,
                    ..*old(self)
                })
                &&& final(self).publish_payload@.len() == 0
            },
    {
        let connected = match self.connection_status {
            ConnectionStatus::Connected => true,
            _ => false,
        };
        if !connected || self.publish_key.unicode_len() == 0 {
            return None;
        }
        let mut bytes: Option<Vec<u8>> = None;
        std::mem::swap(&mut bytes, &mut self.publish_payload_bytes);
        let from_import = bytes.is_some();
        let payload = match bytes {
            Some(b) => b,
            None => self.publish_payload.as_str().as_bytes_vec(),
        };
        let filename = crate::payload_store::clone_opt_string(&self.publish_payload_filename);
        let cmd = ZenohCommand::Publish {
            key: self.publish_key.clone(),
            payload,
            encoding: self.publish_encoding.clone(),
            from_import,
            filename,
        };
        self.publish_payload_filename = None;
        self.publish_payload = String::new();
        self.publish_payload_expanded = false;
        self.import_memory_bytes = 0;
        Some(cmd)
    }
}

} // verus!
