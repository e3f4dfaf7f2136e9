//! Data types shared by the worker and the GUI: messages, commands and
//! events, message kinds, connection status, subscriptions and the browse
//! tree's nodes.

use std::time::Instant;
use vstd::prelude::*;
use vstd::utf8::encode_utf8;

use crate::clock::now;
use crate::colors::ExplorerColors;
use crate::payload_store::{opt_str_view, Timestamp};

pub use crate::payload_store::{PayloadEntry, PayloadStoreMap};
pub use crate::preview::{safe_truncate_index, MAX_UI_DISPLAY_SIZE, PAYLOAD_PREVIEW_SIZE};
pub use crate::utils::{RateLimiter, MAX_HASH_BYTES};

verus! {

/// Types of messages that flow through the network, each with a color and
/// a short label for display.
#[derive(Debug, Clone, Copy, PartialEq, Eq, Structural)]
pub enum MessageType {
    Subscribe,
    Publish,
    Query,
    QueryReply,
}

/// The short label of a message type.
pub open spec fn spec_message_label(t: MessageType) -> Seq<char> {
    match t {
        MessageType::Subscribe => "SUB"@,
        MessageType::Publish => "PUT"@,
        MessageType::Query => "GET"@,
        MessageType::QueryReply => "REPLY"@,
    }
}

/// The display color of a message type.
pub open spec fn spec_message_color(t: MessageType) -> u32 {
    match t {
        MessageType::Subscribe => ExplorerColors::PRIMARY,
        MessageType::Publish => ExplorerColors::SUCCESS,
        MessageType::Query => ExplorerColors::WARNING,
        MessageType::QueryReply => ExplorerColors::ERROR,
    }
}

impl MessageType {
    /// The color of this message type: blue for subscriptions, green for
    /// publications, orange for queries, red for replies.
    pub fn color(&self) -> (res: u32)
        ensures
            res == spec_message_color(*self),
    {
        match self {
            MessageType::Subscribe => ExplorerColors::PRIMARY,
            MessageType::Publish => ExplorerColors::SUCCESS,
            MessageType::Query => ExplorerColors::WARNING,
            MessageType::QueryReply => ExplorerColors::ERROR,
        }
    }

    /// A short label for this message type.
    pub fn label(&self) -> (res: &str)
        ensures
            res@ == spec_message_label(*self),
    {
        match self {
            MessageType::Subscribe => "SUB",
            MessageType::Publish => "PUT",
            MessageType::Query => "GET",
            MessageType::QueryReply => "REPLY",
        }
    }
}

/// The session a message came from.
#[derive(Debug, Clone, Copy, PartialEq, Eq, Structural)]
pub enum MessageSource {
    /// The user's own subscriptions, on the publishing session.
    PublishingSession,
    /// The background `**` subscription of the monitor session.
    MonitorSession,
    /// Echo of a message published by this instance.
    LocalEcho,
}

/// Metadata of an active subscription shown in the UI.
#[derive(Debug, Clone)]
pub struct Subscription {
    pub id: String,
    pub key_expr: String,
    pub reliability: String,
    pub mode: String,
}

/// View modes of the right-hand detail panel.
#[derive(Debug, Clone, Copy, PartialEq, Eq, Structural)]
pub enum DetailView {
    TopicDetails,
    Publish,
    Query,
    Help,
}

/// State of the connection, which is made in two phases: the publishing
/// session first, then the monitor session.
#[derive(Debug, Clone)]
pub enum ConnectionStatus {
    Disconnected,
    /// Connecting the publishing session.
    ConnectingPublishing,
    /// Connecting the monitor session.
    ConnectingMonitor,
    /// Both sessions are connected.
    Connected,
    Error(String),
}

/// Status text of a connection state.
pub open spec fn spec_status_text(s: ConnectionStatus) -> Seq<char> {
    match s {
        ConnectionStatus::Connected => "Connected"@,
        ConnectionStatus::ConnectingPublishing => "Connecting (publishing)..."@,
        ConnectionStatus::ConnectingMonitor => "Connecting (monitor)..."@,
        ConnectionStatus::Disconnected => "Disconnected"@,
        ConnectionStatus::Error(_) => "Error"@,
    }
}

/// Status color of a connection state.
pub open spec fn spec_status_color(s: ConnectionStatus) -> u32 {
    match s {
        ConnectionStatus::Connected => ExplorerColors::SUCCESS,
        ConnectionStatus::ConnectingPublishing | ConnectionStatus::ConnectingMonitor => ExplorerColors::WARNING,
        ConnectionStatus::Disconnected | ConnectionStatus::Error(_) => ExplorerColors::ERROR,
    }
}

impl ConnectionStatus {
    /// Green when connected, orange while connecting, red otherwise.
    pub fn color(&self) -> (res: u32)
        ensures
            res == spec_status_color(*self),
    {
        match self {
            ConnectionStatus::Connected => ExplorerColors::SUCCESS,
            ConnectionStatus::ConnectingPublishing | ConnectionStatus::ConnectingMonitor => ExplorerColors::WARNING,
            ConnectionStatus::Disconnected | ConnectionStatus::Error(_) => ExplorerColors::ERROR,
        }
    }

    /// The status text.
    pub fn text(&self) -> (res: &str)
        ensures
            res@ == spec_status_text(*self),
    {
        match self {
            ConnectionStatus::Connected => "Connected",
            ConnectionStatus::ConnectingPublishing => "Connecting (publishing)...",
            ConnectionStatus::ConnectingMonitor => "Connecting (monitor)...",
            ConnectionStatus::Disconnected => "Disconnected",
            ConnectionStatus::Error(_) => "Error",
        }
    }

    /// Whether a connection is being made (either phase).
    pub fn is_connecting(&self) -> (res: bool)
        ensures
            res == (*self is ConnectingPublishing || *self is ConnectingMonitor),
    {
        match self {
            ConnectionStatus::ConnectingPublishing | ConnectionStatus::ConnectingMonitor => true,
            _ => false,
        }
    }

    /// Whether the connection settings are shown: disconnected or failed.
    pub fn shows_settings(&self) -> (res: bool)
        ensures
            res == (*self is Disconnected || *self is Error),
    {
        match self {
            ConnectionStatus::Disconnected | ConnectionStatus::Error(_) => true,
            _ => false,
        }
    }
}

/// A message received from or sent to the network, with what display and
/// filtering need.
#[derive(Debug, Clone)]
pub struct ZenohMessage {
    pub key: String,
    pub payload: String,
    pub encoding: String,
    pub timestamp: Timestamp,
    pub message_type: MessageType,
    /// Approximate memory footprint of the message in bytes.
    pub size_bytes: usize,
    /// Published from this instance.
    pub is_local: bool,
    /// Raw payload bytes for export (`None`: the payload text's bytes).
    pub payload_bytes: Option<Vec<u8>>,
    /// The session the message came from.
    pub source: MessageSource,
    /// Original filename transmitted by the sender, if any.
    pub filename: Option<String>,
}

/// Capacity of a string's buffer in bytes, from `String::capacity`: never
/// less than the string's length in bytes; beyond that it is what the
/// allocator gave, of which nothing is stated.
#[verifier::external_body]
fn string_capacity(s: &String) -> (res: usize)
    ensures
        res >= encode_utf8(s@).len(),
{
    s.capacity()
}

/// Capacity of a byte buffer, from `Vec::capacity`: never less than its
/// length; beyond that it is what the allocator gave, of which nothing is
/// stated.
#[verifier::external_body]
fn bytes_capacity(v: &Vec<u8>) -> (res: usize)
    ensures
        res >= v@.len(),
{
    v.capacity()
}

/// Bytes of a message's text fields and raw payload.
pub open spec fn content_bytes(m: ZenohMessage) -> int {
    encode_utf8(m.key@).len() + encode_utf8(m.payload@).len() + encode_utf8(m.encoding@).len() + match m.payload_bytes {
        Some(b) => b@.len() as int,
        None => 0,
    }
}

impl ZenohMessage {
    /// Approximate memory footprint of this message: the capacities of its
    /// buffers plus the size of its fields and an allowance for the string
    /// allocations (saturating at `usize::MAX`); so at least the bytes of
    /// its content plus 24.
    pub fn calculate_size(&self) -> (res: usize)
        ensures
            res >= 24,
            res >= content_bytes(*self) + 24 || res == usize::MAX,
    {
        let mut total = string_capacity(&self.key);
        total = total.saturating_add(string_capacity(&self.payload));
        total = total.saturating_add(string_capacity(&self.encoding));
        if let Some(v) = &self.payload_bytes {
            total = total.saturating_add(bytes_capacity(v));
        }
        total = total.saturating_add(core::mem::size_of::<Timestamp>());
        total = total.saturating_add(core::mem::size_of::<MessageType>());
        total = total.saturating_add(core::mem::size_of::<MessageSource>());
        total = total.saturating_add(core::mem::size_of::<usize>());
        total = total.saturating_add(core::mem::size_of::<ZenohMessage>());
        total.saturating_add(24)
    }

    /// A message carrying raw bytes, with its footprint computed.
    pub fn new_with_bytes(
        key: String,
        payload: String,
        payload_bytes: Vec<u8>,
        encoding: String,
        timestamp: Timestamp,
        message_type: MessageType,
        is_local: bool,
        source: MessageSource,
    ) -> (res: ZenohMessage)
        ensures
            res.key@ == key@,
            res.payload@ == payload@,
            res.payload_bytes matches Some(b) && b@ == payload_bytes@,
            res.encoding@ == encoding@,
            res.timestamp == timestamp,
            res.message_type == message_type,
            res.is_local == is_local,
            res.source == source,
            res.filename is None,
            res.size_bytes >= 24,
            res.size_bytes >= content_bytes(res) + 24 || res.size_bytes == usize::MAX,
    {
        let mut msg = ZenohMessage {
            key,
            payload,
            encoding,
            timestamp,
            message_type,
            size_bytes: 0,
            is_local,
            payload_bytes: Some(payload_bytes),
            source,
            filename: None,
        };
        msg.size_bytes = msg.calculate_size();
        msg
    }

    /// The message with the transmitted original filename set.
    pub fn with_filename(self, filename: Option<String>) -> (res: ZenohMessage)
        ensures
            opt_str_view(res.filename) == opt_str_view(filename),
            res.key == self.key,
            res.payload == self.payload,
            res.encoding == self.encoding,
            res.timestamp == self.timestamp,
            res.message_type == self.message_type,
            res.size_bytes == self.size_bytes,
            res.is_local == self.is_local,
            res.payload_bytes == self.payload_bytes,
            res.source == self.source,
    {
        let mut m = self;
        m.filename = filename;
        m
    }
}

/// Commands sent from the GUI to the network worker.
#[derive(Debug)]
pub enum ZenohCommand {
    Connect { locators: String, listen_port: String, mode: String, config_json: String },
    Disconnect,
    Subscribe { key_expr: String, reliability: String, mode: String },
    Unsubscribe { subscription_id: String },
    Publish {
        key: String,
        payload: Vec<u8>,
        encoding: String,
        /// An imported file: published but neither stored nor echoed.
        from_import: bool,
        filename: Option<String>,
    },
    Query { selector: String, value: String, timeout_ms: u64 },
    /// Answer queries on a key expression pattern from the local store.
    EnableQueryable { key_expr: String },
    DisableQueryable,
    /// Health check of the worker.
    Ping,
}

/// Events sent from the network worker back to the GUI.
#[derive(Debug)]
pub enum ZenohEvent {
    Disconnected,
    DiscoveryUpdate { peers: usize, routers: usize },
    ConnectionError(String),
    MessageReceived(ZenohMessage),
    /// A batch of messages, for efficient UI updates.
    MessageBatch(Vec<ZenohMessage>),
    SubscriptionCreated { id: String, key_expr: String },
    SubscriptionRemoved { id: String },
    QueryNoResponses { selector: String },
    /// Answer to a health check.
    Pong,
    /// The publishing session is connected (first phase).
    PublishingConnected,
    /// The monitor session is connected (second phase).
    MonitorConnected,
}

/// An incoming chunked transfer on a topic: its total size and chunk count,
/// the indices of the chunks received (in arrival order) and when the last
/// one arrived.
#[derive(Debug)]
pub struct TransferState {
    pub total_size: usize,
    pub total_chunks: usize,
    pub received: Vec<usize>,
    pub last_activity: Instant,
}

/// A transfer as values: (total size, chunk count, indices received).
pub open spec fn transfer_view(t: Option<TransferState>) -> Option<(usize, usize, Seq<usize>)> {
    match t {
        Some(s) => Some((s.total_size, s.total_chunks, s.received@)),
        None => None,
    }
}

/// A node of the hierarchical browse tree: one segment of a key path, with
/// what was last received on that path.
#[derive(Debug)]
pub struct ZenohNode {
    pub key: String,
    pub children: Vec<ZenohNode>,
    pub last_seen: Instant,
    pub message_count: usize,
    pub last_payload: Option<String>,
    pub last_encoding: Option<String>,
    /// Published from this instance.
    pub is_local: bool,
    /// The chunked transfer arriving on this node's topic, if any.
    pub transfer: Option<TransferState>,
}

impl ZenohNode {
    /// A node for the path segment `key`, with no children and nothing
    /// received yet.
    pub fn new(key: String) -> (res: ZenohNode)
        ensures
            res.key@ == key@,
            res.children@.len() == 0,
            res.message_count == 0,
            res.last_payload is None,
            res.last_encoding is None,
            !res.is_local,
            res.transfer is None,
    {
        ZenohNode {
            key,
            children: Vec::new(),
            last_seen: now(),
            message_count: 0,
            last_payload: None,
            last_encoding: None,
            is_local: false,
            transfer: None,
        }
    }

    /// Records a message on this node at `at`: counts it, keeps its
    /// payload and encoding, marks the node local once a local publication
    /// arrives (local publications take precedence), and notes `at` as when
    /// it was last seen.
    pub fn update_data_at(&mut self, payload: String, encoding: String, is_local: bool, at: Instant)
        requires
            old(self).message_count < usize::MAX,
        ensures
            final(self).message_count == old(self).message_count + 1,
            opt_str_view(final(self).last_payload) == Some(payload@),
            opt_str_view(final(self).last_encoding) == Some(encoding@),
            final(self).is_local == (old(self).is_local || is_local),
            final(self).last_seen == at,
            final(self).key == old(self).key,
            final(self).children == old(self).children,
            final(self).transfer == old(self).transfer,
    {
        self.last_seen = at;
        self.message_count = self.message_count + 1;
        self.last_payload = Some(payload);
        self.last_encoding = Some(encoding);
        if is_local {
            self.is_local = true;
        }
    }

    /// Records a message on this node now (see `update_data_at`, which this
    /// calls with the clock's reading).
    pub fn update_data(&mut self, payload: String, encoding: String, is_local: bool)
        requires
            old(self).message_count < usize::MAX,
        ensures
            final(self).message_count == old(self).message_count + 1,
            opt_str_view(final(self).last_payload) == Some(payload@),
            opt_str_view(final(self).last_encoding) == Some(encoding@),
            final(self).is_local == (old(self).is_local || is_local),
            final(self).key == old(self).key,
            final(self).children == old(self).children,
            final(self).transfer == old(self).transfer,
    {
        self.update_data_at(payload, encoding, is_local, now());
    }
}

} // verus!
