use crate::adj::{Adj, AdjView};
use crate::config::Config;
use crate::text::{decimal, lemma_decimal, lemma_decimal_injective, push_decimal};
use vstd::prelude::*;
use vstd::string::StringExecFns;

verus! {

/// A message between two nodes.
#[derive(Debug)]
pub struct Message {
    pub sender: u32,
    pub body: MessageBody,
    pub timestamp: u64,
}

/// What a message carries.
#[derive(Debug)]
pub enum MessageBody {
    Empty,
    InitRequest,
    InitResponse,
    SearchRequest { forwarder: u32, hop_count: u32, file_name: String },
    SearchResponse { forwarder: u32, file_name: String, reply_to: String, file_size: u64 },
    FileDownloadRequest { file_name: String, slice: u32, total_slices: u32 },
    FileDownloadResponse { slice: u32, data: Vec<u8> },
    AdjUpdate { adj: Adj },
}

/// The contents of a message body.
pub enum BodyView {
    Empty,
    InitRequest,
    InitResponse,
    SearchRequest { forwarder: u32, hop_count: u32, file_name: Seq<char> },
    SearchResponse { forwarder: u32, file_name: Seq<char>, reply_to: Seq<char>, file_size: u64 },
    FileDownloadRequest { file_name: Seq<char>, slice: u32, total_slices: u32 },
    FileDownloadResponse { slice: u32, data: Seq<u8> },
    AdjUpdate { adj: AdjView },
}

/// The contents of a message.
pub struct MessageView {
    pub sender: u32,
    pub body: BodyView,
    pub timestamp: u64,
}

impl Clone for MessageBody {
    /// An independent copy of the body.
    fn clone(&self) -> (res: Self)
        ensures
            res@ == self@,
    {
        match self {
            MessageBody::Empty => MessageBody::Empty,
            MessageBody::InitRequest => MessageBody::InitRequest,
            MessageBody::InitResponse => MessageBody::InitResponse,
            MessageBody::SearchRequest { forwarder, hop_count, file_name } => MessageBody::SearchRequest {
                forwarder: *forwarder,
                hop_count: *hop_count,
                file_name: file_name.clone(),
            },
            MessageBody::SearchResponse { forwarder, file_name, reply_to, file_size } => MessageBody::SearchResponse {
                forwarder: *forwarder,
                file_name: file_name.clone(),
                reply_to: reply_to.clone(),
                file_size: *file_size,
            },
            MessageBody::FileDownloadRequest { file_name, slice, total_slices } => MessageBody::FileDownloadRequest {
                file_name: file_name.clone(),
                slice: *slice,
                total_slices: *total_slices,
            },
            MessageBody::FileDownloadResponse { slice, data } => {
                let mut copy: Vec<u8> = Vec::new();
                let mut k: usize = 0;
                while k < data.len()
                    invariant
                        k <= data@.len(),
                        copy@ == data@.take(k as int),
                    decreases data@.len() - k,
                {
                    copy.push(data[k]);
                    assert(copy@ =~= data@.take(k as int + 1));
                    k = k + 1;
                }
                assert(copy@ =~= data@);
                MessageBody::FileDownloadResponse { slice: *slice, data: copy }
            },
            MessageBody::AdjUpdate { adj } => MessageBody::AdjUpdate { adj: adj.clone() },
        }
    }
}

impl Clone for Message {
    /// An independent copy of the message.
    fn clone(&self) -> (res: Self)
        ensures
            res@ == self@,
    {
        Message { sender: self.sender, body: self.body.clone(), timestamp: self.timestamp }
    }
}

impl View for MessageBody {
    type V = BodyView;

    open spec fn view(&self) -> BodyView {
        match self {
            MessageBody::Empty => BodyView::Empty,
            MessageBody::InitRequest => BodyView::InitRequest,
            MessageBody::InitResponse => BodyView::InitResponse,
            MessageBody::SearchRequest { forwarder, hop_count, file_name } => BodyView::SearchRequest {
                forwarder: *forwarder,
                hop_count: *hop_count,
                file_name: file_name@,
            },
            MessageBody::SearchResponse { forwarder, file_name, reply_to, file_size } => BodyView::SearchResponse {
                forwarder: *forwarder,
                file_name: file_name@,
                reply_to: reply_to@,
                file_size: *file_size,
            },
            MessageBody::FileDownloadRequest { file_name, slice, total_slices } => BodyView::FileDownloadRequest {
                file_name: file_name@,
                slice: *slice,
                total_slices: *total_slices,
            },
            MessageBody::FileDownloadResponse { slice, data } => BodyView::FileDownloadResponse {
                slice: *slice,
                data: data@,
            },
            MessageBody::AdjUpdate { adj } => BodyView::AdjUpdate { adj: adj@ },
        }
    }
}

impl View for Message {
    type V = MessageView;

    open spec fn view(&self) -> MessageView {
        MessageView { sender: self.sender, body: self.body@, timestamp: self.timestamp }
    }
}

/// The key of a message: its sender and timestamp in decimal, joined by `-`.
pub open spec fn message_key(sender: u32, timestamp: u64) -> Seq<char> {
    decimal(sender as nat) + "-"@ + decimal(timestamp as nat)
}

/// The description of a message body, as the node's log shows it.
pub open spec fn body_text(m: MessageView) -> Seq<char> {
    match m.body {
        BodyView::Empty => "Empty Body"@,
        BodyView::InitRequest => "Init Request"@,
        BodyView::InitResponse => "Init Response"@,
        BodyView::SearchRequest { hop_count, file_name, .. } =>
            "Search Request with hop count "@ + decimal(hop_count as nat) + " for "@ + file_name,
        BodyView::SearchResponse { file_name, reply_to, .. } =>
            "Search Response from "@ + decimal(m.sender as nat) + " with file "@ + file_name
                + " (is a reply to message "@ + reply_to + ")"@,
        BodyView::FileDownloadRequest { file_name, slice, total_slices } =>
            "File Download Request for file "@ + file_name + " (slice "@ + decimal((slice + 1) as nat) + " of "@
                + decimal(total_slices as nat) + ")"@,
        BodyView::FileDownloadResponse { data, .. } =>
            "File Download Response from "@ + decimal(m.sender as nat) + " ("@ + decimal(data.len()) + " bytes)"@,
        BodyView::AdjUpdate { adj } => "Adjacency update (matrix size "@ + decimal(adj.n as nat) + ")"@,
    }
}

/// The description of a message, as the node's log shows it.
pub open spec fn message_text(m: MessageView) -> Seq<char> {
    body_text(m) + " from node "@ + decimal(m.sender as nat)
}

/// The clock that stamps the messages a node creates; each stamp is one more
/// than the last.
pub struct LogicalClock {
    pub value: u64,
}

impl LogicalClock {
    /// A clock that has not stamped anything yet.
    pub fn new() -> (c: LogicalClock)
        ensures
            c.value == 0,
    {
        LogicalClock { value: 0 }
    }
}

impl Message {
    /// A message from this node, stamped with the next time of its clock.
    pub fn new(config: &Config, clock: &mut LogicalClock, body: MessageBody) -> (m: Message)
        requires
            old(clock).value < u64::MAX,
        ensures
            final(clock).value == old(clock).value + 1,
            m.sender == config.id,
            m.timestamp == final(clock).value,
            m.body@ == body@,
    {
        let timestamp = Self::get_current_timestamp(clock);
        Message { sender: config.id, body, timestamp }
    }

    /// Advances the node's clock and returns the new time.
    pub fn get_current_timestamp(clock: &mut LogicalClock) -> (t: u64)
        requires
            old(clock).value < u64::MAX,
        ensures
            final(clock).value == old(clock).value + 1,
            t == final(clock).value,
    {
        clock.value = clock.value + 1;
        clock.value
    }

    /// The key that names this message across the network.
    pub fn get_key(&self) -> (key: String)
        ensures
            key@ == message_key(self.sender, self.timestamp),
    {
        let mut key = String::new();
        push_decimal(&mut key, self.sender as u64);
        key.append("-");
        push_decimal(&mut key, self.timestamp);
        assert(key@ =~= message_key(self.sender, self.timestamp));
        key
    }

    /// Describes the message for the log.
    pub fn describe(&self) -> (text: String)
        requires
            self.body matches MessageBody::FileDownloadRequest { slice, .. } ==> slice < u32::MAX,
        ensures
            text@ == message_text(self@),
    {
        let mut text = String::new();
        match &self.body {
            MessageBody::Empty => text.append("Empty Body"),
            MessageBody::InitRequest => text.append("Init Request"),
            MessageBody::InitResponse => text.append("Init Response"),
            MessageBody::SearchRequest { hop_count, file_name, .. } => {
                text.append("Search Request with hop count ");
                push_decimal(&mut text, *hop_count as u64);
                text.append(" for ");
                text.append(file_name.as_str());
            },
            MessageBody::SearchResponse { file_name, reply_to, .. } => {
                text.append("Search Response from ");
                push_decimal(&mut text, self.sender as u64);
                text.append(" with file ");
                text.append(file_name.as_str());
                text.append(" (is a reply to message ");
                text.append(reply_to.as_str());
                text.append(")");
            },
            MessageBody::FileDownloadRequest { file_name, slice, total_slices } => {
                text.append("File Download Request for file ");
                text.append(file_name.as_str());
                text.append(" (slice ");
                push_decimal(&mut text, (*slice + 1) as u64);
                text.append(" of ");
                push_decimal(&mut text, *total_slices as u64);
                text.append(")");
            },
            MessageBody::FileDownloadResponse { data, .. } => {
                text.append("File Download Response from ");
                push_decimal(&mut text, self.sender as u64);
                text.append(" (");
                push_decimal(&mut text, data.len() as u64);
                text.append(" bytes)");
            },
            MessageBody::AdjUpdate { adj } => {
                text.append("Adjacency update (matrix size ");
                push_decimal(&mut text, adj.n as u64);
                text.append(")");
            },
        }
        assert(text@ =~= body_text(self@));
        text.append(" from node ");
        push_decimal(&mut text, self.sender as u64);
        assert(text@ =~= message_text(self@));
        text
    }

}

/// Message keys name messages: two keys are equal only when both sender and
/// timestamp are.
pub proof fn law_message_keys_unique(s1: u32, t1: u64, s2: u32, t2: u64)
    requires
        message_key(s1, t1) == message_key(s2, t2),
    ensures
        s1 == s2,
        t1 == t2,
{
    reveal_strlit("-");
    let a = decimal(s1 as nat);
    let b = decimal(s2 as nat);
    let k1 = message_key(s1, t1);
    let k2 = message_key(s2, t2);
    lemma_decimal(s1 as nat);
    lemma_decimal(s2 as nat);
    lemma_decimal(t1 as nat);
    lemma_decimal(t2 as nat);
    if a.len() < b.len() {
        assert(k1[a.len() as int] == '-');
        assert(k2[a.len() as int] == b[a.len() as int]);
        assert(false);
    } else if b.len() < a.len() {
        assert(k2[b.len() as int] == '-');
        assert(k1[b.len() as int] == a[b.len() as int]);
        assert(false);
    }
    assert(a =~= k1.subrange(0, a.len() as int));
    assert(b =~= k2.subrange(0, b.len() as int));
    lemma_decimal_injective(s1 as nat, s2 as nat);
    assert(decimal(t1 as nat) =~= k1.subrange(a.len() as int + 1, k1.len() as int));
    assert(decimal(t2 as nat) =~= k2.subrange(b.len() as int + 1, k2.len() as int));
    lemma_decimal_injective(t1 as nat, t2 as nat);
}

/// Each message a node makes carries a later time than the one before, so no
/// two messages of one node share a key.
pub proof fn law_clock_keys_fresh(id: u32, before: u64, after: u64)
    requires
        before < after,
    ensures
        message_key(id, before) != message_key(id, after),
{
    if message_key(id, before) == message_key(id, after) {
        law_message_keys_unique(id, before, id, after);
    }
}

} // verus!
