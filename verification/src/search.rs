use crate::adj::AdjView;
use crate::bus::Event;
use crate::config::{cells_fit, nodes_below, Config};
use crate::file::FileSearchResult;
use crate::file_manifest::{names, FileManifest};
use crate::message::{message_key, BodyView, LogicalClock, Message, MessageBody, MessageView};
use crate::text::{decimal, push_decimal};
use vstd::prelude::*;
use vstd::string::StringExecFns;

verus! {

broadcast use vstd::seq_lib::group_seq_properties;

/// A message this node passed on, with the node it came from.
pub struct SeenMessage {
    pub message: Message,
    pub forwarder: u32,
}

/// What the search layer of a node remembers: the messages it passed on, by
/// key, and the keys of the searches it started itself.
pub struct SearchLayer {
    seen_messages: Vec<(String, SeenMessage)>,
    our_requests: Vec<String>,
}

/// The contents of a search layer: for each key of a message passed on, the
/// message and the node it came from; and the keys of this node's searches.
#[verifier::ext_equal]
pub struct SearchView {
    pub seen: Map<Seq<char>, (MessageView, u32)>,
    pub requests: Set<Seq<char>>,
}

/// What the search layer does with a message that reaches it.
#[derive(Debug, Clone, Copy, PartialEq, Eq, Structural)]
pub enum SearchStep {
    /// A search for a file this node has: answer it.
    ConsumeRequest,
    /// A search for a file this node lacks: pass it on.
    ForwardRequest,
    /// An answer to a search of this node: report the find.
    ConsumeResponse,
    /// An answer to someone else's search: send it back the way the search came.
    ForwardResponse,
    /// A new matrix: install it and pass it on.
    ForwardAdjUpdate,
    /// Not a message for this layer.
    Ignore,
}

/// What passing a message on comes to.
#[derive(Debug)]
pub enum Forward {
    /// The message has no hops left and stops here.
    Discard,
    /// The message was passed on before.
    Duplicate,
    /// Send `message` to each of `targets`.
    Broadcast { message: Message, targets: Vec<u32> },
}

/// Why the search layer could not do its part with a message.
#[derive(Debug)]
pub enum SearchError {
    /// Sending a search on failed; what each failed send reported.
    ForwardFailed(Vec<String>),
    /// Sending a new matrix on failed; what each failed send reported.
    AdjForwardFailed(Vec<String>),
    /// An answer came for a search this node never passed on; its key.
    UnknownRequest(String),
    /// The message is not a search answer.
    NotSearchResponse,
    /// The message does not carry a matrix.
    NotAdjUpdate,
}

impl SearchError {
    /// The text the node logs for the error.
    pub fn message(&self) -> (s: String)
        ensures
            self matches SearchError::ForwardFailed(e) ==> s@ == "Failed to forward message to "@ + decimal(
                e@.len(),
            ) + " nodes. "@ + list_text(texts(e@)),
            self matches SearchError::AdjForwardFailed(e) ==> s@ == "Failed to forward adjacency update to "@
                + decimal(e@.len()) + " nodes. "@ + list_text(texts(e@)),
            self matches SearchError::UnknownRequest(k) ==> s@
                == "Received search request reply, but did not originally receive corresponding request. Request message key: "@
                + k@,
            self matches SearchError::NotSearchResponse ==> s@
                == "Message has wrong body format. Expected SearchResponse."@,
            self matches SearchError::NotAdjUpdate ==> s@ == "Message body does not contain Adj"@,
    {
        match self {
            SearchError::ForwardFailed(e) => {
                let mut s = String::from_str("Failed to forward message to ");
                push_decimal(&mut s, e.len() as u64);
                s.append(" nodes. ");
                push_list(&mut s, e);
                s
            },
            SearchError::AdjForwardFailed(e) => {
                let mut s = String::from_str("Failed to forward adjacency update to ");
                push_decimal(&mut s, e.len() as u64);
                s.append(" nodes. ");
                push_list(&mut s, e);
                s
            },
            SearchError::UnknownRequest(k) => {
                let mut s = String::from_str(
                    "Received search request reply, but did not originally receive corresponding request. Request message key: ",
                );
                s.append(k.as_str());
                s
            },
            SearchError::NotSearchResponse => String::from_str("Message has wrong body format. Expected SearchResponse."),
            SearchError::NotAdjUpdate => String::from_str("Message body does not contain Adj"),
        }
    }
}

/// The texts of a list of strings.
pub open spec fn texts(items: Seq<String>) -> Seq<Seq<char>> {
    items.map_values(|t: String| t@)
}

/// Texts joined by `, `.
pub open spec fn joined(items: Seq<Seq<char>>) -> Seq<char>
    decreases items.len(),
{
    if items.len() == 0 {
        Seq::empty()
    } else if items.len() == 1 {
        items[0]
    } else {
        joined(items.drop_last()) + ", "@ + items.last()
    }
}

/// A list of texts as `{:?}` writes a list of items whose texts they are:
/// between brackets, joined by `, `.
pub open spec fn list_text(items: Seq<Seq<char>>) -> Seq<char> {
    "["@ + joined(items) + "]"@
}

/// Appends the list of `items` as `list_text` writes it.
fn push_list(out: &mut String, items: &Vec<String>)
    ensures
        final(out)@ == old(out)@ + list_text(texts(items@)),
{
    out.append("[");
    let ghost start = out@;
    let mut k: usize = 0;
    while k < items.len()
        invariant
            k <= items@.len(),
            out@ == start + joined(texts(items@.take(k as int))),
        decreases items@.len() - k,
    {
        proof {
            assert(texts(items@.take(k as int + 1)).drop_last() =~= texts(items@.take(k as int)));
            assert(texts(items@.take(k as int + 1)).last() == items@[k as int]@);
        }
        if k > 0 {
            out.append(", ");
        }
        out.append(items[k].as_str());
        proof {
            if k == 0 {
                assert(texts(items@.take(0)) =~= Seq::<Seq<char>>::empty());
                assert(texts(items@.take(1)).len() == 1);
                assert(out@ =~= start + joined(texts(items@.take(1))));
            } else {
                assert(out@ =~= start + joined(texts(items@.take(k as int + 1))));
            }
        }
        k = k + 1;
    }
    assert(items@.take(items@.len() as int) =~= items@);
    out.append("]");
    assert(out@ =~= old(out)@ + list_text(texts(items@)));
}

/// The key of a message.
pub open spec fn key_of(m: MessageView) -> Seq<char> {
    message_key(m.sender, m.timestamp)
}

/// Whether a message is sent on to node `j`: a neighbour of `id` other than
/// `id` itself and not in `excluded`.
pub open spec fn is_target(adj: AdjView, id: u32, excluded: Seq<u32>, j: u32) -> bool {
    j < adj.n && (adj.edge(id, j) || adj.edge(j, id)) && id != j && !excluded.contains(j)
}

/// The nodes a message is sent on to, in increasing order.
pub open spec fn broadcast_targets(adj: AdjView, id: u32, excluded: Seq<u32>) -> Seq<u32> {
    nodes_below(adj.n as nat, |j: u32| is_target(adj, id, excluded, j))
}

/// What the layer does with message `m`, when the node has the files `files`.
pub open spec fn search_step(s: SearchView, m: MessageView, files: Seq<Seq<char>>) -> SearchStep {
    match m.body {
        BodyView::SearchRequest { file_name, .. } => if files.contains(file_name) {
            SearchStep::ConsumeRequest
        } else {
            SearchStep::ForwardRequest
        },
        BodyView::SearchResponse { reply_to, .. } => if s.requests.contains(reply_to) {
            SearchStep::ConsumeResponse
        } else {
            SearchStep::ForwardResponse
        },
        BodyView::AdjUpdate { .. } => SearchStep::ForwardAdjUpdate,
        _ => SearchStep::Ignore,
    }
}

/// The node a message passed on came from: the forwarder a search names, else its sender.
pub open spec fn came_from(m: MessageView) -> u32 {
    match m.body {
        BodyView::SearchRequest { forwarder, .. } => forwarder,
        _ => m.sender,
    }
}

/// The layer after it remembers passing `m` on.
pub open spec fn recorded(s: SearchView, m: MessageView) -> SearchView {
    SearchView { seen: s.seen.insert(key_of(m), (m, came_from(m))), requests: s.requests }
}

/// What becomes of a search that reaches the layer.
pub enum RequestPlan {
    /// It has no hops left and stops here.
    Stop,
    /// It was passed on before and is not passed on again.
    Repeat,
    /// It is passed on.
    PassOn,
}

/// What becomes of search `m` at a layer whose contents are `s`.
pub open spec fn request_plan(s: SearchView, m: MessageView) -> RequestPlan {
    match m.body {
        BodyView::SearchRequest { hop_count, .. } => if hop_count == 0 {
            RequestPlan::Stop
        } else if s.seen.contains_key(key_of(m)) {
            RequestPlan::Repeat
        } else {
            RequestPlan::PassOn
        },
        _ => RequestPlan::Stop,
    }
}

/// The remembered messages, by key.
spec fn seen_map(entries: Seq<(String, SeenMessage)>) -> Map<Seq<char>, (MessageView, u32)> {
    Map::new(
        |k: Seq<char>| exists|i: int| 0 <= i < entries.len() && (#[trigger] entries[i]).0@ == k,
        |k: Seq<char>|
            {
                let i = choose|i: int| 0 <= i < entries.len() && (#[trigger] entries[i]).0@ == k;
                (entries[i].1.message@, entries[i].1.forwarder)
            },
    )
}

/// The keys of this node's searches.
spec fn request_set(keys: Seq<String>) -> Set<Seq<char>> {
    Set::new(|k: Seq<char>| exists|i: int| 0 <= i < keys.len() && (#[trigger] keys[i])@ == k)
}

impl View for SearchLayer {
    type V = SearchView;

    closed spec fn view(&self) -> SearchView {
        SearchView { seen: seen_map(self.seen_messages@), requests: request_set(self.our_requests@) }
    }
}

impl SearchLayer {
    /// No key is remembered twice.
    pub closed spec fn wf(&self) -> bool {
        forall|i: int, j: int|
            0 <= i < j < self.seen_messages@.len() ==> (#[trigger] self.seen_messages@[i]).0@
                != (#[trigger] self.seen_messages@[j]).0@
    }

    /// A layer that has seen nothing and searched for nothing.
    pub fn new() -> (s: SearchLayer)
        ensures
            s.wf(),
            s@.seen == Map::<Seq<char>, (MessageView, u32)>::empty(),
            s@.requests == Set::<Seq<char>>::empty(),
    {
        let s = SearchLayer { seen_messages: Vec::new(), our_requests: Vec::new() };
        assert(s@.seen =~= Map::<Seq<char>, (MessageView, u32)>::empty());
        assert(s@.requests =~= Set::<Seq<char>>::empty());
        s
    }

    /// Whether a message with key `key` was passed on.
    pub fn has_seen(&self, key: &String) -> (res: bool)
        requires
            self.wf(),
        ensures
            res == self@.seen.contains_key(key@),
    {
        self.find_seen(key).is_some()
    }

    /// Where the message with key `key` is remembered, if it is.
    fn find_seen(&self, key: &String) -> (res: Option<usize>)
        requires
            self.wf(),
        ensures
            res is None <==> !self@.seen.contains_key(key@),
            res matches Some(i) ==> i < self.seen_messages@.len() && self.seen_messages@[i as int].0@ == key@
                && self@.seen[key@] == (self.seen_messages@[i as int].1.message@, self.seen_messages@[i as int].1.forwarder),
    {
        let mut k: usize = 0;
        while k < self.seen_messages.len()
            invariant
                self.wf(),
                k <= self.seen_messages@.len(),
                forall|m: int| 0 <= m < k ==> (#[trigger] self.seen_messages@[m]).0@ != key@,
            decreases self.seen_messages@.len() - k,
        {
            if self.seen_messages[k].0 == *key {
                proof {
                    let entries = self.seen_messages@;
                    assert(self@.seen.contains_key(key@));
                    let c = choose|i: int| 0 <= i < entries.len() && (#[trigger] entries[i]).0@ == key@;
                    if c != k {
                        if c < k {
                            assert(entries[c].0@ != entries[k as int].0@);
                        } else {
                            assert(entries[k as int].0@ != entries[c].0@);
                        }
                    }
                }
                return Some(k);
            }
            k = k + 1;
        }
        None
    }

    /// Remembers `message`, passed on from `forwarder`, under `key`, in place
    /// of anything remembered under that key before.
    fn remember(&mut self, key: String, message: Message, forwarder: u32)
        requires
            old(self).wf(),
        ensures
            final(self).wf(),
            final(self)@.seen == old(self)@.seen.insert(key@, (message@, forwarder)),
            final(self)@.requests == old(self)@.requests,
    {
        let ghost old_entries = self.seen_messages@;
        let ghost k = key@;
        let found = self.find_seen(&key);
        match found {
            Some(i) => {
                let entry = (key, SeenMessage { message, forwarder });
                self.seen_messages.set(i, entry);
                proof {
                    let entries = self.seen_messages@;
                    assert forall|a: int, b: int| 0 <= a < b < entries.len() implies (#[trigger] entries[a]).0@
                        != (#[trigger] entries[b]).0@ by {
                        if a != i && b != i {
                            assert(old_entries[a].0@ != old_entries[b].0@);
                        } else if a == i {
                            assert(old_entries[a].0@ != old_entries[b].0@);
                        } else {
                            assert(old_entries[a].0@ != old_entries[b].0@);
                        }
                    }
                    self.lemma_seen_after_set(old_entries, i as int, k);
                }
            },
            None => {
                let entry = (key, SeenMessage { message, forwarder });
                self.seen_messages.push(entry);
                proof {
                    let entries = self.seen_messages@;
                    let last = old_entries.len() as int;
                    assert forall|a: int, b: int| 0 <= a < b < entries.len() implies (#[trigger] entries[a]).0@
                        != (#[trigger] entries[b]).0@ by {
                        if b == last {
                            assert(old_entries[a] == entries[a]);
                            assert(!seen_map(old_entries).contains_key(k));
                            if old_entries[a].0@ == k {
                                assert(seen_map(old_entries).dom().contains(k));
                            }
                        } else {
                            assert(old_entries[a].0@ != old_entries[b].0@);
                        }
                    }
                    assert(entries.drop_last() =~= old_entries);
                    self.lemma_seen_after_push(old_entries, k);
                }
            },
        }
        proof {
            assert(self@.requests =~= old(self)@.requests);
        }
    }

    /// Replacing the entry at `i`, whose key is `k`, replaces what `k` maps to.
    proof fn lemma_seen_after_set(&self, old_entries: Seq<(String, SeenMessage)>, i: int, k: Seq<char>)
        requires
            self.wf(),
            0 <= i < old_entries.len(),
            old_entries[i].0@ == k,
            self.seen_messages@ == old_entries.update(i, self.seen_messages@[i]),
            self.seen_messages@[i].0@ == k,
        ensures
            seen_map(self.seen_messages@) == seen_map(old_entries).insert(
                k,
                (self.seen_messages@[i].1.message@, self.seen_messages@[i].1.forwarder),
            ),
    {
        let entries = self.seen_messages@;
        let m1 = seen_map(entries);
        let m2 = seen_map(old_entries).insert(k, (entries[i].1.message@, entries[i].1.forwarder));
        assert forall|x: Seq<char>| #[trigger] m1.contains_key(x) <==> m2.contains_key(x) by {
            if m1.contains_key(x) {
                let c = choose|c: int| 0 <= c < entries.len() && (#[trigger] entries[c]).0@ == x;
                if c != i {
                    assert(old_entries[c] == entries[c]);
                }
            }
            if m2.contains_key(x) && x != k {
                let c = choose|c: int| 0 <= c < old_entries.len() && (#[trigger] old_entries[c]).0@ == x;
                assert(old_entries[c] == entries[c]);
            }
        }
        assert forall|x: Seq<char>| #[trigger] m1.contains_key(x) implies m1[x] == m2[x] by {
            let c = choose|c: int| 0 <= c < entries.len() && (#[trigger] entries[c]).0@ == x;
            if x == k {
                if c != i {
                    if c < i {
                        assert(entries[c].0@ != entries[i].0@);
                    } else {
                        assert(entries[i].0@ != entries[c].0@);
                    }
                }
            } else {
                assert(c != i);
                assert(old_entries[c] == entries[c]);
                let d = choose|d: int| 0 <= d < old_entries.len() && (#[trigger] old_entries[d]).0@ == x;
                assert(d != i);
                assert(entries[d] == old_entries[d]);
                if c != d {
                    if c < d {
                        assert(entries[c].0@ != entries[d].0@);
                    } else {
                        assert(entries[d].0@ != entries[c].0@);
                    }
                }
            }
        }
        assert(m1 =~= m2);
    }

    /// Adding an entry with a new key `k` at the end adds `k`.
    proof fn lemma_seen_after_push(&self, old_entries: Seq<(String, SeenMessage)>, k: Seq<char>)
        requires
            self.wf(),
            self.seen_messages@.len() == old_entries.len() + 1,
            self.seen_messages@.drop_last() == old_entries,
            self.seen_messages@.last().0@ == k,
        ensures
            seen_map(self.seen_messages@) == seen_map(old_entries).insert(
                k,
                (self.seen_messages@.last().1.message@, self.seen_messages@.last().1.forwarder),
            ),
    {
        let entries = self.seen_messages@;
        let last = old_entries.len() as int;
        let m1 = seen_map(entries);
        let m2 = seen_map(old_entries).insert(k, (entries[last].1.message@, entries[last].1.forwarder));
        assert forall|c: int| 0 <= c < last implies #[trigger] entries[c] == old_entries[c] by {
            assert(entries.drop_last()[c] == entries[c]);
        }
        assert forall|x: Seq<char>| #[trigger] m1.contains_key(x) <==> m2.contains_key(x) by {
            if m1.contains_key(x) {
                let c = choose|c: int| 0 <= c < entries.len() && (#[trigger] entries[c]).0@ == x;
                if c != last {
                    assert(old_entries[c] == entries[c]);
                }
            }
            if m2.contains_key(x) && x != k {
                let c = choose|c: int| 0 <= c < old_entries.len() && (#[trigger] old_entries[c]).0@ == x;
                assert(old_entries[c] == entries[c]);
            }
        }
        assert forall|x: Seq<char>| #[trigger] m1.contains_key(x) implies m1[x] == m2[x] by {
            let c = choose|c: int| 0 <= c < entries.len() && (#[trigger] entries[c]).0@ == x;
            if x == k {
                if c != last {
                    assert(entries[c].0@ != entries[last].0@);
                }
            } else {
                assert(c != last);
                assert(old_entries[c] == entries[c]);
                let d = choose|d: int| 0 <= d < old_entries.len() && (#[trigger] old_entries[d]).0@ == x;
                assert(entries[d] == old_entries[d]);
                if c != d {
                    if c < d {
                        assert(entries[c].0@ != entries[d].0@);
                    } else {
                        assert(entries[d].0@ != entries[c].0@);
                    }
                }
            }
        }
        assert(m1 =~= m2);
    }

    /// Whether this node started the search with key `key`.
    fn is_our_request(&self, key: &String) -> (res: bool)
        ensures
            res == self@.requests.contains(key@),
    {
        let mut k: usize = 0;
        while k < self.our_requests.len()
            invariant
                k <= self.our_requests@.len(),
                forall|m: int| 0 <= m < k ==> (#[trigger] self.our_requests@[m])@ != key@,
            decreases self.our_requests@.len() - k,
        {
            if self.our_requests[k] == *key {
                assert(self.our_requests@[k as int]@ == key@);
                return true;
            }
            k = k + 1;
        }
        false
    }
}

impl SearchLayer {
    /// What to do with `message`, for a node that has the files of `manifest`.
    pub fn classify(&self, message: &Message, manifest: &FileManifest) -> (step: SearchStep)
        ensures
            step == search_step(self@, message@, names(manifest.files@)),
    {
        match &message.body {
            MessageBody::SearchRequest { .. } => if Self::should_consume_request(message, manifest) {
                SearchStep::ConsumeRequest
            } else {
                SearchStep::ForwardRequest
            },
            MessageBody::SearchResponse { .. } => if self.should_consume_response(message) {
                SearchStep::ConsumeResponse
            } else {
                SearchStep::ForwardResponse
            },
            MessageBody::AdjUpdate { .. } => SearchStep::ForwardAdjUpdate,
            _ => SearchStep::Ignore,
        }
    }

    /// Whether `message` is a search for a file the node has.
    pub fn should_consume_request(message: &Message, manifest: &FileManifest) -> (res: bool)
        ensures
            res == (message@.body matches BodyView::SearchRequest { file_name, .. } && names(
                manifest.files@,
            ).contains(file_name)),
    {
        match &message.body {
            MessageBody::SearchRequest { file_name, .. } => manifest.has_file(file_name),
            _ => false,
        }
    }

    /// Whether `message` answers a search this node started.
    pub fn should_consume_response(&self, message: &Message) -> (res: bool)
        ensures
            res == (message@.body matches BodyView::SearchResponse { reply_to, .. } && self@.requests.contains(
                reply_to,
            )),
    {
        match &message.body {
            MessageBody::SearchResponse { reply_to, .. } => self.is_our_request(reply_to),
            _ => false,
        }
    }

    /// The answer to a search for a file of `file_size` bytes that the node has,
    /// and the node to send it to: the one the search came from.
    pub fn try_consume_request(config: &Config, clock: &mut LogicalClock, message: &Message, file_size: u64) -> (res: (
        Message,
        u32,
    ))
        requires
            message.body is SearchRequest,
            old(clock).value < u64::MAX,
        ensures
            final(clock).value == old(clock).value + 1,
            message@.body matches BodyView::SearchRequest { forwarder, file_name, .. } && res.1 == forwarder
                && res.0@ == (MessageView {
                sender: config.id,
                timestamp: final(clock).value,
                body: BodyView::SearchResponse {
                    forwarder: config.id,
                    file_name: file_name,
                    reply_to: key_of(message@),
                    file_size: file_size,
                },
            }),
    {
        match &message.body {
            MessageBody::SearchRequest { file_name, forwarder, .. } => {
                let body = MessageBody::SearchResponse {
                    forwarder: config.id,
                    file_name: file_name.clone(),
                    reply_to: message.get_key(),
                    file_size,
                };
                let response = Message::new(config, clock, body);
                (response, *forwarder)
            },
            _ => {
                proof {
                    assert(false);
                }
                let response = Message::new(config, clock, MessageBody::Empty);
                (response, 0)
            },
        }
    }

    /// The event that reports an answer to one of this node's searches.
    pub fn try_consume_response(message: &Message) -> (ev: Event)
        requires
            message.body is SearchResponse,
        ensures
            ev matches Event::FileFound(r) && r.node_id == message.sender && (message@.body matches BodyView::SearchResponse {
                file_name,
                file_size,
                ..
            } && r.file_name@ == file_name && r.file_size == file_size),
    {
        Event::FileFound(FileSearchResult::new(message))
    }

    /// Passing a search on: one hop fewer, from this node, to every neighbour but
    /// the node that started it; unless it has no hops left or was passed on before.
    pub fn try_forward_request(&self, config: &Config, msg: &Message) -> (res: Forward)
        requires
            self.wf(),
            msg.body is SearchRequest,
            request_plan(self@, msg@) is PassOn ==> config.own_cells_indexable(),
        ensures
            request_plan(self@, msg@) is Stop ==> res is Discard,
            request_plan(self@, msg@) is Repeat ==> res is Duplicate,
            request_plan(self@, msg@) is PassOn ==> (res matches Forward::Broadcast { message, targets } && (
            msg@.body matches BodyView::SearchRequest { hop_count, file_name, .. } && message@ == (MessageView {
                sender: msg.sender,
                timestamp: msg.timestamp,
                body: BodyView::SearchRequest {
                    forwarder: config.id,
                    hop_count: (hop_count - 1) as u32,
                    file_name: file_name,
                },
            })) && targets@ == broadcast_targets(config.adj@, config.id, seq![msg.sender])),
            msg@.body matches BodyView::SearchRequest { hop_count, .. } && hop_count == 0 ==> res is Discard,
            msg@.body matches BodyView::SearchRequest { hop_count, .. } && hop_count > 0 && self@.seen.contains_key(
                message_key(msg.sender, msg.timestamp),
            ) ==> res is Duplicate,
            msg@.body matches BodyView::SearchRequest { hop_count, .. } && hop_count > 0 && !self@.seen.contains_key(
                message_key(msg.sender, msg.timestamp),
            ) ==> res is Broadcast,
    {
        proof {
            law_request_plan(self@, msg@);
        }
        let (hop_count, file_name) = match &msg.body {
            MessageBody::SearchRequest { hop_count, file_name, .. } => (*hop_count, file_name),
            _ => {
                proof {
                    assert(false);
                }
                return Forward::Discard;
            },
        };
        if hop_count == 0 {
            return Forward::Discard;
        }
        let msg_key = msg.get_key();
        if self.find_seen(&msg_key).is_some() {
            return Forward::Duplicate;
        }
        let new_msg = Message {
            sender: msg.sender,
            timestamp: msg.timestamp,
            body: MessageBody::SearchRequest {
                hop_count: hop_count - 1,
                file_name: file_name.clone(),
                forwarder: config.id,
            },
        };
        let exclusions = vec![msg.sender];
        let targets = Self::get_broadcastable_nodes(config, &exclusions);
        assert(exclusions@ =~= seq![msg.sender]);
        Forward::Broadcast { message: new_msg, targets }
    }

    /// Remembers a message once it was passed on to every target; `failures`
    /// describes each send that failed, and any failure leaves the layer as it
    /// was.
    pub fn record_forwarded(&mut self, msg: &Message, failures: Vec<String>) -> (res: Result<(), SearchError>)
        requires
            old(self).wf(),
        ensures
            final(self).wf(),
            failures@.len() > 0 ==> final(self)@ == old(self)@ && (if msg.body is AdjUpdate {
                res matches Err(SearchError::AdjForwardFailed(e)) && e@ == failures@
            } else {
                res matches Err(SearchError::ForwardFailed(e)) && e@ == failures@
            }),
            failures@.len() == 0 ==> res is Ok && final(self)@ == recorded(old(self)@, msg@),
            failures@.len() == 0 ==> final(self)@.seen.dom() == old(self)@.seen.dom().insert(
                message_key(msg.sender, msg.timestamp),
            ) && final(self)@.seen[message_key(msg.sender, msg.timestamp)].0 == msg@,
    {
        proof {
            law_recorded(old(self)@, msg@);
        }
        if failures.len() > 0 {
            return match &msg.body {
                MessageBody::AdjUpdate { .. } => Err(SearchError::AdjForwardFailed(failures)),
                _ => Err(SearchError::ForwardFailed(failures)),
            };
        }
        let forwarder = match &msg.body {
            MessageBody::SearchRequest { forwarder, .. } => *forwarder,
            _ => msg.sender,
        };
        let key = msg.get_key();
        self.remember(key, msg.clone(), forwarder);
        proof {
            assert(self@ =~= recorded(old(self)@, msg@));
        }
        Ok(())
    }

    /// Sends an answer back the way its search came: to the node the search was
    /// passed on from.
    pub fn try_forward_response(&self, msg: &Message) -> (res: Result<(Message, u32), SearchError>)
        requires
            self.wf(),
        ensures
            match msg@.body {
                BodyView::SearchResponse { reply_to, .. } => if self@.seen.contains_key(reply_to) {
                    res matches Ok((m, t)) && m@ == msg@ && t == self@.seen[reply_to].1
                } else {
                    res matches Err(SearchError::UnknownRequest(k)) && k@ == reply_to
                },
                _ => res matches Err(SearchError::NotSearchResponse),
            },
    {
        let reply_key = match &msg.body {
            MessageBody::SearchResponse { reply_to, .. } => reply_to,
            _ => return Err(SearchError::NotSearchResponse),
        };
        match self.find_seen(reply_key) {
            None => Err(SearchError::UnknownRequest(reply_key.clone())),
            Some(i) => Ok((msg.clone(), self.seen_messages[i].1.forwarder)),
        }
    }

    /// Installs the matrix a message carries and passes the message on to every
    /// neighbour in that matrix but its sender; unless it was passed on before.
    pub fn try_forward_adj_update(&self, config: &mut Config, msg: &Message) -> (res: Result<Forward, SearchError>)
        requires
            self.wf(),
            !self@.seen.contains_key(key_of(msg@)) ==> (msg@.body matches BodyView::AdjUpdate { adj } ==> cells_fit(
                adj,
                old(config).id,
            )),
        ensures
            self@.seen.contains_key(key_of(msg@)) ==> (res matches Ok(Forward::Duplicate) && *final(config)
                == *old(config)),
            !self@.seen.contains_key(key_of(msg@)) ==> match msg@.body {
                BodyView::AdjUpdate { adj } => {
                    &&& final(config).adj@ == adj
                    &&& final(config).id == old(config).id
                    &&& final(config).target_node == old(config).target_node
                    &&& final(config).listen_ip == old(config).listen_ip
                    &&& final(config).routes@ == old(config).routes@
                    &&& res matches Ok(Forward::Broadcast { message, targets })
                    &&& message@ == msg@
                    &&& targets@ == broadcast_targets(adj, old(config).id, seq![msg.sender])
                },
                _ => (res matches Err(SearchError::NotAdjUpdate)) && *final(config) == *old(config),
            },
    {
        let msg_key = msg.get_key();
        if self.find_seen(&msg_key).is_some() {
            return Ok(Forward::Duplicate);
        }
        let msg_adj = match &msg.body {
            MessageBody::AdjUpdate { adj } => adj,
            _ => return Err(SearchError::NotAdjUpdate),
        };
        config.replace_adj(msg_adj.clone());
        let new_msg = msg.clone();
        let exclusions = vec![msg.sender];
        let targets = Self::get_broadcastable_nodes(config, &exclusions);
        assert(exclusions@ =~= seq![msg.sender]);
        Ok(Forward::Broadcast { message: new_msg, targets })
    }

    /// Starts a search for `file_name` that may travel `hop_count` hops: a new
    /// message from this node, remembered as one of its searches, and the
    /// neighbours to send it to.
    pub fn send_search_request(
        &mut self,
        config: &Config,
        clock: &mut LogicalClock,
        file_name: &String,
        hop_count: u32,
    ) -> (res: (Message, Vec<u32>))
        requires
            old(self).wf(),
            config.own_cells_indexable(),
            old(clock).value < u64::MAX,
        ensures
            final(self).wf(),
            final(clock).value == old(clock).value + 1,
            res.0@ == (MessageView {
                sender: config.id,
                timestamp: final(clock).value,
                body: BodyView::SearchRequest { forwarder: config.id, hop_count: hop_count, file_name: file_name@ },
            }),
            final(self)@.seen == old(self)@.seen,
            final(self)@.requests == old(self)@.requests.insert(key_of(res.0@)),
            res.1@ == broadcast_targets(config.adj@, config.id, Seq::empty()),
    {
        let body = MessageBody::SearchRequest { hop_count, file_name: file_name.clone(), forwarder: config.id };
        let message = Message::new(config, clock, body);
        let key = message.get_key();
        if !self.is_our_request(&key) {
            let ghost before = self.our_requests@;
            self.our_requests.push(key);
            proof {
                let after = self.our_requests@;
                assert forall|k: Seq<char>| #[trigger] request_set(after).contains(k) <==> request_set(
                    before,
                ).insert(key_of(message@)).contains(k) by {
                    if request_set(after).contains(k) {
                        let i = choose|i: int| 0 <= i < after.len() && (#[trigger] after[i])@ == k;
                        if i < before.len() {
                            assert(before[i] == after[i]);
                        }
                    }
                    if request_set(before).contains(k) {
                        let i = choose|i: int| 0 <= i < before.len() && (#[trigger] before[i])@ == k;
                        assert(before[i] == after[i]);
                    }
                    if k == key_of(message@) {
                        assert(after[before.len() as int]@ == k);
                    }
                }
                assert(request_set(after) =~= request_set(before).insert(key_of(message@)));
            }
        } else {
            proof {
                assert(self@.requests =~= old(self)@.requests.insert(key_of(message@)));
            }
        }
        let exclusions: Vec<u32> = Vec::new();
        let targets = Self::get_broadcastable_nodes(config, &exclusions);
        assert(exclusions@ =~= Seq::<u32>::empty());
        (message, targets)
    }

    /// The neighbours of this node, but not the node itself nor any of
    /// `exclusions`, in increasing order.
    pub fn get_broadcastable_nodes(config: &Config, exclusions: &Vec<u32>) -> (res: Vec<u32>)
        requires
            config.own_cells_indexable(),
        ensures
            res@ == broadcast_targets(config.adj@, config.id, exclusions@),
            forall|j: u32| #[trigger] res@.contains(j) <==> {
                &&& j < config.adj@.n
                &&& !config.adj@.deactivated.contains(j)
                &&& !config.adj@.deactivated.contains(config.id)
                &&& config.adj@.cell(config.id, j) || config.adj@.cell(j, config.id)
                &&& j != config.id
                &&& !exclusions@.contains(j)
            },
            forall|a: int, b: int| 0 <= a < b < res@.len() ==> #[trigger] res@[a] < #[trigger] res@[b],
    {
        proof {
            law_targets_are_active_neighbours(config.adj@, config.id, exclusions@);
        }
        let targets_set = config.get_adjacent_nodes();
        let mut targets: Vec<u32> = Vec::new();
        let mut j: u32 = 0;
        while j < config.adj.n
            invariant
                j <= config.adj.n,
                targets_set@ == Set::new(
                    |m: u32|
                        m < config.adj.n && (config.adj@.edge(config.id, m) || config.adj@.edge(m, config.id))
                            && config.id != m,
                ),
                targets@ == nodes_below(j as nat, |m: u32| is_target(config.adj@, config.id, exclusions@, m)),
            decreases config.adj.n - j,
        {
            if targets_set.contains(&j) && !contains_node(exclusions, j) {
                targets.push(j);
            }
            j = j + 1;
        }
        targets
    }
}

/// A search is passed on at most once: once the layer remembers passing it
/// on, the same search (any copy with the same key) is recognized as a duplicate.
pub proof fn law_forward_once(s: SearchView, m: MessageView, again: MessageView)
    requires
        m.body is SearchRequest,
        again.body matches BodyView::SearchRequest { hop_count, .. } && hop_count > 0,
        key_of(again) == key_of(m),
    ensures
        request_plan(recorded(s, m), again) is Repeat,
{
}

/// An answer to a search that was passed on goes back to the node the search
/// came from: the forwarder it names.
pub proof fn law_response_goes_back(s: SearchView, request: MessageView, reply_to: Seq<char>)
    requires
        request.body is SearchRequest,
        reply_to == key_of(request),
    ensures
        recorded(s, request).seen.contains_key(reply_to),
        request.body matches BodyView::SearchRequest { forwarder, .. } && recorded(s, request).seen[reply_to].1
            == forwarder,
{
}

/// A search is passed on exactly when it has hops left and no message with its
/// own key was passed on before: what other messages of the same sender were
/// passed on has no bearing.
pub proof fn law_request_plan(s: SearchView, m: MessageView)
    requires
        m.body is SearchRequest,
    ensures
        m.body matches BodyView::SearchRequest { hop_count, .. } && hop_count == 0 ==> request_plan(s, m) is Stop,
        m.body matches BodyView::SearchRequest { hop_count, .. } && hop_count > 0 && s.seen.contains_key(
            message_key(m.sender, m.timestamp),
        ) ==> request_plan(s, m) is Repeat,
        m.body matches BodyView::SearchRequest { hop_count, .. } && hop_count > 0 && !s.seen.contains_key(
            message_key(m.sender, m.timestamp),
        ) ==> request_plan(s, m) is PassOn,
{
}

/// Passing one search on does not stop another: a later search whose sender or
/// timestamp differs, with hops left and not passed on before, is still passed
/// on after the first one is remembered.
pub proof fn law_other_searches_pass(s: SearchView, m: MessageView, again: MessageView)
    requires
        m.body is SearchRequest,
        again.body matches BodyView::SearchRequest { hop_count, .. } && hop_count > 0,
        again.sender != m.sender || again.timestamp != m.timestamp,
        !s.seen.contains_key(message_key(again.sender, again.timestamp)),
    ensures
        request_plan(recorded(s, m), again) is PassOn,
{
    if key_of(again) == key_of(m) {
        crate::message::law_message_keys_unique(again.sender, again.timestamp, m.sender, m.timestamp);
    }
}

/// Remembering a message that was passed on adds exactly its own key, made of
/// its sender and timestamp, with the message and the node it came from: for a
/// search the forwarder it names, else its sender. Every other key keeps what it
/// had, and the node's own searches are unchanged.
pub proof fn law_recorded(s: SearchView, m: MessageView)
    ensures
        recorded(s, m).seen.dom() == s.seen.dom().insert(message_key(m.sender, m.timestamp)),
        recorded(s, m).seen[message_key(m.sender, m.timestamp)].0 == m,
        m.body matches BodyView::SearchRequest { forwarder, .. } ==> recorded(s, m).seen[message_key(
            m.sender,
            m.timestamp,
        )].1 == forwarder,
        !(m.body is SearchRequest) ==> recorded(s, m).seen[message_key(m.sender, m.timestamp)].1 == m.sender,
        forall|k: Seq<char>|
            k != message_key(m.sender, m.timestamp) && #[trigger] s.seen.contains_key(k) ==> recorded(s, m).seen[k]
                == s.seen[k],
        recorded(s, m).requests == s.requests,
{
    assert(recorded(s, m).seen.dom() =~= s.seen.dom().insert(message_key(m.sender, m.timestamp)));
}

/// A message is sent to exactly the nodes joined to this node by a stored
/// edge in either direction, while both are still in the network; never to the
/// node itself nor to an excluded node; each once, in increasing order.
pub proof fn law_targets_are_active_neighbours(adj: AdjView, id: u32, excluded: Seq<u32>)
    ensures
        forall|j: u32| #[trigger] broadcast_targets(adj, id, excluded).contains(j) <==> {
            &&& j < adj.n
            &&& !adj.deactivated.contains(j)
            &&& !adj.deactivated.contains(id)
            &&& adj.cell(id, j) || adj.cell(j, id)
            &&& j != id
            &&& !excluded.contains(j)
        },
        forall|a: int, b: int|
            0 <= a < b < broadcast_targets(adj, id, excluded).len() ==> #[trigger] broadcast_targets(
                adj,
                id,
                excluded,
            )[a] < #[trigger] broadcast_targets(adj, id, excluded)[b],
{
    let pick = |m: u32| is_target(adj, id, excluded, m);
    assert forall|j: u32| #[trigger] broadcast_targets(adj, id, excluded).contains(j) <==> {
        &&& j < adj.n
        &&& !adj.deactivated.contains(j)
        &&& !adj.deactivated.contains(id)
        &&& adj.cell(id, j) || adj.cell(j, id)
        &&& j != id
        &&& !excluded.contains(j)
    } by {
        crate::config::lemma_nodes_below_contains(adj.n as nat, pick, j);
    }
    lemma_nodes_below_increasing(adj.n as nat, pick);
}

/// The nodes below `k` that are picked come in increasing order.
proof fn lemma_nodes_below_increasing(k: nat, pick: spec_fn(u32) -> bool)
    requires
        k <= u32::MAX + 1,
    ensures
        forall|a: int| 0 <= a < nodes_below(k, pick).len() ==> #[trigger] nodes_below(k, pick)[a] < k,
        forall|a: int, b: int|
            0 <= a < b < nodes_below(k, pick).len() ==> #[trigger] nodes_below(k, pick)[a]
                < #[trigger] nodes_below(k, pick)[b],
    decreases k,
{
    if k > 0 {
        let rest = nodes_below((k - 1) as nat, pick);
        let all = nodes_below(k, pick);
        lemma_nodes_below_increasing((k - 1) as nat, pick);
        if pick((k - 1) as u32) {
            assert(all == rest.push((k - 1) as u32));
            assert forall|a: int| 0 <= a < all.len() implies #[trigger] all[a] < k by {
                if a < rest.len() {
                    assert(all[a] == rest[a]);
                }
            }
            assert forall|a: int, b: int| 0 <= a < b < all.len() implies #[trigger] all[a] < #[trigger] all[b] by {
                assert(all[a] == rest[a]);
                if b < rest.len() {
                    assert(all[b] == rest[b]);
                }
            }
        } else {
            assert(all == rest);
        }
    }
}

/// Whether `x` is among `nodes`.
pub(crate) fn contains_node(nodes: &Vec<u32>, x: u32) -> (res: bool)
    ensures
        res == nodes@.contains(x),
{
    let mut k: usize = 0;
    while k < nodes.len()
        invariant
            k <= nodes@.len(),
            forall|m: int| 0 <= m < k ==> nodes@[m] != x,
        decreases nodes@.len() - k,
    {
        if nodes[k] == x {
            assert(nodes@[k as int] == x);
            return true;
        }
        k = k + 1;
    }
    false
}

} // verus!
