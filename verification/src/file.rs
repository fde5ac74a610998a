use crate::adj::{indexable, search_finds_all, Adj, AdjView};
use crate::config::Config;
use crate::file_manifest::{names, FileManifest};
use crate::message::{BodyView, LogicalClock, Message, MessageBody, MessageView};
use crate::text::{
    chars_of, decimal, decimal_text, lemma_piece_bounds, number_error, parse_number_in, parse_unsigned,
    piece_end, piece_start, range_is, sep_positions, split_bounds, split_on, trim, trim_bounds, NumberError,
};
use vstd::arithmetic::power2::pow2;
use vstd::prelude::*;
use vstd::string::StrSliceExecFns;
use vstd::string::StringExecFns;

verus! {

/// A command the user types.
#[derive(Debug)]
pub enum Command {
    /// `help`: show what the commands do.
    Help,
    /// `find <file> [n]`: search the network for a file, starting with 2^n hops.
    Find(String, Option<u32>),
    /// `download <node>...`: download a found file from these nodes.
    Download(Vec<u32>),
    /// `exit`: leave the network.
    Exit,
    /// `adj`: show the matrix.
    Adj,
    /// `repair`: reconnect to nodes this node should be connected to.
    Repair,
}

/// The contents of a command.
pub enum CommandView {
    Help,
    Find(Seq<char>, Option<u32>),
    Download(Seq<u32>),
    Exit,
    Adj,
    Repair,
}

impl View for Command {
    type V = CommandView;

    open spec fn view(&self) -> CommandView {
        match self {
            Command::Help => CommandView::Help,
            Command::Find(f, h) => CommandView::Find(f@, *h),
            Command::Download(ids) => CommandView::Download(ids@),
            Command::Exit => CommandView::Exit,
            Command::Adj => CommandView::Adj,
            Command::Repair => CommandView::Repair,
        }
    }
}

/// Why a line is not a command.
#[derive(Debug, Clone, Copy, PartialEq, Eq, Structural)]
pub enum CommandError {
    /// The first word names no command, or the command lacks its argument.
    InvalidCommand,
    /// A number in the command does not read as one.
    InvalidNumber(NumberError),
    /// There was no line to read.
    NoCommand,
}

impl CommandError {
    /// The text the node logs for the error.
    pub fn message(&self) -> (s: &'static str)
        ensures
            *self == CommandError::InvalidCommand ==> s@ == "Invalid command"@,
            *self == CommandError::InvalidNumber(NumberError::Empty) ==> s@ == "cannot parse integer from empty string"@,
            *self == CommandError::InvalidNumber(NumberError::InvalidDigit) ==> s@
                == "invalid digit found in string"@,
            *self == CommandError::InvalidNumber(NumberError::TooLarge) ==> s@
                == "number too large to fit in target type"@,
            *self == CommandError::NoCommand ==> s@ == "No command given"@,
    {
        match self {
            CommandError::InvalidCommand => "Invalid command",
            CommandError::InvalidNumber(NumberError::Empty) => "cannot parse integer from empty string",
            CommandError::InvalidNumber(NumberError::InvalidDigit) => "invalid digit found in string",
            CommandError::InvalidNumber(NumberError::TooLarge) => "number too large to fit in target type",
            CommandError::NoCommand => "No command given",
        }
    }
}

/// Node ids read from words, left to right; the first word that is not a
/// `u32` decides the error.
pub open spec fn parse_ids(words: Seq<Seq<char>>) -> Result<Seq<u32>, NumberError>
    decreases words.len(),
{
    if words.len() == 0 {
        Ok(Seq::empty())
    } else {
        match parse_unsigned(words[0], u32::MAX as nat) {
            None => Err(number_error(words[0], u32::MAX as nat)),
            Some(v) => match parse_ids(words.drop_first()) {
                Ok(rest) => Ok(seq![v as u32] + rest),
                Err(e) => Err(e),
            },
        }
    }
}

/// Ids read so far followed by what reading the rest gives.
pub open spec fn after_ids(done: Seq<u32>, rest: Result<Seq<u32>, NumberError>) -> Result<Seq<u32>, NumberError> {
    match rest {
        Ok(ids) => Ok(done + ids),
        Err(e) => Err(e),
    }
}

/// The command a line holds. The line is split at each space; the first word,
/// trimmed, names the command. `find` takes the next word, trimmed, as the
/// file name and the word after it, if any, as the power of two of the first
/// hop count (0 when there is none); `download` reads every further word as a
/// node id.
pub open spec fn command_of(line: Seq<char>) -> Result<CommandView, CommandError> {
    let parts = split_on(line, ' ');
    let head = trim(parts[0]);
    if head == "help"@ {
        Ok(CommandView::Help)
    } else if head == "find"@ && parts.len() > 1 {
        if parts.len() > 2 {
            match parse_unsigned(parts[2], u32::MAX as nat) {
                Some(h) => Ok(CommandView::Find(trim(parts[1]), Some(h as u32))),
                None => Err(CommandError::InvalidNumber(number_error(parts[2], u32::MAX as nat))),
            }
        } else {
            Ok(CommandView::Find(trim(parts[1]), Some(0)))
        }
    } else if head == "download"@ && parts.len() > 1 {
        match parse_ids(parts.drop_first()) {
            Ok(ids) => Ok(CommandView::Download(ids)),
            Err(e) => Err(CommandError::InvalidNumber(e)),
        }
    } else if head == "exit"@ {
        Ok(CommandView::Exit)
    } else if head == "adj"@ {
        Ok(CommandView::Adj)
    } else if head == "repair"@ {
        Ok(CommandView::Repair)
    } else {
        Err(CommandError::InvalidCommand)
    }
}

/// Reads a command from a line the user typed.
pub fn parse_command(line: &str) -> (res: Result<Command, CommandError>)
    ensures
        match command_of(line@) {
            Ok(c) => res matches Ok(r) && r@ == c,
            Err(e) => res == Err::<Command, CommandError>(e),
        },
{
    let chars = chars_of(line);
    let bounds = split_bounds(&chars, ' ');
    let ghost parts = split_on(line@, ' ');
    proof {
        lemma_piece_bounds(chars@, ' ');
        assert(bounds@[0].0 == piece_start(chars@, ' ', 0));
    }
    let (h0, h1) = trim_bounds(&chars, bounds[0].0, bounds[0].1);
    assert(parts[0] == chars@.subrange(bounds@[0].0 as int, bounds@[0].1 as int));
    if range_is(&chars, h0, h1, "help") {
        return Ok(Command::Help);
    }
    if range_is(&chars, h0, h1, "find") && bounds.len() > 1 {
        assert(parts[1] == chars@.subrange(bounds@[1].0 as int, bounds@[1].1 as int));
        let mut min_hop_pow: u32 = 0;
        if bounds.len() > 2 {
            assert(parts[2] == chars@.subrange(bounds@[2].0 as int, bounds@[2].1 as int));
            match parse_number_in(&chars, bounds[2].0, bounds[2].1, u32::MAX as u64) {
                Ok(v) => {
                    min_hop_pow = v as u32;
                },
                Err(e) => {
                    return Err(CommandError::InvalidNumber(e));
                },
            }
        }
        let (f0, f1) = trim_bounds(&chars, bounds[1].0, bounds[1].1);
        let name = line.substring_char(f0, f1).to_owned();
        return Ok(Command::Find(name, Some(min_hop_pow)));
    }
    if range_is(&chars, h0, h1, "download") && bounds.len() > 1 {
        let mut ids: Vec<u32> = Vec::new();
        let mut k: usize = 1;
        assert(command_of(line@) == match parse_ids(parts.drop_first()) {
            Ok(ids) => Ok(CommandView::Download(ids)),
            Err(e) => Err(CommandError::InvalidNumber(e)),
        });
        proof {
            assert(parts.drop_first() =~= parts.subrange(1, parts.len() as int));
            match parse_ids(parts.drop_first()) {
                Ok(rest) => {
                    assert(Seq::<u32>::empty() + rest =~= rest);
                },
                Err(e) => {},
            }
        }
        while k < bounds.len()
            invariant
                1 <= k <= bounds@.len(),
                bounds@.len() == parts.len(),
                chars@ == line@,
                parts == split_on(line@, ' '),
                forall|m: int| 0 <= m < bounds@.len() ==> (#[trigger] bounds@[m]).0 == piece_start(chars@, ' ', m)
                    && bounds@[m].1 == piece_end(chars@, ' ', m),
                forall|m: int| 0 <= m <= sep_positions(chars@, ' ').len() ==> 0 <= #[trigger] piece_start(chars@, ' ', m)
                    <= piece_end(chars@, ' ', m) <= chars@.len(),
                parse_ids(parts.drop_first()) == after_ids(ids@, parse_ids(parts.subrange(k as int, parts.len() as int))),
                command_of(line@) == match parse_ids(parts.drop_first()) {
                    Ok(ids) => Ok(CommandView::Download(ids)),
                    Err(e) => Err(CommandError::InvalidNumber(e)),
                },
            decreases bounds@.len() - k,
        {
            let ghost rest = parts.subrange(k as int, parts.len() as int);
            assert(parts[k as int] == chars@.subrange(bounds@[k as int].0 as int, bounds@[k as int].1 as int));
            assert(rest[0] == parts[k as int]);
            assert(rest.drop_first() =~= parts.subrange(k as int + 1, parts.len() as int));
            match parse_number_in(&chars, bounds[k].0, bounds[k].1, u32::MAX as u64) {
                Ok(v) => {
                    proof {
                        let later = parse_ids(parts.subrange(k as int + 1, parts.len() as int));
                        match later {
                            Ok(r) => {
                                assert(ids@ + (seq![v as u32] + r) =~= ids@.push(v as u32) + r);
                            },
                            Err(e) => {},
                        }
                    }
                    ids.push(v as u32);
                },
                Err(e) => {
                    assert(parse_ids(rest) == Err::<Seq<u32>, NumberError>(e));
                    return Err(CommandError::InvalidNumber(e));
                },
            }
            k = k + 1;
        }
        proof {
            assert(parts.subrange(k as int, parts.len() as int) =~= Seq::<Seq<char>>::empty());
            assert(ids@ + Seq::<u32>::empty() =~= ids@);
        }
        return Ok(Command::Download(ids));
    }
    if range_is(&chars, h0, h1, "exit") {
        return Ok(Command::Exit);
    }
    if range_is(&chars, h0, h1, "adj") {
        return Ok(Command::Adj);
    }
    if range_is(&chars, h0, h1, "repair") {
        return Ok(Command::Repair);
    }
    Err(CommandError::InvalidCommand)
}

/// A node that answered a search: who it is, and the name and size of the file it has.
#[derive(Debug)]
pub struct FileSearchResult {
    pub node_id: u32,
    pub file_name: String,
    pub file_size: u64,
}

impl Clone for FileSearchResult {
    /// An independent copy of the answer.
    fn clone(&self) -> (res: Self)
        ensures
            res == *self,
    {
        FileSearchResult { node_id: self.node_id, file_name: self.file_name.clone(), file_size: self.file_size }
    }
}

impl FileSearchResult {
    /// The result a search response reports.
    pub fn new(message: &Message) -> (res: FileSearchResult)
        requires
            message.body is SearchResponse,
        ensures
            res.node_id == message.sender,
            message.body@ matches BodyView::SearchResponse { file_name, file_size, .. }
                && res.file_name@ == file_name && res.file_size == file_size,
    {
        match &message.body {
            MessageBody::SearchResponse { file_name, file_size, .. } => FileSearchResult {
                node_id: message.sender,
                file_name: file_name.clone(),
                file_size: *file_size,
            },
            _ => {
                proof {
                    assert(false);
                }
                FileSearchResult { node_id: 0, file_name: String::new(), file_size: 0 }
            },
        }
    }

    /// The key under which the result is offered for download: the node id in decimal.
    pub fn get_key(&self) -> (key: String)
        ensures
            key@ == decimal(self.node_id as nat),
    {
        decimal_text(self.node_id as u64)
    }
}

/// Where slice `slice` of `total` slices of a file of `len` bytes starts:
/// byte `slice * len / total`. The slice ends where the next one starts.
pub open spec fn slice_start(slice: nat, len: nat, total: nat) -> nat {
    (slice * len / total) as nat
}

/// The first `k` slices of `data` cut into `total` slices, one after the other.
pub open spec fn first_slices(data: Seq<u8>, total: nat, k: nat) -> Seq<u8>
    decreases k,
{
    if k == 0 {
        Seq::empty()
    } else {
        first_slices(data, total, (k - 1) as nat) + data.subrange(
            slice_start((k - 1) as nat, data.len(), total) as int,
            slice_start(k, data.len(), total) as int,
        )
    }
}

/// Slice starts never decrease, and no slice ends past the file.
pub proof fn lemma_slice_bounds(k: nat, len: nat, total: nat)
    requires
        total > 0,
        k < total,
    ensures
        slice_start(k, len, total) <= slice_start(k + 1, len, total) <= len,
{
    assert(k * len <= (k + 1) * len) by (nonlinear_arith);
    assert((k + 1) * len <= total * len) by (nonlinear_arith)
        requires
            k < total,
    ;
    vstd::arithmetic::div_mod::lemma_div_is_ordered((k * len) as int, ((k + 1) * len) as int, total as int);
    vstd::arithmetic::div_mod::lemma_div_is_ordered(((k + 1) * len) as int, (total * len) as int, total as int);
    assert(total * len / total == len) by (nonlinear_arith)
        requires
            total > 0,
    ;
}

/// The first `k` slices are the file up to where slice `k` starts.
proof fn lemma_first_slices(data: Seq<u8>, total: nat, k: nat)
    requires
        total > 0,
        k <= total,
    ensures
        slice_start(k, data.len(), total) <= data.len(),
        first_slices(data, total, k) == data.subrange(0, slice_start(k, data.len(), total) as int),
    decreases k,
{
    if k == 0 {
        assert(data.subrange(0, 0) =~= Seq::<u8>::empty());
    } else {
        lemma_first_slices(data, total, (k - 1) as nat);
        lemma_slice_bounds((k - 1) as nat, data.len(), total);
        let a = slice_start((k - 1) as nat, data.len(), total) as int;
        let b = slice_start(k, data.len(), total) as int;
        assert(data.subrange(0, a) + data.subrange(a, b) =~= data.subrange(0, b));
    }
}

/// Cut into any positive number of slices, a file is its slices one after the other.
pub proof fn law_slices_make_file(data: Seq<u8>, total: nat)
    requires
        total > 0,
    ensures
        first_slices(data, total, total) == data,
{
    lemma_first_slices(data, total, total);
    assert(total * data.len() / total == data.len()) by (nonlinear_arith)
        requires
            total > 0,
    ;
    assert(data.subrange(0, data.len() as int) =~= data);
}

/// Whether a request for a slice can be served from `data`: the slice count is
/// positive, the bounds of the slice can be computed in `u32`, and the slice
/// ends inside the file.
pub fn slice_fits(request: &Message, data: &Vec<u8>) -> (res: bool)
    ensures
        res == (request.body matches MessageBody::FileDownloadRequest { slice, total_slices, .. } && total_slices > 0
            && slice < u32::MAX && (slice + 1) * data@.len() <= u32::MAX && slice_start(
            (slice + 1) as nat,
            data@.len(),
            total_slices as nat,
        ) <= data@.len()),
{
    match &request.body {
        MessageBody::FileDownloadRequest { slice, total_slices, .. } => {
            if *total_slices == 0 || *slice == u32::MAX || data.len() > u32::MAX as usize {
                proof {
                    if data@.len() > u32::MAX {
                        assert((*slice + 1) * data@.len() >= data@.len()) by (nonlinear_arith)
                            requires
                                *slice + 1 >= 1,
                        ;
                    }
                }
                return false;
            }
            proof {
                assert((*slice as u64 + 1) * (data.len() as u64) <= 0x1_0000_0000 * 0xffff_ffff) by (nonlinear_arith)
                    requires
                        *slice as u64 + 1 <= 0x1_0000_0000,
                        data.len() <= 0xffff_ffff,
                ;
            }
            let upper = (*slice as u64 + 1) * (data.len() as u64);
            upper <= u32::MAX as u64 && upper / (*total_slices as u64) <= data.len() as u64
        },
        _ => false,
    }
}

/// The answer to a request for a slice of a file the node has, whose contents
/// are `data`, and the node to send it to: the one that asked.
pub fn serve_slice(config: &Config, clock: &mut LogicalClock, request: &Message, data: &Vec<u8>) -> (res: (
    Message,
    u32,
))
    requires
        request.body matches MessageBody::FileDownloadRequest { slice, total_slices, .. } && total_slices > 0
            && slice < u32::MAX && (slice + 1) * data@.len() <= u32::MAX && slice_start((slice + 1) as nat, data@.len(), total_slices as nat)
            <= data@.len(),
        old(clock).value < u64::MAX,
    ensures
        final(clock).value == old(clock).value + 1,
        res.1 == request.sender,
        request@.body matches BodyView::FileDownloadRequest { slice, total_slices, .. } && res.0@ == (MessageView {
            sender: config.id,
            timestamp: final(clock).value,
            body: BodyView::FileDownloadResponse {
                slice: slice,
                data: data@.subrange(
                    slice_start(slice as nat, data@.len(), total_slices as nat) as int,
                    slice_start((slice + 1) as nat, data@.len(), total_slices as nat) as int,
                ),
            },
        }),
{
    let (slice, total_slices) = match &request.body {
        MessageBody::FileDownloadRequest { slice, total_slices, .. } => (*slice, *total_slices),
        _ => {
            proof {
                assert(false);
            }
            (0, 1)
        },
    };
    assert(data@.len() <= (slice + 1) * data@.len()) by (nonlinear_arith)
        requires
            slice + 1 >= 1,
    ;
    let len = data.len() as u32;
    proof {
        assert(slice * len <= (slice + 1) * len) by (nonlinear_arith);
        vstd::arithmetic::div_mod::lemma_div_is_ordered((slice * len) as int, ((slice + 1) * len) as int, total_slices as int);
    }
    let start_idx = (slice * len / total_slices) as usize;
    let end_idx = ((slice + 1) * len / total_slices) as usize;
    let mut part: Vec<u8> = Vec::new();
    let mut k: usize = start_idx;
    while k < end_idx
        invariant
            start_idx <= k <= end_idx <= data@.len(),
            part@ == data@.subrange(start_idx as int, k as int),
        decreases end_idx - k,
    {
        part.push(data[k]);
        assert(part@ =~= data@.subrange(start_idx as int, k as int + 1));
        k = k + 1;
    }
    let response = Message::new(config, clock, MessageBody::FileDownloadResponse { slice, data: part });
    (response, request.sender)
}

/// The slices of a download as they arrive. The list starts as `slice_count`
/// empty slices; each arriving slice is put at its index, and the download is
/// the list's slices joined by index.
pub struct SliceAssembler {
    slices: Vec<Vec<u8>>,
    slice_count: u32,
    response_count: u32,
}

/// The contents of a download in progress.
pub struct AssemblerView {
    pub slices: Seq<Seq<u8>>,
    pub slice_count: u32,
    pub response_count: u32,
}

/// The contents of a list of byte vectors.
pub open spec fn byte_views(v: Seq<Vec<u8>>) -> Seq<Seq<u8>> {
    v.map_values(|b: Vec<u8>| b@)
}

/// `count` empty slices.
pub open spec fn empty_slices(count: nat) -> Seq<Seq<u8>> {
    Seq::new(count, |i: int| Seq::<u8>::empty())
}

/// The data of the last slice among `arrivals` with index `k`, if any arrived.
pub open spec fn arrived(arrivals: Seq<(u32, Seq<u8>)>, k: int) -> Option<Seq<u8>>
    decreases arrivals.len(),
{
    if arrivals.len() == 0 {
        None
    } else if arrivals.last().0 == k {
        Some(arrivals.last().1)
    } else {
        arrived(arrivals.drop_last(), k)
    }
}

/// The list after the slices in `arrivals` arrive, in that order, starting from
/// `count` empty slices: each slice is put at its index.
pub open spec fn assembled(count: nat, arrivals: Seq<(u32, Seq<u8>)>) -> Seq<Seq<u8>>
    decreases arrivals.len(),
{
    if arrivals.len() == 0 {
        empty_slices(count)
    } else {
        let prev = assembled(count, arrivals.drop_last());
        if arrivals.last().0 < count {
            prev.update(arrivals.last().0 as int, arrivals.last().1)
        } else {
            prev
        }
    }
}

impl View for SliceAssembler {
    type V = AssemblerView;

    closed spec fn view(&self) -> AssemblerView {
        AssemblerView {
            slices: byte_views(self.slices@),
            slice_count: self.slice_count,
            response_count: self.response_count,
        }
    }
}

impl SliceAssembler {
    /// A download of `slice_count` slices, none of them arrived.
    pub fn new(slice_count: u32) -> (a: SliceAssembler)
        ensures
            a@.slices == empty_slices(slice_count as nat),
            a@.slice_count == slice_count,
            a@.response_count == 0,
    {
        let mut slices: Vec<Vec<u8>> = Vec::new();
        let mut k: u32 = 0;
        while k < slice_count
            invariant
                k <= slice_count,
                slices@.len() == k,
                byte_views(slices@) == empty_slices(k as nat),
            decreases slice_count - k,
        {
            let ghost before = slices@;
            let empty: Vec<u8> = Vec::new();
            assert(empty@ =~= Seq::<u8>::empty());
            slices.push(empty);
            assert(slices@ =~= before.push(empty));
            assert forall|i: int| 0 <= i < k + 1 implies #[trigger] byte_views(slices@)[i] == Seq::<u8>::empty() by {
                if i < k {
                    assert(slices@[i] == before[i]);
                    assert(byte_views(before)[i] == empty_slices(k as nat)[i]);
                }
            }
            assert(byte_views(slices@) =~= empty_slices(k as nat + 1));
            k = k + 1;
        }
        SliceAssembler { slices, slice_count, response_count: 0 }
    }

    /// How many slices the list holds.
    pub fn len(&self) -> (n: usize)
        ensures
            n == self@.slices.len(),
    {
        self.slices.len()
    }

    /// How many slices arrived.
    pub fn response_count(&self) -> (c: u32)
        ensures
            c == self@.response_count,
    {
        self.response_count
    }

    /// Takes in an arriving slice; says whether as many slices arrived as were asked for.
    pub fn add(&mut self, slice: u32, data: Vec<u8>) -> (done: bool)
        requires
            slice < old(self)@.slices.len(),
            old(self)@.response_count < u32::MAX,
        ensures
            final(self)@.slices == old(self)@.slices.update(slice as int, data@),
            final(self)@.slice_count == old(self)@.slice_count,
            final(self)@.response_count == old(self)@.response_count + 1,
            done == (final(self)@.response_count == final(self)@.slice_count),
    {
        let ghost before = self.slices@;
        let ghost d = data@;
        self.slices.set(slice as usize, data);
        assert(byte_views(self.slices@) =~= byte_views(before).update(slice as int, d));
        self.response_count = self.response_count + 1;
        self.response_count == self.slice_count
    }

    /// The download: the slices one after the other.
    pub fn finish(&self) -> (data: Vec<u8>)
        ensures
            data@ == self@.slices.flatten(),
    {
        let mut data: Vec<u8> = Vec::new();
        let mut k: usize = 0;
        while k < self.slices.len()
            invariant
                k <= self.slices@.len(),
                data@ == byte_views(self.slices@).take(k as int).flatten(),
            decreases self.slices@.len() - k,
        {
            let piece = &self.slices[k];
            let ghost before = data@;
            let mut m: usize = 0;
            while m < piece.len()
                invariant
                    m <= piece@.len(),
                    data@ == before + piece@.take(m as int),
                decreases piece@.len() - m,
            {
                data.push(piece[m]);
                assert(data@ =~= before + piece@.take(m as int + 1));
                m = m + 1;
            }
            proof {
                let views = byte_views(self.slices@);
                assert(views.take(k as int + 1) =~= views.take(k as int).push(piece@));
                views.take(k as int).lemma_flatten_push(piece@);
                assert(piece@.take(piece@.len() as int) =~= piece@);
            }
            k = k + 1;
        }
        proof {
            assert(byte_views(self.slices@).take(self.slices@.len() as int) =~= byte_views(self.slices@));
        }
        data
    }
}

/// Each slot of the list holds the last slice that arrived for it, or nothing.
proof fn lemma_assembled_slots(count: nat, arrivals: Seq<(u32, Seq<u8>)>)
    ensures
        assembled(count, arrivals).len() == count,
        forall|k: int|
            0 <= k < count ==> #[trigger] assembled(count, arrivals)[k] == match arrived(arrivals, k) {
                Some(d) => d,
                None => Seq::<u8>::empty(),
            },
    decreases arrivals.len(),
{
    if arrivals.len() > 0 {
        lemma_assembled_slots(count, arrivals.drop_last());
    }
}

/// Whatever the order in which the slices of a download arrive, once every
/// slice has arrived the download is the slices joined by index.
pub proof fn law_download_joins_by_index(count: nat, arrivals: Seq<(u32, Seq<u8>)>)
    requires
        forall|k: int| 0 <= k < count ==> #[trigger] arrived(arrivals, k) is Some,
    ensures
        assembled(count, arrivals).flatten() == Seq::new(count, |k: int| arrived(arrivals, k)->0).flatten(),
{
    lemma_assembled_slots(count, arrivals);
    assert(assembled(count, arrivals) =~= Seq::new(count, |k: int| arrived(arrivals, k)->0));
}

/// What starting a search for a file comes to.
#[derive(Debug, Clone, Copy, PartialEq, Eq, Structural)]
pub enum FindStart {
    /// The node has the file already.
    AlreadyHave,
    /// Search, starting with this round.
    Search(u32),
}

/// Starts a search for `file_name`: nothing to do when the node has the file,
/// else the rounds start at `min_hop_pow`, or at 0 when none is given.
pub fn find_start(manifest: &FileManifest, file_name: &String, min_hop_pow: Option<u32>) -> (res: FindStart)
    ensures
        names(manifest.files@).contains(file_name@) ==> res == FindStart::AlreadyHave,
        !names(manifest.files@).contains(file_name@) ==> res == FindStart::Search(
            match min_hop_pow {
                Some(p) => p,
                None => 0,
            },
        ),
{
    if manifest.has_file(file_name) {
        return FindStart::AlreadyHave;
    }
    match min_hop_pow {
        Some(p) => FindStart::Search(p),
        None => FindStart::Search(0),
    }
}

/// Round `i` of a search, for rounds 0 to 4: the search goes out with a hop
/// count of 2^i and the node waits (i + 1) * 2 seconds for answers, that is two
/// seconds times one more than the base-two logarithm of the hop count. There
/// is no round 5 or later.
pub fn search_round(i: u32) -> (res: Option<(u32, u64)>)
    ensures
        i < 5 ==> res == Some((pow2(i as nat) as u32, (2 * (i + 1)) as u64)),
        i >= 5 ==> res is None,
{
    if i >= 5 {
        return None;
    }
    proof {
        vstd::arithmetic::power2::lemma2_to64();
    }
    let hop_count: u32 = match i {
        0 => 1,
        1 => 2,
        2 => 4,
        3 => 8,
        _ => 16,
    };
    Some((hop_count, ((i + 1) * 2) as u64))
}

/// The answers to the last search that found the file, one per node: what the
/// user can download from.
pub struct SearchResults {
    results: Vec<FileSearchResult>,
}

/// The contents of an answer to a search: the file's name and size.
pub open spec fn result_view(r: FileSearchResult) -> (Seq<char>, u64) {
    (r.file_name@, r.file_size)
}

/// The answers of `results` by node; a later answer of a node replaces an earlier one.
pub open spec fn results_by_node(results: Seq<FileSearchResult>) -> Map<u32, (Seq<char>, u64)>
    decreases results.len(),
{
    if results.len() == 0 {
        Map::empty()
    } else {
        results_by_node(results.drop_last()).insert(results.last().node_id, result_view(results.last()))
    }
}

/// The line that shows an answer the user can pick: its key, the file name and the node.
pub open spec fn result_line(node_id: u32, file_name: Seq<char>) -> Seq<char> {
    decimal(node_id as nat) + " = (\""@ + file_name + "\", node "@ + decimal(node_id as nat) + ")"@
}

/// Whether `line` shows one of the answers of `answers`.
pub open spec fn shows_answer(answers: Map<u32, (Seq<char>, u64)>, line: Seq<char>) -> bool {
    exists|id: u32| answers.contains_key(id) && line == result_line(id, #[trigger] answers[id].0)
}

/// Whether one of `lines` shows the answer of node `id` for `file_name`.
pub open spec fn shown(lines: Seq<String>, id: u32, file_name: Seq<char>) -> bool {
    exists|k: int| 0 <= k < lines.len() && (#[trigger] lines[k])@ == result_line(id, file_name)
}

/// Why a download could not start.
#[derive(Debug, Clone, Copy, PartialEq, Eq, Structural)]
pub enum DownloadError {
    /// No answer of the last search came from this node.
    UnknownNode(u32),
}

impl DownloadError {
    /// The text the node shows for the error.
    pub fn message(&self) -> (s: String)
        ensures
            self matches DownloadError::UnknownNode(id) ==> s@ == "Could not find any result from node "@ + decimal(
                id as nat,
            ) + " in the list of search results"@,
    {
        match self {
            DownloadError::UnknownNode(id) => {
                let mut s = String::from_str("Could not find any result from node ");
                crate::text::push_decimal(&mut s, *id as u64);
                s.append(" in the list of search results");
                s
            },
        }
    }
}

impl View for SearchResults {
    type V = Map<u32, (Seq<char>, u64)>;

    closed spec fn view(&self) -> Map<u32, (Seq<char>, u64)> {
        Map::new(
            |id: u32| exists|i: int| 0 <= i < self.results@.len() && (#[trigger] self.results@[i]).node_id == id,
            |id: u32|
                {
                    let i = choose|i: int| 0 <= i < self.results@.len() && (#[trigger] self.results@[i]).node_id == id;
                    result_view(self.results@[i])
                },
        )
    }
}

impl SearchResults {
    /// No node answers twice.
    pub closed spec fn wf(&self) -> bool {
        forall|i: int, j: int|
            0 <= i < j < self.results@.len() ==> (#[trigger] self.results@[i]).node_id
                != (#[trigger] self.results@[j]).node_id
    }

    /// No answers yet.
    pub fn new() -> (r: SearchResults)
        ensures
            r.wf(),
            r@ == Map::<u32, (Seq<char>, u64)>::empty(),
    {
        let r = SearchResults { results: Vec::new() };
        assert(r@ =~= Map::<u32, (Seq<char>, u64)>::empty());
        r
    }

    /// Where the answer of node `id` is kept, if any.
    fn find(&self, id: u32) -> (res: Option<usize>)
        requires
            self.wf(),
        ensures
            res is None <==> !self@.contains_key(id),
            res matches Some(i) ==> i < self.results@.len() && self.results@[i as int].node_id == id && self@[id]
                == result_view(self.results@[i as int]),
    {
        let mut k: usize = 0;
        while k < self.results.len()
            invariant
                self.wf(),
                k <= self.results@.len(),
                forall|m: int| 0 <= m < k ==> (#[trigger] self.results@[m]).node_id != id,
            decreases self.results@.len() - k,
        {
            if self.results[k].node_id == id {
                proof {
                    assert(self@.contains_key(id));
                    let r = self.results@;
                    let c = choose|i: int| 0 <= i < r.len() && (#[trigger] r[i]).node_id == id;
                    if c != k {
                        assert(c > k);
                        assert(r[k as int].node_id != r[c].node_id);
                    }
                }
                return Some(k);
            }
            k = k + 1;
        }
        None
    }

    /// Keeps the answers of a search that found the file, in place of those of
    /// the search before; a later answer of a node replaces an earlier one.
    pub fn store(&mut self, results: Vec<FileSearchResult>)
        ensures
            final(self).wf(),
            final(self)@ == results_by_node(results@),
    {
        self.results = Vec::new();
        assert(self@ =~= results_by_node(results@.take(0)));
        let mut k: usize = 0;
        while k < results.len()
            invariant
                self.wf(),
                k <= results@.len(),
                self@ == results_by_node(results@.take(k as int)),
            decreases results@.len() - k,
        {
            let r = results[k].clone();
            let ghost before = self.results@;
            let ghost m0 = self@;
            proof {
                assert(results@.take(k as int + 1).drop_last() =~= results@.take(k as int));
                assert(results@.take(k as int + 1).last() == results@[k as int]);
            }
            match self.find(r.node_id) {
                Some(i) => {
                    self.results.set(i, r);
                    proof {
                        let after = self.results@;
                        assert forall|a: int, b: int| 0 <= a < b < after.len() implies (#[trigger] after[a]).node_id
                            != (#[trigger] after[b]).node_id by {
                            assert(before[a].node_id != before[b].node_id);
                        }
                        let m1 = self@;
                        let m2 = m0.insert(r.node_id, result_view(r));
                        assert forall|x: u32| #[trigger] m1.contains_key(x) <==> m2.contains_key(x) by {
                            if m1.contains_key(x) {
                                let c = choose|c: int| 0 <= c < after.len() && (#[trigger] after[c]).node_id == x;
                                if c != i {
                                    assert(before[c] == after[c]);
                                }
                            }
                            if m0.contains_key(x) {
                                let c = choose|c: int| 0 <= c < before.len() && (#[trigger] before[c]).node_id == x;
                                assert(after[c].node_id == x);
                            }
                            if x == r.node_id {
                                assert(after[i as int].node_id == x);
                            }
                        }
                        assert forall|x: u32| #[trigger] m1.contains_key(x) implies m1[x] == m2[x] by {
                            let c = choose|c: int| 0 <= c < after.len() && (#[trigger] after[c]).node_id == x;
                            if x == r.node_id {
                                if c != i {
                                    assert(after[c].node_id != after[i as int].node_id);
                                }
                            } else {
                                assert(before[c] == after[c]);
                                let d = choose|d: int| 0 <= d < before.len() && (#[trigger] before[d]).node_id == x;
                                assert(after[d] == before[d]);
                                if c != d {
                                    assert(after[c].node_id != after[d].node_id);
                                }
                            }
                        }
                        assert(m1 =~= m2);
                    }
                },
                None => {
                    self.results.push(r);
                    proof {
                        let after = self.results@;
                        let last = before.len() as int;
                        assert forall|a: int, b: int| 0 <= a < b < after.len() implies (#[trigger] after[a]).node_id
                            != (#[trigger] after[b]).node_id by {
                            if b == last {
                                assert(after[a] == before[a]);
                                if before[a].node_id == r.node_id {
                                    assert(m0.contains_key(r.node_id));
                                }
                            } else {
                                assert(before[a].node_id != before[b].node_id);
                            }
                        }
                        let m1 = self@;
                        let m2 = m0.insert(r.node_id, result_view(r));
                        assert forall|x: u32| #[trigger] m1.contains_key(x) <==> m2.contains_key(x) by {
                            if m1.contains_key(x) {
                                let c = choose|c: int| 0 <= c < after.len() && (#[trigger] after[c]).node_id == x;
                                if c != last {
                                    assert(before[c] == after[c]);
                                }
                            }
                            if m0.contains_key(x) {
                                let c = choose|c: int| 0 <= c < before.len() && (#[trigger] before[c]).node_id == x;
                                assert(after[c] == before[c]);
                            }
                            if x == r.node_id {
                                assert(after[last].node_id == x);
                            }
                        }
                        assert forall|x: u32| #[trigger] m1.contains_key(x) implies m1[x] == m2[x] by {
                            let c = choose|c: int| 0 <= c < after.len() && (#[trigger] after[c]).node_id == x;
                            if x == r.node_id {
                                if c != last {
                                    assert(after[c].node_id != after[last].node_id);
                                }
                            } else {
                                assert(c != last);
                                assert(before[c] == after[c]);
                                let d = choose|d: int| 0 <= d < before.len() && (#[trigger] before[d]).node_id == x;
                                assert(after[d] == before[d]);
                                if c != d {
                                    assert(after[c].node_id != after[d].node_id);
                                }
                            }
                        }
                        assert(m1 =~= m2);
                    }
                },
            }
            k = k + 1;
        }
        assert(results@.take(results@.len() as int) =~= results@);
    }

    /// The answers to download from: one for each of `ids`, in that order;
    /// refused at the first id no answer came from.
    pub fn select(&self, ids: &Vec<u32>) -> (res: Result<Vec<FileSearchResult>, DownloadError>)
        requires
            self.wf(),
        ensures
            match res {
                Ok(items) => {
                    &&& items@.len() == ids@.len()
                    &&& forall|k: int| 0 <= k < ids@.len() ==> self@.contains_key(#[trigger] ids@[k])
                    &&& forall|k: int|
                        0 <= k < ids@.len() ==> (#[trigger] items@[k]).node_id == ids@[k] && result_view(items@[k])
                            == self@[ids@[k]]
                },
                Err(DownloadError::UnknownNode(id)) => exists|k: int|
                    0 <= k < ids@.len() && ids@[k] == id && !self@.contains_key(id) && forall|m: int|
                        0 <= m < k ==> self@.contains_key(#[trigger] ids@[m]),
            },
    {
        let mut items: Vec<FileSearchResult> = Vec::new();
        let mut k: usize = 0;
        while k < ids.len()
            invariant
                self.wf(),
                k <= ids@.len(),
                items@.len() == k,
                forall|m: int| 0 <= m < k ==> self@.contains_key(#[trigger] ids@[m]),
                forall|m: int|
                    0 <= m < k ==> (#[trigger] items@[m]).node_id == ids@[m] && result_view(items@[m])
                        == self@[ids@[m]],
            decreases ids@.len() - k,
        {
            let id = ids[k];
            match self.find(id) {
                Some(i) => {
                    items.push(self.results[i].clone());
                },
                None => {
                    return Err(DownloadError::UnknownNode(id));
                },
            }
            k = k + 1;
        }
        Ok(items)
    }

    /// The lines that show the answers the user can pick, one per node.
    pub fn lines(&self) -> (res: Vec<String>)
        requires
            self.wf(),
        ensures
            res@.len() == self@.len(),
            forall|k: int| 0 <= k < res@.len() ==> shows_answer(self@, (#[trigger] res@[k])@),
            forall|id: u32| #[trigger] self@.contains_key(id) ==> shown(res@, id, self@[id].0),
    {
        let mut res: Vec<String> = Vec::new();
        let mut k: usize = 0;
        while k < self.results.len()
            invariant
                self.wf(),
                k <= self.results@.len(),
                res@.len() == k,
                forall|m: int| 0 <= m < k ==> (#[trigger] res@[m])@ == result_line(
                    self.results@[m].node_id,
                    self.results@[m].file_name@,
                ),
            decreases self.results@.len() - k,
        {
            let r = &self.results[k];
            let mut line = r.get_key();
            line.append(" = (\"");
            line.append(r.file_name.as_str());
            line.append("\", node ");
            crate::text::push_decimal(&mut line, r.node_id as u64);
            line.append(")");
            assert(line@ =~= result_line(r.node_id, r.file_name@));
            res.push(line);
            k = k + 1;
        }
        proof {
            self.lemma_lines(res@);
        }
        res
    }

    /// Lines that show the kept answers in order show each node's answer once.
    proof fn lemma_lines(&self, res: Seq<String>)
        requires
            self.wf(),
            res.len() == self.results@.len(),
            forall|m: int| 0 <= m < res.len() ==> (#[trigger] res[m])@ == result_line(
                self.results@[m].node_id,
                self.results@[m].file_name@,
            ),
        ensures
            res.len() == self@.len(),
            forall|k: int| 0 <= k < res.len() ==> shows_answer(self@, (#[trigger] res[k])@),
            forall|id: u32| #[trigger] self@.contains_key(id) ==> shown(res, id, self@[id].0),
    {
        let rs = self.results@;
        assert forall|k: int| 0 <= k < res.len() implies shows_answer(self@, (#[trigger] res[k])@) by {
            let id = rs[k].node_id;
            assert(self@.contains_key(id));
            let c = choose|c: int| 0 <= c < rs.len() && (#[trigger] rs[c]).node_id == id;
            if c != k {
                if c < k {
                    assert(rs[c].node_id != rs[k].node_id);
                } else {
                    assert(rs[k].node_id != rs[c].node_id);
                }
            }
            assert(self@[id] == result_view(rs[k]));
            assert(res[k]@ == result_line(id, self@[id].0));
        }
        assert forall|id: u32| #[trigger] self@.contains_key(id) implies shown(res, id, self@[id].0) by {
            let c = choose|c: int| 0 <= c < rs.len() && (#[trigger] rs[c]).node_id == id;
            assert(res[c]@ == result_line(id, self@[id].0));
        }
        self.lemma_len();
    }

    /// One answer is kept per node.
    proof fn lemma_len(&self)
        requires
            self.wf(),
        ensures
            self@.len() == self.results@.len(),
    {
        let rs = self.results@;
        let ids = rs.map_values(|r: FileSearchResult| r.node_id);
        assert(ids.no_duplicates()) by {
            assert forall|a: int, b: int| 0 <= a < ids.len() && 0 <= b < ids.len() && a != b implies ids[a]
                != ids[b] by {
                if a < b {
                    assert(rs[a].node_id != rs[b].node_id);
                } else {
                    assert(rs[b].node_id != rs[a].node_id);
                }
            }
        }
        ids.unique_seq_to_set();
        assert(self@.dom() =~= ids.to_set()) by {
            assert forall|x: u32| #[trigger] self@.dom().contains(x) implies ids.to_set().contains(x) by {
                let c = choose|c: int| 0 <= c < rs.len() && (#[trigger] rs[c]).node_id == x;
                assert(ids[c] == x);
            }
            assert forall|x: u32| #[trigger] ids.to_set().contains(x) implies self@.dom().contains(x) by {
                let c = choose|c: int| 0 <= c < ids.len() && ids[c] == x;
                assert(rs[c].node_id == x);
            }
        }
    }
}

/// What a search for a file does after a round.
#[derive(Debug, Clone, Copy, PartialEq, Eq, Structural)]
pub enum FindNext {
    /// Run this round next.
    Round(u32),
    /// The round got answers, now kept as the results to download from.
    Found,
    /// No round got answers; the results kept before stay.
    GiveUp,
}

/// What follows round `round` of a search that got `answers`: with answers the
/// search stops and keeps them in place of the results kept before; without,
/// it goes on to the next round, and after round 4 it gives up, keeping the
/// results it had.
pub fn after_round(results: &mut SearchResults, round: u32, answers: Vec<FileSearchResult>) -> (next: FindNext)
    requires
        old(results).wf(),
    ensures
        final(results).wf(),
        answers@.len() > 0 ==> next == FindNext::Found && final(results)@ == results_by_node(answers@),
        answers@.len() == 0 ==> final(results)@ == old(results)@ && next == (if round < 4 {
            FindNext::Round((round + 1) as u32)
        } else {
            FindNext::GiveUp
        }),
{
    if answers.len() > 0 {
        results.store(answers);
        FindNext::Found
    } else if round < 4 {
        FindNext::Round(round + 1)
    } else {
        FindNext::GiveUp
    }
}

/// The requests for the slices of a download: slice `k` of as many as there
/// are answers is asked of the node of answer `k`, for the file it has.
pub fn send_file_requests(config: &Config, clock: &mut LogicalClock, items: &Vec<FileSearchResult>) -> (res: Vec<
    (Message, u32),
>)
    requires
        items@.len() <= u32::MAX,
        old(clock).value + items@.len() <= u64::MAX,
    ensures
        final(clock).value == old(clock).value + items@.len(),
        res@.len() == items@.len(),
        forall|k: int|
            0 <= k < items@.len() ==> (#[trigger] res@[k]).1 == items@[k].node_id && res@[k].0@ == (MessageView {
                sender: config.id,
                timestamp: (old(clock).value + k + 1) as u64,
                body: BodyView::FileDownloadRequest {
                    file_name: items@[k].file_name@,
                    slice: k as u32,
                    total_slices: items@.len() as u32,
                },
            }),
{
    let total_slices = items.len() as u32;
    let mut res: Vec<(Message, u32)> = Vec::new();
    let mut slice: usize = 0;
    while slice < items.len()
        invariant
            items@.len() <= u32::MAX,
            total_slices == items@.len(),
            slice <= items@.len(),
            res@.len() == slice,
            clock.value == old(clock).value + slice,
            old(clock).value + items@.len() <= u64::MAX,
            forall|k: int|
                0 <= k < slice ==> (#[trigger] res@[k]).1 == items@[k].node_id && res@[k].0@ == (MessageView {
                    sender: config.id,
                    timestamp: (old(clock).value + k + 1) as u64,
                    body: BodyView::FileDownloadRequest {
                        file_name: items@[k].file_name@,
                        slice: k as u32,
                        total_slices: items@.len() as u32,
                    },
                }),
        decreases items@.len() - slice,
    {
        let item = &items[slice];
        let body = MessageBody::FileDownloadRequest {
            file_name: item.file_name.clone(),
            slice: slice as u32,
            total_slices,
        };
        let msg = Message::new(config, clock, body);
        res.push((msg, item.node_id));
        slice = slice + 1;
    }
    res
}

/// The network `adj` after node `id` leaves it.
pub open spec fn without(adj: AdjView, id: u32) -> AdjView {
    AdjView { n: adj.n, data: adj.data, deactivated: adj.deactivated.insert(id) }
}

/// The matrix after this node leaves: the node taken out, and the rest
/// repaired when the connectivity check no longer finds it connected.
pub fn request_exit(config: &Config) -> (res: Adj)
    requires
        indexable(config.adj.n),
        config.adj.deactivated@.insert(config.id).len() <= config.adj.n,
        !without(config.adj@, config.id).connected() ==> config.adj.data@.len() >= config.adj.n * config.adj.n,
    ensures
        res.n == config.adj.n,
        res.deactivated@ == config.adj.deactivated@.insert(config.id),
        without(config.adj@, config.id).connected() ==> res.data@ == config.adj.data@,
        search_finds_all(without(config.adj@, config.id)) ==> res.data@ == config.adj.data@,
        !without(config.adj@, config.id).connected() && !search_finds_all(without(config.adj@, config.id)) ==> (
        exists|comps: Seq<Set<u32>>, hub: int, core: u32, picks: Seq<u32>|
            #[trigger] without(config.adj@, config.id).repaired_by(comps, hub, core, picks, res.data@)),
        !search_finds_all(without(config.adj@, config.id)) ==> res@.connected(),
        without(config.adj@, config.id).departures_in_range() ==> res@.connected(),
{
    let mut new_adj = config.adj.clone();
    assert(new_adj@ == config.adj@);
    new_adj.deactivate_node(config.id);
    assert(new_adj@ == without(config.adj@, config.id));
    if !new_adj.is_connected() {
        proof {
            crate::adj::lemma_member_when_search_misses(new_adj@);
        }
        new_adj.repair();
    }
    new_adj
}

} // verus!
