//! Downloading data to the device.
use crate::buffer::{
    buffer_capacity, buffer_clear, buffer_extend_fill, buffer_extend_from_slice, buffer_from_slice,
    buffer_len, buffer_new, Completion,
};
use crate::buffer::{buffer_bytes, buffer_limit, CompletionView};
use crate::client::{check_length, check_sent, read_response, Execution, Step};
use crate::client::{
    data_at, law_first_conclusion_decides, law_success_takes_an_okay, lemma_first_other,
    lemma_progress_tail, length_check, okay_at, progress_before, reply, sent, ExecutionView,
    StepView,
};
use crate::device::NusbFastBoot;
use crate::error::{DownloadError, DownloadErrorView, ErrorView, NusbFastBootError};
use crate::packet::{lemma_rounded_up, round_up, rounded_up, MEBIBYTE};
use crate::protocol::{law_download_names_its_size, ResponseView};
use crate::protocol::{FastBootCommand, FastBootResponse};
use crate::text::{hex_u32, law_eight_digits_read_back};
use nusb::transfer::Buffer;
use vstd::prelude::*;
use vstd::slice::slice_subrange;
use vstd::utf8::{encode_utf8, is_ascii_chars_encode_utf8};

verus! {

/// The device's leave to download so much data
pub struct Grant {
    client: NusbFastBoot,
    size: u32,
}

/// What there is to say of a [`Grant`].
pub struct GrantView {
    /// Who may download.
    pub client: NusbFastBoot,
    /// How many bytes the device takes.
    pub size: u32,
}

impl View for Grant {
    type V = GrantView;

    closed spec fn view(&self) -> GrantView {
        GrantView { client: self.client, size: self.size }
    }
}

/// A download that the device has not granted yet
pub struct DownloadRequest {
    client: NusbFastBoot,
    size: u32,
    in_flight: Option<usize>,
}

/// What there is to say of a [`DownloadRequest`].
pub struct DownloadRequestView {
    /// Who asks.
    pub client: NusbFastBoot,
    /// How many bytes are to be downloaded.
    pub size: u32,
    /// The length of the command, while its transfer is not completed.
    pub in_flight: Option<usize>,
}

impl View for DownloadRequest {
    type V = DownloadRequestView;

    closed spec fn view(&self) -> DownloadRequestView {
        DownloadRequestView { client: self.client, size: self.size, in_flight: self.in_flight }
    }
}

impl DownloadRequestView {
    /// Asks for a reply.
    pub open spec fn listen(client: NusbFastBoot, size: u32) -> StepView<
        DownloadRequestView,
        GrantView,
    > {
        StepView::In(
            client.max_in as nat,
            DownloadRequestView { client, size, in_flight: None },
        )
    }

    /// What follows on a completion.
    pub open spec fn step(self, completion: CompletionView) -> StepView<
        DownloadRequestView,
        GrantView,
    > {
        match self.in_flight {
            Some(expected) => match sent(expected, completion) {
                Err(e) => StepView::Done(Err(e)),
                Ok(()) => Self::listen(self.client, self.size),
            },
            None => match reply(completion) {
                Err(e) => StepView::Done(Err(e)),
                Ok(ResponseView::Info(_)) => Self::listen(self.client, self.size),
                Ok(ResponseView::Text(_)) => Self::listen(self.client, self.size),
                Ok(ResponseView::Data(actual)) => match length_check(
                    self.size as usize,
                    actual as usize,
                ) {
                    Err(e) => StepView::Done(Err(e)),
                    Ok(()) => StepView::Done(
                        Ok(GrantView { client: self.client, size: self.size }),
                    ),
                },
                Ok(ResponseView::Okay(_)) => StepView::Done(
                    Err(ErrorView::FastbootUnexpectedReply),
                ),
                Ok(ResponseView::Fail(reason)) => StepView::Done(
                    Err(ErrorView::FastbootFailed(reason)),
                ),
            },
        }
    }

    /// The outcome once the given transfers have completed, if there is one by then.
    pub open spec fn run(self, completions: Seq<CompletionView>) -> Option<
        Result<GrantView, ErrorView>,
    >
        decreases completions.len(),
    {
        if completions.len() == 0 {
            None
        } else {
            match self.step(completions[0]) {
                StepView::Out(_, next) => next.run(completions.drop_first()),
                StepView::In(_, next) => next.run(completions.drop_first()),
                StepView::Done(outcome) => Some(outcome),
            }
        }
    }
}

impl DownloadRequest {
    fn listen(client: NusbFastBoot, size: u32) -> (next: Step<DownloadRequest, Grant>)
        ensures
            next@ == DownloadRequestView::listen(client, size),
    {
        Step::In(
            buffer_new(client.max_in as usize),
            DownloadRequest { client, size, in_flight: None },
        )
    }

    /// Takes the completion of the transfer that the last step asked for.
    pub fn step(self, completion: Completion) -> (next: Step<DownloadRequest, Grant>)
        ensures
            next@ == self@.step(completion@),
    {
        let client = self.client;
        let size = self.size;
        match self.in_flight {
            Some(expected) => match check_sent(expected, &completion) {
                Err(e) => Step::Done(Err(e)),
                Ok(()) => Self::listen(client, size),
            },
            None => match read_response(&completion) {
                Err(e) => Step::Done(Err(e)),
                Ok(FastBootResponse::Info(_)) => Self::listen(client, size),
                Ok(FastBootResponse::Text(_)) => Self::listen(client, size),
                Ok(FastBootResponse::Data(actual)) => match check_length(
                    size as usize,
                    actual as usize,
                ) {
                    Err(e) => Step::Done(Err(e)),
                    Ok(()) => Step::Done(Ok(Grant { client, size })),
                },
                Ok(FastBootResponse::Okay(_)) => Step::Done(
                    Err(NusbFastBootError::FastbootUnexpectedReply),
                ),
                Ok(FastBootResponse::Fail(fail)) => Step::Done(
                    Err(NusbFastBootError::FastbootFailed(fail)),
                ),
            },
        }
    }
}

impl NusbFastBoot {
    /// Prepare a download of a given size
    ///
    /// When successful the [DataDownload] helper should be used to actually send the data
    pub fn download(&self, size: u32) -> (next: Step<DownloadRequest, Grant>)
        ensures
            next@ == StepView::<_, GrantView>::Out(
                FastBootCommand::Download(size).wire(),
                DownloadRequestView {
                    client: *self,
                    size,
                    in_flight: Some(FastBootCommand::Download(size).wire().len() as usize),
                },
            ),
            next@ matches StepView::Out(bytes, _) && bytes.len() == 17 && bytes.take(9)
                == encode_utf8("download:"@) && hex_u32(bytes.skip(9)) == Some(size),
    {
        let command = FastBootCommand::Download(size).to_bytes();
        proof {
            reveal_strlit("download:");
            is_ascii_chars_encode_utf8("download:"@);
            law_eight_digits_read_back(size);
            law_download_names_its_size(size);
        }
        Step::Out(
            buffer_from_slice(command.as_slice()),
            DownloadRequest { client: *self, size, in_flight: Some(command.len()) },
        )
    }

    /// The size of the blocks that data is sent in: about 1Mb, and always a multiple of the
    /// maximum out packet size.
    pub fn block_size(&self) -> (size: usize)
        requires
            self.max_out > 0,
        ensures
            size == rounded_up(MEBIBYTE as nat, self.max_out as nat),
            size % (self.max_out as usize) == 0,
            MEBIBYTE <= size < MEBIBYTE + self.max_out,
            1024 * 1024 <= size < 1024 * 1024 + self.max_out,
    {
        proof {
            lemma_rounded_up(MEBIBYTE as nat, self.max_out as nat);
        }
        round_up(MEBIBYTE, self.max_out)
    }
}

/// Whether a buffer can be filled as a block: there is nothing in it, and there is room.
pub open spec fn is_block(buffer: Buffer) -> bool {
    buffer_bytes(buffer).len() == 0 && buffer_limit(buffer) > 0
}

/// Whether a buffer can be filled as a block.
pub fn can_be_block(buffer: &Buffer) -> (answer: bool)
    ensures
        answer == is_block(*buffer),
        answer <==> buffer_bytes(*buffer).len() == 0 && buffer_limit(*buffer) > 0,
{
    buffer_len(buffer) == 0 && buffer_capacity(buffer) > 0
}

/// A block of data: what it holds, and what it has room for.
pub struct Block {
    /// The bytes in it.
    pub bytes: Seq<u8>,
    /// The number of bytes it has room for.
    pub limit: nat,
}

impl Block {
    /// Whether nothing more fits in.
    pub open spec fn is_full(self) -> bool {
        self.bytes.len() == self.limit
    }

    /// How much more fits in.
    pub open spec fn room(self) -> int {
        self.limit - self.bytes.len()
    }
}

/// The bytes of a series of blocks, put together.
pub open spec fn joined(blocks: Seq<Block>) -> Seq<u8>
    decreases blocks.len(),
{
    if blocks.len() == 0 {
        Seq::empty()
    } else {
        joined(blocks.drop_last()) + blocks.last().bytes
    }
}

/// What there is to say of a [`DataDownload`].
pub struct DownloadView {
    /// Who downloads.
    pub client: NusbFastBoot,
    /// Total size of the data transfer.
    pub size: u32,
    /// Data left to be queued.
    pub left: u32,
    /// Data of a slice that was begun and waits for the next block.
    pub owed: u32,
    /// The block that is being filled.
    pub current: Block,
    /// The blocks that were handed out to be sent, in order.
    pub sent: Seq<Block>,
}

impl DownloadView {
    /// A download at its start, with the first block to fill.
    pub open spec fn start(grant: GrantView, limit: nat) -> DownloadView {
        DownloadView {
            client: grant.client,
            size: grant.size,
            left: grant.size,
            owed: 0,
            current: Block { bytes: Seq::empty(), limit },
            sent: Seq::empty(),
        }
    }

    /// All data taken so far, in the order in which the device gets it.
    pub open spec fn stream(self) -> Seq<u8> {
        joined(self.sent) + self.current.bytes
    }

    /// What holds of a download at all times: every block has room, the current one holds no more
    /// than it has room for, and what was taken, what is owed and what is left do not exceed the
    /// size.
    pub open spec fn wf(self) -> bool {
        &&& self.current.limit > 0
        &&& self.current.bytes.len() <= self.current.limit
        &&& forall|i: int| 0 <= i < self.sent.len() ==> (#[trigger] self.sent[i]).limit > 0
        &&& self.stream().len() + self.owed + self.left <= self.size
    }

    /// Whether every block was full when it was handed out.
    pub open spec fn in_full_blocks(self) -> bool {
        forall|i: int| 0 <= i < self.sent.len() ==> (#[trigger] self.sent[i]).is_full()
    }

    /// Whether every block, sent or being filled, has room for whole packets of the OUT endpoint.
    pub open spec fn in_packets(self) -> bool {
        &&& self.current.limit % (self.client.max_out as nat) == 0
        &&& forall|i: int|
            0 <= i < self.sent.len() ==> (#[trigger] self.sent[i]).limit % (
            self.client.max_out as nat) == 0
    }

    /// Whether everything announced is taken, owed or left; it stays so unless a slice is
    /// abandoned half way.
    pub open spec fn is_complete(self) -> bool {
        self.stream().len() + self.owed + self.left == self.size
    }

    /// Why so much data cannot be taken, if it cannot.
    pub open spec fn refusal(self, len: nat) -> Option<DownloadErrorView> {
        if len > u32::MAX {
            Some(
                DownloadErrorView::Nusb(
                    ErrorView::IncorrectLength {
                        expected: self.left as usize,
                        actual: len as usize,
                    },
                ),
            )
        } else if len > self.left {
            Some(
                DownloadErrorView::IncorrectDataLength {
                    expected: self.size,
                    actual: (len - self.left + self.size) as u32,
                },
            )
        } else {
            None
        }
    }

    /// With so much data counted as taken.
    pub open spec fn accounted(self, len: nat) -> DownloadView {
        DownloadView { left: (self.left - len) as u32, ..self }
    }

    /// With as much of a slice put into the current block as fits, and the rest owed.
    pub open spec fn filled(self, data: Seq<u8>) -> DownloadView {
        let n = if data.len() <= self.current.room() {
            data.len() as int
        } else {
            self.current.room()
        };
        DownloadView {
            owed: (data.len() - n) as u32,
            current: Block {
                bytes: self.current.bytes + data.take(n),
                limit: self.current.limit,
            },
            ..self
        }
    }

    /// What of a slice does not fit into the current block.
    pub open spec fn overflow(self, data: Seq<u8>) -> Seq<u8> {
        if data.len() <= self.current.room() {
            Seq::empty()
        } else {
            data.skip(self.current.room())
        }
    }

    /// With the current block handed out, and an empty one in its place.
    pub open spec fn swapped(self, limit: nat) -> DownloadView {
        DownloadView {
            current: Block { bytes: Seq::empty(), limit },
            sent: self.sent.push(self.current),
            ..self
        }
    }
}

/// Data download helper
///
/// To successfully stream data over usb it needs to be sent in blocks that are multiples of the max
/// endpoint size, otherwise the receiver may complain. It also should only send as much data as
/// was indicated in the DATA command.
///
/// This helper ensures both invariants are met. To do this data needs to be sent by using
/// [DataDownload::extend_from_slice] or [DataDownload::get_mut_data], after sending the data
/// [DataDownload::finish] should be called to validate and finalize.
///
/// Data is collected in blocks. When a block is full, [DataDownload::next_buffer] exchanges it
/// for an empty one, and the full one is to be submitted to the OUT endpoint.
pub struct DataDownload {
    client: NusbFastBoot,
    size: u32,
    left: u32,
    owed: u32,
    current: Buffer,
    sent: Ghost<Seq<Block>>,
}

impl View for DataDownload {
    type V = DownloadView;

    closed spec fn view(&self) -> DownloadView {
        DownloadView {
            client: self.client,
            size: self.size,
            left: self.left,
            owed: self.owed,
            current: Block {
                bytes: buffer_bytes(self.current),
                limit: buffer_limit(self.current),
            },
            sent: self.sent@,
        }
    }
}

proof fn lemma_filled(download: DownloadView, data: Seq<u8>)
    requires
        download.wf(),
        data.len() <= u32::MAX,
    ensures
        download.filled(data).stream() + download.overflow(data) == download.stream() + data,
        download.filled(data).owed == download.overflow(data).len(),
        download.filled(data).current.bytes.len() <= download.filled(data).current.limit,
{
    let room = download.current.room();
    if data.len() <= room {
        assert(data.take(data.len() as int) =~= data);
    } else {
        assert(data.take(room) + data.skip(room) =~= data);
    }
    assert(download.filled(data).stream() + download.overflow(data) =~= download.stream() + data);
}

proof fn lemma_joined_push(blocks: Seq<Block>, block: Block)
    ensures
        joined(blocks.push(block)) == joined(blocks) + block.bytes,
{
    assert(blocks.push(block).drop_last() =~= blocks);
}

proof fn lemma_swapped(download: DownloadView, limit: nat)
    ensures
        download.swapped(limit).stream() == download.stream(),
        download.in_full_blocks() && download.current.is_full() ==> download.swapped(
            limit,
        ).in_full_blocks(),
        download.in_packets() && limit % (download.client.max_out as nat) == 0 ==> download.swapped(
            limit,
        ).in_packets(),
{
    let after = download.swapped(limit);
    lemma_joined_push(download.sent, download.current);
    assert(after.stream() =~= download.stream());
    if download.in_full_blocks() && download.current.is_full() {
        assert forall|i: int| 0 <= i < after.sent.len() implies (
        #[trigger] after.sent[i]).is_full() by {
            if i < download.sent.len() {
                assert(after.sent[i] == download.sent[i]);
            }
        }
    }
    if download.in_packets() && limit % (download.client.max_out as nat) == 0 {
        assert forall|i: int| 0 <= i < after.sent.len() implies (#[trigger] after.sent[i]).limit % (
        after.client.max_out as nat) == 0 by {
            if i < download.sent.len() {
                assert(after.sent[i] == download.sent[i]);
            }
        }
    }
}

impl DataDownload {
    /// Starts the download that the device granted, with an empty block to fill.
    pub fn new(grant: Grant, block: Buffer) -> (download: DataDownload)
        requires
            is_block(block),
        ensures
            download@ == DownloadView::start(grant@, buffer_limit(block)),
            download@.wf(),
            download@.is_complete(),
            download@.in_full_blocks(),
            buffer_limit(block) % (grant@.client.max_out as nat) == 0 ==> download@.in_packets(),
    {
        let download = DataDownload {
            client: grant.client,
            size: grant.size,
            left: grant.size,
            owed: 0,
            current: block,
            sent: Ghost(Seq::empty()),
        };
        assert(download@.current.bytes =~= Seq::<u8>::empty());
        assert(download@.stream() =~= Seq::<u8>::empty());
        download
    }

    /// Total size of the data transfer
    pub fn size(&self) -> (size: u32)
        ensures
            size == self@.size,
    {
        self.size
    }

    /// Data left to be sent/queued
    pub fn left(&self) -> (left: u32)
        ensures
            left == self@.left,
    {
        self.left
    }

    /// Data of a slice that was begun and waits for the next block
    pub fn owed(&self) -> (owed: u32)
        ensures
            owed == self@.owed,
    {
        self.owed
    }

    /// Whether the current block is full
    pub fn is_full(&self) -> (full: bool)
        ensures
            full == self@.current.is_full(),
            full <==> self@.current.bytes.len() == self@.current.limit,
    {
        buffer_capacity(&self.current) == buffer_len(&self.current)
    }

    /// Extend the streaming from a slice
    ///
    /// This will copy the provided data, and is done with it if nothing is given back. What is
    /// given back goes to [DataDownload::extend_rest] once a next block is there. The total
    /// amount of data being sent should not exceed the download size; data that does is refused,
    /// with the total that it would have come to, which has to be a number of 32 bits
    pub fn extend_from_slice<'d>(&mut self, data: &'d [u8]) -> (rest: Result<
        Option<&'d [u8]>,
        DownloadError,
    >)
        requires
            old(self)@.wf(),
            old(self)@.left < data@.len() <= u32::MAX ==> data@.len() - old(self)@.left + old(
                self,
            )@.size <= u32::MAX,
        ensures
            final(self)@.wf(),
            old(self)@.in_full_blocks() ==> final(self)@.in_full_blocks(),
            old(self)@.in_packets() ==> final(self)@.in_packets(),
            match old(self)@.refusal(data@.len()) {
                Some(expected) => {
                    &&& rest matches Err(e)
                    &&& e@ == expected
                    &&& final(self)@ == old(self)@
                },
                None => {
                    &&& final(self)@ == old(self)@.accounted(data@.len()).filled(data@)
                    &&& data@.len() <= old(self)@.left
                    &&& final(self)@.left == old(self)@.left - data@.len()
                    &&& final(self)@.size == old(self)@.size
                    &&& final(self)@.client == old(self)@.client
                    &&& final(self)@.sent == old(self)@.sent
                    &&& rest matches Ok(r)
                    &&& r is None <==> old(self)@.overflow(data@).len() == 0
                    &&& r matches Some(s) ==> s@ == old(self)@.overflow(data@)
                        && final(self)@.current.is_full()
                    &&& final(self)@.stream() + old(self)@.overflow(data@) == old(self)@.stream()
                        + data@
                    &&& old(self)@.is_complete() && old(self)@.owed == 0
                        ==> final(self)@.is_complete()
                },
            },
    {
        if data.len() > u32::MAX as usize {
            return Err(
                DownloadError::from(
                    NusbFastBootError::IncorrectLength {
                        expected: self.left as usize,
                        actual: data.len(),
                    },
                ),
            );
        }
        match self.update_size(data.len() as u32) {
            Err(e) => {
                return Err(e);
            },
            Ok(()) => {},
        }
        proof {
            lemma_filled(old(self)@, data@);
        }
        Ok(self.fill(data))
    }

    /// Goes on with a slice that did not fit into the block before
    pub fn extend_rest<'d>(&mut self, data: &'d [u8]) -> (rest: Option<&'d [u8]>)
        requires
            old(self)@.wf(),
            data@.len() == old(self)@.owed,
        ensures
            final(self)@.wf(),
            old(self)@.in_full_blocks() ==> final(self)@.in_full_blocks(),
            old(self)@.in_packets() ==> final(self)@.in_packets(),
            final(self)@ == old(self)@.filled(data@),
            rest is None <==> old(self)@.overflow(data@).len() == 0,
            rest matches Some(s) ==> s@ == old(self)@.overflow(data@)
                && final(self)@.current.is_full(),
            final(self)@.stream() + old(self)@.overflow(data@) == old(self)@.stream() + data@,
            old(self)@.is_complete() ==> final(self)@.is_complete(),
    {
        proof {
            lemma_filled(old(self)@, data@);
        }
        self.fill(data)
    }

    fn fill<'d>(&mut self, data: &'d [u8]) -> (rest: Option<&'d [u8]>)
        requires
            old(self)@.current.bytes.len() <= old(self)@.current.limit,
            data@.len() <= u32::MAX,
        ensures
            final(self)@ == old(self)@.filled(data@),
            rest is None <==> old(self)@.overflow(data@).len() == 0,
            rest matches Some(s) ==> s@ == old(self)@.overflow(data@)
                && final(self)@.current.is_full(),
    {
        let left: usize = buffer_capacity(&self.current) - buffer_len(&self.current);
        if left >= data.len() {
            assert(data@.take(data@.len() as int) =~= data@);
            buffer_extend_from_slice(&mut self.current, data);
            self.owed = 0;
            None
        } else {
            let head = slice_subrange(data, 0, left);
            let rest = slice_subrange(data, left, data.len());
            assert(head@ =~= data@.take(left as int));
            assert(rest@ =~= data@.skip(left as int));
            buffer_extend_from_slice(&mut self.current, head);
            self.owed = rest.len() as u32;
            Some(rest)
        }
    }

    /// This will provide a mutable reference to a [u8] of at most `max` size. The returned slice
    /// should be completely filled with data to be downloaded to the device
    ///
    /// There is none while the current block is full: a next one has to take its place first.
    ///
    /// The total amount of data should not exceed the download size
    pub fn get_mut_data(&mut self, max: usize) -> (slice: Option<&mut [u8]>)
        requires
            old(self)@.wf(),
        ensures
            final(self)@.wf(),
            old(self)@.in_full_blocks() ==> final(self)@.in_full_blocks(),
            old(self)@.in_packets() ==> final(self)@.in_packets(),
            slice is None <==> old(self)@.current.is_full(),
            slice is None ==> final(self)@ == old(self)@,
            slice matches Some(s) ==> {
                let n = mut_data_len(old(self)@, max);
                &&& s@.len() <= max
                &&& s@.len() <= old(self)@.current.limit - old(self)@.current.bytes.len()
                &&& s@.len() <= old(self)@.left
                &&& s@.len() == max || s@.len() == old(self)@.current.limit - old(
                    self,
                )@.current.bytes.len() || s@.len() == old(self)@.left
                &&& final(self)@.left == old(self)@.left - s@.len()
                &&& s@ == Seq::new(n, |i: int| 0u8)
                &&& final(s)@.len() == n
                &&& final(self)@ == DownloadView {
                    left: (old(self)@.left - n) as u32,
                    current: Block {
                        bytes: old(self)@.current.bytes + final(s)@,
                        limit: old(self)@.current.limit,
                    },
                    ..old(self)@
                }
                &&& final(self)@.stream() == old(self)@.stream() + final(s)@
            },
            old(self)@.is_complete() ==> final(self)@.is_complete(),
    {
        let left: usize = buffer_capacity(&self.current) - buffer_len(&self.current);
        if left == 0 {
            return None;
        }
        let bounded: usize = if left < max {
            left
        } else {
            max
        };
        let size: usize = if bounded < self.left as usize {
            bounded
        } else {
            self.left as usize
        };
        self.left = self.left - size as u32;
        let added = buffer_extend_fill(&mut self.current, size, 0);
        proof {
            let before = old(self)@;
            assert(joined(before.sent) + (before.current.bytes + final(added)@)
                =~= before.stream() + final(added)@);
        }
        Some(added)
    }

    /// Counts data as taken, or refuses it
    pub(crate) fn update_size(&mut self, size: u32) -> (checked: Result<(), DownloadError>)
        requires
            old(self)@.left < size ==> size - old(self)@.left + old(self)@.size <= u32::MAX,
        ensures
            match old(self)@.refusal(size as nat) {
                Some(expected) => {
                    &&& checked matches Err(e)
                    &&& e@ == expected
                    &&& *final(self) == *old(self)
                },
                None => checked is Ok && final(self)@ == old(self)@.accounted(size as nat),
            },
    {
        if size > self.left {
            return Err(
                DownloadError::IncorrectDataLength {
                    expected: self.size,
                    actual: size - self.left + self.size,
                },
            );
        }
        self.left = self.left - size;
        Ok(())
    }

    /// Puts an empty block in the place of the current one, which is given back to be submitted.
    ///
    /// That is for a full block: what is sent before the last block has to be whole packets.
    pub fn next_buffer(&mut self, next: Buffer) -> (block: Buffer)
        requires
            old(self)@.wf(),
            is_block(next),
        ensures
            final(self)@.wf(),
            old(self)@.in_full_blocks() && old(self)@.current.is_full()
                ==> final(self)@.in_full_blocks(),
            old(self)@.in_packets() && buffer_limit(next) % (old(self)@.client.max_out as nat) == 0
                ==> final(self)@.in_packets(),
            final(self)@ == old(self)@.swapped(buffer_limit(next)),
            buffer_bytes(block) == old(self)@.current.bytes,
            buffer_limit(block) == old(self)@.current.limit,
            final(self)@.stream() == old(self)@.stream(),
            old(self)@.is_complete() ==> final(self)@.is_complete(),
    {
        proof {
            lemma_swapped(self@, buffer_limit(next));
        }
        let ghost sent = self.sent@.push(self@.current);
        let mut block = next;
        std::mem::swap(&mut block, &mut self.current);
        self.sent = Ghost(sent);
        assert(self@.current.bytes =~= Seq::<u8>::empty());
        block
    }

    /// Finish all pending transfer
    ///
    /// This should only be called if all data has been queued up (matching the total size). The
    /// last block is given back to be submitted, if there is anything in it.
    pub fn finish(self) -> (last: Result<(Option<Buffer>, Finish), DownloadError>)
        requires
            self@.wf(),
        ensures
            self@.left != 0 ==> {
                &&& last matches Err(e)
                &&& e@ == DownloadErrorView::IncorrectDataLength {
                    expected: self@.size,
                    actual: (self@.size - self@.left) as u32,
                }
            },
            self@.left == 0 ==> {
                &&& last matches Ok((block, finish))
                &&& finish@ == self@.client.max_in
                &&& block is None <==> self@.current.bytes.len() == 0
                &&& block matches Some(b) ==> buffer_bytes(b) == self@.current.bytes
                &&& self@.is_complete() && self@.owed == 0 ==> self@.stream().len() == self@.size
            },
    {
        if self.left != 0 {
            return Err(
                DownloadError::IncorrectDataLength {
                    expected: self.size,
                    actual: self.size - self.left,
                },
            );
        }
        let finish = Finish { max_in: self.client.max_in };
        if buffer_len(&self.current) != 0 {
            Ok((Some(self.current), finish))
        } else {
            Ok((None, finish))
        }
    }
}

/// How many bytes a caller that asks for at most `max` gets to write: no more than fit into the
/// block, and no more than are left.
pub open spec fn mut_data_len(download: DownloadView, max: usize) -> nat {
    let room = download.current.room();
    let bounded = if room < max {
        room
    } else {
        max as int
    };
    if bounded < download.left {
        bounded as nat
    } else {
        download.left as nat
    }
}

/// How many blocks may be on their way to the device before one has to come back.
pub const MAX_PENDING: usize = 3;

/// Whether, with so many blocks on their way, the next block is one that comes back, rather than
/// a new one.
pub open spec fn reuses(pending: nat) -> bool {
    pending >= MAX_PENDING
}

/// Whether the next block is one that comes back, rather than a new one.
pub fn reuses_block(pending: usize) -> (answer: bool)
    ensures
        answer == reuses(pending as nat),
        answer <==> pending >= 3,
{
    pending >= MAX_PENDING
}

/// What comes of a block that was sent.
pub open spec fn block_sent(completion: CompletionView) -> Result<(), ErrorView> {
    match completion.status {
        Err(e) => Err(ErrorView::Transfer(e)),
        Ok(()) => length_check(completion.bytes.len() as usize, completion.actual_len),
    }
}

fn check_block(completion: &Completion) -> (checked: Result<(), DownloadError>)
    ensures
        match block_sent(completion@) {
            Ok(()) => checked is Ok,
            Err(expected) => checked matches Err(e) && e@ == DownloadErrorView::Nusb(expected),
        },
{
    match &completion.status {
        Err(e) => Err(DownloadError::from(NusbFastBootError::from(*e))),
        Ok(()) => match check_length(buffer_len(&completion.buffer), completion.actual_len) {
            Err(e) => Err(DownloadError::from(e)),
            Ok(()) => Ok(()),
        },
    }
}

/// Gets an empty block out of one that was sent.
pub fn reclaim(completion: Completion) -> (block: Result<Buffer, DownloadError>)
    ensures
        match block_sent(completion@) {
            Ok(()) => {
                &&& block matches Ok(b)
                &&& buffer_bytes(b) == Seq::<u8>::empty()
                &&& buffer_limit(b) == buffer_limit(completion.buffer)
            },
            Err(expected) => block matches Err(e) && e@ == DownloadErrorView::Nusb(expected),
        },
{
    match check_block(&completion) {
        Err(e) => Err(e),
        Ok(()) => {
            let mut block = completion.buffer;
            buffer_clear(&mut block);
            Ok(block)
        },
    }
}

/// A download whose data is all on its way
pub struct Finish {
    max_in: u16,
}

impl View for Finish {
    type V = u16;

    closed spec fn view(&self) -> u16 {
        self.max_in
    }
}

/// What the end of a download needs next
pub enum FinishStep {
    /// Wait for a block to come back, and hand its completion on
    AwaitOut(Finish),
    /// All blocks are back; the device has to conclude the download
    Conclude(Step<Execution, String>),
}

impl Finish {
    /// Takes the number of blocks that are still on their way.
    pub fn next(self, pending: usize) -> (next: FinishStep)
        ensures
            pending > 0 ==> (next matches FinishStep::AwaitOut(finish) && finish@ == self@),
            pending == 0 ==> (next matches FinishStep::Conclude(step) && step@
                == ExecutionView::listen(self@)),
    {
        if pending > 0 {
            FinishStep::AwaitOut(self)
        } else {
            FinishStep::Conclude(Execution::listen(self.max_in))
        }
    }

    /// Takes the completion of a block.
    pub fn completed(self, completion: Completion) -> (checked: Result<Finish, DownloadError>)
        ensures
            match block_sent(completion@) {
                Ok(()) => checked matches Ok(finish) && finish@ == self@,
                Err(expected) => checked matches Err(e) && e@ == DownloadErrorView::Nusb(expected),
            },
    {
        match check_block(&completion) {
            Err(e) => Err(e),
            Ok(()) => Ok(self),
        }
    }
}

/// A request that was not sent whole fails at once; one that was is in the hands of the device.
pub proof fn law_download_is_asked_for_first(
    request: DownloadRequestView,
    expected: usize,
    completions: Seq<CompletionView>,
)
    requires
        request.in_flight == Some(expected),
        completions.len() > 0,
    ensures
        sent(expected, completions[0]) matches Err(e) ==> request.run(completions) == Some(
            Err::<GrantView, _>(e),
        ),
        sent(expected, completions[0]) is Ok ==> request.run(completions) == (DownloadRequestView {
            in_flight: None,
            ..request
        }).run(completions.drop_first()),
{
}

/// Running over INFO and TEXT responses is running what follows them.
proof fn lemma_progress_is_skipped(
    request: DownloadRequestView,
    completions: Seq<CompletionView>,
    n: int,
)
    requires
        request.in_flight is None,
        progress_before(completions, n),
    ensures
        request.run(completions) == request.run(completions.skip(n)),
    decreases n,
{
    if n > 0 {
        lemma_progress_tail(completions, n);
        lemma_progress_is_skipped(request, completions.drop_first(), n - 1);
    } else {
        assert(completions.skip(0) =~= completions);
    }
}

/// A download is granted only by a device that announces exactly the size that was asked for,
/// with nothing but INFO and TEXT before.
pub proof fn law_grant_matches_the_request(
    request: DownloadRequestView,
    completions: Seq<CompletionView>,
    grant: GrantView,
)
    requires
        request.in_flight is None,
        request.run(completions) == Some(Ok::<_, ErrorView>(grant)),
    ensures
        grant == (GrantView { client: request.client, size: request.size }),
        exists|n: int| data_at(completions, n, request.size),
{
    let n = lemma_first_other(completions);
    lemma_progress_is_skipped(request, completions, n);
    assert(n < completions.len());
    assert(completions.skip(n)[0] == completions[n]);
    assert(data_at(completions, n, request.size));
}

/// A device that announces the size that was asked for grants the download.
pub proof fn law_matching_size_is_granted(
    request: DownloadRequestView,
    completions: Seq<CompletionView>,
    n: int,
)
    requires
        request.in_flight is None,
        data_at(completions, n, request.size),
    ensures
        request.run(completions) == Some(
            Ok::<_, ErrorView>(GrantView { client: request.client, size: request.size }),
        ),
{
    lemma_progress_is_skipped(request, completions, n);
    assert(completions.skip(n)[0] == completions[n]);
}

/// A device that announces another size does not get the download going: the request fails with
/// the two sizes.
pub proof fn law_other_size_is_refused(
    request: DownloadRequestView,
    completions: Seq<CompletionView>,
    n: int,
    size: u32,
)
    requires
        request.in_flight is None,
        data_at(completions, n, size),
        size != request.size,
    ensures
        request.run(completions) == Some(
            Err::<GrantView, _>(
                ErrorView::IncorrectLength {
                    expected: request.size as usize,
                    actual: size as usize,
                },
            ),
        ),
{
    lemma_progress_is_skipped(request, completions, n);
    assert(completions.skip(n)[0] == completions[n]);
}

/// No more data is sent than was announced, whatever the caller does.
pub proof fn law_never_more_than_announced(download: DownloadView)
    requires
        download.wf(),
    ensures
        joined(download.sent).len() <= download.stream().len() <= download.size - download.left,
{
}

/// Every block that is handed out before the last is made of whole packets, for as long as the
/// blocks were full and have room for whole packets. Every call keeps both;
/// [DataDownload::next_buffer] does where it hands out a full block and takes one with room for
/// whole packets.
pub proof fn law_blocks_are_whole_packets(download: DownloadView)
    requires
        download.wf(),
        download.in_full_blocks(),
        download.in_packets(),
        download.client.max_out > 0,
    ensures
        forall|i: int|
            0 <= i < download.sent.len() ==> (#[trigger] download.sent[i]).bytes.len() > 0
                && download.sent[i].bytes.len() % (download.client.max_out as nat) == 0,
        joined(download.sent).len() % (download.client.max_out as nat) == 0,
    decreases download.sent.len(),
{
    let unit = download.client.max_out as nat;
    if download.sent.len() > 0 {
        let n = download.sent.len() - 1;
        let fewer = DownloadView { sent: download.sent.drop_last(), ..download };
        assert forall|i: int| 0 <= i < n implies (#[trigger] fewer.sent[i]).is_full()
            && fewer.sent[i].limit > 0 && fewer.sent[i].limit % unit == 0 by {
            assert(fewer.sent[i] == download.sent[i]);
        }
        law_blocks_are_whole_packets(fewer);
        let a = joined(fewer.sent).len() as int;
        let b = download.sent[n].bytes.len() as int;
        vstd::arithmetic::div_mod::lemma_mod_adds(a, b, unit as int);
        vstd::arithmetic::div_mod::lemma_small_mod(0, unit);
        assert(joined(download.sent).len() == a + b);
        assert((a + b) % (unit as int) == 0);
    } else {
        vstd::arithmetic::div_mod::lemma_small_mod(0, unit);
    }
}

/// Counting one amount and then another comes to the same as counting their sum: the second is
/// refused where the sum is, with the same numbers, and as much is left where it is not.
pub proof fn law_counting_adds_up(download: DownloadView, first: nat, second: nat)
    requires
        first + second <= u32::MAX,
        download.refusal(first) is None,
    ensures
        download.accounted(first).refusal(second) == download.refusal(first + second),
        download.refusal(first + second) is None ==> download.accounted(first).accounted(second)
            == download.accounted(first + second),
{
}

/// A download after a slice has been put into blocks, with a next block for each one that gets
/// full. The limit of a next block may depend on how many were sent before.
pub open spec fn fed(
    download: DownloadView,
    data: Seq<u8>,
    limits: spec_fn(nat) -> nat,
) -> DownloadView
    decreases
            data.len(),
            (if download.current.room() > 0 {
                0int
            } else {
                1int
            }),
{
    let filled = download.filled(data);
    let rest = download.overflow(data);
    let limit = limits(filled.sent.len());
    if rest.len() == 0 || limit == 0 || download.current.room() < 0 {
        filled
    } else {
        fed(filled.swapped(limit), rest, limits)
    }
}

/// A download after a slice that it takes.
pub open spec fn extended(
    download: DownloadView,
    data: Seq<u8>,
    limits: spec_fn(nat) -> nat,
) -> DownloadView {
    fed(download.accounted(data.len()), data, limits)
}

proof fn lemma_fed(download: DownloadView, data: Seq<u8>, limits: spec_fn(nat) -> nat)
    requires
        download.current.limit > 0,
        download.current.bytes.len() <= download.current.limit,
        forall|i: int| 0 <= i < download.sent.len() ==> (#[trigger] download.sent[i]).limit > 0,
        download.stream().len() + data.len() + download.left <= download.size,
        forall|n: nat| #[trigger] limits(n) > 0,
    ensures
        ({
            let after = fed(download, data, limits);
            &&& after.wf()
            &&& after.owed == 0
            &&& after.left == download.left
            &&& after.size == download.size
            &&& after.client == download.client
            &&& after.stream() == download.stream() + data
            &&& download.in_full_blocks() ==> after.in_full_blocks()
            &&& download.in_packets() && (forall|n: nat| #[trigger]
                limits(n) % (download.client.max_out as nat) == 0) ==> after.in_packets()
        }),
    decreases
            data.len(),
            (if download.current.room() > 0 {
                0int
            } else {
                1int
            }),
{
    let owing = DownloadView { owed: data.len() as u32, ..download };
    assert(owing.stream() == download.stream());
    lemma_filled(owing, data);
    let filled = download.filled(data);
    let rest = download.overflow(data);
    assert(filled == owing.filled(data));
    assert(rest == owing.overflow(data));
    let limit = limits(filled.sent.len());
    if rest.len() == 0 {
        assert(filled.stream() + rest =~= filled.stream());
    } else {
        let next = filled.swapped(limit);
        lemma_swapped(filled, limit);
        assert(filled.current.is_full());
        assert forall|i: int| 0 <= i < next.sent.len() implies (#[trigger] next.sent[i]).limit
            > 0 by {
            if i < filled.sent.len() {
                assert(next.sent[i] == download.sent[i]);
            }
        }
        lemma_fed(next, rest, limits);
    }
}

/// The device gets the data as it was given: a slice that is taken goes behind what was taken
/// before, whatever the blocks are, and is counted once.
pub proof fn law_data_is_sent_as_given(
    download: DownloadView,
    data: Seq<u8>,
    limits: spec_fn(nat) -> nat,
)
    requires
        download.wf(),
        download.refusal(data.len()) is None,
        forall|n: nat| #[trigger] limits(n) > 0,
    ensures
        ({
            let after = extended(download, data, limits);
            &&& after.wf()
            &&& after.stream() == download.stream() + data
            &&& after.left == download.left - data.len()
            &&& after.owed == 0
            &&& after.size == download.size
            &&& after.client == download.client
            &&& download.is_complete() && download.owed == 0 ==> after.is_complete()
            &&& download.in_full_blocks() ==> after.in_full_blocks()
            &&& download.in_packets() && (forall|n: nat| #[trigger]
                limits(n) % (download.client.max_out as nat) == 0) ==> after.in_packets()
        }),
{
    assert(download.accounted(data.len()).stream() == download.stream());
    lemma_fed(download.accounted(data.len()), data, limits);
}

/// It makes no difference to the device into which slices the data was cut.
pub proof fn law_cuts_make_no_difference(
    download: DownloadView,
    first: Seq<u8>,
    second: Seq<u8>,
    limits: spec_fn(nat) -> nat,
)
    requires
        download.wf(),
        download.refusal((first + second).len()) is None,
        forall|n: nat| #[trigger] limits(n) > 0,
    ensures
        ({
            let apart = extended(extended(download, first, limits), second, limits);
            let together = extended(download, first + second, limits);
            &&& apart.stream() == together.stream()
            &&& apart.left == together.left
            &&& apart.size == together.size
            &&& apart.client == together.client
        }),
{
    law_data_is_sent_as_given(download, first, limits);
    law_data_is_sent_as_given(extended(download, first, limits), second, limits);
    law_data_is_sent_as_given(download, first + second, limits);
    assert(download.stream() + first + second =~= download.stream() + (first + second));
}

/// A download that was given as much as was announced has nothing left, and sends exactly that, in
/// whole packets where the blocks have room for whole packets.
pub proof fn law_whole_download(
    grant: GrantView,
    limit: nat,
    data: Seq<u8>,
    limits: spec_fn(nat) -> nat,
)
    requires
        limit > 0,
        data.len() == grant.size,
        forall|n: nat| #[trigger] limits(n) > 0,
    ensures
        ({
            let after = extended(DownloadView::start(grant, limit), data, limits);
            &&& after.wf()
            &&& after.left == 0
            &&& after.owed == 0
            &&& after.stream() == data
            &&& joined(after.sent.push(after.current)) == data
            &&& after.client == grant.client
            &&& after.in_full_blocks()
            &&& limit % (grant.client.max_out as nat) == 0 && (forall|n: nat| #[trigger]
                limits(n) % (grant.client.max_out as nat) == 0) ==> after.in_packets()
        }),
{
    let start = DownloadView::start(grant, limit);
    assert(start.stream() =~= Seq::<u8>::empty());
    law_data_is_sent_as_given(start, data, limits);
    let after = extended(start, data, limits);
    assert(start.stream() + data =~= data);
    lemma_joined_push(after.sent, after.current);
}

/// How many blocks are on their way after one more was handed out.
pub open spec fn pending_after(pending: nat) -> nat {
    let without = if reuses(pending) {
        (pending - 1) as nat
    } else {
        pending
    };
    without + 1
}

/// A block counts as sent only if all of it, and no more, crossed the bus.
pub proof fn law_short_or_excess_blocks_are_rejected(completion: CompletionView)
    requires
        completion.bytes.len() <= usize::MAX,
    ensures
        block_sent(completion) is Ok <==> completion.status is Ok && completion.actual_len
            == completion.bytes.len(),
{
}

/// There are never more blocks on their way than may be, however much data there is.
pub proof fn law_queue_is_bounded(pending: nat)
    requires
        pending <= MAX_PENDING,
    ensures
        pending_after(pending) <= MAX_PENDING,
{
}

/// Handing out a block, whatever it holds, puts that block and no other behind those that were
/// sent before, with its bytes as they are. It leaves an empty block to fill, does not touch the
/// counts nor the data taken so far, and has no more blocks on their way than may be.
pub proof fn law_next_block(download: DownloadView, limit: nat, pending: nat)
    requires
        pending <= MAX_PENDING,
    ensures
        ({
            let after = download.swapped(limit);
            &&& after.sent == download.sent.push(download.current)
            &&& after.current == Block { bytes: Seq::empty(), limit }
            &&& after.size == download.size
            &&& after.left == download.left
            &&& after.owed == download.owed
            &&& after.client == download.client
            &&& after.stream() == download.stream()
            &&& download.is_complete() ==> after.is_complete()
            &&& download.wf() && limit > 0 ==> after.wf()
            &&& pending_after(pending) <= MAX_PENDING
        }),
{
    lemma_swapped(download, limit);
}

/// What comes of the end of a download, once the blocks on their way and then some replies have
/// completed, if anything has by then: the first block that was not sent whole decides, and where
/// all were, the device does.
pub open spec fn finished(
    max_in: u16,
    blocks: Seq<CompletionView>,
    replies: Seq<CompletionView>,
) -> Option<Result<Seq<char>, DownloadErrorView>>
    decreases blocks.len(),
{
    if blocks.len() == 0 {
        match ExecutionView::waiting(max_in).run(replies) {
            None => None,
            Some(Ok(value)) => Some(Ok(value)),
            Some(Err(e)) => Some(Err(DownloadErrorView::Nusb(e))),
        }
    } else {
        match block_sent(blocks[0]) {
            Ok(()) => finished(max_in, blocks.drop_first(), replies),
            Err(e) => Some(Err(DownloadErrorView::Nusb(e))),
        }
    }
}

/// Whether the first `n` blocks were sent whole.
pub open spec fn sent_before(blocks: Seq<CompletionView>, n: int) -> bool {
    &&& 0 <= n <= blocks.len()
    &&& forall|i: int| 0 <= i < n ==> block_sent(#[trigger] blocks[i]) is Ok
}

/// Taking back blocks that were sent whole leaves it to what comes after them.
proof fn lemma_sent_blocks_are_passed(
    max_in: u16,
    blocks: Seq<CompletionView>,
    replies: Seq<CompletionView>,
    n: int,
)
    requires
        sent_before(blocks, n),
    ensures
        finished(max_in, blocks, replies) == finished(max_in, blocks.skip(n), replies),
    decreases n,
{
    if n > 0 {
        let rest = blocks.drop_first();
        assert(block_sent(blocks[0]) is Ok);
        assert forall|i: int| 0 <= i < n - 1 implies block_sent(#[trigger] rest[i]) is Ok by {
            assert(rest[i] == blocks[i + 1]);
        }
        assert(rest.skip(n - 1) =~= blocks.skip(n));
        lemma_sent_blocks_are_passed(max_in, rest, replies, n - 1);
    } else {
        assert(blocks.skip(0) =~= blocks);
    }
}

/// A block that was not sent whole ends the download with its error, whatever comes after it.
pub proof fn law_first_bad_block_decides(
    max_in: u16,
    blocks: Seq<CompletionView>,
    replies: Seq<CompletionView>,
    n: int,
)
    requires
        n < blocks.len(),
        sent_before(blocks, n),
        block_sent(blocks[n]) is Err,
    ensures
        block_sent(blocks[n]) matches Err(e) && finished(max_in, blocks, replies) == Some(
            Err::<Seq<char>, _>(DownloadErrorView::Nusb(e)),
        ),
{
    lemma_sent_blocks_are_passed(max_in, blocks, replies, n);
    assert(blocks.skip(n)[0] == blocks[n]);
}

/// A download ends well only when every block was sent whole and the device then said OKAY.
pub proof fn law_finish_takes_all_blocks_and_an_okay(
    max_in: u16,
    blocks: Seq<CompletionView>,
    replies: Seq<CompletionView>,
    value: Seq<char>,
)
    requires
        finished(max_in, blocks, replies) == Some(Ok::<_, DownloadErrorView>(value)),
    ensures
        sent_before(blocks, blocks.len() as int),
        exists|n: int|
            #[trigger] okay_at(replies, n) && reply(replies[n]) == Ok::<_, ErrorView>(
                ResponseView::Okay(value),
            ),
    decreases blocks.len(),
{
    if blocks.len() > 0 {
        let rest = blocks.drop_first();
        law_finish_takes_all_blocks_and_an_okay(max_in, rest, replies, value);
        assert forall|i: int| 0 <= i < blocks.len() implies block_sent(
            #[trigger] blocks[i],
        ) is Ok by {
            if i > 0 {
                assert(rest[i - 1] == blocks[i]);
            }
        }
    } else {
        law_success_takes_an_okay(max_in, replies, value);
    }
}

/// A download whose blocks were all sent whole, and to which the device then says OKAY, ends
/// well.
pub proof fn law_finish_succeeds(
    max_in: u16,
    blocks: Seq<CompletionView>,
    replies: Seq<CompletionView>,
    n: int,
)
    requires
        sent_before(blocks, blocks.len() as int),
        okay_at(replies, n),
    ensures
        reply(replies[n]) matches Ok(ResponseView::Okay(value)) && finished(
            max_in,
            blocks,
            replies,
        ) == Some(Ok::<_, DownloadErrorView>(value)),
{
    lemma_sent_blocks_are_passed(max_in, blocks, replies, blocks.len() as int);
    law_first_conclusion_decides(max_in, replies, n);
}

/// What a caller gets to write is never more than it asked for, than fits into the block, or than
/// is left, and it is as much as one of the three.
pub proof fn law_slice_to_write_is_bounded(download: DownloadView, max: usize)
    requires
        download.current.bytes.len() <= download.current.limit,
    ensures
        ({
            let n = mut_data_len(download, max);
            let room = download.current.limit - download.current.bytes.len();
            &&& n <= max
            &&& n <= room
            &&& n <= download.left
            &&& n == max || n == room || n == download.left
        }),
{
}

/// Who asks for more gets no less. Who got less than they asked for gets no more by asking for
/// more, and who asks for nothing gets nothing.
pub proof fn law_asking_for_more_gives_no_less(download: DownloadView, less: usize, more: usize)
    requires
        download.current.bytes.len() <= download.current.limit,
        less <= more,
    ensures
        mut_data_len(download, less) <= mut_data_len(download, more),
        mut_data_len(download, less) < less ==> mut_data_len(download, more) == mut_data_len(
            download,
            less,
        ),
        mut_data_len(download, 0) == 0,
{
}

/// A block is full when it holds as much as it has room for, and has room for what it does not
/// hold yet.
pub proof fn law_room_is_what_is_not_held(block: Block)
    ensures
        block.room() + block.bytes.len() == block.limit,
        block.is_full() <==> block.room() == 0,
{
}

/// Data is taken where there is as much left, and refused otherwise, with the size and the total
/// that it would have come to. Data of more than 32 bits of length is refused with what is left
/// and that length.
pub proof fn law_more_than_is_left_is_refused(download: DownloadView, len: nat)
    requires
        download.left <= download.size,
        len <= usize::MAX,
        download.left < len <= u32::MAX ==> download.size - download.left + len <= u32::MAX,
    ensures
        download.refusal(len) is None <==> len <= download.left,
        download.left < len <= u32::MAX ==> (download.refusal(len) matches Some(e) && e
            is IncorrectDataLength && e->expected == download.size && e->actual == (download.size
            - download.left) + len),
        len > u32::MAX ==> (download.refusal(len) matches Some(DownloadErrorView::Nusb(e)) && e
            is IncorrectLength && e->expected == download.left && e->actual == len),
{
}

/// Counting data as taken leaves as much less, and touches nothing else.
pub proof fn law_counting_takes_from_what_is_left(download: DownloadView, len: nat)
    requires
        len <= download.left,
    ensures
        ({
            let after = download.accounted(len);
            &&& after.left + len == download.left
            &&& after.size == download.size
            &&& after.owed == download.owed
            &&& after.client == download.client
            &&& after.current == download.current
            &&& after.sent == download.sent
        }),
{
}

/// A slice goes into the block behind what is there, and what does not fit stays owed: nothing of
/// it is lost, changed or sent twice, and none of it waits while there is room.
pub proof fn law_slice_fills_the_block(download: DownloadView, data: Seq<u8>)
    requires
        download.current.bytes.len() <= download.current.limit,
        data.len() <= u32::MAX,
    ensures
        ({
            let after = download.filled(data);
            let rest = download.overflow(data);
            &&& after.current.bytes + rest == download.current.bytes + data
            &&& after.current.limit == download.current.limit
            &&& after.current.bytes.len() <= after.current.limit
            &&& rest.len() > 0 ==> after.current.bytes.len() == after.current.limit
            &&& after.owed == rest.len()
            &&& after.left == download.left
            &&& after.size == download.size
            &&& after.client == download.client
            &&& after.sent == download.sent
        }),
{
    let room = download.current.room();
    if data.len() <= room {
        assert(data.take(data.len() as int) =~= data);
    } else {
        assert(data.take(room) + data.skip(room) =~= data);
    }
    assert(download.filled(data).current.bytes + download.overflow(data)
        =~= download.current.bytes + data);
}

/// The device gets the blocks in the order in which they were handed out, and after them the one
/// that is being filled.
pub proof fn law_blocks_are_sent_in_order(download: DownloadView, blocks: Seq<Block>, last: Block)
    ensures
        joined(Seq::empty()) == Seq::<u8>::empty(),
        joined(blocks.push(last)) == joined(blocks) + last.bytes,
        download.stream() == joined(download.sent.push(download.current)),
{
    lemma_joined_push(blocks, last);
    lemma_joined_push(download.sent, download.current);
}

/// A download starts with all of its size left, and with nothing taken.
pub proof fn law_download_starts_with_everything_left(grant: GrantView, limit: nat)
    requires
        limit > 0,
    ensures
        ({
            let start = DownloadView::start(grant, limit);
            &&& start.left == grant.size
            &&& start.size == grant.size
            &&& start.client == grant.client
            &&& start.owed == 0
            &&& start.current.bytes.len() == 0
            &&& start.current.limit == limit
            &&& start.sent.len() == 0
            &&& start.stream() == Seq::<u8>::empty()
            &&& start.wf()
        }),
{
    assert(DownloadView::start(grant, limit).stream() =~= Seq::<u8>::empty());
}

/// A new block is taken while fewer than three are on their way. From then on one that comes back
/// is taken, so that there are never more than three.
pub proof fn law_three_blocks_may_be_on_their_way(pending: nat)
    ensures
        reuses(pending) <==> pending >= 3,
        pending < 3 ==> pending_after(pending) == pending + 1,
        pending >= 3 ==> pending_after(pending) == pending,
{
}

/// The blocks hold about 1024 times 1024 bytes: whole packets, and no packet more than it takes.
pub proof fn law_blocks_have_their_size(max_out: u16)
    requires
        max_out > 0,
    ensures
        rounded_up(MEBIBYTE as nat, max_out as nat) % (max_out as nat) == 0,
        1024 * 1024 <= rounded_up(MEBIBYTE as nat, max_out as nat) < 1024 * 1024 + max_out,
{
    lemma_rounded_up(MEBIBYTE as nat, max_out as nat);
}

/// A block that failed ends the download with the reason, and one that went out in part, or for
/// more than it held, with the two lengths.
pub proof fn law_blocks_fail_with_what_went_wrong(completion: CompletionView)
    requires
        completion.bytes.len() <= usize::MAX,
    ensures
        completion.status matches Err(e) ==> block_sent(completion) == Err::<(), _>(
            ErrorView::Transfer(e),
        ),
        completion.status is Ok && completion.actual_len != completion.bytes.len() ==> block_sent(
            completion,
        ) == Err::<(), _>(
            ErrorView::IncorrectLength {
                expected: completion.bytes.len() as usize,
                actual: completion.actual_len,
            },
        ),
{
}

/// Until the download is granted: INFO and TEXT leave the request open, and the client goes on
/// listening, for a packet at a time. Exactly the size that was asked for grants it; another size
/// ends the request with the two sizes, FAIL with its reason, and OKAY as unexpected.
pub proof fn law_request_understands_answers(
    request: DownloadRequestView,
    completion: CompletionView,
)
    requires
        request.in_flight is None,
    ensures
        ({
            let next = request.step(completion);
            match reply(completion) {
                Ok(ResponseView::Info(_)) => next matches StepView::In(asked, r) && asked
                    == request.client.max_in && r == request,
                Ok(ResponseView::Text(_)) => next matches StepView::In(asked, r) && asked
                    == request.client.max_in && r == request,
                Ok(ResponseView::Data(actual)) => if actual == request.size {
                    next matches StepView::Done(Ok(grant)) && grant.size == actual && grant.client
                        == request.client
                } else {
                    next matches StepView::Done(Err(e)) && e == (ErrorView::IncorrectLength {
                        expected: request.size as usize,
                        actual: actual as usize,
                    })
                },
                Ok(ResponseView::Fail(reason)) => next matches StepView::Done(Err(e)) && e
                    == ErrorView::FastbootFailed(reason),
                Ok(ResponseView::Okay(_)) => next matches StepView::Done(Err(e)) && e
                    == ErrorView::FastbootUnexpectedReply,
                Err(reason) => next matches StepView::Done(Err(e)) && e == reason,
            }
        }),
{
}

} // verus!
