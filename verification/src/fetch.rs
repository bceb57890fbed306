//! Fetching a range of a partition.
use crate::buffer::{buffer_as_slice, buffer_from_slice, buffer_new, Completion, CompletionView};
use crate::client::{check_length, check_sent, is_valid_command, read_response, Step};
use crate::client::{
    conclusion, data_at, is_progress, length_check, lemma_first_other, lemma_printable_text,
    lemma_progress_tail, okay_at, progress_before, reply, sent, valid_command, StepView,
};
use crate::device::NusbFastBoot;
use crate::error::{ErrorView, NusbFastBootError};
use crate::packet::{lemma_rounded_up, round_up, rounded_up, MEBIBYTE};
use crate::protocol::{FastBootResponse, ResponseView};
use crate::text::{contains_char, push_hex, push_text};
use crate::text::{
    hex, hex_value, law_hex_is_short_and_in_lower_case, law_hex_reads_back, lemma_encoded_behind,
    lemma_hex_len,
};
use vstd::prelude::*;
use vstd::utf8::{encode_utf8, is_ascii_chars_encode_utf8};

verus! {

/// How many bytes to ask for while so many are missing.
pub open spec fn fetch_request(missing: nat, max_in: u16) -> nat {
    rounded_up(
        if missing < MEBIBYTE {
            missing
        } else {
            MEBIBYTE as nat
        },
        max_in as nat,
    )
}

/// The bytes that a request for a range is sent as.
pub open spec fn fetch_wire(partition: Seq<char>, offset: u64, length: u32) -> Seq<u8> {
    encode_utf8("fetch:"@) + encode_utf8(partition) + encode_utf8(":"@) + hex(offset as nat)
        + encode_utf8(":"@) + hex(length as nat)
}

/// Whether a range can be asked for.
pub open spec fn can_fetch(partition: Seq<char>, offset: u64, length: u32) -> bool {
    &&& !partition.contains(':')
    &&& length > 0
    &&& offset + length <= u64::MAX
    &&& valid_command(fetch_wire(partition, offset, length))
}

/// How far fetching a range has come.
pub enum FetchPhase {
    /// The request of so many bytes is on its way.
    Sending(usize),
    /// The device has to announce the data.
    AwaitingData,
    /// The device sends the data, of which so much has come.
    Receiving(Seq<u8>),
    /// All data has come, and the device has to conclude.
    AwaitingOkay(Seq<u8>),
}

/// What there is to say of a [`Fetch`].
pub struct FetchView {
    /// How many bytes the range has.
    pub length: u32,
    /// How much a packet from the device takes.
    pub max_in: u16,
    /// How far it has come.
    pub phase: FetchPhase,
}

impl FetchView {
    /// The same fetch in another phase.
    pub open spec fn at(self, phase: FetchPhase) -> FetchView {
        FetchView { length: self.length, max_in: self.max_in, phase }
    }

    /// Asks for a response.
    pub open spec fn listen(self, phase: FetchPhase) -> StepView<FetchView, Seq<u8>> {
        StepView::In(self.max_in as nat, self.at(phase))
    }

    /// Whether a completion announces the data, so that the data phase begins.
    pub open spec fn opens_payload(self, completion: CompletionView) -> bool {
        self.phase is AwaitingData && reply(completion) == Ok::<_, ErrorView>(
            ResponseView::Data(self.length),
        )
    }

    /// What follows on a completion.
    pub open spec fn step(self, completion: CompletionView) -> StepView<FetchView, Seq<u8>> {
        match self.phase {
            FetchPhase::Sending(expected) => match sent(expected, completion) {
                Err(e) => StepView::Done(Err(e)),
                Ok(()) => self.listen(FetchPhase::AwaitingData),
            },
            FetchPhase::AwaitingData => match reply(completion) {
                Err(e) => StepView::Done(Err(e)),
                Ok(ResponseView::Info(_)) => self.listen(self.phase),
                Ok(ResponseView::Text(_)) => self.listen(self.phase),
                Ok(ResponseView::Data(actual)) => match length_check(
                    self.length as usize,
                    actual as usize,
                ) {
                    Err(e) => StepView::Done(Err(e)),
                    Ok(()) => self.receive(Seq::empty()),
                },
                Ok(ResponseView::Fail(reason)) => StepView::Done(
                    Err(ErrorView::FastbootFailed(reason)),
                ),
                Ok(ResponseView::Okay(_)) => StepView::Done(
                    Err(ErrorView::FastbootUnexpectedReply),
                ),
            },
            FetchPhase::Receiving(data) => match completion.status {
                Err(e) => StepView::Done(Err(ErrorView::Transfer(e))),
                Ok(()) => if completion.actual_len == 0 || completion.actual_len > self.length
                    - data.len() {
                    StepView::Done(
                        Err(
                            ErrorView::IncorrectLength {
                                expected: (self.length - data.len()) as usize,
                                actual: completion.actual_len,
                            },
                        ),
                    )
                } else {
                    self.receive(data + completion.bytes)
                },
            },
            FetchPhase::AwaitingOkay(data) => match reply(completion) {
                Err(e) => StepView::Done(Err(e)),
                Ok(response) => match conclusion(response) {
                    None => self.listen(self.phase),
                    Some(Ok(_)) => StepView::Done(Ok(data)),
                    Some(Err(e)) => StepView::Done(Err(e)),
                },
            },
        }
    }

    /// Asks for more data while some is missing, and for the conclusion when none is.
    pub open spec fn receive(self, data: Seq<u8>) -> StepView<FetchView, Seq<u8>> {
        if data.len() < self.length {
            StepView::In(
                fetch_request((self.length - data.len()) as nat, self.max_in),
                self.at(FetchPhase::Receiving(data)),
            )
        } else {
            self.listen(FetchPhase::AwaitingOkay(data))
        }
    }

    /// The outcome once the given transfers have completed, if there is one by then.
    pub open spec fn run(self, completions: Seq<CompletionView>) -> Option<
        Result<Seq<u8>, ErrorView>,
    >
        decreases completions.len(),
    {
        if completions.len() == 0 {
            None
        } else {
            match self.step(completions[0]) {
                StepView::Out(_, next) => next.run(completions.drop_first()),
                StepView::In(_, next) => next.run(completions.drop_first()),
                StepView::Done(outcome) => Some(outcome),
            }
        }
    }
}

enum FetchState {
    Sending(usize),
    AwaitingData,
    Receiving(Vec<u8>),
    AwaitingOkay(Vec<u8>),
}

/// The fetching of a range, under way
pub struct Fetch {
    length: u32,
    max_in: u16,
    state: FetchState,
}

impl View for Fetch {
    type V = FetchView;

    closed spec fn view(&self) -> FetchView {
        FetchView {
            length: self.length,
            max_in: self.max_in,
            phase: match self.state {
                FetchState::Sending(expected) => FetchPhase::Sending(expected),
                FetchState::AwaitingData => FetchPhase::AwaitingData,
                FetchState::Receiving(data) => FetchPhase::Receiving(data@),
                FetchState::AwaitingOkay(data) => FetchPhase::AwaitingOkay(data@),
            },
        }
    }
}

impl Fetch {
    #[verifier::type_invariant]
    spec fn well_formed(self) -> bool {
        &&& self.length > 0
        &&& self.state matches FetchState::Receiving(data) ==> self.max_in > 0 && data@.len()
            < self.length
    }

    fn listen(length: u32, max_in: u16, state: FetchState) -> (next: Step<Fetch, Vec<u8>>)
        requires
            length > 0,
            !(state is Receiving),
        ensures
            next@ == StepView::<_, Seq<u8>>::In(max_in as nat, Fetch { length, max_in, state }@),
    {
        Step::In(buffer_new(max_in as usize), Fetch { length, max_in, state })
    }

    fn receive(length: u32, max_in: u16, data: Vec<u8>) -> (next: Step<Fetch, Vec<u8>>)
        requires
            length > 0,
            max_in > 0,
        ensures
            next@ == (FetchView { length, max_in, phase: FetchPhase::AwaitingData }).receive(data@),
    {
        if data.len() < length as usize {
            let remaining: usize = length as usize - data.len();
            let chunk: usize = if remaining < MEBIBYTE {
                remaining
            } else {
                MEBIBYTE
            };
            let requested: usize = round_up(chunk, max_in);
            proof {
                lemma_rounded_up(chunk as nat, max_in as nat);
            }
            Step::In(
                buffer_new(requested),
                Fetch { length, max_in, state: FetchState::Receiving(data) },
            )
        } else {
            Self::listen(length, max_in, FetchState::AwaitingOkay(data))
        }
    }

    /// Whether a completion announces the data, so that the data phase begins.
    pub fn opens_payload(&self, completion: &Completion) -> (opens: bool)
        ensures
            opens == self@.opens_payload(completion@),
    {
        match (&self.state, read_response(completion)) {
            (FetchState::AwaitingData, Ok(FastBootResponse::Data(actual))) => actual == self.length,
            _ => false,
        }
    }

    /// Takes the completion of the transfer that the last step asked for. The data phase asks
    /// for whole packets, so it needs to know how large one is.
    pub fn step(self, completion: Completion) -> (next: Step<Fetch, Vec<u8>>)
        requires
            self@.opens_payload(completion@) ==> self@.max_in > 0,
        ensures
            next@ == self@.step(completion@),
    {
        proof {
            use_type_invariant(&self);
        }
        let length = self.length;
        let max_in = self.max_in;
        match self.state {
            FetchState::Sending(expected) => match check_sent(expected, &completion) {
                Err(e) => Step::Done(Err(e)),
                Ok(()) => Self::listen(length, max_in, FetchState::AwaitingData),
            },
            FetchState::AwaitingData => match read_response(&completion) {
                Err(e) => Step::Done(Err(e)),
                Ok(FastBootResponse::Info(_)) => Self::listen(
                    length,
                    max_in,
                    FetchState::AwaitingData,
                ),
                Ok(FastBootResponse::Text(_)) => Self::listen(
                    length,
                    max_in,
                    FetchState::AwaitingData,
                ),
                Ok(FastBootResponse::Data(actual)) => match check_length(
                    length as usize,
                    actual as usize,
                ) {
                    Err(e) => Step::Done(Err(e)),
                    Ok(()) => Self::receive(length, max_in, Vec::with_capacity(length as usize)),
                },
                Ok(FastBootResponse::Fail(reason)) => Step::Done(
                    Err(NusbFastBootError::FastbootFailed(reason)),
                ),
                Ok(FastBootResponse::Okay(_)) => Step::Done(
                    Err(NusbFastBootError::FastbootUnexpectedReply),
                ),
            },
            FetchState::Receiving(data) => match &completion.status {
                Err(e) => Step::Done(Err(NusbFastBootError::from(*e))),
                Ok(()) => {
                    let mut data = data;
                    let remaining: usize = length as usize - data.len();
                    if completion.actual_len == 0 || completion.actual_len > remaining {
                        return Step::Done(
                            Err(
                                NusbFastBootError::IncorrectLength {
                                    expected: remaining,
                                    actual: completion.actual_len,
                                },
                            ),
                        );
                    }
                    let ghost before = data@;
                    data.extend_from_slice(buffer_as_slice(&completion.buffer));
                    assert(data@ =~= before + completion@.bytes);
                    Self::receive(length, max_in, data)
                },
            },
            FetchState::AwaitingOkay(data) => match read_response(&completion) {
                Err(e) => Step::Done(Err(e)),
                Ok(FastBootResponse::Info(_)) => Self::listen(
                    length,
                    max_in,
                    FetchState::AwaitingOkay(data),
                ),
                Ok(FastBootResponse::Text(_)) => Self::listen(
                    length,
                    max_in,
                    FetchState::AwaitingOkay(data),
                ),
                Ok(FastBootResponse::Okay(_)) => Step::Done(Ok(data)),
                Ok(FastBootResponse::Fail(reason)) => Step::Done(
                    Err(NusbFastBootError::FastbootFailed(reason)),
                ),
                Ok(FastBootResponse::Data(_)) => Step::Done(
                    Err(NusbFastBootError::FastbootUnexpectedReply),
                ),
            },
        }
    }
}

impl NusbFastBoot {
    /// What becomes of fetching a range.
    pub open spec fn fetching(self, partition: Seq<char>, offset: u64, length: u32) -> StepView<
        FetchView,
        Seq<u8>,
    > {
        let wire = fetch_wire(partition, offset, length);
        if can_fetch(partition, offset, length) {
            StepView::Out(
                wire,
                FetchView {
                    length,
                    max_in: self.max_in,
                    phase: FetchPhase::Sending(wire.len() as usize),
                },
            )
        } else {
            StepView::Done(Err(ErrorView::InvalidCommand))
        }
    }

    /// Fetch a bounded range from a partition. Requires device fetch support.
    /// The returned bytes are accepted only after the complete DATA payload and
    /// final OKAY. Callers should chunk large partitions to bound memory use.
    pub fn fetch(&self, partition: &str, offset: u64, length: u32) -> (next: Step<Fetch, Vec<u8>>)
        ensures
            next@ == self.fetching(partition@, offset, length),
    {
        if contains_char(partition, ':') || length == 0 || offset.checked_add(
            length as u64,
        ).is_none() {
            return Step::Done(Err(NusbFastBootError::InvalidCommand));
        }
        let mut command: Vec<u8> = Vec::new();
        push_text(&mut command, "fetch:");
        push_text(&mut command, partition);
        push_text(&mut command, ":");
        push_hex(&mut command, offset);
        push_text(&mut command, ":");
        push_hex(&mut command, length as u64);
        assert(command@ =~= fetch_wire(partition@, offset, length));
        if !is_valid_command(command.as_slice()) {
            return Step::Done(Err(NusbFastBootError::InvalidCommand));
        }
        let fetch = Fetch {
            length,
            max_in: self.max_in,
            state: FetchState::Sending(command.len()),
        };
        Step::Out(buffer_from_slice(command.as_slice()), fetch)
    }
}

/// What a series of transfers brought, put together.
pub open spec fn received(completions: Seq<CompletionView>) -> Seq<u8>
    decreases completions.len(),
{
    if completions.len() == 0 {
        Seq::empty()
    } else {
        completions[0].bytes + received(completions.drop_first())
    }
}

/// Whether the buffer of a transfer from the device holds as much as crossed the bus.
pub open spec fn is_consistent(completion: CompletionView) -> bool {
    completion.status is Ok ==> completion.bytes.len() == completion.actual_len
}

/// Whether there are transfers between `after` and `before`, all of them succeeded, and none of
/// them brought nothing.
pub open spec fn payload_in(completions: Seq<CompletionView>, after: int, before: int) -> bool {
    &&& 0 <= after + 1 < before <= completions.len()
    &&& forall|i: int|
        after < i < before ==> (#[trigger] completions[i]).status is Ok
            && completions[i].actual_len > 0
}

/// Running over INFO and TEXT responses is running what follows them, before the data and after
/// it.
proof fn lemma_progress_is_skipped(fetch: FetchView, completions: Seq<CompletionView>, n: int)
    requires
        fetch.phase is AwaitingData || fetch.phase is AwaitingOkay,
        progress_before(completions, n),
    ensures
        fetch.run(completions) == fetch.run(completions.skip(n)),
    decreases n,
{
    if n > 0 {
        lemma_progress_tail(completions, n);
        assert(fetch.at(fetch.phase) == fetch);
        lemma_progress_is_skipped(fetch, completions.drop_first(), n - 1);
    } else {
        assert(completions.skip(0) =~= completions);
    }
}

proof fn lemma_okay_returns_data(fetch: FetchView, data: Seq<u8>, completions: Seq<CompletionView>)
    requires
        fetch.phase == FetchPhase::AwaitingOkay(data),
        fetch.run(completions) matches Some(Ok(_)),
    ensures
        fetch.run(completions) == Some(Ok::<_, ErrorView>(data)),
        exists|n: int| okay_at(completions, n),
{
    let n = lemma_first_other(completions);
    lemma_progress_is_skipped(fetch, completions, n);
    assert(n < completions.len());
    assert(completions.skip(n)[0] == completions[n]);
    assert(okay_at(completions, n));
}

proof fn lemma_payload_is_whole(fetch: FetchView, data: Seq<u8>, completions: Seq<CompletionView>)
    requires
        fetch.phase == FetchPhase::Receiving(data),
        data.len() < fetch.length,
        forall|i: int| 0 <= i < completions.len() ==> is_consistent(#[trigger] completions[i]),
        fetch.run(completions) matches Some(Ok(_)),
    ensures
        exists|b: int, k: int|
            {
                &&& #[trigger] payload_in(completions, -1, b)
                &&& #[trigger] okay_at(completions.skip(b), k)
                &&& fetch.run(completions) == Some(
                    Ok::<_, ErrorView>(data + received(completions.take(b))),
                )
                &&& (data + received(completions.take(b))).len() == fetch.length
            },
    decreases completions.len(),
{
    let first = completions[0];
    let rest = completions.drop_first();
    let more = data + first.bytes;
    assert(is_consistent(first));
    assert forall|i: int| 0 <= i < rest.len() implies is_consistent(#[trigger] rest[i]) by {
        assert(rest[i] == completions[i + 1]);
    }
    if more.len() < fetch.length {
        lemma_payload_is_whole(fetch.at(FetchPhase::Receiving(more)), more, rest);
        let (b, k) = choose|b: int, k: int|
            {
                &&& #[trigger] payload_in(rest, -1, b)
                &&& #[trigger] okay_at(rest.skip(b), k)
                &&& fetch.at(FetchPhase::Receiving(more)).run(rest) == Some(
                    Ok::<_, ErrorView>(more + received(rest.take(b))),
                )
                &&& (more + received(rest.take(b))).len() == fetch.length
            };
        assert forall|i: int| 0 <= i < b + 1 implies (#[trigger] completions[i]).status is Ok
            && completions[i].actual_len > 0 by {
            if i > 0 {
                assert(rest[i - 1] == completions[i]);
            }
        }
        assert(payload_in(completions, -1, b + 1));
        assert(completions.skip(b + 1) =~= rest.skip(b));
        assert(completions.take(b + 1).drop_first() =~= rest.take(b));
        assert(data + received(completions.take(b + 1)) =~= more + received(rest.take(b)));
        assert(okay_at(completions.skip(b + 1), k));
    } else {
        lemma_okay_returns_data(fetch.at(FetchPhase::AwaitingOkay(more)), more, rest);
        let k = choose|n: int| okay_at(rest, n);
        assert(completions.skip(1) =~= rest);
        assert(payload_in(completions, -1, 1));
        let one = completions.take(1);
        assert(one.drop_first() =~= Seq::<CompletionView>::empty());
        assert(received(one.drop_first()) =~= Seq::<u8>::empty());
        assert(received(one) =~= first.bytes);
        assert(okay_at(completions.skip(1), k));
    }
}

proof fn lemma_announced_fetch_is_whole(
    fetch: FetchView,
    completions: Seq<CompletionView>,
    data: Seq<u8>,
)
    requires
        fetch.phase is AwaitingData,
        fetch.length > 0,
        forall|i: int| 0 <= i < completions.len() ==> is_consistent(#[trigger] completions[i]),
        fetch.run(completions) == Some(Ok::<_, ErrorView>(data)),
    ensures
        data.len() == fetch.length,
        exists|a: int, b: int, k: int|
            {
                &&& #[trigger] data_at(completions, a, fetch.length)
                &&& #[trigger] payload_in(completions, a, b)
                &&& #[trigger] okay_at(completions.skip(b), k)
                &&& data == received(completions.subrange(a + 1, b))
            },
{
    let a = lemma_first_other(completions);
    lemma_progress_is_skipped(fetch, completions, a);
    assert(a < completions.len());
    assert(completions.skip(a)[0] == completions[a]);
    assert(data_at(completions, a, fetch.length));
    let rest = completions.skip(a + 1);
    assert(completions.skip(a).drop_first() =~= rest);
    assert forall|i: int| 0 <= i < rest.len() implies is_consistent(#[trigger] rest[i]) by {
        assert(rest[i] == completions[a + 1 + i]);
    }
    let empty = Seq::<u8>::empty();
    let receiving = fetch.at(FetchPhase::Receiving(empty));
    lemma_payload_is_whole(receiving, empty, rest);
    let (b, k) = choose|b: int, k: int|
        {
            &&& #[trigger] payload_in(rest, -1, b)
            &&& #[trigger] okay_at(rest.skip(b), k)
            &&& receiving.run(rest) == Some(
                Ok::<_, ErrorView>(empty + received(rest.take(b))),
            )
            &&& (empty + received(rest.take(b))).len() == fetch.length
        };
    assert(empty + received(rest.take(b)) =~= received(rest.take(b)));
    let end = a + 1 + b;
    assert forall|i: int| a < i < end implies (#[trigger] completions[i]).status is Ok
        && completions[i].actual_len > 0 by {
        assert(rest[i - a - 1] == completions[i]);
    }
    assert(payload_in(completions, a, end));
    assert(completions.skip(end) =~= rest.skip(b));
    assert(okay_at(completions.skip(end), k));
    assert(completions.subrange(a + 1, end) =~= rest.take(b));
}

proof fn lemma_payload_is_taken(
    fetch: FetchView,
    data: Seq<u8>,
    payload: Seq<CompletionView>,
    rest: Seq<CompletionView>,
)
    requires
        fetch.phase == FetchPhase::Receiving(data),
        payload_in(payload, -1, payload.len() as int),
        forall|i: int| 0 <= i < payload.len() ==> is_consistent(#[trigger] payload[i]),
        data.len() + received(payload).len() == fetch.length,
    ensures
        fetch.run(payload + rest) == fetch.at(
            FetchPhase::AwaitingOkay(data + received(payload)),
        ).run(rest),
    decreases payload.len(),
{
    let first = payload[0];
    let tail = payload.drop_first();
    let more = data + first.bytes;
    assert(is_consistent(first));
    assert((payload + rest).drop_first() =~= tail + rest);
    assert((payload + rest)[0] == first);
    assert(received(payload) == first.bytes + received(tail));
    assert(data + received(payload) =~= more + received(tail));
    if tail.len() == 0 {
        assert(received(tail).len() == 0);
        assert(tail + rest =~= rest);
        assert(more =~= data + received(payload));
    } else {
        assert forall|i: int| 0 <= i < tail.len() implies is_consistent(#[trigger] tail[i])
            && tail[i].status is Ok && tail[i].actual_len > 0 by {
            assert(tail[i] == payload[i + 1]);
        }
        assert(payload_in(tail, -1, tail.len() as int));
        assert(is_consistent(tail[0]));
        assert(received(tail) == tail[0].bytes + received(tail.drop_first()));
        lemma_payload_is_taken(fetch.at(FetchPhase::Receiving(more)), more, tail, rest);
    }
}

proof fn lemma_announced_fetch_succeeds(
    fetch: FetchView,
    opening: Seq<CompletionView>,
    payload: Seq<CompletionView>,
    closing: Seq<CompletionView>,
)
    requires
        fetch.phase is AwaitingData,
        data_at(opening, opening.len() - 1, fetch.length),
        payload_in(payload, -1, payload.len() as int),
        forall|i: int| 0 <= i < payload.len() ==> is_consistent(#[trigger] payload[i]),
        received(payload).len() == fetch.length,
        okay_at(closing, closing.len() - 1),
    ensures
        fetch.run(opening + payload + closing) == Some(Ok::<_, ErrorView>(received(payload))),
{
    let all = opening + payload + closing;
    let a = opening.len() - 1;
    let k = closing.len() - 1;
    let empty = Seq::<u8>::empty();
    let data = received(payload);
    assert forall|i: int| 0 <= i < a implies is_progress(#[trigger] all[i]) by {
        assert(all[i] == opening[i]);
    }
    lemma_progress_is_skipped(fetch, all, a);
    assert(all.skip(a)[0] == opening[a]);
    assert(all.skip(a).drop_first() =~= payload + closing);
    assert(fetch.length > 0) by {
        assert(is_consistent(payload[0]));
    }
    lemma_payload_is_taken(fetch.at(FetchPhase::Receiving(empty)), empty, payload, closing);
    assert(empty + data =~= data);
    lemma_progress_is_skipped(fetch.at(FetchPhase::AwaitingOkay(data)), closing, k);
    assert(closing.skip(k)[0] == closing[k]);
}

/// Bytes are returned only after the whole payload and the final OKAY. When a fetch succeeds, its
/// request was sent whole, the device announced exactly the length that was asked for, the bytes
/// are what the transfers after the announcement brought, put together and as many as were asked
/// for, and an OKAY came after them.
pub proof fn law_fetch_returns_the_whole_range(
    client: NusbFastBoot,
    partition: Seq<char>,
    offset: u64,
    length: u32,
    request: CompletionView,
    completions: Seq<CompletionView>,
    data: Seq<u8>,
)
    requires
        forall|i: int| 0 <= i < completions.len() ==> is_consistent(#[trigger] completions[i]),
        client.fetching(partition, offset, length) matches StepView::Out(_, fetch) && fetch.run(
            seq![request] + completions,
        ) == Some(Ok::<_, ErrorView>(data)),
    ensures
        sent(fetch_wire(partition, offset, length).len() as usize, request) is Ok,
        data.len() == length,
        exists|a: int, b: int, k: int|
            {
                &&& #[trigger] data_at(completions, a, length)
                &&& #[trigger] payload_in(completions, a, b)
                &&& #[trigger] okay_at(completions.skip(b), k)
                &&& data == received(completions.subrange(a + 1, b))
                &&& forall|i: int|
                    a < i < b ==> (#[trigger] completions[i]).status is Ok
                        && completions[i].actual_len > 0
            },
{
    assert((seq![request] + completions).drop_first() =~= completions);
    let announced = FetchView {
        length,
        max_in: client.max_in,
        phase: FetchPhase::AwaitingData,
    };
    lemma_announced_fetch_is_whole(announced, completions, data);
}

/// A device that gets the request, announces the length, sends that many bytes in whatever
/// pieces, and says OKAY gets them through, with INFO and TEXT wherever it may send them.
pub proof fn law_fetch_succeeds(
    client: NusbFastBoot,
    partition: Seq<char>,
    offset: u64,
    length: u32,
    request: CompletionView,
    opening: Seq<CompletionView>,
    payload: Seq<CompletionView>,
    closing: Seq<CompletionView>,
)
    requires
        can_fetch(partition, offset, length),
        sent(fetch_wire(partition, offset, length).len() as usize, request) is Ok,
        data_at(opening, opening.len() - 1, length),
        payload_in(payload, -1, payload.len() as int),
        forall|i: int| 0 <= i < payload.len() ==> is_consistent(#[trigger] payload[i]),
        received(payload).len() == length,
        okay_at(closing, closing.len() - 1),
    ensures
        client.fetching(partition, offset, length) matches StepView::Out(_, fetch) && fetch.run(
            seq![request] + (opening + payload + closing),
        ) == Some(Ok::<_, ErrorView>(received(payload))),
{
    let all = opening + payload + closing;
    assert((seq![request] + all).drop_first() =~= all);
    let announced = FetchView {
        length,
        max_in: client.max_in,
        phase: FetchPhase::AwaitingData,
    };
    lemma_announced_fetch_succeeds(announced, opening, payload, closing);
}

/// Only a range that can be asked for is asked for, and then with a command that a device can
/// take; nothing is sent for any other.
pub proof fn law_only_valid_fetches_are_sent(
    client: NusbFastBoot,
    partition: Seq<char>,
    offset: u64,
    length: u32,
)
    ensures
        client.fetching(partition, offset, length) matches StepView::Out(bytes, _) ==> {
            &&& valid_command(bytes)
            &&& length > 0
            &&& offset + length <= u64::MAX
        },
        !can_fetch(partition, offset, length) ==> client.fetching(partition, offset, length)
            == StepView::<FetchView, Seq<u8>>::Done(Err(ErrorView::InvalidCommand)),
{
}

/// Each transfer of the data phase asks for whole packets, for no less than what is missing of
/// a chunk, and for less than a packet more.
pub proof fn law_fetch_asks_for_whole_packets(missing: nat, max_in: u16)
    requires
        missing > 0,
        max_in > 0,
    ensures
        fetch_request(missing, max_in) % (max_in as nat) == 0,
        fetch_request(missing, max_in) > 0,
        missing <= 1024 * 1024 ==> missing <= fetch_request(missing, max_in) < missing + max_in,
        missing > 1024 * 1024 ==> 1024 * 1024 <= fetch_request(missing, max_in) < 1024 * 1024
            + max_in,
{
    lemma_rounded_up(
        if missing < MEBIBYTE {
            missing
        } else {
            MEBIBYTE as nat
        },
        max_in as nat,
    );
}

/// What a request is made of, byte by byte.
proof fn lemma_request(partition: Seq<char>, offset: u64, length: u32)
    ensures
        fetch_wire(partition, offset, length) == encode_utf8("fetch:"@ + partition) + seq![
            ':' as u8,
        ] + hex(offset as nat) + seq![':' as u8] + hex(length as nat),
        encode_utf8("fetch:"@ + partition) == encode_utf8("fetch:"@) + encode_utf8(partition),
        encode_utf8("fetch:"@).len() == 6,
        forall|i: int|
            0 <= i < 6 ==> 0x20 <= #[trigger] encode_utf8("fetch:"@)[i] <= 0x7e,
        !hex(offset as nat).contains(':' as u8),
        !hex(length as nat).contains(':' as u8),
{
    reveal_strlit("fetch:");
    reveal_strlit(":");
    is_ascii_chars_encode_utf8("fetch:"@);
    is_ascii_chars_encode_utf8(":"@);
    lemma_encoded_behind("fetch:"@, partition);
    law_hex_is_short_and_in_lower_case(offset as nat);
    law_hex_is_short_and_in_lower_case(length as nat);
    assert(encode_utf8(":"@) =~= seq![':' as u8]);
    assert(fetch_wire(partition, offset, length) =~= encode_utf8("fetch:"@ + partition) + seq![
        ':' as u8,
    ] + hex(offset as nat) + seq![':' as u8] + hex(length as nat));
}

/// A byte string is parted at its last colon in one way.
proof fn lemma_last_part(a: Seq<u8>, x: Seq<u8>, b: Seq<u8>, y: Seq<u8>)
    requires
        a + seq![':' as u8] + x == b + seq![':' as u8] + y,
        !x.contains(':' as u8),
        !y.contains(':' as u8),
    ensures
        a == b,
        x == y,
{
    let s = a + seq![':' as u8] + x;
    let t = b + seq![':' as u8] + y;
    assert(s.len() == t.len());
    if x.len() < y.len() {
        assert(s[a.len() as int] == ':' as u8);
        assert(t[a.len() as int] == y[a.len() - b.len() - 1]);
    }
    if y.len() < x.len() {
        assert(t[b.len() as int] == ':' as u8);
        assert(s[b.len() as int] == x[b.len() - a.len() - 1]);
    }
    assert(a.len() == b.len());
    assert(s.take(a.len() as int) =~= a);
    assert(t.take(b.len() as int) =~= b);
    assert(s.skip(a.len() as int + 1) =~= x);
    assert(t.skip(b.len() as int + 1) =~= y);
}

/// A request names the range that was asked for. Read back, parted at its last two colons, it is
/// `fetch:` with the partition, then digits that stand for the offset, and then digits that stand
/// for the length.
pub proof fn law_request_names_the_range(
    partition: Seq<char>,
    offset: u64,
    length: u32,
    head: Seq<u8>,
    from: Seq<u8>,
    count: Seq<u8>,
)
    requires
        fetch_wire(partition, offset, length) == head + seq![':' as u8] + from + seq![':' as u8]
            + count,
        !from.contains(':' as u8),
        !count.contains(':' as u8),
    ensures
        head == encode_utf8("fetch:"@ + partition),
        from.len() > 0,
        hex_value(from) == Some(offset as nat),
        from[0] == '0' as u8 ==> offset == 0 && from.len() == 1,
        count.len() > 0,
        hex_value(count) == Some(length as nat),
        count[0] == '0' as u8 ==> length == 0 && count.len() == 1,
        forall|i: int|
            0 <= i < from.len() ==> !('A' as u8 <= #[trigger] from[i] <= 'F' as u8),
        forall|i: int|
            0 <= i < count.len() ==> !('A' as u8 <= #[trigger] count[i] <= 'F' as u8),
{
    lemma_request(partition, offset, length);
    law_hex_reads_back(offset as nat);
    law_hex_reads_back(length as nat);
    law_hex_is_short_and_in_lower_case(offset as nat);
    law_hex_is_short_and_in_lower_case(length as nat);
    let start = encode_utf8("fetch:"@ + partition);
    lemma_last_part(
        head + seq![':' as u8] + from,
        count,
        start + seq![':' as u8] + hex(offset as nat),
        hex(length as nat),
    );
    lemma_last_part(head, from, start, hex(offset as nat));
}

/// A request can be parted that way, whatever the range.
pub proof fn law_request_has_its_parts(partition: Seq<char>, offset: u64, length: u32) -> (parts: (
    Seq<u8>,
    Seq<u8>,
))
    ensures
        fetch_wire(partition, offset, length) == encode_utf8("fetch:"@ + partition) + seq![
            ':' as u8,
        ] + parts.0 + seq![':' as u8] + parts.1,
        hex_value(parts.0) == Some(offset as nat),
        hex_value(parts.1) == Some(length as nat),
        !parts.0.contains(':' as u8),
        !parts.1.contains(':' as u8),
        1 <= parts.0.len() <= 16,
        1 <= parts.1.len() <= 8,
{
    lemma_request(partition, offset, length);
    law_hex_reads_back(offset as nat);
    law_hex_reads_back(length as nat);
    lemma_hex_len(offset);
    lemma_hex_len(length as u64);
    (hex(offset as nat), hex(length as nat))
}

/// Two ranges are never asked for in the same words.
pub proof fn law_requests_are_told_apart(
    partition: Seq<char>,
    offset: u64,
    length: u32,
    other_partition: Seq<char>,
    other_offset: u64,
    other_length: u32,
)
    requires
        fetch_wire(partition, offset, length) == fetch_wire(
            other_partition,
            other_offset,
            other_length,
        ),
    ensures
        partition == other_partition,
        offset == other_offset,
        length == other_length,
{
    let (from, count) = law_request_has_its_parts(partition, offset, length);
    law_request_names_the_range(
        other_partition,
        other_offset,
        other_length,
        encode_utf8("fetch:"@ + partition),
        from,
        count,
    );
    vstd::utf8::encode_utf8_decode_utf8("fetch:"@ + partition);
    vstd::utf8::encode_utf8_decode_utf8("fetch:"@ + other_partition);
    let n = "fetch:"@.len() as int;
    assert(("fetch:"@ + partition).skip(n) =~= partition);
    assert(("fetch:"@ + other_partition).skip(n) =~= other_partition);
}

/// A range is asked for wherever it can be: where the partition has a printable name without a
/// colon, the range is not empty and ends within 64 bits, and the request fits into 64
/// characters, as it does with every name of up to 32. Otherwise nothing is sent.
pub proof fn law_fetches_are_sent_where_they_can_be(
    client: NusbFastBoot,
    partition: Seq<char>,
    offset: u64,
    length: u32,
)
    ensures
        ({
            let wire = fetch_wire(partition, offset, length);
            let nameable = !partition.contains(':') && (forall|i: int|
                0 <= i < partition.len() ==> ' ' <= #[trigger] partition[i] <= '~');
            let owed = nameable && length > 0 && offset + length <= u64::MAX && wire.len() <= 64;
            &&& owed ==> client.fetching(partition, offset, length) == StepView::<
                FetchView,
                Seq<u8>,
            >::Out(
                wire,
                FetchView {
                    length,
                    max_in: client.max_in,
                    phase: FetchPhase::Sending(wire.len() as usize),
                },
            )
            &&& !owed ==> client.fetching(partition, offset, length) == StepView::<
                FetchView,
                Seq<u8>,
            >::Done(Err(ErrorView::InvalidCommand))
            &&& nameable && partition.len() <= 32 ==> wire.len() <= 64
        }),
{
    lemma_request(partition, offset, length);
    lemma_printable_text(partition);
    lemma_hex_len(offset);
    lemma_hex_len(length as u64);
    law_hex_is_short_and_in_lower_case(offset as nat);
    law_hex_is_short_and_in_lower_case(length as nat);
    let wire = fetch_wire(partition, offset, length);
    let name = encode_utf8(partition);
    let from = hex(offset as nat);
    let count = hex(length as nat);
    let a = 6 + name.len() as int;
    let b = a + 1 + from.len() as int;
    if valid_command(wire) {
        assert forall|i: int| 0 <= i < name.len() implies 0x20 <= #[trigger] name[i] <= 0x7e by {
            assert(wire[i + 6] == name[i]);
        }
    }
    if forall|i: int| 0 <= i < name.len() ==> 0x20 <= #[trigger] name[i] <= 0x7e {
        assert forall|i: int| 0 <= i < wire.len() implies 0x20 <= #[trigger] wire[i] <= 0x7e by {
            if i < 6 {
                assert(wire[i] == encode_utf8("fetch:"@)[i]);
            } else if i < a {
                assert(wire[i] == name[i - 6]);
            } else if i == a {
                assert(wire[i] == ':' as u8);
            } else if i < b {
                assert(wire[i] == from[i - a - 1]);
            } else if i == b {
                assert(wire[i] == ':' as u8);
            } else {
                assert(wire[i] == count[i - b - 1]);
            }
        }
    }
}

/// What transfers brought is put together in the order in which they came.
pub proof fn law_pieces_are_put_together_in_order(
    earlier: Seq<CompletionView>,
    last: CompletionView,
)
    ensures
        received(Seq::empty()) == Seq::<u8>::empty(),
        received(earlier.push(last)) == received(earlier) + last.bytes,
    decreases earlier.len(),
{
    let all = earlier.push(last);
    if earlier.len() > 0 {
        law_pieces_are_put_together_in_order(earlier.drop_first(), last);
        assert(all.drop_first() =~= earlier.drop_first().push(last));
        assert(all[0] == earlier[0]);
    } else {
        assert(all.drop_first() =~= Seq::<CompletionView>::empty());
        assert(received(all.drop_first()) =~= Seq::<u8>::empty());
    }
    assert(received(all) =~= received(earlier) + last.bytes);
}

/// Until the data is announced: INFO and TEXT leave the fetch open. Exactly the length that was
/// asked for begins the data; another ends the fetch with the two lengths. FAIL ends it with its
/// reason, and OKAY as unexpected.
pub proof fn law_fetch_waits_for_its_length(fetch: FetchView, completion: CompletionView)
    requires
        fetch.phase is AwaitingData,
        fetch.length > 0,
    ensures
        ({
            let next = fetch.step(completion);
            match reply(completion) {
                Ok(ResponseView::Info(_)) => next matches StepView::In(asked, f) && asked
                    == fetch.max_in && f == fetch,
                Ok(ResponseView::Text(_)) => next matches StepView::In(asked, f) && asked
                    == fetch.max_in && f == fetch,
                Ok(ResponseView::Data(actual)) => if actual == fetch.length {
                    next matches StepView::In(asked, f) && asked == fetch_request(
                        fetch.length as nat,
                        fetch.max_in,
                    ) && f == (FetchView {
                        phase: FetchPhase::Receiving(Seq::empty()),
                        ..fetch
                    })
                } else {
                    next matches StepView::Done(Err(e)) && e == (ErrorView::IncorrectLength {
                        expected: fetch.length as usize,
                        actual: actual as usize,
                    })
                },
                Ok(ResponseView::Fail(reason)) => next matches StepView::Done(Err(e)) && e
                    == ErrorView::FastbootFailed(reason),
                Ok(ResponseView::Okay(_)) => next matches StepView::Done(Err(e)) && e
                    == ErrorView::FastbootUnexpectedReply,
                Err(reason) => next matches StepView::Done(Err(e)) && e == reason,
            }
        }),
        fetch.opens_payload(completion) <==> (fetch.step(completion) matches StepView::In(_, f)
            && f.phase is Receiving),
{
}

/// While data is missing: what a transfer brings goes behind what came before, and as long as
/// there is still some missing, that much is asked for, in whole packets. A transfer that brings
/// nothing, or more than is missing, ends the fetch with what was missing and what came.
pub proof fn law_fetch_takes_what_is_missing(
    fetch: FetchView,
    data: Seq<u8>,
    completion: CompletionView,
)
    requires
        fetch.phase == FetchPhase::Receiving(data),
        data.len() < fetch.length,
    ensures
        ({
            let next = fetch.step(completion);
            let missing = fetch.length - data.len();
            match completion.status {
                Err(reason) => next matches StepView::Done(Err(e)) && e == ErrorView::Transfer(
                    reason,
                ),
                Ok(()) => if 0 < completion.actual_len <= missing {
                    if completion.bytes.len() < missing {
                        next matches StepView::In(asked, f) && asked == fetch_request(
                            (missing - completion.bytes.len()) as nat,
                            fetch.max_in,
                        ) && f == (FetchView {
                            phase: FetchPhase::Receiving(data + completion.bytes),
                            ..fetch
                        })
                    } else {
                        next matches StepView::In(asked, f) && asked == fetch.max_in && f
                            == (FetchView {
                            phase: FetchPhase::AwaitingOkay(data + completion.bytes),
                            ..fetch
                        })
                    }
                } else {
                    next matches StepView::Done(Err(e)) && e == (ErrorView::IncorrectLength {
                        expected: missing as usize,
                        actual: completion.actual_len,
                    })
                },
            }
        }),
{
}

/// When all data has come: INFO and TEXT leave the fetch open, OKAY ends it with the data, and
/// anything else ends it as an error.
pub proof fn law_fetch_waits_for_okay(
    fetch: FetchView,
    data: Seq<u8>,
    completion: CompletionView,
)
    requires
        fetch.phase == FetchPhase::AwaitingOkay(data),
    ensures
        ({
            let next = fetch.step(completion);
            match reply(completion) {
                Ok(ResponseView::Info(_)) => next matches StepView::In(asked, f) && asked
                    == fetch.max_in && f == fetch,
                Ok(ResponseView::Text(_)) => next matches StepView::In(asked, f) && asked
                    == fetch.max_in && f == fetch,
                Ok(ResponseView::Okay(_)) => next matches StepView::Done(Ok(bytes)) && bytes
                    == data,
                Ok(ResponseView::Fail(reason)) => next matches StepView::Done(Err(e)) && e
                    == ErrorView::FastbootFailed(reason),
                Ok(ResponseView::Data(_)) => next matches StepView::Done(Err(e)) && e
                    == ErrorView::FastbootUnexpectedReply,
                Err(reason) => next matches StepView::Done(Err(e)) && e == reason,
            }
        }),
{
}

/// A request that did not go out whole ends the fetch; one that did is in the hands of the
/// device.
pub proof fn law_fetch_is_asked_for_first(
    fetch: FetchView,
    expected: usize,
    completion: CompletionView,
)
    requires
        fetch.phase == FetchPhase::Sending(expected),
    ensures
        ({
            let next = fetch.step(completion);
            match completion.status {
                Err(reason) => next matches StepView::Done(Err(e)) && e == ErrorView::Transfer(
                    reason,
                ),
                Ok(()) => if completion.actual_len == expected {
                    next matches StepView::In(asked, f) && asked == fetch.max_in && f
                        == (FetchView { phase: FetchPhase::AwaitingData, ..fetch })
                } else {
                    next matches StepView::Done(Err(e)) && e == (ErrorView::IncorrectLength {
                        expected,
                        actual: completion.actual_len,
                    })
                },
            }
        }),
{
}

/// A fetch brings the range: the request goes out, the device announces the length, sends that
/// many bytes in whatever pieces, and says OKAY, with INFO and TEXT before the announcement and
/// before the OKAY as it likes. The outcome is the bytes, in the order in which they came.
pub proof fn law_fetch_brings_the_range(
    client: NusbFastBoot,
    partition: Seq<char>,
    offset: u64,
    length: u32,
    request: CompletionView,
    opening: Seq<CompletionView>,
    announcement: CompletionView,
    payload: Seq<CompletionView>,
    closing: Seq<CompletionView>,
    last: CompletionView,
)
    requires
        client.fetching(partition, offset, length) is Out,
        request.status is Ok,
        request.actual_len == fetch_wire(partition, offset, length).len(),
        forall|i: int| 0 <= i < opening.len() ==> is_progress(#[trigger] opening[i]),
        reply(announcement) == Ok::<_, ErrorView>(ResponseView::Data(length)),
        forall|i: int|
            0 <= i < payload.len() ==> (#[trigger] payload[i]).status is Ok && 0
                < payload[i].bytes.len() == payload[i].actual_len,
        received(payload).len() == length,
        forall|i: int| 0 <= i < closing.len() ==> is_progress(#[trigger] closing[i]),
        reply(last) matches Ok(response) && response is Okay,
    ensures
        client.fetching(partition, offset, length) matches StepView::Out(bytes, fetch) && bytes
            == fetch_wire(partition, offset, length) && fetch.run(
            seq![request] + (opening.push(announcement) + payload + closing.push(last)),
        ) == Some(Ok::<_, ErrorView>(received(payload))),
{
    let before = opening.push(announcement);
    let after = closing.push(last);
    law_fetches_are_sent_where_they_can_be(client, partition, offset, length);
    assert(received(Seq::<CompletionView>::empty()) == Seq::<u8>::empty());
    assert(payload.len() > 0) by {
        if payload.len() == 0 {
            assert(received(payload).len() == 0);
        }
    }
    assert forall|i: int| 0 <= i < opening.len() implies is_progress(#[trigger] before[i]) by {
        assert(before[i] == opening[i]);
    }
    assert forall|i: int| 0 <= i < closing.len() implies is_progress(#[trigger] after[i]) by {
        assert(after[i] == closing[i]);
    }
    assert(data_at(before, before.len() - 1, length));
    assert(okay_at(after, after.len() - 1));
    assert(payload_in(payload, -1, payload.len() as int));
    law_fetch_succeeds(client, partition, offset, length, request, before, payload, after);
}

} // verus!
