//! Commands and their replies.
//!
//! Nothing here touches the bus. An operation of the client is a [`Step`]: a transfer for the
//! caller to make, together with what takes its completion and gives the next step, or the
//! outcome.
use crate::buffer::{buffer_as_slice, buffer_from_slice, buffer_new, Completion};
use crate::buffer::{buffer_bytes, buffer_requested, CompletionView};
use crate::device::NusbFastBoot;
use crate::error::{ErrorView, NusbFastBootError};
use crate::protocol::{
    law_arguments_are_carried_whole, law_nothing_else_is_a_response,
    law_responses_are_read_by_their_word, parsed, ResponseView,
};
use crate::protocol::{FastBootCommand, FastBootResponse};
use crate::text::{hex_u32, lemma_ascii_bytes_are_ascii_chars};
use nusb::transfer::Buffer;
use vstd::prelude::*;
use vstd::utf8::{encode_utf8, encode_utf8_valid_utf8, is_ascii_chars_encode_utf8, valid_utf8};

verus! {

/// What an operation needs next
pub enum Step<S, T> {
    /// Submit the buffer to the OUT endpoint, and hand its completion on
    Out(Buffer, S),
    /// Submit the buffer to the IN endpoint, and hand its completion on
    In(Buffer, S),
    /// The operation is over
    Done(Result<T, NusbFastBootError>),
}

/// A [`Step`] as its effect: the bytes sent, the number of bytes asked for, or the outcome.
pub enum StepView<S, T> {
    /// These bytes go to the device
    Out(Seq<u8>, S),
    /// So many bytes are asked of the device
    In(nat, S),
    /// The operation is over
    Done(Result<T, ErrorView>),
}

impl<S: View, T: View> View for Step<S, T> {
    type V = StepView<S::V, T::V>;

    open spec fn view(&self) -> StepView<S::V, T::V> {
        match *self {
            Step::Out(buffer, next) => StepView::Out(buffer_bytes(buffer), next@),
            Step::In(buffer, next) => StepView::In(
                buffer_requested(buffer),
                next@,
            ),
            Step::Done(Ok(value)) => StepView::Done(Ok(value@)),
            Step::Done(Err(e)) => StepView::Done(Err(e@)),
        }
    }
}

/// Whether bytes may be sent as a command: 1 to 64 printable ASCII characters.
pub open spec fn valid_command(bytes: Seq<u8>) -> bool {
    &&& 1 <= bytes.len() <= 64
    &&& forall|i: int| 0 <= i < bytes.len() ==> 0x20 <= #[trigger] bytes[i] <= 0x7e
}

pub(crate) fn is_valid_command(bytes: &[u8]) -> (valid: bool)
    ensures
        valid == valid_command(bytes@),
{
    if bytes.len() == 0 || bytes.len() > 64 {
        return false;
    }
    let mut i: usize = 0;
    while i < bytes.len()
        invariant
            i <= bytes.len(),
            forall|j: int| 0 <= j < i ==> 0x20 <= #[trigger] bytes@[j] <= 0x7e,
        decreases bytes.len() - i,
    {
        if bytes[i] < 0x20 || bytes[i] > 0x7e {
            return false;
        }
        i = i + 1;
    }
    true
}

/// Refuses what may not be sent as a command.
pub fn validate_command(command: &str) -> (checked: Result<(), NusbFastBootError>)
    ensures
        checked is Ok <==> valid_command(encode_utf8(command@)),
        checked is Ok <==> 1 <= command@.len() <= 64 && (forall|i: int|
            0 <= i < command@.len() ==> ' ' <= #[trigger] command@[i] <= '~'),
        checked matches Err(e) ==> e is InvalidCommand,
{
    proof {
        law_commands_are_printable(command@);
    }
    if is_valid_command(command.as_bytes()) {
        Ok(())
    } else {
        Err(NusbFastBootError::InvalidCommand)
    }
}

/// What comes of a length that should be another's equal.
pub open spec fn length_check(expected: usize, actual: usize) -> Result<
    (),
    ErrorView,
> {
    if expected == actual {
        Ok(())
    } else {
        Err(ErrorView::IncorrectLength { expected, actual })
    }
}

/// Refuses a length that is not the expected one.
pub fn check_length(expected: usize, actual: usize) -> (checked: Result<(), NusbFastBootError>)
    ensures
        match (checked, length_check(expected, actual)) {
            (Ok(()), Ok(())) => true,
            (Err(e), Err(expected_error)) => e@ == expected_error,
            _ => false,
        },
        checked is Ok <==> expected == actual,
        checked matches Err(e) ==> e == (NusbFastBootError::IncorrectLength { expected, actual }),
{
    if expected == actual {
        Ok(())
    } else {
        Err(NusbFastBootError::IncorrectLength { expected, actual })
    }
}

/// What comes of sending `expected` bytes in one transfer.
pub open spec fn sent(expected: usize, completion: CompletionView) -> Result<
    (),
    ErrorView,
> {
    match completion.status {
        Err(e) => Err(ErrorView::Transfer(e)),
        Ok(()) => length_check(expected, completion.actual_len),
    }
}

/// What the device replied in one transfer.
pub open spec fn reply(completion: CompletionView) -> Result<
    ResponseView,
    ErrorView,
> {
    match completion.status {
        Err(e) => Err(ErrorView::Transfer(e)),
        Ok(()) => match parsed(completion.bytes) {
            Ok(response) => Ok(response),
            Err(e) => Err(ErrorView::FastbootParseError(e)),
        },
    }
}

pub(crate) fn check_sent(expected: usize, completion: &Completion) -> (checked: Result<
    (),
    NusbFastBootError,
>)
    ensures
        match (checked, sent(expected, completion@)) {
            (Ok(()), Ok(())) => true,
            (Err(e), Err(expected_error)) => e@ == expected_error,
            _ => false,
        },
{
    match &completion.status {
        Err(e) => Err(NusbFastBootError::from(*e)),
        Ok(()) => check_length(expected, completion.actual_len),
    }
}

/// Reads the response out of a transfer from the device.
pub fn read_response(completion: &Completion) -> (response: Result<
    FastBootResponse,
    NusbFastBootError,
>)
    ensures
        match (response, reply(completion@)) {
            (Ok(r), Ok(expected)) => r@ == expected,
            (Err(e), Err(expected)) => e@ == expected,
            _ => false,
        },
{
    match &completion.status {
        Err(e) => Err(NusbFastBootError::from(*e)),
        Ok(()) => match FastBootResponse::from_bytes(buffer_as_slice(&completion.buffer)) {
            Ok(response) => Ok(response),
            Err(e) => Err(NusbFastBootError::from(e)),
        },
    }
}

/// How a response concludes a command: INFO and TEXT leave it open, OKAY and FAIL decide it, and
/// there is no data to a command.
pub open spec fn conclusion(response: ResponseView) -> Option<
    Result<Seq<char>, ErrorView>,
> {
    match response {
        ResponseView::Info(_) => None,
        ResponseView::Text(_) => None,
        ResponseView::Data(_) => Some(
            Err(ErrorView::FastbootUnexpectedReply),
        ),
        ResponseView::Okay(value) => Some(Ok(value)),
        ResponseView::Fail(reason) => Some(
            Err(ErrorView::FastbootFailed(reason)),
        ),
    }
}

/// A command on its way: sent, or waiting for the device to conclude it
pub struct Execution {
    max_in: u16,
    in_flight: Option<usize>,
}

/// What there is to say of an [`Execution`].
pub struct ExecutionView {
    /// The size of the transfers that replies are read in.
    pub max_in: u16,
    /// The length of the command, while its transfer is not completed.
    pub in_flight: Option<usize>,
}

impl View for Execution {
    type V = ExecutionView;

    closed spec fn view(&self) -> ExecutionView {
        ExecutionView { max_in: self.max_in, in_flight: self.in_flight }
    }
}

impl ExecutionView {
    /// Waiting for the device to conclude a command.
    pub open spec fn waiting(max_in: u16) -> Self {
        ExecutionView { max_in, in_flight: None }
    }

    /// Asks for a reply.
    pub open spec fn listen(max_in: u16) -> StepView<ExecutionView, Seq<char>> {
        StepView::In(max_in as nat, Self::waiting(max_in))
    }

    /// Sends a command.
    pub open spec fn send(max_in: u16, command: Seq<u8>) -> StepView<ExecutionView, Seq<char>> {
        StepView::Out(
            command,
            ExecutionView { max_in, in_flight: Some(command.len() as usize) },
        )
    }

    /// What follows on a completion.
    pub open spec fn step(self, completion: CompletionView) -> StepView<
        ExecutionView,
        Seq<char>,
    > {
        match self.in_flight {
            Some(expected) => match sent(expected, completion) {
                Err(e) => StepView::Done(Err(e)),
                Ok(()) => Self::listen(self.max_in),
            },
            None => match reply(completion) {
                Err(e) => StepView::Done(Err(e)),
                Ok(response) => match conclusion(response) {
                    None => Self::listen(self.max_in),
                    Some(outcome) => StepView::Done(outcome),
                },
            },
        }
    }

    /// The outcome once the given transfers have completed, if there is one by then.
    pub open spec fn run(self, completions: Seq<CompletionView>) -> Option<
        Result<Seq<char>, ErrorView>,
    >
        decreases completions.len(),
    {
        if completions.len() == 0 {
            None
        } else {
            match self.step(completions[0]) {
                StepView::Out(_, next) => next.run(completions.drop_first()),
                StepView::In(_, next) => next.run(completions.drop_first()),
                StepView::Done(outcome) => Some(outcome),
            }
        }
    }
}

fn handle_response(response: FastBootResponse) -> (outcome: Option<
    Result<String, NusbFastBootError>,
>)
    ensures
        match (outcome, conclusion(response@)) {
            (None, None) => true,
            (Some(Ok(value)), Some(Ok(expected))) => value@ == expected,
            (Some(Err(e)), Some(Err(expected))) => e@ == expected,
            _ => false,
        },
{
    match response {
        FastBootResponse::Info(_) => None,
        FastBootResponse::Text(_) => None,
        FastBootResponse::Data(_) => Some(Err(NusbFastBootError::FastbootUnexpectedReply)),
        FastBootResponse::Okay(value) => Some(Ok(value)),
        FastBootResponse::Fail(fail) => Some(Err(NusbFastBootError::FastbootFailed(fail))),
    }
}

impl Execution {
    /// Takes the completion of the transfer that the last step asked for.
    pub fn step(self, completion: Completion) -> (next: Step<Execution, String>)
        ensures
            next@ == self@.step(completion@),
    {
        match self.in_flight {
            Some(expected) => match check_sent(expected, &completion) {
                Err(e) => Step::Done(Err(e)),
                Ok(()) => Self::listen(self.max_in),
            },
            None => match read_response(&completion) {
                Err(e) => Step::Done(Err(e)),
                Ok(response) => match handle_response(response) {
                    None => Self::listen(self.max_in),
                    Some(outcome) => Step::Done(outcome),
                },
            },
        }
    }

    pub(crate) fn listen(max_in: u16) -> (next: Step<Execution, String>)
        ensures
            next@ == ExecutionView::listen(max_in),
    {
        Step::In(buffer_new(max_in as usize), Execution { max_in, in_flight: None })
    }

    fn send(max_in: u16, command: &[u8]) -> (next: Step<Execution, String>)
        requires
            command@.len() <= u32::MAX,
        ensures
            next@ == ExecutionView::send(max_in, command@),
    {
        Step::Out(
            buffer_from_slice(command),
            Execution { max_in, in_flight: Some(command.len()) },
        )
    }
}

impl NusbFastBoot {
    /// Waits for the device to conclude the command at hand.
    pub fn handle_responses(&self) -> (next: Step<Execution, String>)
        ensures
            next@ == ExecutionView::listen(self.max_in),
    {
        Execution::listen(self.max_in)
    }

    /// Sends a command, and waits for the device to conclude it.
    pub fn execute(&self, cmd: FastBootCommand) -> (next: Step<Execution, String>)
        requires
            cmd.wire().len() <= u32::MAX,
        ensures
            next@ == ExecutionView::send(self.max_in, cmd.wire()),
    {
        Execution::send(self.max_in, cmd.to_bytes().as_slice())
    }

    /// What becomes of an implementation-specific command.
    pub open spec fn commanded(self, command: Seq<u8>) -> StepView<ExecutionView, Seq<char>> {
        if valid_command(command) {
            ExecutionView::send(self.max_in, command)
        } else {
            StepView::Done(Err(ErrorView::InvalidCommand))
        }
    }

    /// Execute an implementation-specific command with INFO/TEXT/OKAY/FAIL
    /// responses. Commands with a data phase require a separate method.
    pub fn command(&self, command: &str) -> (next: Step<Execution, String>)
        ensures
            next@ == self.commanded(encode_utf8(command@)),
            next@ matches StepView::Out(bytes, _) ==> bytes == encode_utf8(command@),
            next@ is Out <==> 1 <= command@.len() <= 64 && (forall|i: int|
                0 <= i < command@.len() ==> ' ' <= #[trigger] command@[i] <= '~'),
    {
        match validate_command(command) {
            Ok(()) => Execution::send(self.max_in, command.as_bytes()),
            Err(e) => Step::Done(Err(e)),
        }
    }

    /// Get the named variable
    ///
    /// The "all" variable is special; For that [Self::get_all_vars] should be used instead
    pub fn get_var(&self, var: &str) -> (next: Step<Execution, String>)
        requires
            FastBootCommand::GetVar(var).wire().len() <= u32::MAX,
        ensures
            next@ == ExecutionView::send(self.max_in, FastBootCommand::GetVar(var).wire()),
            next@ matches StepView::Out(bytes, _) && bytes == encode_utf8("getvar:"@ + var@),
    {
        proof {
            law_arguments_are_carried_whole(var);
        }
        self.execute(FastBootCommand::GetVar(var))
    }

    /// Flash downloaded data to a given target partition
    pub fn flash(&self, target: &str) -> (next: Step<Execution, String>)
        requires
            FastBootCommand::Flash(target).wire().len() <= u32::MAX,
        ensures
            next@ == ExecutionView::send(self.max_in, FastBootCommand::Flash(target).wire()),
            next@ matches StepView::Out(bytes, _) && bytes == encode_utf8("flash:"@ + target@),
    {
        proof {
            law_arguments_are_carried_whole(target);
        }
        self.execute(FastBootCommand::Flash(target))
    }

    /// Continue booting
    pub fn continue_boot(&self) -> (next: Step<Execution, String>)
        ensures
            next@ == ExecutionView::send(self.max_in, FastBootCommand::Continue.wire()),
            next@ matches StepView::Out(bytes, _) && bytes == encode_utf8("continue"@),
    {
        proof {
            reveal_strlit("continue");
            is_ascii_chars_encode_utf8("continue"@);
        }
        self.execute(FastBootCommand::Continue)
    }

    /// Erasing the given target partition
    pub fn erase(&self, target: &str) -> (next: Step<Execution, String>)
        requires
            FastBootCommand::Erase(target).wire().len() <= u32::MAX,
        ensures
            next@ == ExecutionView::send(self.max_in, FastBootCommand::Erase(target).wire()),
            next@ matches StepView::Out(bytes, _) && bytes == encode_utf8("erase:"@ + target@),
    {
        proof {
            law_arguments_are_carried_whole(target);
        }
        self.execute(FastBootCommand::Erase(target))
    }

    /// Reboot the device
    pub fn reboot(&self) -> (next: Step<Execution, String>)
        ensures
            next@ == ExecutionView::send(self.max_in, FastBootCommand::Reboot.wire()),
            next@ matches StepView::Out(bytes, _) && bytes == encode_utf8("reboot"@),
    {
        proof {
            reveal_strlit("reboot");
            is_ascii_chars_encode_utf8("reboot"@);
        }
        self.execute(FastBootCommand::Reboot)
    }

    /// Reboot the device to the bootloader
    pub fn reboot_to(&self, mode: &str) -> (next: Step<Execution, String>)
        requires
            FastBootCommand::RebootTo(mode).wire().len() <= u32::MAX,
        ensures
            next@ == ExecutionView::send(self.max_in, FastBootCommand::RebootTo(mode).wire()),
            next@ matches StepView::Out(bytes, _) && bytes == encode_utf8("reboot-"@ + mode@),
    {
        proof {
            law_arguments_are_carried_whole(mode);
        }
        self.execute(FastBootCommand::RebootTo(mode))
    }
}

/// Whether a transfer brought a response that leaves the command open.
pub open spec fn is_progress(completion: CompletionView) -> bool {
    match reply(completion) {
        Ok(response) => conclusion(response) is None,
        Err(_) => false,
    }
}

/// The outcome that a transfer decides on, when it does not leave the command open.
pub open spec fn verdict(completion: CompletionView) -> Result<
    Seq<char>,
    ErrorView,
>
    recommends
        !is_progress(completion),
{
    match reply(completion) {
        Ok(response) => match conclusion(response) {
            Some(outcome) => outcome,
            None => arbitrary(),
        },
        Err(e) => Err(e),
    }
}

/// Whether the first `n` transfers brought nothing but INFO and TEXT.
pub open spec fn progress_before(completions: Seq<CompletionView>, n: int) -> bool {
    &&& 0 <= n <= completions.len()
    &&& forall|i: int| 0 <= i < n ==> is_progress(#[trigger] completions[i])
}

/// Whether, after any number of INFO and TEXT responses, transfer `n` brought an OKAY.
pub open spec fn okay_at(completions: Seq<CompletionView>, n: int) -> bool {
    &&& n < completions.len()
    &&& progress_before(completions, n)
    &&& reply(completions[n]) matches Ok(ResponseView::Okay(_))
}

/// Whether, after any number of INFO and TEXT responses, transfer `n` announced so much data.
pub open spec fn data_at(completions: Seq<CompletionView>, n: int, length: u32) -> bool {
    &&& n < completions.len()
    &&& progress_before(completions, n)
    &&& reply(completions[n]) == Ok::<_, ErrorView>(ResponseView::Data(length))
}

/// The place of the first transfer that brought something other than INFO and TEXT, or the
/// length where there is none.
pub(crate) proof fn lemma_first_other(completions: Seq<CompletionView>) -> (n: int)
    ensures
        progress_before(completions, n),
        n < completions.len() ==> !is_progress(completions[n]),
    decreases completions.len(),
{
    if completions.len() == 0 || !is_progress(completions[0]) {
        0
    } else {
        let rest = completions.drop_first();
        let n = lemma_first_other(rest);
        assert forall|i: int| 0 <= i < n + 1 implies is_progress(#[trigger] completions[i]) by {
            if i > 0 {
                assert(rest[i - 1] == completions[i]);
            }
        }
        n + 1
    }
}

/// What is left of leading INFO and TEXT responses after the first one.
pub(crate) proof fn lemma_progress_tail(completions: Seq<CompletionView>, n: int)
    requires
        progress_before(completions, n),
        n > 0,
    ensures
        is_progress(completions[0]),
        progress_before(completions.drop_first(), n - 1),
        completions.drop_first().skip(n - 1) == completions.skip(n),
{
    let rest = completions.drop_first();
    assert forall|i: int| 0 <= i < n - 1 implies is_progress(#[trigger] rest[i]) by {
        assert(rest[i] == completions[i + 1]);
    }
    assert(rest.skip(n - 1) =~= completions.skip(n));
}

/// Running over INFO and TEXT responses is running what follows them.
proof fn lemma_progress_is_skipped(max_in: u16, completions: Seq<CompletionView>, n: int)
    requires
        progress_before(completions, n),
    ensures
        ExecutionView::waiting(max_in).run(completions) == ExecutionView::waiting(max_in).run(
            completions.skip(n),
        ),
    decreases n,
{
    if n > 0 {
        lemma_progress_tail(completions, n);
        lemma_progress_is_skipped(max_in, completions.drop_first(), n - 1);
    } else {
        assert(completions.skip(0) =~= completions);
    }
}

/// However many INFO and TEXT responses the device sends, it is the first other transfer that
/// decides what comes of a command, and nothing after it.
pub proof fn law_first_conclusion_decides(
    max_in: u16,
    completions: Seq<CompletionView>,
    n: int,
)
    requires
        n < completions.len(),
        progress_before(completions, n),
        !is_progress(completions[n]),
    ensures
        ExecutionView::waiting(max_in).run(completions) == Some(verdict(completions[n])),
{
    lemma_progress_is_skipped(max_in, completions, n);
    assert(completions.skip(n)[0] == completions[n]);
}

/// A command stays open for as long as the device sends nothing but INFO and TEXT.
pub proof fn law_progress_leaves_a_command_open(
    max_in: u16,
    completions: Seq<CompletionView>,
)
    requires
        progress_before(completions, completions.len() as int),
    ensures
        ExecutionView::waiting(max_in).run(completions) is None,
{
    lemma_progress_is_skipped(max_in, completions, completions.len() as int);
}

/// A command succeeds only by an OKAY, and with what that says.
pub proof fn law_success_takes_an_okay(
    max_in: u16,
    completions: Seq<CompletionView>,
    value: Seq<char>,
)
    requires
        ExecutionView::waiting(max_in).run(completions) == Some(Ok::<_, ErrorView>(value)),
    ensures
        exists|n: int|
            #[trigger] okay_at(completions, n) && reply(completions[n]) == Ok::<_, ErrorView>(
                ResponseView::Okay(value),
            ),
{
    let n = lemma_first_other(completions);
    if n < completions.len() {
        law_first_conclusion_decides(max_in, completions, n);
        assert(okay_at(completions, n));
    } else {
        law_progress_leaves_a_command_open(max_in, completions);
    }
}

/// A transfer counts as sent only if all of it, and no more, crossed the bus.
pub proof fn law_short_or_excess_transfers_are_rejected(
    expected: usize,
    completion: CompletionView,
)
    ensures
        sent(expected, completion) is Ok <==> completion.status is Ok && completion.actual_len
            == expected,
{
}

/// A command that was not sent whole fails at once; one that was is in the hands of the device.
pub proof fn law_command_is_sent_before_it_is_answered(
    max_in: u16,
    command: Seq<u8>,
    completions: Seq<CompletionView>,
)
    requires
        command.len() <= usize::MAX,
        completions.len() > 0,
    ensures
        ({
            let started = ExecutionView { max_in, in_flight: Some(command.len() as usize) };
            &&& ExecutionView::send(max_in, command) == StepView::<_, Seq<char>>::Out(
                command,
                started,
            )
            &&& sent(command.len() as usize, completions[0]) matches Err(e) ==> started.run(
                completions,
            ) == Some(Err::<Seq<char>, _>(e))
            &&& sent(command.len() as usize, completions[0]) is Ok ==> started.run(completions)
                == ExecutionView::waiting(max_in).run(completions.drop_first())
        }),
{
}

/// Whatever text it is given as an implementation-specific command, the client sends only what a
/// device can take: 1 to 64 printable ASCII characters, sent as they are.
pub proof fn law_only_valid_commands_are_sent(client: NusbFastBoot, command: Seq<u8>)
    ensures
        client.commanded(command) matches StepView::Out(bytes, _) ==> bytes == command
            && valid_command(bytes),
        client.commanded(command) matches StepView::Done(outcome) ==> outcome == Err::<
            Seq<char>,
            _,
        >(ErrorView::InvalidCommand) && !valid_command(command),
        !(client.commanded(command) is In),
{
}

/// What may be sent as a command is a text of 1 to 64 characters, from the space to the tilde.
pub proof fn law_commands_are_printable(command: Seq<char>)
    ensures
        valid_command(encode_utf8(command)) <==> 1 <= command.len() <= 64 && (forall|i: int|
            0 <= i < command.len() ==> ' ' <= #[trigger] command[i] <= '~'),
{
    lemma_printable_text(command);
}

/// A text is encoded in printable bytes where all its characters are printable, and then a byte
/// stands for each.
pub(crate) proof fn lemma_printable_text(text: Seq<char>)
    ensures
        (forall|i: int|
            0 <= i < encode_utf8(text).len() ==> 0x20 <= #[trigger] encode_utf8(text)[i] <= 0x7e)
            <==> (forall|i: int| 0 <= i < text.len() ==> ' ' <= #[trigger] text[i] <= '~'),
        (forall|i: int| 0 <= i < text.len() ==> ' ' <= #[trigger] text[i] <= '~') ==> encode_utf8(
            text,
        ).len() == text.len(),
{
    let bytes = encode_utf8(text);
    if forall|i: int| 0 <= i < bytes.len() ==> 0x20 <= #[trigger] bytes[i] <= 0x7e {
        lemma_ascii_bytes_are_ascii_chars(text);
        is_ascii_chars_encode_utf8(text);
        assert forall|i: int| 0 <= i < text.len() implies ' ' <= #[trigger] text[i] <= '~' by {
            assert(bytes[i] == text[i] as u8);
        }
    }
    if forall|i: int| 0 <= i < text.len() ==> ' ' <= #[trigger] text[i] <= '~' {
        is_ascii_chars_encode_utf8(text);
        assert forall|i: int| 0 <= i < bytes.len() implies 0x20 <= #[trigger] bytes[i] <= 0x7e by {
            assert(bytes[i] == text[i] as u8);
        }
    }
}

/// A transfer that failed is an error with its reason, and one of another length an error with
/// the two lengths.
pub proof fn law_transfers_fail_with_what_went_wrong(
    expected: usize,
    completion: CompletionView,
)
    ensures
        completion.status matches Err(e) ==> sent(expected, completion) == Err::<(), _>(
            ErrorView::Transfer(e),
        ) && reply(completion) == Err::<ResponseView, _>(ErrorView::Transfer(e)),
        completion.status is Ok && completion.actual_len != expected ==> sent(expected, completion)
            == Err::<(), _>(
            ErrorView::IncorrectLength { expected, actual: completion.actual_len },
        ),
        expected != completion.actual_len ==> length_check(expected, completion.actual_len)
            == Err::<(), _>(
            ErrorView::IncorrectLength { expected, actual: completion.actual_len },
        ),
        length_check(expected, expected) is Ok,
{
}

/// What the device replied is what the bytes of the transfer say.
pub proof fn law_replies_are_read(completion: CompletionView, text: Seq<char>, length: u32)
    requires
        completion.status is Ok,
    ensures
        completion.bytes == encode_utf8("OKAY"@ + text) <==> reply(completion) == Ok::<
            _,
            ErrorView,
        >(ResponseView::Okay(text)),
        completion.bytes == encode_utf8("INFO"@ + text) <==> reply(completion) == Ok::<
            _,
            ErrorView,
        >(ResponseView::Info(text)),
        completion.bytes == encode_utf8("TEXT"@ + text) <==> reply(completion) == Ok::<
            _,
            ErrorView,
        >(ResponseView::Text(text)),
        completion.bytes == encode_utf8("FAIL"@ + text) <==> reply(completion) == Ok::<
            _,
            ErrorView,
        >(ResponseView::Fail(text)),
        ({
            &&& completion.bytes.len() > 4
            &&& completion.bytes.take(4) == encode_utf8("DATA"@)
            &&& valid_utf8(completion.bytes.skip(4))
            &&& hex_u32(completion.bytes.skip(4)) == Some(length)
        }) ==> reply(completion) == Ok::<_, ErrorView>(ResponseView::Data(length)),
        reply(completion) == Ok::<_, ErrorView>(ResponseView::Data(length)) ==> {
            &&& completion.bytes.take(4) == encode_utf8("DATA"@)
            &&& hex_u32(completion.bytes.skip(4)) == Some(length)
        },
        parsed(completion.bytes) matches Err(e) ==> reply(completion) == Err::<ResponseView, _>(
            ErrorView::FastbootParseError(e),
        ),
{
    let bytes = completion.bytes;
    law_nothing_else_is_a_response(bytes);
    encode_utf8_valid_utf8(text);
    law_responses_are_read_by_their_word(text, encode_utf8(text), length);
    if bytes.len() > 4 && valid_utf8(bytes.skip(4)) {
        law_responses_are_read_by_their_word(text, bytes.skip(4), length);
        assert(bytes.take(4) + bytes.skip(4) =~= bytes);
    }
}

/// INFO and TEXT leave a command open: the client goes on listening, for a packet at a time. OKAY
/// ends the command with what it says, and FAIL with what it says as the reason; DATA ends it as
/// unexpected.
pub proof fn law_answers_are_understood(
    max_in: u16,
    completion: CompletionView,
    text: Seq<char>,
    length: u32,
)
    ensures
        ({
            let waiting = ExecutionView { max_in, in_flight: None };
            let next = waiting.step(completion);
            &&& completion.status matches Err(e) ==> next == StepView::<
                ExecutionView,
                Seq<char>,
            >::Done(Err(ErrorView::Transfer(e)))
            &&& completion.status is Ok ==> {
                &&& completion.bytes == encode_utf8("OKAY"@ + text) ==> next == StepView::<
                    ExecutionView,
                    Seq<char>,
                >::Done(Ok(text))
                &&& completion.bytes == encode_utf8("FAIL"@ + text) ==> next == StepView::<
                    ExecutionView,
                    Seq<char>,
                >::Done(Err(ErrorView::FastbootFailed(text)))
                &&& completion.bytes == encode_utf8("INFO"@ + text) ==> next == StepView::<
                    ExecutionView,
                    Seq<char>,
                >::In(max_in as nat, waiting)
                &&& completion.bytes == encode_utf8("TEXT"@ + text) ==> next == StepView::<
                    ExecutionView,
                    Seq<char>,
                >::In(max_in as nat, waiting)
                &&& reply(completion) == Ok::<_, ErrorView>(ResponseView::Data(length)) ==> next
                    == StepView::<ExecutionView, Seq<char>>::Done(
                    Err(ErrorView::FastbootUnexpectedReply),
                )
                &&& parsed(completion.bytes) matches Err(e) ==> next == StepView::<
                    ExecutionView,
                    Seq<char>,
                >::Done(Err(ErrorView::FastbootParseError(e)))
            }
        }),
{
    if completion.status is Ok {
        law_replies_are_read(completion, text, length);
    }
}

/// INFO and TEXT, with whatever text, are what leaves a command open, and nothing else does.
pub proof fn law_progress_is_info_or_text(completion: CompletionView)
    ensures
        is_progress(completion) <==> completion.status is Ok && exists|text: Seq<char>|
            completion.bytes == #[trigger] encode_utf8("INFO"@ + text) || completion.bytes
                == encode_utf8("TEXT"@ + text),
{
    if completion.status is Ok {
        law_nothing_else_is_a_response(completion.bytes);
        if exists|text: Seq<char>|
            completion.bytes == #[trigger] encode_utf8("INFO"@ + text) || completion.bytes
                == encode_utf8("TEXT"@ + text) {
            let text = choose|text: Seq<char>|
                completion.bytes == #[trigger] encode_utf8("INFO"@ + text) || completion.bytes
                    == encode_utf8("TEXT"@ + text);
            law_replies_are_read(completion, text, 0);
        }
        match reply(completion) {
            Ok(ResponseView::Info(text)) => {
                assert(completion.bytes == encode_utf8("INFO"@ + text));
            },
            Ok(ResponseView::Text(text)) => {
                let info = encode_utf8("INFO"@ + text);
                assert(completion.bytes == encode_utf8("TEXT"@ + text));
            },
            _ => {},
        }
    }
}

/// An OKAY, or the announcement of data, counts at a place where it stands and where there is
/// nothing but INFO and TEXT before it.
pub proof fn law_conclusions_come_after_progress(
    completions: Seq<CompletionView>,
    n: int,
    length: u32,
)
    ensures
        okay_at(completions, n) <==> {
            &&& 0 <= n < completions.len()
            &&& forall|i: int| 0 <= i < n ==> is_progress(#[trigger] completions[i])
            &&& reply(completions[n]) matches Ok(response) && response is Okay
        },
        data_at(completions, n, length) <==> {
            &&& 0 <= n < completions.len()
            &&& forall|i: int| 0 <= i < n ==> is_progress(#[trigger] completions[i])
            &&& reply(completions[n]) matches Ok(response) && response == ResponseView::Data(length)
        },
{
}

/// A command goes out as it is. When the device has got all of it, and then says OKAY, after
/// whatever INFO and TEXT, the command has succeeded with what the OKAY says; when it says FAIL,
/// the command has failed with that as the reason.
pub proof fn law_command_is_carried_out(
    max_in: u16,
    command: Seq<u8>,
    request: CompletionView,
    chatter: Seq<CompletionView>,
    last: CompletionView,
    text: Seq<char>,
)
    requires
        command.len() <= usize::MAX,
        request.status is Ok,
        request.actual_len == command.len(),
        forall|i: int| 0 <= i < chatter.len() ==> is_progress(#[trigger] chatter[i]),
        last.status is Ok,
    ensures
        ExecutionView::send(max_in, command) matches StepView::Out(bytes, next) && {
            &&& bytes == command
            &&& next.run(seq![request] + chatter) is None
            &&& last.bytes == encode_utf8("OKAY"@ + text) ==> next.run(
                seq![request] + chatter.push(last),
            ) == Some(Ok::<_, ErrorView>(text))
            &&& last.bytes == encode_utf8("FAIL"@ + text) ==> next.run(
                seq![request] + chatter.push(last),
            ) == Some(Err::<Seq<char>, _>(ErrorView::FastbootFailed(text)))
        },
{
    let started = ExecutionView { max_in, in_flight: Some(command.len() as usize) };
    let all = chatter.push(last);
    law_replies_are_read(last, text, 0);
    assert((seq![request] + chatter).drop_first() =~= chatter);
    assert((seq![request] + all).drop_first() =~= all);
    assert(started.run(seq![request] + chatter) == ExecutionView::waiting(max_in).run(chatter));
    assert(started.run(seq![request] + all) == ExecutionView::waiting(max_in).run(all));
    law_progress_leaves_a_command_open(max_in, chatter);
    assert forall|i: int| 0 <= i < chatter.len() implies is_progress(#[trigger] all[i]) by {
        assert(all[i] == chatter[i]);
    }
    assert(all[chatter.len() as int] == last);
    if !is_progress(last) {
        law_first_conclusion_decides(max_in, all, chatter.len() as int);
    }
}

/// A command that did not go out whole has failed, whatever the device says.
pub proof fn law_command_in_part_fails(max_in: u16, command: Seq<u8>, request: CompletionView)
    requires
        command.len() <= usize::MAX,
    ensures
        ExecutionView::send(max_in, command) matches StepView::Out(_, next) && {
            &&& request.status matches Err(e) ==> next.step(request) == StepView::<
                ExecutionView,
                Seq<char>,
            >::Done(Err(ErrorView::Transfer(e)))
            &&& request.status is Ok && request.actual_len != command.len() ==> next.step(request)
                == StepView::<ExecutionView, Seq<char>>::Done(
                Err(
                    ErrorView::IncorrectLength {
                        expected: command.len() as usize,
                        actual: request.actual_len,
                    },
                ),
            )
            &&& request.status is Ok && request.actual_len == command.len() ==> next.step(request)
                == StepView::<ExecutionView, Seq<char>>::In(
                max_in as nat,
                ExecutionView { max_in, in_flight: None },
            )
        },
{
}

/// Every text of 1 to 64 characters from the space to the tilde is sent as a command, character by
/// character, and no other text is.
pub proof fn law_printable_commands_are_sent(client: NusbFastBoot, command: Seq<char>)
    ensures
        ({
            let printable = 1 <= command.len() <= 64 && (forall|i: int|
                0 <= i < command.len() ==> ' ' <= #[trigger] command[i] <= '~');
            let bytes = encode_utf8(command);
            &&& printable ==> bytes.len() == command.len() && client.commanded(bytes)
                == ExecutionView::send(client.max_in, bytes)
            &&& !printable ==> client.commanded(bytes) == StepView::<
                ExecutionView,
                Seq<char>,
            >::Done(Err(ErrorView::InvalidCommand))
        }),
{
    law_commands_are_printable(command);
    if forall|i: int| 0 <= i < command.len() ==> ' ' <= #[trigger] command[i] <= '~' {
        is_ascii_chars_encode_utf8(command);
    }
}

/// A step is spoken of by what it does: the bytes that go out, how many are asked for, or the
/// outcome.
pub proof fn law_steps_are_seen_as_they_are(step: Step<Execution, String>)
    ensures
        match step {
            Step::Out(buffer, next) => step@ == StepView::<_, Seq<char>>::Out(
                buffer_bytes(buffer),
                next@,
            ),
            Step::In(buffer, next) => step@ == StepView::<_, Seq<char>>::In(
                buffer_requested(buffer),
                next@,
            ),
            Step::Done(Ok(value)) => step@ == StepView::<ExecutionView, _>::Done(Ok(value@)),
            Step::Done(Err(e)) => step@ == StepView::<ExecutionView, Seq<char>>::Done(Err(e@)),
        },
{
}

/// The client listens for one packet at a time.
pub proof fn law_client_listens_for_a_packet(max_in: u16)
    ensures
        ExecutionView::listen(max_in) == StepView::<_, Seq<char>>::In(
            max_in as nat,
            ExecutionView { max_in, in_flight: None },
        ),
{
}

} // verus!
