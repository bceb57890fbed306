//! The fastboot protocol on the wire: the text of a command, and the reading of a response.
use crate::text::{
    hex_u32, law_eight_digits_read_back, law_padded_hex_is_in_lower_case, lemma_encoded_behind,
    padded_hex,
};
use crate::text::{parse_hex_u32, push_padded_hex, push_text};
use vstd::prelude::*;
use vstd::slice::slice_subrange;
use vstd::utf8::{
    decode_utf8, decode_utf8_encode_utf8, encode_utf8, encode_utf8_decode_utf8,
    encode_utf8_valid_utf8, is_ascii_chars_encode_utf8, is_leading_byte_width_1, partial_valid_utf8,
    partial_valid_utf8_extend_ascii_block, valid_utf8,
};

verus! {

/// A command to the device
#[derive(Debug, Clone, Copy)]
pub enum FastBootCommand<'a> {
    /// Tell the value of a variable
    GetVar(&'a str),
    /// Take so many bytes of data
    Download(u32),
    /// Write the downloaded data to a partition
    Flash(&'a str),
    /// Erase a partition
    Erase(&'a str),
    /// Go on booting
    Continue,
    /// Reboot
    Reboot,
    /// Reboot into a mode
    RebootTo(&'a str),
}

impl<'a> FastBootCommand<'a> {
    /// The bytes that the command is sent as.
    pub open spec fn wire(self) -> Seq<u8> {
        match self {
            FastBootCommand::GetVar(var) => encode_utf8("getvar:"@) + encode_utf8(var@),
            FastBootCommand::Download(size) => encode_utf8("download:"@) + padded_hex(
                size as nat,
                8,
            ),
            FastBootCommand::Flash(target) => encode_utf8("flash:"@) + encode_utf8(target@),
            FastBootCommand::Erase(target) => encode_utf8("erase:"@) + encode_utf8(target@),
            FastBootCommand::Continue => encode_utf8("continue"@),
            FastBootCommand::Reboot => encode_utf8("reboot"@),
            FastBootCommand::RebootTo(mode) => encode_utf8("reboot-"@) + encode_utf8(mode@),
        }
    }

    /// The bytes that the command is sent as.
    pub fn to_bytes(&self) -> (bytes: Vec<u8>)
        ensures
            bytes@ == self.wire(),
    {
        let mut bytes: Vec<u8> = Vec::new();
        match self {
            FastBootCommand::GetVar(var) => {
                push_text(&mut bytes, "getvar:");
                push_text(&mut bytes, var);
            },
            FastBootCommand::Download(size) => {
                push_text(&mut bytes, "download:");
                push_padded_hex(&mut bytes, *size, 8);
            },
            FastBootCommand::Flash(target) => {
                push_text(&mut bytes, "flash:");
                push_text(&mut bytes, target);
            },
            FastBootCommand::Erase(target) => {
                push_text(&mut bytes, "erase:");
                push_text(&mut bytes, target);
            },
            FastBootCommand::Continue => {
                push_text(&mut bytes, "continue");
            },
            FastBootCommand::Reboot => {
                push_text(&mut bytes, "reboot");
            },
            FastBootCommand::RebootTo(mode) => {
                push_text(&mut bytes, "reboot-");
                push_text(&mut bytes, mode);
            },
        }
        assert(bytes@ =~= self.wire());
        bytes
    }
}

/// A response of the device
#[derive(Debug)]
pub enum FastBootResponse {
    /// The command is done
    Okay(String),
    /// A line for the user; the command goes on
    Info(String),
    /// Text for the user, without an end of line; the command goes on
    Text(String),
    /// The command failed
    Fail(String),
    /// So many bytes of data are to follow
    Data(u32),
}

/// A [`FastBootResponse`] with its text taken as characters.
pub enum ResponseView {
    /// See [`FastBootResponse::Okay`]
    Okay(Seq<char>),
    /// See [`FastBootResponse::Info`]
    Info(Seq<char>),
    /// See [`FastBootResponse::Text`]
    Text(Seq<char>),
    /// See [`FastBootResponse::Fail`]
    Fail(Seq<char>),
    /// See [`FastBootResponse::Data`]
    Data(u32),
}

impl View for FastBootResponse {
    type V = ResponseView;

    open spec fn view(&self) -> ResponseView {
        match *self {
            FastBootResponse::Okay(text) => ResponseView::Okay(text@),
            FastBootResponse::Info(text) => ResponseView::Info(text@),
            FastBootResponse::Text(text) => ResponseView::Text(text@),
            FastBootResponse::Fail(text) => ResponseView::Fail(text@),
            FastBootResponse::Data(length) => ResponseView::Data(length),
        }
    }
}

/// Why bytes from the device are no fastboot response
#[derive(Debug, Clone, Copy, PartialEq, Eq, Structural)]
pub enum FastBootResponseParseError {
    /// The response has none of the known kinds
    UnknownReply,
    /// The length in a DATA response is no hexadecimal number of 32 bits
    DataLength,
    /// The response is no UTF-8 text
    ParsePayload,
}

/// The four letters at the start of a response that say of what kind it is.
pub open spec fn tag(a: char, b: char, c: char, d: char) -> Seq<u8> {
    seq![a as u8, b as u8, c as u8, d as u8]
}

/// What the bytes of a response say.
pub open spec fn parsed(bytes: Seq<u8>) -> Result<ResponseView, FastBootResponseParseError> {
    let kind = bytes.take(4);
    let payload = bytes.skip(4);
    if bytes.len() < 4 {
        Err(FastBootResponseParseError::UnknownReply)
    } else if !valid_utf8(kind) || !valid_utf8(payload) {
        Err(FastBootResponseParseError::ParsePayload)
    } else if kind == tag('O', 'K', 'A', 'Y') {
        Ok(ResponseView::Okay(decode_utf8(payload)))
    } else if kind == tag('I', 'N', 'F', 'O') {
        Ok(ResponseView::Info(decode_utf8(payload)))
    } else if kind == tag('T', 'E', 'X', 'T') {
        Ok(ResponseView::Text(decode_utf8(payload)))
    } else if kind == tag('F', 'A', 'I', 'L') {
        Ok(ResponseView::Fail(decode_utf8(payload)))
    } else if kind == tag('D', 'A', 'T', 'A') {
        match hex_u32(payload) {
            Some(length) => Ok(ResponseView::Data(length)),
            None => Err(FastBootResponseParseError::DataLength),
        }
    } else {
        Err(FastBootResponseParseError::UnknownReply)
    }
}

fn has_tag(bytes: &[u8], a: u8, b: u8, c: u8, d: u8) -> (found: bool)
    requires
        bytes@.len() >= 4,
    ensures
        found == (bytes@.take(4) == seq![a, b, c, d]),
{
    let found = bytes[0] == a && bytes[1] == b && bytes[2] == c && bytes[3] == d;
    proof {
        let kind = bytes@.take(4);
        if found {
            assert(kind =~= seq![a, b, c, d]);
        } else if kind == seq![a, b, c, d] {
            assert(kind[0] == a && kind[1] == b && kind[2] == c && kind[3] == d);
        }
    }
    found
}

impl FastBootResponse {
    /// Reads a response.
    pub fn from_bytes(bytes: &[u8]) -> (response: Result<
        FastBootResponse,
        FastBootResponseParseError,
    >)
        ensures
            match (response, parsed(bytes@)) {
                (Ok(r), Ok(expected)) => r@ == expected,
                (Err(e), Err(expected)) => e == expected,
                _ => false,
            },
    {
        if bytes.len() < 4 {
            return Err(FastBootResponseParseError::UnknownReply);
        }
        let payload_bytes = slice_subrange(bytes, 4, bytes.len());
        assert(payload_bytes@ =~= bytes@.skip(4));
        if core::str::from_utf8(slice_subrange(bytes, 0, 4)).is_err() {
            return Err(FastBootResponseParseError::ParsePayload);
        }
        let payload = match core::str::from_utf8(payload_bytes) {
            Ok(text) => text,
            Err(_) => {
                return Err(FastBootResponseParseError::ParsePayload);
            },
        };
        if has_tag(bytes, 0x4f, 0x4b, 0x41, 0x59) {
            Ok(FastBootResponse::Okay(payload.to_string()))
        } else if has_tag(bytes, 0x49, 0x4e, 0x46, 0x4f) {
            Ok(FastBootResponse::Info(payload.to_string()))
        } else if has_tag(bytes, 0x54, 0x45, 0x58, 0x54) {
            Ok(FastBootResponse::Text(payload.to_string()))
        } else if has_tag(bytes, 0x46, 0x41, 0x49, 0x4c) {
            Ok(FastBootResponse::Fail(payload.to_string()))
        } else if has_tag(bytes, 0x44, 0x41, 0x54, 0x41) {
            match parse_hex_u32(payload_bytes) {
                Some(length) => Ok(FastBootResponse::Data(length)),
                None => Err(FastBootResponseParseError::DataLength),
            }
        } else {
            Err(FastBootResponseParseError::UnknownReply)
        }
    }
}

/// The bytes that a device sends a response as.
pub open spec fn response_wire(response: ResponseView) -> Seq<u8> {
    match response {
        ResponseView::Okay(text) => tag('O', 'K', 'A', 'Y') + encode_utf8(text),
        ResponseView::Info(text) => tag('I', 'N', 'F', 'O') + encode_utf8(text),
        ResponseView::Text(text) => tag('T', 'E', 'X', 'T') + encode_utf8(text),
        ResponseView::Fail(text) => tag('F', 'A', 'I', 'L') + encode_utf8(text),
        ResponseView::Data(length) => tag('D', 'A', 'T', 'A') + padded_hex(length as nat, 8),
    }
}

proof fn lemma_ascii_is_utf8(bytes: Seq<u8>)
    requires
        forall|i: int| 0 <= i < bytes.len() ==> bytes[i] < 0x80,
    ensures
        valid_utf8(bytes),
{
    assert(bytes.subrange(0, 0) =~= Seq::<u8>::empty());
    assert(partial_valid_utf8(bytes, 0));
    assert forall|i: int| 0 <= i < bytes.len() implies #[trigger] is_leading_byte_width_1(
        bytes[i],
    ) by {}
    partial_valid_utf8_extend_ascii_block(bytes, 0, bytes.len() as int);
    assert(bytes.subrange(0, bytes.len() as int) =~= bytes);
}

/// Every response, sent by a device, is read for what it is.
pub proof fn law_response_reads_back(response: ResponseView)
    ensures
        parsed(response_wire(response)) == Ok::<_, FastBootResponseParseError>(response),
{
    let wire = response_wire(response);
    let kind = match response {
        ResponseView::Okay(_) => tag('O', 'K', 'A', 'Y'),
        ResponseView::Info(_) => tag('I', 'N', 'F', 'O'),
        ResponseView::Text(_) => tag('T', 'E', 'X', 'T'),
        ResponseView::Fail(_) => tag('F', 'A', 'I', 'L'),
        ResponseView::Data(_) => tag('D', 'A', 'T', 'A'),
    };
    let payload = match response {
        ResponseView::Okay(text) => encode_utf8(text),
        ResponseView::Info(text) => encode_utf8(text),
        ResponseView::Text(text) => encode_utf8(text),
        ResponseView::Fail(text) => encode_utf8(text),
        ResponseView::Data(length) => padded_hex(length as nat, 8),
    };
    assert(wire.take(4) =~= kind);
    assert(wire.skip(4) =~= payload);
    lemma_ascii_is_utf8(kind);
    match response {
        ResponseView::Okay(text) => {
            encode_utf8_valid_utf8(text);
            encode_utf8_decode_utf8(text);
        },
        ResponseView::Info(text) => {
            encode_utf8_valid_utf8(text);
            encode_utf8_decode_utf8(text);
            assert(kind[0] != tag('O', 'K', 'A', 'Y')[0]);
        },
        ResponseView::Text(text) => {
            encode_utf8_valid_utf8(text);
            encode_utf8_decode_utf8(text);
            assert(kind[0] != tag('O', 'K', 'A', 'Y')[0]);
            assert(kind[0] != tag('I', 'N', 'F', 'O')[0]);
        },
        ResponseView::Fail(text) => {
            encode_utf8_valid_utf8(text);
            encode_utf8_decode_utf8(text);
            assert(kind[0] != tag('O', 'K', 'A', 'Y')[0]);
            assert(kind[0] != tag('I', 'N', 'F', 'O')[0]);
            assert(kind[0] != tag('T', 'E', 'X', 'T')[0]);
        },
        ResponseView::Data(length) => {
            law_eight_digits_read_back(length);
            lemma_ascii_is_utf8(payload);
            assert(kind[0] != tag('O', 'K', 'A', 'Y')[0]);
            assert(kind[0] != tag('I', 'N', 'F', 'O')[0]);
            assert(kind[0] != tag('T', 'E', 'X', 'T')[0]);
            assert(kind[0] != tag('F', 'A', 'I', 'L')[0]);
        },
    }
}

/// What a text is sent as, and how it reads, when it is put behind a word of ASCII.
proof fn lemma_behind_a_word(word: Seq<char>, text: Seq<char>)
    requires
        forall|i: int| 0 <= i < word.len() ==> '\0' <= #[trigger] word[i] <= '\u{7f}',
    ensures
        encode_utf8(word).len() == word.len(),
        forall|i: int|
            0 <= i < word.len() ==> #[trigger] encode_utf8(word)[i] == word[i] as u8,
        encode_utf8(word + text) == encode_utf8(word) + encode_utf8(text),
        encode_utf8(word + text).take(word.len() as int) == encode_utf8(word),
        encode_utf8(word + text).skip(word.len() as int) == encode_utf8(text),
        valid_utf8(encode_utf8(word)),
        valid_utf8(encode_utf8(text)),
        decode_utf8(encode_utf8(text)) == text,
{
    is_ascii_chars_encode_utf8(word);
    lemma_encoded_behind(word, text);
    encode_utf8_valid_utf8(word);
    encode_utf8_valid_utf8(text);
    encode_utf8_decode_utf8(text);
    assert(encode_utf8(word + text).take(word.len() as int) =~= encode_utf8(word));
    assert(encode_utf8(word + text).skip(word.len() as int) =~= encode_utf8(text));
}

/// A command with an argument is its word, and behind that the argument, whole and as it was
/// given: what stands behind the word reads as the argument.
pub proof fn law_arguments_are_carried_whole(argument: &str)
    ensures
        FastBootCommand::GetVar(argument).wire() == encode_utf8("getvar:"@ + argument@),
        decode_utf8(FastBootCommand::GetVar(argument).wire().skip(7)) == argument@,
        FastBootCommand::Flash(argument).wire() == encode_utf8("flash:"@ + argument@),
        decode_utf8(FastBootCommand::Flash(argument).wire().skip(6)) == argument@,
        FastBootCommand::Erase(argument).wire() == encode_utf8("erase:"@ + argument@),
        decode_utf8(FastBootCommand::Erase(argument).wire().skip(6)) == argument@,
        FastBootCommand::RebootTo(argument).wire() == encode_utf8("reboot-"@ + argument@),
        decode_utf8(FastBootCommand::RebootTo(argument).wire().skip(7)) == argument@,
{
    reveal_strlit("getvar:");
    reveal_strlit("flash:");
    reveal_strlit("erase:");
    reveal_strlit("reboot-");
    lemma_behind_a_word("getvar:"@, argument@);
    lemma_behind_a_word("flash:"@, argument@);
    lemma_behind_a_word("erase:"@, argument@);
    lemma_behind_a_word("reboot-"@, argument@);
}

/// The request for a download is its word, and behind that the size in eight digits, which read
/// as the size.
pub proof fn law_download_names_its_size(size: u32)
    ensures
        FastBootCommand::Download(size).wire().take(9) == encode_utf8("download:"@),
        FastBootCommand::Download(size).wire().len() == 17,
        hex_u32(FastBootCommand::Download(size).wire().skip(9)) == Some(size),
        forall|i: int|
            9 <= i < 17 ==> '0' as u8 <= #[trigger] FastBootCommand::Download(size).wire()[i]
                <= '9' as u8 || 'a' as u8 <= FastBootCommand::Download(size).wire()[i] <= 'f' as u8,
{
    reveal_strlit("download:");
    lemma_behind_a_word("download:"@, Seq::empty());
    law_eight_digits_read_back(size);
    law_padded_hex_is_in_lower_case(size as nat, 8);
    let wire = FastBootCommand::Download(size).wire();
    assert(wire.take(9) =~= encode_utf8("download:"@));
    assert(wire.skip(9) =~= padded_hex(size as nat, 8));
}

/// The commands without an argument are their words.
pub proof fn law_commands_without_argument_are_their_words()
    ensures
        FastBootCommand::Continue.wire() == encode_utf8("continue"@),
        FastBootCommand::Reboot.wire() == encode_utf8("reboot"@),
{
}

/// No two commands are sent as the same bytes: the device can tell which it was, and with which
/// argument.
pub proof fn law_commands_are_told_apart(one: FastBootCommand, other: FastBootCommand)
    requires
        one.wire() == other.wire(),
    ensures
        match (one, other) {
            (FastBootCommand::GetVar(a), FastBootCommand::GetVar(b)) => a@ == b@,
            (FastBootCommand::Download(a), FastBootCommand::Download(b)) => a == b,
            (FastBootCommand::Flash(a), FastBootCommand::Flash(b)) => a@ == b@,
            (FastBootCommand::Erase(a), FastBootCommand::Erase(b)) => a@ == b@,
            (FastBootCommand::Continue, FastBootCommand::Continue) => true,
            (FastBootCommand::Reboot, FastBootCommand::Reboot) => true,
            (FastBootCommand::RebootTo(a), FastBootCommand::RebootTo(b)) => a@ == b@,
            _ => false,
        },
{
    lemma_start_of_command(one);
    lemma_start_of_command(other);
    match one {
        FastBootCommand::GetVar(a) => law_arguments_are_carried_whole(a),
        FastBootCommand::Flash(a) => law_arguments_are_carried_whole(a),
        FastBootCommand::Erase(a) => law_arguments_are_carried_whole(a),
        FastBootCommand::RebootTo(a) => law_arguments_are_carried_whole(a),
        FastBootCommand::Download(a) => law_download_names_its_size(a),
        _ => {},
    }
    match other {
        FastBootCommand::GetVar(b) => law_arguments_are_carried_whole(b),
        FastBootCommand::Flash(b) => law_arguments_are_carried_whole(b),
        FastBootCommand::Erase(b) => law_arguments_are_carried_whole(b),
        FastBootCommand::RebootTo(b) => law_arguments_are_carried_whole(b),
        FastBootCommand::Download(b) => law_download_names_its_size(b),
        _ => {},
    }
}

proof fn lemma_start_of_command(command: FastBootCommand)
    ensures
        command.wire().len() >= 6,
        command.wire()[0] == match command {
            FastBootCommand::GetVar(_) => 'g' as u8,
            FastBootCommand::Download(_) => 'd' as u8,
            FastBootCommand::Flash(_) => 'f' as u8,
            FastBootCommand::Erase(_) => 'e' as u8,
            FastBootCommand::Continue => 'c' as u8,
            FastBootCommand::Reboot => 'r' as u8,
            FastBootCommand::RebootTo(_) => 'r' as u8,
        },
        command is Reboot ==> command.wire().len() == 6,
        command is RebootTo ==> command.wire().len() > 6,
{
    reveal_strlit("getvar:");
    reveal_strlit("download:");
    reveal_strlit("flash:");
    reveal_strlit("erase:");
    reveal_strlit("continue");
    reveal_strlit("reboot");
    reveal_strlit("reboot-");
    is_ascii_chars_encode_utf8("getvar:"@);
    is_ascii_chars_encode_utf8("download:"@);
    is_ascii_chars_encode_utf8("flash:"@);
    is_ascii_chars_encode_utf8("erase:"@);
    is_ascii_chars_encode_utf8("continue"@);
    is_ascii_chars_encode_utf8("reboot"@);
    is_ascii_chars_encode_utf8("reboot-"@);
}

/// A response is read by its first word; what stands behind that is its text, whole, or the
/// length of the data.
pub proof fn law_responses_are_read_by_their_word(text: Seq<char>, digits: Seq<u8>, length: u32)
    requires
        valid_utf8(digits),
    ensures
        parsed(encode_utf8("OKAY"@ + text)) == Ok::<_, FastBootResponseParseError>(
            ResponseView::Okay(text),
        ),
        parsed(encode_utf8("INFO"@ + text)) == Ok::<_, FastBootResponseParseError>(
            ResponseView::Info(text),
        ),
        parsed(encode_utf8("TEXT"@ + text)) == Ok::<_, FastBootResponseParseError>(
            ResponseView::Text(text),
        ),
        parsed(encode_utf8("FAIL"@ + text)) == Ok::<_, FastBootResponseParseError>(
            ResponseView::Fail(text),
        ),
        hex_u32(digits) == Some(length) <==> parsed(encode_utf8("DATA"@) + digits) == Ok::<
            _,
            FastBootResponseParseError,
        >(ResponseView::Data(length)),
        hex_u32(digits) is None ==> parsed(encode_utf8("DATA"@) + digits) == Err::<
            ResponseView,
            _,
        >(FastBootResponseParseError::DataLength),
{
    reveal_strlit("OKAY");
    reveal_strlit("INFO");
    reveal_strlit("TEXT");
    reveal_strlit("FAIL");
    reveal_strlit("DATA");
    lemma_behind_a_word("OKAY"@, text);
    lemma_behind_a_word("INFO"@, text);
    lemma_behind_a_word("TEXT"@, text);
    lemma_behind_a_word("FAIL"@, text);
    lemma_behind_a_word("DATA"@, text);
    lemma_words();
    let data = encode_utf8("DATA"@) + digits;
    assert(data.take(4) =~= encode_utf8("DATA"@));
    assert(data.skip(4) =~= digits);
}

proof fn lemma_words()
    ensures
        encode_utf8("OKAY"@) == tag('O', 'K', 'A', 'Y'),
        encode_utf8("INFO"@) == tag('I', 'N', 'F', 'O'),
        encode_utf8("TEXT"@) == tag('T', 'E', 'X', 'T'),
        encode_utf8("FAIL"@) == tag('F', 'A', 'I', 'L'),
        encode_utf8("DATA"@) == tag('D', 'A', 'T', 'A'),
        tag('O', 'K', 'A', 'Y')[0] == 'O' as u8,
        tag('I', 'N', 'F', 'O')[0] == 'I' as u8,
        tag('T', 'E', 'X', 'T')[0] == 'T' as u8,
        tag('F', 'A', 'I', 'L')[0] == 'F' as u8,
        tag('D', 'A', 'T', 'A')[0] == 'D' as u8,
{
    reveal_strlit("OKAY");
    reveal_strlit("INFO");
    reveal_strlit("TEXT");
    reveal_strlit("FAIL");
    reveal_strlit("DATA");
    is_ascii_chars_encode_utf8("OKAY"@);
    is_ascii_chars_encode_utf8("INFO"@);
    is_ascii_chars_encode_utf8("TEXT"@);
    is_ascii_chars_encode_utf8("FAIL"@);
    is_ascii_chars_encode_utf8("DATA"@);
    assert(encode_utf8("OKAY"@) =~= tag('O', 'K', 'A', 'Y'));
    assert(encode_utf8("INFO"@) =~= tag('I', 'N', 'F', 'O'));
    assert(encode_utf8("TEXT"@) =~= tag('T', 'E', 'X', 'T'));
    assert(encode_utf8("FAIL"@) =~= tag('F', 'A', 'I', 'L'));
    assert(encode_utf8("DATA"@) =~= tag('D', 'A', 'T', 'A'));
}

/// Nothing is taken for a response but one of the five words with UTF-8 behind it: a response
/// that was read is the bytes it was read from.
pub proof fn law_nothing_else_is_a_response(bytes: Seq<u8>)
    ensures
        match parsed(bytes) {
            Ok(ResponseView::Okay(text)) => bytes == encode_utf8("OKAY"@ + text),
            Ok(ResponseView::Info(text)) => bytes == encode_utf8("INFO"@ + text),
            Ok(ResponseView::Text(text)) => bytes == encode_utf8("TEXT"@ + text),
            Ok(ResponseView::Fail(text)) => bytes == encode_utf8("FAIL"@ + text),
            Ok(ResponseView::Data(length)) => {
                &&& bytes.len() > 4
                &&& bytes.take(4) == encode_utf8("DATA"@)
                &&& hex_u32(bytes.skip(4)) == Some(length)
            },
            Err(FastBootResponseParseError::UnknownReply) => bytes.len() < 4 || {
                &&& bytes.take(4) != encode_utf8("OKAY"@)
                &&& bytes.take(4) != encode_utf8("INFO"@)
                &&& bytes.take(4) != encode_utf8("TEXT"@)
                &&& bytes.take(4) != encode_utf8("FAIL"@)
                &&& bytes.take(4) != encode_utf8("DATA"@)
            },
            Err(FastBootResponseParseError::DataLength) => {
                &&& bytes.len() >= 4
                &&& bytes.take(4) == encode_utf8("DATA"@)
                &&& hex_u32(bytes.skip(4)) is None
            },
            Err(FastBootResponseParseError::ParsePayload) => {
                &&& bytes.len() >= 4
                &&& !valid_utf8(bytes.take(4)) || !valid_utf8(bytes.skip(4))
            },
        },
        bytes.len() < 4 || (valid_utf8(bytes.take(4)) && valid_utf8(bytes.skip(4))) ==> parsed(
            bytes,
        ) != Err::<ResponseView, _>(FastBootResponseParseError::ParsePayload),
        bytes.len() >= 4 && !(valid_utf8(bytes.take(4)) && valid_utf8(bytes.skip(4))) ==> parsed(
            bytes,
        ) == Err::<ResponseView, _>(FastBootResponseParseError::ParsePayload),
        bytes.len() < 4 ==> parsed(bytes) == Err::<ResponseView, _>(
            FastBootResponseParseError::UnknownReply,
        ),
{
    lemma_words();
    if bytes.len() >= 4 {
        let text = decode_utf8(bytes.skip(4));
        assert(bytes.take(4) + bytes.skip(4) =~= bytes);
        if valid_utf8(bytes.skip(4)) {
            decode_utf8_encode_utf8(bytes.skip(4));
            lemma_encoded_behind("OKAY"@, text);
            lemma_encoded_behind("INFO"@, text);
            lemma_encoded_behind("TEXT"@, text);
            lemma_encoded_behind("FAIL"@, text);
        }
    }
}

/// A response is spoken of as what it is, with its text as it is.
pub proof fn law_responses_are_seen_as_they_are(response: FastBootResponse)
    ensures
        match response {
            FastBootResponse::Okay(text) => response@ == ResponseView::Okay(text@),
            FastBootResponse::Info(text) => response@ == ResponseView::Info(text@),
            FastBootResponse::Text(text) => response@ == ResponseView::Text(text@),
            FastBootResponse::Fail(text) => response@ == ResponseView::Fail(text@),
            FastBootResponse::Data(length) => response@ == ResponseView::Data(length),
        },
{
}

} // verus!
