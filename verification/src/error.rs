//! The errors of the client.
use crate::protocol::FastBootResponseParseError;
use nusb::transfer::TransferError;
use vstd::prelude::*;

verus! {

/// The USB stack's error for everything but transfers, carried through as it came.
#[verifier::external_type_specification]
#[verifier::external_body]
pub struct ExUsbError(nusb::Error);

/// Fastboot communication errors
#[derive(Debug)]
pub enum NusbFastBootError {
    /// The transfer failed on the bus
    Transfer(TransferError),
    /// The device answered FAIL, with its reason
    FastbootFailed(String),
    /// The device gave an answer that does not fit the request
    FastbootUnexpectedReply,
    /// The device gave an answer that is no fastboot response
    FastbootParseError(FastBootResponseParseError),
    /// The command may not be sent
    InvalidCommand,
    /// A transfer or an announced length is not the one it should be
    IncorrectLength {
        /// The length that was called for
        expected: usize,
        /// The length that came
        actual: usize,
    },
}

/// A [`NusbFastBootError`] with its text taken as characters.
pub enum ErrorView {
    /// See [`NusbFastBootError::Transfer`]
    Transfer(TransferError),
    /// See [`NusbFastBootError::FastbootFailed`]
    FastbootFailed(Seq<char>),
    /// See [`NusbFastBootError::FastbootUnexpectedReply`]
    FastbootUnexpectedReply,
    /// See [`NusbFastBootError::FastbootParseError`]
    FastbootParseError(FastBootResponseParseError),
    /// See [`NusbFastBootError::InvalidCommand`]
    InvalidCommand,
    /// See [`NusbFastBootError::IncorrectLength`]
    IncorrectLength {
        /// The length that was called for
        expected: usize,
        /// The length that came
        actual: usize,
    },
}

impl View for NusbFastBootError {
    type V = ErrorView;

    open spec fn view(&self) -> ErrorView {
        match *self {
            NusbFastBootError::Transfer(e) => ErrorView::Transfer(e),
            NusbFastBootError::FastbootFailed(reason) => ErrorView::FastbootFailed(reason@),
            NusbFastBootError::FastbootUnexpectedReply => ErrorView::FastbootUnexpectedReply,
            NusbFastBootError::FastbootParseError(e) => ErrorView::FastbootParseError(e),
            NusbFastBootError::InvalidCommand => ErrorView::InvalidCommand,
            NusbFastBootError::IncorrectLength { expected, actual } => ErrorView::IncorrectLength {
                expected,
                actual,
            },
        }
    }
}

impl From<TransferError> for NusbFastBootError {
    fn from(e: TransferError) -> (error: Self) {
        NusbFastBootError::Transfer(e)
    }
}

impl vstd::std_specs::convert::FromSpecImpl<TransferError> for NusbFastBootError {
    open spec fn obeys_from_spec() -> bool {
        true
    }

    open spec fn from_spec(e: TransferError) -> Self {
        NusbFastBootError::Transfer(e)
    }
}

impl From<FastBootResponseParseError> for NusbFastBootError {
    fn from(e: FastBootResponseParseError) -> (error: Self) {
        NusbFastBootError::FastbootParseError(e)
    }
}

impl vstd::std_specs::convert::FromSpecImpl<FastBootResponseParseError> for NusbFastBootError {
    open spec fn obeys_from_spec() -> bool {
        true
    }

    open spec fn from_spec(e: FastBootResponseParseError) -> Self {
        NusbFastBootError::FastbootParseError(e)
    }
}

/// Errors when opening the fastboot device
#[derive(Debug)]
pub enum NusbFastBootOpenError {
    /// The device could not be opened
    Device(nusb::Error),
    /// The interface could not be claimed
    Interface(nusb::Error),
    /// The device has no fastboot interface
    MissingInterface,
    /// The interface lacks the endpoints that fastboot needs
    MissingEndpoints,
    /// The device gave an answer that is no fastboot response
    FastbootParseError(FastBootResponseParseError),
}

impl From<FastBootResponseParseError> for NusbFastBootOpenError {
    fn from(e: FastBootResponseParseError) -> (error: Self) {
        NusbFastBootOpenError::FastbootParseError(e)
    }
}

impl vstd::std_specs::convert::FromSpecImpl<FastBootResponseParseError> for NusbFastBootOpenError {
    open spec fn obeys_from_spec() -> bool {
        true
    }

    open spec fn from_spec(e: FastBootResponseParseError) -> Self {
        NusbFastBootOpenError::FastbootParseError(e)
    }
}

/// Error during data download
#[derive(Debug)]
pub enum DownloadError {
    /// Completion was asked for while nothing was queued
    NothingQueued,
    /// The data does not add up to the announced size
    IncorrectDataLength {
        /// How much data there was
        actual: u32,
        /// How much data was announced
        expected: u32,
    },
    /// Communication with the device failed
    Nusb(NusbFastBootError),
}

/// A [`DownloadError`] with its text taken as characters.
pub enum DownloadErrorView {
    /// See [`DownloadError::NothingQueued`]
    NothingQueued,
    /// See [`DownloadError::IncorrectDataLength`]
    IncorrectDataLength {
        /// How much data there was
        actual: u32,
        /// How much data was announced
        expected: u32,
    },
    /// See [`DownloadError::Nusb`]
    Nusb(ErrorView),
}

impl View for DownloadError {
    type V = DownloadErrorView;

    open spec fn view(&self) -> DownloadErrorView {
        match *self {
            DownloadError::NothingQueued => DownloadErrorView::NothingQueued,
            DownloadError::IncorrectDataLength {
                actual,
                expected,
            } => DownloadErrorView::IncorrectDataLength { actual, expected },
            DownloadError::Nusb(e) => DownloadErrorView::Nusb(e@),
        }
    }
}

impl From<NusbFastBootError> for DownloadError {
    fn from(e: NusbFastBootError) -> (error: Self) {
        DownloadError::Nusb(e)
    }
}

impl vstd::std_specs::convert::FromSpecImpl<NusbFastBootError> for DownloadError {
    open spec fn obeys_from_spec() -> bool {
        true
    }

    open spec fn from_spec(e: NusbFastBootError) -> Self {
        DownloadError::Nusb(e)
    }
}

/// An error is spoken of as what it is, with all that it tells.
pub proof fn law_errors_are_seen_as_they_are(error: NusbFastBootError)
    ensures
        match error {
            NusbFastBootError::Transfer(e) => error@ == ErrorView::Transfer(e),
            NusbFastBootError::FastbootFailed(reason) => error@ == ErrorView::FastbootFailed(
                reason@,
            ),
            NusbFastBootError::FastbootUnexpectedReply => error@
                == ErrorView::FastbootUnexpectedReply,
            NusbFastBootError::FastbootParseError(e) => error@ == ErrorView::FastbootParseError(e),
            NusbFastBootError::InvalidCommand => error@ == ErrorView::InvalidCommand,
            NusbFastBootError::IncorrectLength { expected: a, actual: b } => error@
                is IncorrectLength && error@->expected == a && error@->actual == b,
        },
{
}

/// An error of a download is spoken of as what it is, with all that it tells.
pub proof fn law_download_errors_are_seen_as_they_are(error: DownloadError)
    ensures
        match error {
            DownloadError::NothingQueued => error@ == DownloadErrorView::NothingQueued,
            DownloadError::IncorrectDataLength { actual: a, expected: b } => error@
                is IncorrectDataLength && error@->actual == a && error@->expected == b,
            DownloadError::Nusb(e) => error@ == DownloadErrorView::Nusb(e@),
        },
{
}

} // verus!
