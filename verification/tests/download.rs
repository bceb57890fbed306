use fastboot_protocol::buffer::Completion;
use fastboot_protocol::client::Step;
use fastboot_protocol::device::NusbFastBoot;
use fastboot_protocol::download::{
    can_be_block, reclaim, reuses_block, DataDownload, DownloadRequest, FinishStep, Grant,
};
use fastboot_protocol::error::{DownloadError, NusbFastBootError};
use nusb::transfer::{Buffer, TransferError};

fn client() -> NusbFastBoot {
    NusbFastBoot { ep_out: 0x01, max_out: 512, ep_in: 0x81, max_in: 64 }
}

fn answer(bytes: &[u8]) -> Completion {
    Completion { buffer: Buffer::from(bytes), actual_len: bytes.len(), status: Ok(()) }
}

fn requested(size: u32, reply: &[u8]) -> Step<DownloadRequest, Grant> {
    let next = match client().download(size) {
        Step::Out(buffer, next) => {
            assert_eq!(&buffer[..], format!("download:{size:08x}").as_bytes());
            next.step(Completion { actual_len: buffer.len(), buffer, status: Ok(()) })
        }
        _ => panic!("nothing sent"),
    };
    match next {
        Step::In(buffer, next) => {
            assert_eq!(buffer.requested_len(), 64);
            next.step(answer(reply))
        }
        _ => panic!("not listening"),
    }
}

fn block() -> Buffer {
    Buffer::new(4)
}

fn granted(size: u32) -> DataDownload {
    let reply = format!("DATA{size:08x}");
    match requested(size, reply.as_bytes()) {
        Step::Done(Ok(grant)) => DataDownload::new(grant, block()),
        _ => panic!("not granted"),
    }
}

/// Sends data in blocks, as a caller does; the blocks that were submitted come back.
fn send(download: &mut DataDownload, data: &[u8], blocks: &mut Vec<Vec<u8>>) {
    let mut rest = download.extend_from_slice(data).unwrap();
    while let Some(data) = rest {
        assert!(download.is_full());
        assert_eq!(download.owed() as usize, data.len());
        blocks.push(download.next_buffer(block()).to_vec());
        rest = download.extend_rest(data);
    }
}

#[test]
fn download_is_granted_for_the_size() {
    let download = granted(10);
    assert_eq!(download.size(), 10);
    assert_eq!(download.left(), 10);
    assert_eq!(download.owed(), 0);
    assert!(!download.is_full());
}

#[test]
fn download_is_granted_after_progress() {
    let next = match requested(16, b"INFOpreparing") {
        Step::In(_, next) => next,
        _ => panic!("not listening"),
    };
    let next = match next.step(answer(b"TEXT.")) {
        Step::In(_, next) => next,
        _ => panic!("not listening"),
    };
    assert!(matches!(next.step(answer(b"DATA00000010")), Step::Done(Ok(_))));
}

#[test]
fn download_can_be_denied() {
    assert!(matches!(
        requested(16, b"DATA00000011"),
        Step::Done(Err(NusbFastBootError::IncorrectLength { expected: 16, actual: 17 }))
    ));
    assert!(matches!(
        requested(16, b"OKAY"),
        Step::Done(Err(NusbFastBootError::FastbootUnexpectedReply))
    ));
    assert!(matches!(
        requested(16, b"FAILtoo large"),
        Step::Done(Err(NusbFastBootError::FastbootFailed(reason))) if reason == "too large"
    ));
    assert!(matches!(
        requested(16, b"nonsense"),
        Step::Done(Err(NusbFastBootError::FastbootParseError(_)))
    ));
}

#[test]
fn blocks_are_whole_packets() {
    assert_eq!(client().block_size(), 1 << 20);
    assert_eq!(NusbFastBoot { max_out: 1000, ..client() }.block_size(), 1_049_000);
    assert_eq!(NusbFastBoot { max_out: 1, ..client() }.block_size(), 1 << 20);
    assert_eq!(NusbFastBoot { max_out: u16::MAX, ..client() }.block_size(), 17 * 65535);
}

#[test]
fn data_goes_out_in_full_blocks_and_in_order() {
    let mut download = granted(10);
    let mut blocks = Vec::new();
    send(&mut download, &[0, 1, 2], &mut blocks);
    assert!(blocks.is_empty());
    assert_eq!(download.left(), 7);
    send(&mut download, &[3, 4, 5, 6, 7, 8, 9], &mut blocks);
    assert_eq!(blocks, vec![vec![0, 1, 2, 3], vec![4, 5, 6, 7]]);
    assert_eq!(download.left(), 0);
    let (last, _) = download.finish().ok().unwrap();
    assert_eq!(&last.unwrap()[..], &[8, 9]);
}

#[test]
fn full_block_stays_until_more_data_comes() {
    let mut download = granted(8);
    let mut blocks = Vec::new();
    send(&mut download, &[0, 1, 2, 3], &mut blocks);
    assert!(blocks.is_empty());
    assert!(download.is_full());
    send(&mut download, &[], &mut blocks);
    assert!(blocks.is_empty());
    send(&mut download, &[4, 5, 6, 7], &mut blocks);
    assert_eq!(blocks, vec![vec![0, 1, 2, 3]]);
    let (last, _) = download.finish().ok().unwrap();
    assert_eq!(&last.unwrap()[..], &[4, 5, 6, 7]);
}

#[test]
fn cuts_do_not_show_on_the_bus() {
    let data: Vec<u8> = (0..23).collect();
    let mut whole = granted(23);
    let mut whole_blocks = Vec::new();
    send(&mut whole, &data, &mut whole_blocks);
    for cut in 0..23 {
        let mut download = granted(23);
        let mut blocks = Vec::new();
        send(&mut download, &data[..cut], &mut blocks);
        send(&mut download, &data[cut..], &mut blocks);
        assert_eq!(blocks, whole_blocks);
    }
}

#[test]
fn more_data_than_announced_is_refused() {
    let mut download = granted(5);
    assert!(matches!(download.extend_from_slice(&[1, 2]), Ok(None)));
    assert!(matches!(
        download.extend_from_slice(&[3, 4, 5, 6]),
        Err(DownloadError::IncorrectDataLength { actual: 6, expected: 5 })
    ));
    assert_eq!(download.left(), 3);
    assert!(matches!(download.extend_from_slice(&[3, 4]), Ok(None)));
    assert!(download.is_full());
}

#[test]
fn counting_in_two_goes_comes_to_the_same() {
    for (first, second) in [(0usize, 0usize), (2, 3), (5, 0), (5, 1), (3, 9), (0, 6)] {
        let data = vec![7u8; first + second];
        let mut apart = granted(5);
        let mut together = granted(5);
        let mut blocks = Vec::new();
        send(&mut apart, &data[..first], &mut blocks);
        match (
            apart.extend_from_slice(&data[first..]),
            together.extend_from_slice(&data),
        ) {
            (Ok(_), Ok(_)) => {
                assert!(first + second <= 5);
                assert_eq!(apart.left(), together.left());
            }
            (
                Err(DownloadError::IncorrectDataLength { actual: a, expected: e }),
                Err(DownloadError::IncorrectDataLength { actual: b, expected: f }),
            ) => {
                assert!(first + second > 5);
                assert_eq!((a, e), (b, f));
                assert_eq!((a as usize, e), (first + second, 5));
            }
            _ => panic!("different answers"),
        }
    }
}

#[test]
fn blocks_with_room_for_whole_packets_are_sent_as_such() {
    let client = NusbFastBoot { max_out: 3, ..client() };
    let grant = match client.download(20) {
        Step::Out(buffer, next) => {
            let completion = Completion { actual_len: buffer.len(), buffer, status: Ok(()) };
            match next.step(completion) {
                Step::In(_, next) => match next.step(answer(b"DATA00000014")) {
                    Step::Done(Ok(grant)) => grant,
                    _ => panic!("not granted"),
                },
                _ => panic!("not listening"),
            }
        }
        _ => panic!("nothing sent"),
    };
    let mut download = DataDownload::new(grant, Buffer::new(6));
    let mut rest = download.extend_from_slice(&[9; 20]).unwrap();
    let mut sizes = Vec::new();
    while let Some(data) = rest {
        sizes.push(download.next_buffer(Buffer::new(6)).len());
        rest = download.extend_rest(data);
    }
    assert_eq!(sizes, vec![6, 6, 6]);
    let (last, _) = download.finish().ok().unwrap();
    assert_eq!(last.unwrap().len(), 2);
}

#[test]
fn mutable_data_is_bounded_by_room_request_and_rest() {
    let mut download = granted(6);
    let slice = download.get_mut_data(3).unwrap();
    assert_eq!(slice, &[0, 0, 0]);
    slice.copy_from_slice(&[1, 2, 3]);
    assert_eq!(download.left(), 3);
    let slice = download.get_mut_data(100).unwrap();
    assert_eq!(slice.len(), 1);
    slice[0] = 4;
    assert!(download.get_mut_data(100).is_none());
    assert_eq!(&download.next_buffer(block())[..], &[1, 2, 3, 4]);
    let slice = download.get_mut_data(100).unwrap();
    assert_eq!(slice.len(), 2);
    slice.copy_from_slice(&[5, 6]);
    assert_eq!(download.left(), 0);
    assert_eq!(download.get_mut_data(100).unwrap().len(), 0);
    let (last, _) = download.finish().ok().unwrap();
    assert_eq!(&last.unwrap()[..], &[5, 6]);
}

#[test]
fn unfinished_download_is_refused() {
    let mut download = granted(6);
    assert!(matches!(download.extend_from_slice(&[1, 2]), Ok(None)));
    assert!(matches!(
        download.finish(),
        Err(DownloadError::IncorrectDataLength { actual: 2, expected: 6 })
    ));
}

#[test]
fn empty_download_has_no_last_block() {
    let (last, finish) = granted(0).finish().ok().unwrap();
    assert!(last.is_none());
    assert!(matches!(finish.next(0), FinishStep::Conclude(_)));
}

#[test]
fn finish_waits_for_the_blocks_and_the_device() {
    let (_, finish) = granted(0).finish().ok().unwrap();
    let finish = match finish.next(1) {
        FinishStep::AwaitOut(finish) => finish,
        FinishStep::Conclude(_) => panic!("did not wait"),
    };
    let finish = finish.completed(answer(&[1, 2, 3, 4])).ok().unwrap();
    let next = match finish.next(0) {
        FinishStep::Conclude(Step::In(buffer, next)) => {
            assert_eq!(buffer.requested_len(), 64);
            next
        }
        _ => panic!("not listening"),
    };
    assert!(matches!(next.step(answer(b"OKAY")), Step::Done(Ok(_))));
}

#[test]
fn finish_checks_the_blocks() {
    let (_, finish) = granted(0).finish().ok().unwrap();
    let short = Completion { actual_len: 3, ..answer(&[1, 2, 3, 4]) };
    assert!(matches!(
        finish.completed(short),
        Err(DownloadError::Nusb(NusbFastBootError::IncorrectLength { expected: 4, actual: 3 }))
    ));
}

/// Ends a download, as a caller does, with the blocks on their way and what the device then says.
fn drained(blocks: Vec<Completion>, replies: &[&[u8]]) -> Option<Result<String, DownloadError>> {
    let (_, mut finish) = granted(0).finish().ok().unwrap();
    let mut blocks = blocks.into_iter();
    let mut step = loop {
        match finish.next(blocks.len()) {
            FinishStep::AwaitOut(waiting) => match waiting.completed(blocks.next().unwrap()) {
                Ok(next) => finish = next,
                Err(e) => return Some(Err(e)),
            },
            FinishStep::Conclude(step) => break step,
        }
    };
    for reply in replies {
        step = match step {
            Step::In(_, next) => next.step(answer(reply)),
            step => step,
        };
    }
    match step {
        Step::Done(outcome) => Some(outcome.map_err(DownloadError::from)),
        _ => None,
    }
}

#[test]
fn drain_ends_well_with_all_blocks_and_an_okay() {
    let blocks = vec![answer(&[1, 2, 3, 4]), answer(&[5, 6, 7, 8]), answer(&[9])];
    let replies: [&[u8]; 3] = [b"INFOalmost", b"TEXTthere", b"OKAYdone"];
    assert_eq!(drained(blocks, &replies).unwrap().ok().unwrap(), "done");
    assert!(drained(vec![answer(&[1])], &[b"INFOalmost"]).is_none());
    assert!(matches!(
        drained(vec![answer(&[1])], &[b"INFOalmost", b"FAILno"]),
        Some(Err(DownloadError::Nusb(NusbFastBootError::FastbootFailed(e)))) if e == "no"
    ));
}

#[test]
fn first_bad_block_ends_the_drain() {
    let short = Completion { actual_len: 3, ..answer(&[5, 6, 7, 8]) };
    let failed = Completion { status: Err(TransferError::Stall), ..answer(&[9]) };
    assert!(matches!(
        drained(vec![answer(&[1, 2, 3, 4]), short, failed], &[b"OKAY"]),
        Some(Err(DownloadError::Nusb(NusbFastBootError::IncorrectLength {
            expected: 4,
            actual: 3
        })))
    ));
}

#[test]
fn any_block_can_be_exchanged() {
    let mut download = granted(6);
    assert!(matches!(download.extend_from_slice(&[1, 2]), Ok(None)));
    assert_eq!(&download.next_buffer(block())[..], &[1, 2]);
    assert!(!download.is_full());
    assert_eq!((download.size(), download.left()), (6, 4));
}

#[test]
fn sent_block_is_used_again() {
    let completion = answer(&[1, 2, 3, 4]);
    let capacity = completion.buffer.capacity();
    let block = reclaim(completion).ok().unwrap();
    assert!(block.is_empty());
    assert_eq!(block.capacity(), capacity);
    assert!(can_be_block(&block));
}

#[test]
fn block_that_was_not_sent_whole_is_not_used_again() {
    let short = Completion { actual_len: 3, ..answer(&[1, 2, 3, 4]) };
    assert!(matches!(
        reclaim(short),
        Err(DownloadError::Nusb(NusbFastBootError::IncorrectLength { expected: 4, actual: 3 }))
    ));
    let failed = Completion { status: Err(TransferError::Stall), ..answer(&[1]) };
    assert!(matches!(
        reclaim(failed),
        Err(DownloadError::Nusb(NusbFastBootError::Transfer(TransferError::Stall)))
    ));
}

#[test]
fn three_blocks_may_be_on_their_way() {
    assert!(!reuses_block(0));
    assert!(!reuses_block(2));
    assert!(reuses_block(3));
    assert!(reuses_block(4));
    let mut pending = 0;
    for _ in 0..10 {
        if reuses_block(pending) {
            pending -= 1;
        }
        pending += 1;
        assert!(pending <= 3);
    }
}

#[test]
fn only_an_empty_buffer_with_room_can_be_a_block() {
    assert!(can_be_block(&Buffer::new(1)));
    assert!(!can_be_block(&Buffer::new(0)));
    assert!(!can_be_block(&Buffer::from(&[1u8][..])));
}

#[test]
fn client_errors_become_download_errors() {
    assert!(matches!(
        DownloadError::from(NusbFastBootError::InvalidCommand),
        DownloadError::Nusb(NusbFastBootError::InvalidCommand)
    ));
}
