use fastboot_protocol::buffer::Completion;
use fastboot_protocol::client::Step;
use fastboot_protocol::device::NusbFastBoot;
use fastboot_protocol::error::NusbFastBootError;
use fastboot_protocol::fetch::Fetch;
use nusb::transfer::{Buffer, TransferError};

fn client() -> NusbFastBoot {
    NusbFastBoot { ep_out: 0x01, max_out: 512, ep_in: 0x81, max_in: 512 }
}

fn sent(step: Step<Fetch, Vec<u8>>) -> (Vec<u8>, Fetch) {
    match step {
        Step::Out(buffer, next) => (buffer.to_vec(), next),
        _ => panic!("nothing sent"),
    }
}

fn asked(step: Step<Fetch, Vec<u8>>) -> (usize, Fetch) {
    match step {
        Step::In(buffer, next) => (buffer.requested_len(), next),
        _ => panic!("nothing asked"),
    }
}

fn outcome(step: Step<Fetch, Vec<u8>>) -> Result<Vec<u8>, NusbFastBootError> {
    match step {
        Step::Done(outcome) => outcome,
        _ => panic!("not done"),
    }
}

fn done(len: usize) -> Completion {
    Completion { buffer: Buffer::new(0), actual_len: len, status: Ok(()) }
}

fn answer(bytes: &[u8]) -> Completion {
    Completion { buffer: Buffer::from(bytes), actual_len: bytes.len(), status: Ok(()) }
}

fn announced(length: u32, reply: &[u8]) -> Step<Fetch, Vec<u8>> {
    let (bytes, next) = sent(client().fetch("boot", 0, length));
    let (requested, next) = asked(next.step(done(bytes.len())));
    assert_eq!(requested, 512);
    next.step(answer(reply))
}

fn refused(partition: &str, offset: u64, length: u32) -> bool {
    matches!(
        outcome(client().fetch(partition, offset, length)),
        Err(NusbFastBootError::InvalidCommand)
    )
}

#[test]
fn fetch_names_the_range_in_hexadecimal() {
    assert_eq!(sent(client().fetch("boot", 0, 16)).0, b"fetch:boot:0:10");
    assert_eq!(
        sent(client().fetch("vendor_boot", 0xdeadbeef00, 0x100000)).0,
        b"fetch:vendor_boot:deadbeef00:100000"
    );
}

#[test]
fn ranges_that_cannot_be_named_are_refused() {
    assert!(refused("boot:a", 0, 16));
    assert!(refused("boot", 0, 0));
    assert!(refused("boot", u64::MAX, 1));
    assert!(refused("boot\n", 0, 16));
    assert!(refused(&"x".repeat(60), 0, 16));
    assert_eq!(
        sent(client().fetch("b", u64::MAX - 16, 16)).0,
        b"fetch:b:ffffffffffffffef:10"
    );
}

#[test]
fn range_comes_in_pieces() {
    let (requested, next) = asked(announced(600, b"DATA00000258"));
    assert_eq!(requested, 1024);
    let (requested, next) = asked(next.step(answer(&[7; 512])));
    assert_eq!(requested, 512);
    let (requested, next) = asked(next.step(answer(&[8; 88])));
    assert_eq!(requested, 512);
    let (_, next) = asked(next.step(answer(b"INFOalmost")));
    let data = outcome(next.step(answer(b"OKAY"))).unwrap();
    assert_eq!(data.len(), 600);
    assert_eq!(&data[..512], &[7; 512]);
    assert_eq!(&data[512..], &[8; 88]);
}

#[test]
fn large_range_is_asked_for_by_the_mebibyte() {
    let odd = NusbFastBoot { max_in: 1000, ..client() };
    let (bytes, next) = sent(odd.fetch("boot", 0, 0x20_0000));
    let (_, next) = asked(next.step(done(bytes.len())));
    let (requested, _) = asked(next.step(answer(b"DATA00200000")));
    assert_eq!(requested, 1_049_000);
}

#[test]
fn progress_may_come_before_the_data() {
    let (bytes, next) = sent(client().fetch("boot", 0, 4));
    let (_, next) = asked(next.step(done(bytes.len())));
    let (requested, next) = asked(next.step(answer(b"INFOreading")));
    assert_eq!(requested, 512);
    let (_, next) = asked(next.step(answer(b"TEXT.")));
    let completion = answer(b"DATA00000004");
    assert!(next.opens_payload(&completion));
    let (_, next) = asked(next.step(completion));
    let completion = answer(b"DATA");
    assert!(!next.opens_payload(&completion));
    let (_, next) = asked(next.step(completion));
    assert_eq!(outcome(next.step(answer(b"OKAY"))).unwrap(), b"DATA");
}

#[test]
fn announced_length_has_to_be_the_range() {
    assert!(matches!(
        outcome(announced(16, b"DATA0000000f")),
        Err(NusbFastBootError::IncorrectLength { expected: 16, actual: 15 })
    ));
}

#[test]
fn range_can_be_denied() {
    assert!(matches!(
        outcome(announced(16, b"FAILlocked")),
        Err(NusbFastBootError::FastbootFailed(reason)) if reason == "locked"
    ));
    assert!(matches!(
        outcome(announced(16, b"OKAY")),
        Err(NusbFastBootError::FastbootUnexpectedReply)
    ));
    assert!(matches!(
        outcome(announced(16, b"????")),
        Err(NusbFastBootError::FastbootParseError(_))
    ));
}

#[test]
fn empty_or_excess_pieces_are_refused() {
    let (_, next) = asked(announced(16, b"DATA00000010"));
    assert!(matches!(
        outcome(next.step(answer(&[]))),
        Err(NusbFastBootError::IncorrectLength { expected: 16, actual: 0 })
    ));
    let (_, next) = asked(announced(16, b"DATA00000010"));
    let (_, next) = asked(next.step(answer(&[0; 10])));
    assert!(matches!(
        outcome(next.step(answer(&[0; 7]))),
        Err(NusbFastBootError::IncorrectLength { expected: 6, actual: 7 })
    ));
}

#[test]
fn failed_piece_ends_the_fetch() {
    let (_, next) = asked(announced(16, b"DATA00000010"));
    let completion = Completion {
        buffer: Buffer::new(0),
        actual_len: 0,
        status: Err(TransferError::Cancelled),
    };
    assert!(matches!(
        outcome(next.step(completion)),
        Err(NusbFastBootError::Transfer(TransferError::Cancelled))
    ));
}

#[test]
fn data_is_not_returned_without_the_final_okay() {
    for (reply, failed) in [(&b"FAILbad"[..], true), (&b"DATA00000001"[..], false)] {
        let (_, next) = asked(announced(2, b"DATA00000002"));
        let (_, next) = asked(next.step(answer(&[1, 2])));
        match outcome(next.step(answer(reply))) {
            Err(NusbFastBootError::FastbootFailed(reason)) => {
                assert!(failed);
                assert_eq!(reason, "bad");
            }
            Err(NusbFastBootError::FastbootUnexpectedReply) => assert!(!failed),
            _ => panic!("accepted"),
        }
    }
}
