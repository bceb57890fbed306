use fastboot_protocol::buffer::Completion;
use fastboot_protocol::client::Step;
use fastboot_protocol::device::NusbFastBoot;
use fastboot_protocol::error::NusbFastBootError;
use fastboot_protocol::vars::{Listing, Vars};
use nusb::transfer::Buffer;
use std::collections::HashMap;

fn run(answers: &[&[u8]]) -> Result<HashMap<String, String>, NusbFastBootError> {
    let client = NusbFastBoot { ep_out: 0x01, max_out: 512, ep_in: 0x81, max_in: 256 };
    let mut step: Step<Listing, Vars> = client.get_all_vars();
    let mut answers = answers.iter();
    loop {
        step = match step {
            Step::Out(buffer, next) => {
                assert_eq!(&buffer[..], b"getvar:all");
                next.step(Completion { actual_len: buffer.len(), buffer, status: Ok(()) })
            }
            Step::In(buffer, next) => {
                assert_eq!(buffer.requested_len(), 256);
                let bytes: &[u8] = answers.next().unwrap();
                next.step(Completion {
                    buffer: Buffer::from(bytes),
                    actual_len: bytes.len(),
                    status: Ok(()),
                })
            }
            Step::Done(outcome) => {
                return outcome.map(|vars| vars.into_entries().into_iter().collect());
            }
        }
    }
}

#[test]
fn variables_are_listed() {
    let vars = run(&[
        b"INFOversion:0.4",
        b"TEXTignored:yes",
        b"INFOpartition-size:boot: 0x1000",
        b"INFO max-download-size \xc2\xa0:\t0x20000000 ",
        b"INFOno variable",
        b"INFO:",
        b"OKAYdone!",
    ])
    .unwrap();
    assert_eq!(vars.len(), 4);
    assert_eq!(vars["version"], "0.4");
    assert_eq!(vars["partition-size:boot"], "0x1000");
    assert_eq!(vars["max-download-size"], "0x20000000");
    assert_eq!(vars[""], "");
}

#[test]
fn only_white_space_is_taken_off() {
    let vars = run(&[
        "INFO\u{3000}a\u{2009}b\u{85}:\u{b}\u{2028}x y\u{1680}\r\n".as_bytes(),
        "INFO\u{200b}c:\u{feff}d".as_bytes(),
        "INFO \u{2003}: \u{205f}\u{202f}".as_bytes(),
        b"OKAY",
    ])
    .unwrap();
    assert_eq!(vars.len(), 3);
    assert_eq!(vars["a\u{2009}b"], "x y");
    assert_eq!(vars["\u{200b}c"], "\u{feff}d");
    assert_eq!(vars[""], "");
}

#[test]
fn later_value_of_a_variable_counts() {
    let vars = run(&[b"INFOa:1", b"INFOb:2", b"INFOa : 3", b"OKAY"]).unwrap();
    assert_eq!(vars.len(), 2);
    assert_eq!(vars["a"], "3");
    assert_eq!(vars["b"], "2");
}

#[test]
fn listing_can_fail() {
    assert!(matches!(
        run(&[b"INFOa:1", b"FAILunsupported"]),
        Err(NusbFastBootError::FastbootFailed(reason)) if reason == "unsupported"
    ));
    assert!(matches!(
        run(&[b"DATA00000001"]),
        Err(NusbFastBootError::FastbootUnexpectedReply)
    ));
    assert!(matches!(run(&[b"BAD"]), Err(NusbFastBootError::FastbootParseError(_))));
}

#[test]
fn variables_are_set_once_by_name() {
    let vars = Vars::new()
        .insert("x".to_string(), "1".to_string())
        .insert("y".to_string(), "2".to_string())
        .insert("x".to_string(), "3".to_string());
    let mut entries = vars.into_entries();
    entries.sort();
    assert_eq!(
        entries,
        vec![("x".to_string(), "3".to_string()), ("y".to_string(), "2".to_string())]
    );
    assert!(Vars::new().into_entries().is_empty());
}
