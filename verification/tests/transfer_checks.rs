use fastboot_protocol::client::{check_length, validate_command};

#[test]
fn rejects_short_or_excess_completions_and_changed_download_size() {
    assert!(check_length(4096, 2048).is_err());
    assert!(check_length(4096, 4097).is_err());
    assert!(check_length(4096, 4096).is_ok());
}

#[test]
fn bounded_generic_commands() {
    assert!(validate_command("oem custom-command").is_ok());
    for bad in ["", "getvar:version\0", "reboot\n", &"x".repeat(65)] {
        assert!(validate_command(bad).is_err());
    }
}
