use cfg_ip::set_ip::{
    batch_input, decode_output, set_dynamic_ip, set_static_ip, BatchState, CommandKind,
    StepOutcome, StepStatus,
};
use cfg_ip::adapter::Address;
use cfg_ip::ip::IpAddress;

fn v4(a: u8, b: u8, c: u8, d: u8) -> IpAddress {
    IpAddress::V4(u32::from_be_bytes([a, b, c, d]))
}

fn four_step_batch() -> Vec<cfg_ip::set_ip::Command> {
    let address = vec![
        Address { ip: v4(10, 0, 0, 5), netmask: v4(255, 255, 255, 0) },
        Address { ip: v4(10, 0, 0, 6), netmask: v4(255, 255, 255, 0) },
    ];
    let gateway = vec![v4(10, 0, 0, 1)];
    let dns = vec![v4(8, 8, 8, 8)];
    set_static_ip("Ethernet", &address, &gateway, &dns).expect("addresses are given")
}

#[test]
fn spawn_failure_at_step_two_halts_the_rest() {
    let mut run = BatchState::new(four_step_batch());

    let first = run.next_command().expect("step one is pending").text.clone();
    assert!(first.starts_with("interface ip set address"));
    let report = run.record(StepOutcome::Completed { exit_ok: true, output: b"ok".to_vec() });
    assert_eq!(report.index, 1);
    assert!(matches!(report.status, StepStatus::Output { .. }));

    // Step two of four fails to spawn: reported at index two, and no
    // further step is issued.
    assert!(run.next_command().is_some());
    let report = run.record(StepOutcome::SpawnFailed);
    assert_eq!(report.index, 2);
    assert_eq!(report.kind, CommandKind::Ip);
    assert!(matches!(report.status, StepStatus::SpawnError));
    assert!(run.next_command().is_none());
    assert!(run.finished());
}

#[test]
fn a_failing_step_is_reported_and_the_batch_continues() {
    let mut run = BatchState::new(four_step_batch());
    let mut reports = Vec::new();
    while !run.finished() {
        let _cmd = run.next_command().expect("a step is pending");
        // The second step exits with a failure status; the rest still run.
        let exit_ok = reports.len() != 1;
        reports.push(run.record(StepOutcome::Completed { exit_ok, output: b"done".to_vec() }));
    }
    assert_eq!(reports.len(), 4);
    for (k, report) in reports.iter().enumerate() {
        assert_eq!(report.index, k + 1);
    }
    assert!(matches!(&reports[0].status, StepStatus::Output { text } if text == "done"));
    assert!(matches!(&reports[1].status, StepStatus::ExitFailure { text } if text == "done"));
    assert!(matches!(&reports[2].status, StepStatus::Output { .. }));
    assert_eq!(reports[2].kind, CommandKind::Gateway);
    assert_eq!(reports[3].kind, CommandKind::Dns);
}

#[test]
fn undecodable_output_is_that_steps_failure_only() {
    let mut run = BatchState::new(four_step_batch());
    run.next_command().expect("a step is pending");
    // 0x81 opens a two-byte sequence that never completes.
    let report = run.record(StepOutcome::Completed { exit_ok: true, output: vec![0x81] });
    assert!(matches!(report.status, StepStatus::UndecodableOutput));
    assert!(!run.finished());
    assert!(run.next_command().is_some());
}

#[test]
fn batch_input_frames_commands_with_pause_and_exit() {
    let cmds = set_dynamic_ip("WLAN");
    let bytes = batch_input(&cmds).expect("plain text encodes");
    let expect = b"netsh.exe interface ip set address name=\"WLAN\" source=dhcp\n\
netsh.exe interface ip set dns name=\"WLAN\" source=dhcp\npause\nexit\n"
        .to_vec();
    assert_eq!(bytes, expect);
}

#[test]
fn batch_input_transcodes_the_adapter_name() {
    let cmds = set_dynamic_ip("以太网");
    let bytes = batch_input(&cmds).expect("the name encodes");
    // The name is not written as its UTF-8 bytes...
    let utf8 = "以太网".as_bytes();
    assert!(!bytes.windows(utf8.len()).any(|w| w == utf8));
    // ...but as its GB18030 bytes.
    let gb = [0xD2u8, 0xD4, 0xCC, 0xAB, 0xCD, 0xF8];
    assert!(bytes.windows(gb.len()).any(|w| w == gb));
}

#[test]
fn output_decoding_round_trips_the_legacy_encoding() {
    assert_eq!(decode_output(b"plain ascii"), Some("plain ascii".to_string()));
    let gb = [0xD2u8, 0xD4, 0xCC, 0xAB, 0xCD, 0xF8];
    assert_eq!(decode_output(&gb), Some("\u{4ee5}\u{592a}\u{7f51}".to_string()));
    assert_eq!(decode_output(&[0x81]), None);
}
