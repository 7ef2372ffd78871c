use strail::consts::SwitchMode;
use strail::exit::{exit, lookup_exitcode, ExitCode, RISCVExit, EXIT_ADDRESS};
use strail::uart::{MmioWrite, Uart};

#[test]
fn test_new_uart() {
    let uart = Uart::new(0x1000_0000);
    assert!(uart.is_set());
    assert_eq!(uart.init(), MmioWrite { addr: 0x1000_0003, value: 0 });
}

#[test]
fn uart_put_writes_the_data_register() {
    let uart = Uart::new(0x1000_0000);
    assert_eq!(uart.put(b'A'), MmioWrite { addr: 0x1000_0000, value: b'A' });
    assert_eq!(uart.base_address(), 0x1000_0000);
}

#[test]
fn exit_codes_of_the_test_device() {
    assert_eq!(lookup_exitcode(ExitCode::Success), 0x5555);
    assert_eq!(lookup_exitcode(ExitCode::Failed), 0x3333);
    assert_eq!(lookup_exitcode(ExitCode::Reset), 0x7777);
    assert_eq!(exit(ExitCode::Failed), (EXIT_ADDRESS, 0x3333));
    let dev = RISCVExit::new(0x20, ExitCode::Reset);
    assert_eq!(dev.exit_success(), (0x20, 0x5555));
    assert_eq!(dev.exit_failure(), (0x20, 0x3333));
}

#[test]
fn switch_mode_names() {
    assert_eq!(SwitchMode::User.name(), "User");
    assert_eq!(SwitchMode::Supervisor.name(), "Supervisor");
}
