use sv39_mm::cell::UPSafeCell;
use sv39_mm::sbi::{console_putchar, sbi_call, shutdown, SbiCall, SBI_CONSOLE_PUTCHAR, SBI_SHUTDOWN};

#[test]
fn exclusive_access_hands_value_out_once() {
    let mut cell = UPSafeCell::new(5u64);
    assert_eq!(cell.exclusive_access(), Some(5));
    // a second taker while the value is out fails fast
    assert_eq!(cell.exclusive_access(), None);
    assert_eq!(cell.exclusive_access(), None);
}

#[test]
fn release_makes_the_value_available_again() {
    let mut cell = UPSafeCell::new(5u64);
    let v = cell.exclusive_access().unwrap();
    cell.release(v + 2);
    assert_eq!(cell.exclusive_access(), Some(7));
}

#[test]
fn console_putchar_builds_the_right_call() {
    let call = console_putchar(65);
    assert_eq!(
        call,
        SbiCall { which: SBI_CONSOLE_PUTCHAR, arg0: 65, arg1: 0, arg2: 0 }
    );
}

#[test]
fn shutdown_builds_the_right_call() {
    let call = shutdown();
    assert_eq!(call, SbiCall { which: SBI_SHUTDOWN, arg0: 0, arg1: 0, arg2: 0 });
}

#[test]
fn sbi_call_packages_all_arguments() {
    let call = sbi_call(3, 7, 8, 9);
    assert_eq!(call.which, 3);
    assert_eq!(call.arg0, 7);
    assert_eq!(call.arg1, 8);
    assert_eq!(call.arg2, 9);
}
