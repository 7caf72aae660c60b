use xv6_kernel::echo::echo_output;
use xv6_kernel::ulib::{write_step, Args, CStr, WriteStep};

#[test]
fn c_string_validity() {
    assert!(CStr::is_valid("abc\0"));
    assert!(CStr::is_valid("\0"));
    assert!(!CStr::is_valid(""));
    assert!(!CStr::is_valid("abc"));
    assert!(!CStr::is_valid("a\0b\0"));
    assert!(!CStr::is_valid("h\u{e9}\0"));
}

#[test]
fn c_string_views() {
    let c = CStr::new("echo\0");
    assert_eq!(c.len(), 4);
    assert!(!c.is_empty());
    assert_eq!(c.as_bytes(), b"echo\0");
    assert_eq!(c.chars_as_bytes(), b"echo");
    assert_eq!(c.as_str(), "echo\0");
    let e = CStr::new("\0");
    assert_eq!(e.len(), 0);
    assert!(e.is_empty());
    assert_eq!(e.chars_as_bytes(), b"");
}

#[test]
fn args_are_read_in_order() {
    let mut args = Args::new(vec![CStr::new("prog\0"), CStr::new("x\0")]);
    assert_eq!(args.argc(), 2);
    assert_eq!(args.next().map(|c| c.data), Some("prog\0"));
    assert_eq!(args.next().map(|c| c.data), Some("x\0"));
    assert!(args.next().is_none());
    assert!(args.next().is_none());
    assert_eq!(args.argc(), 2);
}

#[test]
fn echo_joins_with_spaces() {
    let args = Args::new(vec![
        CStr::new("echo\0"),
        CStr::new("hello\0"),
        CStr::new("world\0"),
    ]);
    assert_eq!(echo_output(args), b"hello \0world\n\0".to_vec());
}

#[test]
fn echo_without_arguments_prints_nothing() {
    assert_eq!(echo_output(Args::new(vec![CStr::new("echo\0")])), Vec::<u8>::new());
    assert_eq!(echo_output(Args::new(vec![])), Vec::<u8>::new());
    let args = Args::new(vec![CStr::new("echo\0"), CStr::new("\0")]);
    assert_eq!(echo_output(args), b"\n\0".to_vec());
}

#[test]
fn write_step_follows_progress() {
    assert_eq!(write_step(10, 0, Ok(10)), WriteStep::Done);
    assert_eq!(write_step(10, 0, Ok(4)), WriteStep::More(4));
    assert_eq!(write_step(10, 4, Ok(6)), WriteStep::Done);
    assert_eq!(write_step(10, 4, Ok(0)), WriteStep::More(4));
    assert_eq!(write_step(10, 4, Ok(usize::MAX)), WriteStep::Done);
    assert_eq!(write_step(10, 4, Err(())), WriteStep::Failed);
}
