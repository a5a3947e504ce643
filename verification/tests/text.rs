use loxvm::text::{decimal, repeat};

#[test]
fn test_decimal() {
    assert_eq!(decimal(0), "0");
    assert_eq!(decimal(7), "7");
    assert_eq!(decimal(10), "10");
    assert_eq!(decimal(1234567890), "1234567890");
    assert_eq!(decimal(usize::MAX), usize::MAX.to_string());
    for n in 0..2000usize {
        assert_eq!(decimal(n), n.to_string());
    }
}

#[test]
fn test_repeat() {
    assert_eq!(repeat(" ", 0), "");
    assert_eq!(repeat("0", 3), "000");
    assert_eq!(repeat(" ", 5), "     ");
}
