use taskband::text::push_signed;

fn signed(n: i64) -> String {
    let mut s = String::from("n=");
    push_signed(&mut s, n);
    s
}

#[test]
fn push_signed_writes_every_i64() {
    assert_eq!(signed(0), "n=0");
    assert_eq!(signed(42), "n=42");
    assert_eq!(signed(-7), "n=-7");
    assert_eq!(signed(i64::MAX), "n=9223372036854775807");
    assert_eq!(signed(i64::MIN), "n=-9223372036854775808");
}
