use grove::ids::{base36_decode, base36_encode};

#[test]
fn test_base36_encode() {
    assert_eq!(base36_encode(0), "0");
    assert_eq!(base36_encode(9), "9");
    assert_eq!(base36_encode(10), "a");
    assert_eq!(base36_encode(35), "z");
    assert_eq!(base36_encode(36), "10");
    assert_eq!(base36_encode(4329), "3c9");
}

#[test]
fn base36_decode_reads_numerals() {
    let chars = |s: &str| s.chars().collect::<Vec<char>>();
    assert_eq!(base36_decode(&chars("3c9")), Some(4329));
    assert_eq!(base36_decode(&chars("3C9")), Some(4329));
    assert_eq!(base36_decode(&chars("+10")), Some(36));
    assert_eq!(base36_decode(&chars("")), None);
    assert_eq!(base36_decode(&chars("+")), None);
    assert_eq!(base36_decode(&chars("legacy")), Some(1294064242));
    assert_eq!(base36_decode(&chars("old-wt")), None);
    assert_eq!(base36_decode(&chars("1z141z3")), Some(u32::MAX));
    assert_eq!(base36_decode(&chars("1z141z4")), None);
}

#[test]
fn base36_round_trips() {
    for n in [0u32, 1, 35, 36, 1295, 1296, 4329, 65535, u32::MAX] {
        let s = base36_encode(n);
        assert_eq!(base36_decode(&s.chars().collect()), Some(n));
    }
}
