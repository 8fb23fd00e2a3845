use ankimdown::util::{base91_encode, encode_digest, encode_number, join_parts};

#[test]
fn test_base91_encode() {
    assert_eq!(base91_encode(&["hello".to_string()]), "Hz%*-bw,%\\");
    assert_eq!(base91_encode(&["a".to_string(), "b".to_string()]), "Q.'@O$8rao");
    assert_eq!(base91_encode(&[]), "me]yhW2>15");
    assert_eq!(base91_encode(&["héllo".to_string(), "wörld".to_string()]), "Qel9))pnEl");
}

#[test]
fn test_base91_encode_joins_with_two_underscores() {
    assert_eq!(
        base91_encode(&["a".to_string(), "b".to_string()]),
        base91_encode(&["a__b".to_string()])
    );
    assert_ne!(
        base91_encode(&["a".to_string(), "b".to_string()]),
        base91_encode(&["ab".to_string()])
    );
}

#[test]
fn test_join_parts() {
    assert_eq!(join_parts(&[]), "");
    assert_eq!(join_parts(&["a".to_string()]), "a");
    assert_eq!(join_parts(&["a".to_string(), "b".to_string(), "c".to_string()]), "a__b__c");
    assert_eq!(join_parts(&["".to_string(), "".to_string()]), "__");
}

#[test]
fn test_encode_number() {
    assert_eq!(encode_number(0), "");
    assert_eq!(encode_number(1), "B");
    assert_eq!(encode_number(90), "|");
    assert_eq!(encode_number(91), "BA");
    assert_eq!(encode_number(91 * 91 + 2 * 91 + 3), "BCD");
    assert_eq!(encode_number(u64::MAX), "rJ&z5M@=zP");
}

#[test]
fn test_encode_digest() {
    assert_eq!(encode_digest(&[0, 0, 0, 0, 0, 0, 0, 0]), "");
    assert_eq!(encode_digest(&[0, 0, 0, 0, 0, 0, 0, 1]), "B");
    assert_eq!(encode_digest(&[0, 0, 0, 0, 0, 0, 1, 0]), "C.");
    assert_eq!(encode_digest(&[0, 0, 0, 0, 0, 0, 0, 91, 255, 255]), "BA");
    assert_eq!(encode_digest(&[255, 255, 255, 255, 255, 255, 255, 255]), "rJ&z5M@=zP");
}
