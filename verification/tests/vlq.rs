use sourcemap_vis::errors::VlqError;
use sourcemap_vis::vlq::vlq_decode;

#[test]
fn example() {
    let values = [
        "AA2CA", "MAAK", "YAAa", "gBAAa", "AAAA", "EAC3B", "MAAM", "AAAA", "EACN", "YAAY", "EAAE",
        "iBAAiB", "aAAc", "AAAA", "EAC7C", "OAAO",
    ];

    let expected = [
        [0i32, 0, 43, 0],
        [6, 0, 0, 5],
        [12, 0, 0, 13],
        [16, 0, 0, 13],
        [0, 0, 0, 0],
        [2, 0, 1, -27],
        [6, 0, 0, 6],
        [0, 0, 0, 0],
        [2, 0, 1, -6],
        [12, 0, 0, 12],
        [2, 0, 0, 2],
        [17, 0, 0, 17],
        [13, 0, 0, 14],
        [0, 0, 0, 0],
        [2, 0, 1, -45],
        [7, 0, 0, 7],
    ];

    for (index, value) in values.iter().enumerate() {
        assert_eq!(vlq_decode(value).unwrap(), expected[index]);
    }
}

#[test]
fn vlq_example() {
    let values = [
        "AA2CA", "MAAK", "YAAa", "gBAAa", "AAAA", "EAC3B", "MAAM", "AAAA", "EACN", "YAAY", "EAAE",
        "iBAAiB", "aAAc", "AAAA", "EAC7C", "OAAO",
    ];

    let expected = [
        [0i32, 0, 43, 0],
        [6, 0, 0, 5],
        [12, 0, 0, 13],
        [16, 0, 0, 13],
        [0, 0, 0, 0],
        [2, 0, 1, -27],
        [6, 0, 0, 6],
        [0, 0, 0, 0],
        [2, 0, 1, -6],
        [12, 0, 0, 12],
        [2, 0, 0, 2],
        [17, 0, 0, 17],
        [13, 0, 0, 14],
        [0, 0, 0, 0],
        [2, 0, 1, -45],
        [7, 0, 0, 7],
    ];

    for (index, value) in values.iter().enumerate() {
        assert_eq!(vlq_decode(value).unwrap(), expected[index]);
    }
}

#[test]
fn decode_known_vectors() {
    assert_eq!(vlq_decode("AAAA").unwrap(), [0, 0, 0, 0]);
    assert_eq!(vlq_decode("EAC3B").unwrap(), [2, 0, 1, -27]);
    assert_eq!(vlq_decode("gBAAa").unwrap(), [16, 0, 0, 13]);
}

#[test]
fn empty_segment_decodes_to_zeros() {
    assert_eq!(vlq_decode("").unwrap(), [0, 0, 0, 0]);
}

#[test]
fn unterminated_segment_fails() {
    assert_eq!(vlq_decode("g"), Err(VlqError::Unterminated));
    assert_eq!(vlq_decode("AAAg"), Err(VlqError::Unterminated));
}

#[test]
fn wrong_field_count_fails() {
    assert_eq!(vlq_decode("AAA"), Err(VlqError::WrongFieldCount));
    assert_eq!(vlq_decode("AAAAAA"), Err(VlqError::WrongFieldCount));
}

#[test]
fn fifth_field_is_discarded() {
    assert_eq!(vlq_decode("AAAAA").unwrap(), [0, 0, 0, 0]);
    assert_eq!(vlq_decode("EACrBC").unwrap(), [2, 0, 1, -21]);
}

#[test]
fn foreign_character_fails() {
    assert_eq!(vlq_decode(" AAA"), Err(VlqError::InvalidChar));
    assert_eq!(vlq_decode("A!AA"), Err(VlqError::InvalidChar));
    assert_eq!(vlq_decode("AA=A"), Err(VlqError::InvalidChar));
}

#[test]
fn negative_values_round_trip_sign() {
    // 'D' holds value 3: magnitude 1, sign bit set.
    assert_eq!(vlq_decode("DAAA").unwrap()[0], -1);
    // 'B' holds value 1: magnitude 0, sign bit set, and -0 is 0.
    assert_eq!(vlq_decode("BAAA").unwrap()[0], 0);
}
