use vectordb::error::VectorDbError;
use vectordb::ids::{assign_vector_id, id_of_parse, parse_vector_id, vector_id_text};

#[test]
fn identifiers_are_read_in_every_form() {
    let id = 0xa1a2a3a4_b1b2_c1c2_d1d2_d3d4d5d6d7d8u128;
    assert_eq!(parse_vector_id("a1a2a3a4-b1b2-c1c2-d1d2-d3d4d5d6d7d8").unwrap(), id);
    assert_eq!(parse_vector_id("A1A2A3A4B1B2C1C2D1D2D3D4D5D6D7D8").unwrap(), id);
    assert_eq!(
        parse_vector_id("urn:uuid:a1a2a3a4-b1b2-c1c2-d1d2-d3d4d5d6d7d8").unwrap(),
        id
    );
    assert_eq!(parse_vector_id("{a1a2a3a4-b1b2-c1c2-d1d2-d3d4d5d6d7d8}").unwrap(), id);
    assert_eq!(
        parse_vector_id("00000000-0000-0000-0000-000000000001").unwrap(),
        1
    );
}

#[test]
fn identifiers_are_written_hyphenated() {
    assert_eq!(
        vector_id_text(0xa1a2a3a4_b1b2_c1c2_d1d2_d3d4d5d6d7d8),
        "a1a2a3a4-b1b2-c1c2-d1d2-d3d4d5d6d7d8"
    );
    assert_eq!(vector_id_text(2), "00000000-0000-0000-0000-000000000002");
    for id in [0u128, 1, u128::MAX, 0x0123_4567_89ab_cdef_0123_4567_89ab_cdef] {
        assert_eq!(parse_vector_id(&vector_id_text(id)).unwrap(), id);
    }
}

#[test]
fn a_malformed_identifier_is_refused() {
    for text in ["", "not-a-uuid", "a1a2a3a4-b1b2-c1c2-d1d2-d3d4d5d6d7d", "g1a2a3a4-b1b2-c1c2-d1d2-d3d4d5d6d7d8"] {
        let error = parse_vector_id(text).unwrap_err();
        assert!(
            matches!(&error, VectorDbError::Serialization(message) if message == "Invalid vector ID format"),
            "{}",
            text
        );
        assert!(assign_vector_id(Some(text)).is_err());
    }
    assert!(id_of_parse(None).is_err());
    assert_eq!(id_of_parse(Some(7)).unwrap(), 7);
}

#[test]
fn a_vector_without_an_identifier_gets_one() {
    assert_eq!(
        assign_vector_id(Some("00000000-0000-0000-0000-00000000000a")).unwrap(),
        10
    );
    let first = assign_vector_id(None).unwrap();
    let second = assign_vector_id(None).unwrap();
    assert_ne!(first, second);
    assert_eq!(first & 0x0000_0000_0000_f000_0000_0000_0000_0000, 0x0000_0000_0000_4000_0000_0000_0000_0000);
}
