use rgb_core::schema_id::{SchemaId, SchemaIdParseError};

#[test]
fn display() {
    let dumb = SchemaId::from_byte_array([0u8; 32]);
    assert_eq!(
        dumb.display(true, true),
        "urn:lnp-bp:sc:111111-11111111-11111111-11111111-11#comedy-vega-mary"
    );
    assert_eq!(dumb.display(true, false), "urn:lnp-bp:sc:111111-11111111-11111111-11111111-11");

    let less_dumb = SchemaId::from_byte_array(*b"EV4350-'4vwj'4;v-w94w'e'vFVVDhpq");
    assert_eq!(
        less_dumb.display(true, true),
        "urn:lnp-bp:sc:5ffNUk-MTVSnWqu-PLT6xKb7-VmAxUbw8-CUNqCkUW-sZfkwz#distant-thermos-arctic"
    );
    assert_eq!(
        less_dumb.display(true, false),
        "urn:lnp-bp:sc:5ffNUk-MTVSnWqu-PLT6xKb7-VmAxUbw8-CUNqCkUW-sZfkwz"
    );
    assert_eq!(
        less_dumb.display(false, true),
        "5ffNUk-MTVSnWqu-PLT6xKb7-VmAxUbw8-CUNqCkUW-sZfkwz#distant-thermos-arctic"
    );
    assert_eq!(less_dumb.display(false, false), "5ffNUk-MTVSnWqu-PLT6xKb7-VmAxUbw8-CUNqCkUW-sZfkwz");
}

#[test]
fn mnemonic_words() {
    let dumb = SchemaId::from_byte_array([0u8; 32]);
    assert_eq!(dumb.to_mnemonic(), "comedy-vega-mary");
    let less_dumb = SchemaId::from_byte_array(*b"EV4350-'4vwj'4;v-w94w'e'vFVVDhpq");
    assert_eq!(less_dumb.to_mnemonic(), "distant-thermos-arctic");
}

#[test]
fn parse_round_trip_all_forms() {
    let ids = [
        SchemaId::from_byte_array([0u8; 32]),
        SchemaId::from_byte_array(*b"EV4350-'4vwj'4;v-w94w'e'vFVVDhpq"),
        SchemaId::from_byte_array([0xffu8; 32]),
    ];
    for id in ids {
        for urn in [false, true] {
            for mnemonic in [false, true] {
                let s = id.display(urn, mnemonic);
                assert_eq!(SchemaId::from_str(s.as_str()), Ok(id));
            }
        }
    }
}

#[test]
fn parse_round_trip_exec_law() {
    let id = SchemaId::from_byte_array(*b"EV4350-'4vwj'4;v-w94w'e'vFVVDhpq");
    assert_eq!(rgb_core::schema_id::display_parse_round_trip(&id, true, true), Ok(id));
    assert_eq!(rgb_core::schema_id::display_parse_round_trip(&id, false, false), Ok(id));
}

#[test]
fn parse_literal_forms() {
    let less_dumb = SchemaId::from_byte_array(*b"EV4350-'4vwj'4;v-w94w'e'vFVVDhpq");
    assert_eq!(
        SchemaId::from_str("urn:lnp-bp:sc:5ffNUk-MTVSnWqu-PLT6xKb7-VmAxUbw8-CUNqCkUW-sZfkwz"),
        Ok(less_dumb)
    );
    assert_eq!(
        SchemaId::from_str(
            "5ffNUk-MTVSnWqu-PLT6xKb7-VmAxUbw8-CUNqCkUW-sZfkwz#distant-thermos-arctic"
        ),
        Ok(less_dumb)
    );
    assert_eq!(
        SchemaId::from_str("5ffNUkMTVSnWquPLT6xKb7VmAxUbw8CUNqCkUWsZfkwz"),
        Ok(less_dumb)
    );
}

#[test]
fn parse_rejects_bad_character() {
    let r = SchemaId::from_str("x0x");
    assert!(matches!(r, Err(SchemaIdParseError::InvalidBase58Character(_, _))));
}

#[test]
fn parse_rejects_bad_length() {
    let r = SchemaId::from_str("zz");
    assert!(matches!(r, Err(SchemaIdParseError::InvalidLen(_))));
}

#[test]
fn parse_rejects_bad_chunking() {
    let r = SchemaId::from_str("5ffNU-kMTVSnWqu-PLT6xKb7-VmAxUbw8-CUNqCkUW-sZfkwz");
    assert_eq!(r, Err(SchemaIdParseError::InvalidChunking));
}

#[test]
fn parse_rejects_bad_mnemonic() {
    let r = SchemaId::from_str(
        "5ffNUk-MTVSnWqu-PLT6xKb7-VmAxUbw8-CUNqCkUW-sZfkwz#comedy-vega-mary"
    );
    assert_eq!(r, Err(SchemaIdParseError::InvalidMnemonic));
}

#[test]
fn byte_array_accessors() {
    let id = SchemaId::from_byte_array([3u8; 32]);
    assert_eq!(id.to_byte_array(), [3u8; 32]);
}

#[test]
fn parse_rejects_overlong_input_without_panicking() {
    // more leading `1` characters than the decoder's buffers could ever
    // hold zero bytes for: must be a structured error, not a panic
    let ones = "1".repeat(133);
    assert_eq!(SchemaId::from_str(&ones), Err(SchemaIdParseError::InvalidBase58Length));
    let mut long = "1".repeat(132);
    long.push('z');
    assert_eq!(SchemaId::from_str(&long), Err(SchemaIdParseError::InvalidBase58Length));
    let huge = "z".repeat(1000);
    assert_eq!(SchemaId::from_str(&huge), Err(SchemaIdParseError::InvalidBase58Length));
}
