use pbs_datastore::error::Error;
use pbs_datastore::rfc3339::{epoch_to_rfc3339_utc, parse_rfc3339, MAX_EPOCH, MIN_EPOCH};

#[test]
fn known_timestamps() {
    assert_eq!(parse_rfc3339("1970-01-01T00:00:00Z"), Ok(0));
    assert_eq!(parse_rfc3339("2024-01-01T00:00:00Z"), Ok(1_704_067_200));
    assert_eq!(parse_rfc3339("2000-02-29T12:34:56Z"), Ok(951_827_696));
    assert_eq!(parse_rfc3339("1969-12-31T23:59:59Z"), Ok(-1));
    assert_eq!(parse_rfc3339("0000-01-01T00:00:00Z"), Ok(MIN_EPOCH));
    assert_eq!(parse_rfc3339("9999-12-31T23:59:59Z"), Ok(MAX_EPOCH));
    assert_eq!(epoch_to_rfc3339_utc(0).unwrap(), "1970-01-01T00:00:00Z");
    assert_eq!(
        epoch_to_rfc3339_utc(1_704_067_200).unwrap(),
        "2024-01-01T00:00:00Z"
    );
    assert_eq!(epoch_to_rfc3339_utc(-1).unwrap(), "1969-12-31T23:59:59Z");
    assert_eq!(epoch_to_rfc3339_utc(MIN_EPOCH).unwrap(), "0000-01-01T00:00:00Z");
    assert_eq!(epoch_to_rfc3339_utc(MAX_EPOCH).unwrap(), "9999-12-31T23:59:59Z");
}

#[test]
fn timestamps_round_trip() {
    let texts = [
        "2024-02-29T23:59:59Z",
        "2023-02-28T00:00:00Z",
        "2100-03-01T01:02:03Z",
        "1600-12-31T23:00:00Z",
        "0001-01-01T00:00:00Z",
        "1999-12-31T23:59:59Z",
    ];
    for text in texts {
        let epoch = parse_rfc3339(text).unwrap();
        assert_eq!(epoch_to_rfc3339_utc(epoch).unwrap(), text);
    }
    let mut epoch = MIN_EPOCH;
    while epoch <= MAX_EPOCH {
        let text = epoch_to_rfc3339_utc(epoch).unwrap();
        assert_eq!(parse_rfc3339(&text), Ok(epoch));
        epoch += 86_400 * 365 * 97 + 3_601;
    }
}

#[test]
fn malformed_timestamps_are_refused() {
    let bad = [
        "",
        "2024-01-01T00:00:00",
        "2024-01-01T00:00:00z",
        "2024-01-01 00:00:00Z",
        "2024-01-01T00:00:00+00:00",
        "2024-1-01T00:00:00Z",
        "2024-00-01T00:00:00Z",
        "2024-13-01T00:00:00Z",
        "2024-01-00T00:00:00Z",
        "2024-01-32T00:00:00Z",
        "2023-02-29T00:00:00Z",
        "2100-02-29T00:00:00Z",
        "2024-04-31T00:00:00Z",
        "2024-01-01T24:00:00Z",
        "2024-01-01T00:60:00Z",
        "2024-01-01T00:00:60Z",
        "2024-01-01T00:00:00Z ",
        "x024-01-01T00:00:00Z",
        "٢٠٢٤-01-01T00:00:00Z",
    ];
    for text in bad {
        assert_eq!(parse_rfc3339(text), Err(Error::InvalidInput), "{:?}", text);
    }
}

#[test]
fn timestamps_outside_four_digit_years_have_no_text() {
    assert_eq!(epoch_to_rfc3339_utc(MIN_EPOCH - 1), Err(Error::InvalidInput));
    assert_eq!(epoch_to_rfc3339_utc(MAX_EPOCH + 1), Err(Error::InvalidInput));
    assert_eq!(epoch_to_rfc3339_utc(i64::MIN), Err(Error::InvalidInput));
    assert_eq!(epoch_to_rfc3339_utc(i64::MAX), Err(Error::InvalidInput));
}
