use transact::transaction::{format_amount, parse_amount, DecodeError, Kind, Transaction};

#[test]
fn parse_amount_handles_whitespace_and_precision() {
    assert_eq!(parse_amount("1.2345").unwrap(), 12_345);
    assert_eq!(parse_amount("  0.0001 ").unwrap(), 1);
    assert_eq!(parse_amount("2").unwrap(), 20_000);
}

#[test]
fn format_amount_round_trips_values() {
    let samples = [0, 1, 12_345, -12_345, 200_000];
    for &value in &samples {
        let formatted = format_amount(value);
        let reparsed = parse_amount(&formatted).unwrap();
        assert_eq!(value, reparsed);
    }
}

#[test]
fn transaction_deserializes_from_csv_row() {
    let csv = "type,client,tx,amount\nwithdrawal,42,7,1.5000\n";
    let mut rdr = csv::Reader::from_reader(csv.as_bytes());
    let mut iter = rdr.deserialize::<(String, u16, u32, Option<String>)>();
    let (kind, client, id, amount) = iter.next().unwrap().unwrap();
    let tx = Transaction::decode(&kind, client, id, amount.as_deref()).unwrap();
    assert!(matches!(tx.kind, Kind::Withdrawal));
    assert_eq!(tx.client, 42);
    assert_eq!(tx.tx, 7);
    assert_eq!(tx.amount, Some(15_000));
}

#[test]
fn format_amount_writes_four_decimals() {
    assert_eq!(format_amount(-12_345), "-1.2345");
    assert_eq!(format_amount(1), "0.0001");
    assert_eq!(format_amount(0), "0.0000");
    assert_eq!(format_amount(200_000), "20.0000");
    assert_eq!(format_amount(-1), "-0.0001");
    assert_eq!(format_amount(i64::MIN), "-922337203685477.5808");
}

#[test]
fn round_trip_at_the_extremes() {
    for &value in &[i64::MIN, i64::MAX, i64::MIN + 1, -10_000, 9_999] {
        assert_eq!(parse_amount(&format_amount(value)), Ok(value));
    }
}

#[test]
fn parse_amount_rounds_half_away_from_zero() {
    assert_eq!(parse_amount("0.00005"), Ok(1));
    assert_eq!(parse_amount("0.00004"), Ok(0));
    assert_eq!(parse_amount("-0.00005"), Ok(-1));
    assert_eq!(parse_amount("1.23449"), Ok(12_345));
}

#[test]
fn parse_amount_accepts_signs_and_partial_forms() {
    assert_eq!(parse_amount("+1.5"), Ok(15_000));
    assert_eq!(parse_amount("-1.2345"), Ok(-12_345));
    assert_eq!(parse_amount(".5"), Ok(5_000));
    assert_eq!(parse_amount("5."), Ok(50_000));
    assert_eq!(parse_amount("\t3\n"), Ok(30_000));
}

#[test]
fn parse_amount_rejects_malformed_text() {
    for text in ["", "  ", ".", "-", "1.2.3", "abc", "1e3", "1,5", "- 1", "--1"] {
        assert_eq!(parse_amount(text), Err(DecodeError::InvalidAmount), "{text}");
    }
}

#[test]
fn parse_amount_rejects_values_out_of_range() {
    assert_eq!(parse_amount("922337203685477.5807"), Ok(i64::MAX));
    assert_eq!(parse_amount("922337203685477.5808"), Err(DecodeError::AmountOutOfRange));
    assert_eq!(parse_amount("-922337203685477.5808"), Ok(i64::MIN));
    assert_eq!(parse_amount("-922337203685477.5809"), Err(DecodeError::AmountOutOfRange));
    assert_eq!(
        parse_amount("123456789012345678901234567890"),
        Err(DecodeError::AmountOutOfRange)
    );
}

#[test]
fn kind_field_ignores_case_and_white_space() {
    assert_eq!(Kind::from_field("  DePoSiT "), Ok(Kind::Deposit));
    assert_eq!(Kind::from_field("WITHDRAWAL"), Ok(Kind::Withdrawal));
    assert_eq!(Kind::from_field("dispute"), Ok(Kind::Dispute));
    assert_eq!(Kind::from_field("Resolve"), Ok(Kind::Resolve));
    assert_eq!(Kind::from_field("chargeBack"), Ok(Kind::ChargeBack));
    assert_eq!(Kind::from_field("charge back"), Err(()));
    assert_eq!(Kind::from_field("refund"), Err(()));
    assert_eq!("Deposit".parse::<Kind>(), Ok(Kind::Deposit));
}

#[test]
fn kind_word_is_matched_exactly() {
    assert_eq!(Kind::from_word("deposit"), Ok(Kind::Deposit));
    assert_eq!(Kind::from_word("Deposit"), Err(()));
    assert_eq!(Kind::from_word(" deposit"), Err(()));
}

#[test]
fn decode_reports_each_error() {
    assert_eq!(
        Transaction::decode("transfer", 1, 1, Some("1.0")),
        Err(DecodeError::UnknownKind)
    );
    assert_eq!(
        Transaction::decode("deposit", 1, 1, Some("x")),
        Err(DecodeError::InvalidAmount)
    );
    assert_eq!(
        Transaction::decode("deposit", 1, 1, Some("1000000000000000")),
        Err(DecodeError::AmountOutOfRange)
    );
}

#[test]
fn decode_treats_missing_or_blank_amount_as_none() {
    let t = Transaction::decode(" dispute ", 3, 9, None).unwrap();
    assert_eq!(t.kind, Kind::Dispute);
    assert_eq!(t.amount, None);
    let t = Transaction::decode("deposit", 3, 9, Some("   ")).unwrap();
    assert_eq!(t.amount, None);
    let t = Transaction::decode("Deposit", 3, 9, Some(" 2.5 ")).unwrap();
    assert_eq!(t.kind, Kind::Deposit);
    assert_eq!(t.client, 3);
    assert_eq!(t.tx, 9);
    assert_eq!(t.amount, Some(25_000));
}

#[test]
fn kind_parse_ignores_ascii_case_and_padding() {
    assert_eq!("  Deposit ".parse::<Kind>(), Ok(Kind::Deposit));
    assert_eq!("CHARGEBACK".parse::<Kind>(), Ok(Kind::ChargeBack));
    assert_eq!("\tWithdrawal\n".parse::<Kind>(), Ok(Kind::Withdrawal));
    assert_eq!("Dispute".parse::<Kind>(), Ok(Kind::Dispute));
    assert_eq!("resolve".parse::<Kind>(), Ok(Kind::Resolve));
    for word in ["withdraw", "charge_back", "charge back", "", "transfer"] {
        assert_eq!(word.parse::<Kind>(), Err(()), "{word}");
    }
}
