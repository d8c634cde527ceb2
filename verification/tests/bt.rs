use btcore::decode::BencodingParseError;
use btcore::value::BigNum;
use btcore::value::Bencoding;

fn make_bencoded_bigint(s: &str) -> Bencoding {
    Bencoding::Integer(BigNum::from_decimal(s.as_bytes()).unwrap())
}

#[test]
fn test_bencoding_integer() {
    let ev: Vec<u8> = Vec::new();
    let mut success_cases = Vec::new();
    success_cases.push(("i28e", Ok((ev.clone(), make_bencoded_bigint("28")))));
    success_cases.push(("i31337e", Ok((ev.clone(), make_bencoded_bigint("31337")))));
    success_cases.push((
        "i123456789123456789e",
        Ok((ev.clone(), make_bencoded_bigint("123456789123456789"))),
    ));
    success_cases.push((
        "i-123456789123456789e",
        Ok((ev.clone(), make_bencoded_bigint("-123456789123456789"))),
    ));
    for case in success_cases.iter() {
        assert_eq!(case.1, Bencoding::parse(case.0.as_bytes()));
    }
}

#[test]
fn test_bencoding_string() {
    let ev: Vec<u8> = Vec::new();
    let mut success_cases = Vec::new();
    success_cases.push(("3:cat", Ok((ev.clone(), Bencoding::Text(b"cat".to_vec())))));
    success_cases.push(("4:dogg", Ok((ev.clone(), Bencoding::Text(b"dogg".to_vec())))));
    let v5 = vec![b'5'];
    success_cases.push(("4:12345", Ok((v5, Bencoding::Text(b"1234".to_vec())))));
    for case in success_cases.iter() {
        assert_eq!(case.1, Bencoding::parse(case.0.as_bytes()));
    }
}

#[test]
fn test_bencoding_list() {
    let ev: Vec<u8> = Vec::new();
    let mut success_cases = Vec::new();
    success_cases.push((
        "l4:spam4:eggse",
        Ok((
            ev.clone(),
            Bencoding::List(vec![
                Bencoding::Text(b"spam".to_vec()),
                Bencoding::Text(b"eggs".to_vec()),
            ]),
        )),
    ));
    for case in success_cases.iter() {
        assert_eq!(case.1, Bencoding::parse(case.0.as_bytes()));
    }
}

#[test]
fn test_bencoding_dictionary() {
    let ev: Vec<u8> = Vec::new();
    let mut success_cases = Vec::new();
    let sc1 = Bencoding::Dictionary(vec![
        (b"cow".to_vec(), Bencoding::Text(b"moo".to_vec())),
        (b"spam".to_vec(), Bencoding::Text(b"eggs".to_vec())),
    ]);
    success_cases.push(("d3:cow3:moo4:spam4:eggse", Ok((ev.clone(), sc1))));
    for case in success_cases.iter() {
        assert_eq!(case.1, Bencoding::parse(case.0.as_bytes()));
    }
}

#[test]
fn test_bencoding_nested() {
    let expected = Bencoding::List(vec![
        Bencoding::List(vec![Bencoding::Text(b"spam".to_vec())]),
        make_bencoded_bigint("28"),
    ]);
    assert_eq!(
        Bencoding::parse(b"ll4:spamei28ee"),
        Ok((Vec::new(), expected))
    );
}

#[test]
fn test_bencoding_duplicate_key_last_write_wins() {
    let expected = Bencoding::Dictionary(vec![(b"a".to_vec(), make_bencoded_bigint("2"))]);
    assert_eq!(
        Bencoding::parse(b"d1:ai1e1:ai2ee"),
        Ok((Vec::new(), expected))
    );
}

#[test]
fn test_bencoding_malformed_inputs_fail() {
    assert_eq!(Bencoding::parse(b"i e"), Err(BencodingParseError));
    assert_eq!(Bencoding::parse(b"5:abc"), Err(BencodingParseError));
    assert_eq!(Bencoding::parse(b"d3:cowe"), Err(BencodingParseError));
    assert_eq!(Bencoding::parse(b"i4:spam"), Err(BencodingParseError));
    assert_eq!(Bencoding::parse(b""), Err(BencodingParseError));
    assert_eq!(Bencoding::parse(b"-5:abcde"), Err(BencodingParseError));
    assert_eq!(Bencoding::parse(b"l4:spam"), Err(BencodingParseError));
}

#[test]
fn test_bencoding_tolerated_numeral_gaps() {
    // Leading zeros and a negative zero are not rejected.
    assert_eq!(
        Bencoding::from_slice(b"i007e"),
        Ok(make_bencoded_bigint("007"))
    );
    assert!(Bencoding::from_slice(b"i-0e").is_ok());
    assert_eq!(
        Bencoding::from_slice(b"03:cat"),
        Ok(Bencoding::Text(b"cat".to_vec()))
    );
}

#[test]
fn test_bencoding_length_beyond_32_bits_fails() {
    assert_eq!(
        Bencoding::parse(b"4294967296:"),
        Err(BencodingParseError)
    );
    assert_eq!(
        Bencoding::parse(b"99999999999999999999:x"),
        Err(BencodingParseError)
    );
}

#[test]
fn test_from_slice_requires_full_consumption() {
    assert_eq!(
        Bencoding::from_slice(b"i28e"),
        Ok(make_bencoded_bigint("28"))
    );
    assert_eq!(Bencoding::from_slice(b"i28e5"), Err(BencodingParseError));
    assert_eq!(Bencoding::from_slice(b"4:12345"), Err(BencodingParseError));
    assert_eq!(
        Bencoding::from_slice(b"d3:cow3:mooe"),
        Ok(Bencoding::Dictionary(vec![(
            b"cow".to_vec(),
            Bencoding::Text(b"moo".to_vec())
        )]))
    );
}

#[test]
fn test_bencoding_empty_containers() {
    assert_eq!(
        Bencoding::from_slice(b"le"),
        Ok(Bencoding::List(Vec::new()))
    );
    assert_eq!(
        Bencoding::from_slice(b"de"),
        Ok(Bencoding::Dictionary(Vec::new()))
    );
    assert_eq!(
        Bencoding::from_slice(b"0:"),
        Ok(Bencoding::Text(Vec::new()))
    );
}

#[test]
fn test_bignum_from_decimal() {
    assert!(BigNum::from_decimal(b"28").is_some());
    assert!(BigNum::from_decimal(b"-31337").is_some());
    assert!(BigNum::from_decimal(b"").is_none());
    assert!(BigNum::from_decimal(b"-").is_none());
    assert!(BigNum::from_decimal(b"12a3").is_none());
    assert_eq!(BigNum::from_decimal(b"0"), BigNum::from_decimal(b"0"));
    assert_ne!(BigNum::from_decimal(b"1"), BigNum::from_decimal(b"2"));
}
