use ledger::error::Error;
use ledger::money::Money;
use rusqlite::Connection;

fn money(s: &str) -> Money {
    Money::from_str(s).unwrap()
}

#[test]
fn test_money_from_string() {
    let valid_cases = [
        ("123.45", true),
        ("0.01", true),
        ("-99.99", true),
        ("1234567890.12", true),
        ("0.001", true),
        ("0.000000000000001", true),
        ("abc", false),
        ("12.345.67", false),
        ("", false),
        (".", false),
        ("92233720368.54775807", true),
        ("-92233720368.54775807", true),
        ("0.00000000", true),
        ("0.00000001", true),
        ("0.0000000000000001", true),
    ];

    for (input, should_succeed) in valid_cases {
        let result = Money::from_str(input);
        assert_eq!(
            result.is_ok(),
            should_succeed,
            "Failed for input: {}",
            input
        );
    }
}

#[test]
fn test_money_from_i64() {
    let cases = vec![
        (12345678, "0.12345678"),
        (100000000, "1.00000000"),
        (0, "0.00000000"),
        (-12345678, "-0.12345678"),
        (i64::MAX, "92233720368.54775807"),
        (i64::MIN, "-92233720368.54775808"),
        (0, "0.00000000"),
        (1, "0.00000001"),
        (-1, "-0.00000001"),
    ];

    for (i64_value, expected_str) in cases {
        let expected = Money::from_str(expected_str).unwrap();
        let money = Money::decode(i64_value);
        assert_eq!(money, expected, "Failed for i64 value: {}", i64_value);
    }
}

#[test]
fn test_money_arithmetic() {
    let m1 = money("100.50");
    let m2 = money("50.25");

    let sum = m1.add(m2);
    assert_eq!(sum, money("150.75"));

    let diff = money("100.00").subtract(money("50.00"));
    assert_eq!(diff, money("50.00"));
}

#[test]
fn test_money_precision() {
    // Test with maximum precision
    let large_amount = Money::from_str("9999999999999999.9999999999999999").unwrap();
    let small_amount = Money::from_str("0.0000000000000001").unwrap();

    let result = large_amount.add(small_amount);
    assert_eq!(result, money("10000000000000000.000000000000"));
}

#[test]
fn test_money_sql_roundtrip() {
    let original = Money::new(12345, 2); // 123.45

    let value = original.encode().unwrap();

    let roundtrip = Money::decode(value);

    assert_eq!(original, roundtrip);
}

#[test]
fn test_money_max_values() {
    // Maximum positive value for i64 is 9,223,372,036,854,775,807
    // With 8 decimal places, this means our maximum decimal is 92,233,720,368.54775807
    let max_money = Money::from_str("92233720368.54775807").unwrap();
    let min_money = Money::from_str("-92233720368.54775807").unwrap();

    let conn = Connection::open_in_memory().unwrap();
    conn.execute(
        "CREATE TABLE test_max_money (id INTEGER PRIMARY KEY, amount INTEGER NOT NULL)",
        [],
    )
    .unwrap();

    // Test inserting maximum values
    conn.execute(
        "INSERT INTO test_max_money (amount) VALUES (?1)",
        [max_money.encode().unwrap()],
    )
    .unwrap();
    conn.execute(
        "INSERT INTO test_max_money (amount) VALUES (?1)",
        [min_money.encode().unwrap()],
    )
    .unwrap();

    // Verify retrieved values
    let mut stmt = conn
        .prepare("SELECT amount FROM test_max_money ORDER BY id")
        .unwrap();
    let money_iter = stmt
        .query_map([], |row| {
            let value: i64 = row.get(0)?;
            Ok(Money::decode(value))
        })
        .unwrap();

    let results: Vec<Money> = money_iter.map(|r| r.unwrap()).collect();
    assert_eq!(results[0], max_money);
    assert_eq!(results[1], min_money);

    // Test that exceeding the maximum value fails
    let too_large = Money::from_str("92233720368.54775808").unwrap();
    let result = too_large.encode();
    assert!(result.is_err());
}

#[test]
fn test_money_db_operations() {
    let conn = Connection::open_in_memory().unwrap();

    // Create a test table
    conn.execute(
        "CREATE TABLE test_money (id INTEGER PRIMARY KEY, amount INTEGER NOT NULL)",
        [],
    )
    .unwrap();

    // Test inserting and retrieving money values
    let test_amounts = vec![money("0.01"), money("1000000.00"), money("-99.99")];

    for amount in &test_amounts {
        conn.execute(
            "INSERT INTO test_money (amount) VALUES (?1)",
            [amount.encode().unwrap()],
        )
        .unwrap();
    }

    // Verify retrieved values
    let mut stmt = conn
        .prepare("SELECT amount FROM test_money ORDER BY id")
        .unwrap();
    let money_iter = stmt
        .query_map([], |row| {
            let value: i64 = row.get(0)?;
            Ok(Money::decode(value))
        })
        .unwrap();

    for (stored, original) in money_iter.zip(test_amounts) {
        assert_eq!(stored.unwrap(), original);
    }
}

#[test]
fn test_money_db_arithmetic() {
    let conn = Connection::open_in_memory().unwrap();

    // Create a test table
    conn.execute(
        "CREATE TABLE test_money_arithmetic (id INTEGER PRIMARY KEY, amount INTEGER NOT NULL)",
        [],
    )
    .unwrap();

    // Insert initial money values
    let m1 = money("100.50");
    let m2 = money("50.25");
    conn.execute(
        "INSERT INTO test_money_arithmetic (amount) VALUES (?1), (?2)",
        [m1.encode().unwrap(), m2.encode().unwrap()],
    )
    .unwrap();

    // Perform arithmetic operations in the database
    conn.execute(
        "UPDATE test_money_arithmetic SET amount = amount + ?1 WHERE id = 1",
        [m2.encode().unwrap()],
    )
    .unwrap();

    conn.execute(
        "UPDATE test_money_arithmetic SET amount = amount - ?1 WHERE id = 2",
        [m1.encode().unwrap()],
    )
    .unwrap();

    // Verify retrieved values
    let mut stmt = conn
        .prepare("SELECT amount FROM test_money_arithmetic ORDER BY id")
        .unwrap();
    let money_iter = stmt
        .query_map([], |row| {
            let value: i64 = row.get(0)?;
            Ok(Money::decode(value))
        })
        .unwrap();

    let results: Vec<Money> = money_iter.map(|r| r.unwrap()).collect();
    assert_eq!(results[0], m1.add(m2));
    assert_eq!(results[1], m2.subtract(m1));
}

#[test]
fn test_money_to_sql_conversion_failure() {
    // This would result in an integer that is too big and can´t be represented in an i64
    let too_large = Money::from_str("92233720368.54775808").unwrap();
    let result = too_large.encode();
    assert!(result.is_err());
}

#[test]
fn test_money_sql_i64_min_and_max() {
    let original = Money::decode(i64::MAX); // 92233720368.54775807

    let value = original.encode().unwrap();

    let roundtrip = Money::decode(value);

    assert_eq!(original, roundtrip);

    let original = Money::decode(i64::MIN); // -92233720368.54775808

    let value = original.encode().unwrap();

    let roundtrip = Money::decode(value);

    assert_eq!(original, roundtrip);
}

#[test]
fn test_money_arithmetic_edge_cases() {
    let zero = money("0.00");
    let m1 = money("92233720368.54775807");
    let m2 = money("-92233720368.54775807");

    assert_eq!(m1.add(zero), money("92233720368.54775807"));
    assert_eq!(zero.add(m2), money("-92233720368.54775807"));
    assert_eq!(m1.subtract(m1), money("0.00"));
    assert_eq!(m2.subtract(m2), money("0.00"));
    assert_eq!(m1.add(m2), money("0.00"));
}

#[test]
fn round_trip_various_values() {
    // every value with at most eight fractional digits comes back exactly
    for s in [
        "0",
        "0.1",
        "-0.1",
        "1.25",
        "-1.25",
        "42",
        "0.00000001",
        "-0.00000001",
        "92233720368.54775807",
        "-92233720368.54775807",
        "12345678.87654321",
    ] {
        let v = money(s);
        let raw = v.encode().unwrap();
        assert_eq!(Money::decode(raw), v, "round trip failed for {}", s);
    }
}

#[test]
fn encode_rounds_half_to_even() {
    // a ninth fractional digit is resolved by rounding half to even
    assert_eq!(money("0.000000005").encode().unwrap(), 0);
    assert_eq!(money("0.000000015").encode().unwrap(), 2);
    assert_eq!(money("0.000000025").encode().unwrap(), 2);
    assert_eq!(money("0.000000035").encode().unwrap(), 4);
    assert_eq!(money("0.000000014").encode().unwrap(), 1);
    assert_eq!(money("0.000000016").encode().unwrap(), 2);
    assert_eq!(money("-0.000000015").encode().unwrap(), -2);
    assert_eq!(money("-0.000000025").encode().unwrap(), -2);
}

#[test]
fn encode_range_boundaries() {
    // the widest encodable magnitudes, and the first ones past them
    assert_eq!(
        money("92233720368.54775807").encode().unwrap(),
        i64::MAX
    );
    assert_eq!(
        money("-92233720368.54775808").encode().unwrap(),
        i64::MIN
    );
    assert_eq!(
        money("92233720368.54775808").encode(),
        Err(Error::RangeOverflow)
    );
    assert_eq!(
        money("-92233720368.54775809").encode(),
        Err(Error::RangeOverflow)
    );
    assert_eq!(money("100000000000").encode(), Err(Error::RangeOverflow));
}

#[test]
fn parse_rejects_malformed_literals() {
    for s in [
        "",
        ".",
        "-",
        "+",
        "--1",
        "1.",
        ".5",
        "1..2",
        "1.2.3",
        "1e5",
        " 1",
        "1 ",
        "0.00000000000000000000000000001",
    ] {
        assert_eq!(Money::from_str(s), Err(Error::InvalidFormat), "{:?}", s);
    }
}

#[test]
fn parse_accepts_plus_sign_and_zeros() {
    assert_eq!(money("+12.30"), money("12.3"));
    assert_eq!(money("007"), money("7"));
    assert_eq!(money("-0"), money("0.000"));
}

#[test]
fn equality_and_order_compare_exact_values() {
    // trailing zeros never matter; the encoded form never decides
    assert_eq!(money("1.10"), money("1.1"));
    assert_eq!(money("5"), money("5.000000000000"));
    assert!(money("1.05") != money("1.5"));
    assert!(money("-2").lt(&money("0.0001")));
    assert!(money("1.25").lt(&money("1.3")));
    assert!(!money("1.3").lt(&money("1.25")));
    assert!(money("7").le(&money("7.0")));
    assert!(money("-0.00000001").lt(&money("0")));
}

#[test]
fn sign_predicates() {
    assert!(money("0.00").is_zero());
    assert!(money("3.14").is_positive());
    assert!(money("-3.14").is_negative());
    assert!(!money("0").is_positive());
    assert!(!money("0").is_negative());
}

#[test]
fn amount_exposes_normal_form() {
    let m = money("1.2300");
    assert_eq!(m.amount(), (123, 2));
    assert_eq!(m.mantissa(), 123);
    assert_eq!(m.scale(), 2);
    assert_eq!(money("-45.6").amount(), (-456, 1));
    assert_eq!(money("0.0000").amount(), (0, 0));
}

#[test]
fn addition_commutes_and_associates() {
    let a = money("12.345");
    let b = money("-0.67");
    let c = money("1000");
    assert_eq!(a.add(b), b.add(a));
    assert_eq!(a.add(b).add(c), a.add(b.add(c)));
    assert_eq!(a.subtract(b), a.add(money("0.67")));
}
