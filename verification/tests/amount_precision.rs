// Amounts are kept to the ten-thousandth. A text that asks for more is refused
// rather than cut, so that nothing is lost unseen.

use accounter::amount::Amount;

fn amount(text: &str) -> Amount {
    Amount::from_str(text).unwrap()
}

#[test]
#[allow(non_snake_case)]
fn Amount_constants() {
    assert_eq!(Amount::zero().scaled(), 0);
    assert_eq!(Amount::max_value().scaled(), 9223372036854775807);
    assert_eq!(Amount::min_value().scaled(), -9223372036854775808);
}

#[test]
#[allow(non_snake_case)]
fn Amount_from_string() {
    assert!(Amount::from_str("").is_err());
    assert!(Amount::from_str(" ").is_err());
    assert!(Amount::from_str(".").is_err());
    assert!(Amount::from_str(" .").is_err());
    assert!(Amount::from_str(". ").is_err());
    assert!(Amount::from_str(" . ").is_err());
    assert!(Amount::from_str("a").is_err());
    assert!(Amount::from_str(".a").is_err());
    assert!(Amount::from_str("a.a").is_err());
    assert!(Amount::from_str("0. 0").is_err());
    assert!(Amount::from_str("0 .0").is_err());
    assert!(Amount::from_str(" 0.0").is_err());
    assert!(Amount::from_str("0.0 ").is_err());
    assert!(Amount::from_str(" 0.0 ").is_err());
    assert!(Amount::from_str("+ 1.0").is_err());
    assert!(Amount::from_str("- 1.0").is_err());
    assert_eq!(Amount::from_str("0"), Ok(Amount::zero()));
    assert_eq!(Amount::from_str(".0"), Ok(Amount::zero()));
    assert_eq!(Amount::from_str("0."), Ok(Amount::zero()));
    assert_eq!(Amount::from_str("0.0"), Ok(Amount::zero()));
    assert_eq!(Amount::from_str("1.0"), Ok(Amount::one()));
    assert_eq!(Amount::from_str("+1.0"), Ok(Amount::one()));
    assert_eq!(Amount::from_str("-1.0"), Ok(Amount::minus_one()));
    assert_eq!(Amount::from_str("922337203685477.5807"), Ok(Amount::max_value()));
    assert_eq!(Amount::from_str("+922337203685477.5807"), Ok(Amount::max_value()));
    assert_eq!(Amount::from_str("-922337203685477.5808"), Ok(Amount::min_value()));
}

#[test]
#[allow(non_snake_case)]
fn Amount_display() {
    assert_eq!(amount("-922337203685477.5808").to_string(), "-922337203685477.5808");
    assert_eq!(amount("922337203685477.5807").to_string(), "922337203685477.5807");
    assert_eq!(amount("0.0").to_string(), "0");

    assert_eq!(amount("1.1").to_string(), "1.1");
    assert_eq!(amount("1.01").to_string(), "1.01");
    assert_eq!(amount("1.001").to_string(), "1.001");
    assert_eq!(amount("1.0001").to_string(), "1.0001");
    assert!(Amount::from_str("1.00001").is_err());

    assert_eq!(amount("+1.1").to_string(), "1.1");
    assert_eq!(amount("+1.01").to_string(), "1.01");
    assert_eq!(amount("+1.001").to_string(), "1.001");
    assert_eq!(amount("+1.0001").to_string(), "1.0001");
    assert!(Amount::from_str("+1.00001").is_err());

    assert_eq!(amount("+0.1").to_string(), "0.1");
    assert_eq!(amount("+0.01").to_string(), "0.01");
    assert_eq!(amount("+0.001").to_string(), "0.001");
    assert_eq!(amount("+0.0001").to_string(), "0.0001");
    assert!(Amount::from_str("+0.00001").is_err());

    assert_eq!(amount("-1.1").to_string(), "-1.1");
    assert_eq!(amount("-1.01").to_string(), "-1.01");
    assert_eq!(amount("-1.001").to_string(), "-1.001");
    assert_eq!(amount("-1.0001").to_string(), "-1.0001");
    assert!(Amount::from_str("-1.00001").is_err());

    assert_eq!(amount("-0.1").to_string(), "-0.1");
    assert_eq!(amount("-0.01").to_string(), "-0.01");
    assert_eq!(amount("-0.001").to_string(), "-0.001");
    assert_eq!(amount("-0.0001").to_string(), "-0.0001");
    assert!(Amount::from_str("-0.00001").is_err());

    assert!(Amount::from_str("1.00011").is_err());
    assert_eq!(amount("-1.0001").to_string(), "-1.0001");
    assert!(Amount::from_str("-1.00011").is_err());
}

#[test]
#[allow(non_snake_case)]
fn Amount_adding() {
    assert_eq!(Amount::checked_add(amount("0"), amount("0")).unwrap(), amount("0"));
    assert_eq!(Amount::checked_add(amount("1"), amount("0")).unwrap(), amount("1"));
    assert_eq!(Amount::checked_add(amount("0"), amount("1")).unwrap(), amount("1"));
    assert_eq!(Amount::checked_add(amount("1"), amount("1")).unwrap(), amount("2"));
    assert_eq!(
        Amount::checked_add(amount("56.1234"), amount("78.1234")).unwrap(),
        amount("134.2468")
    );
    assert!(Amount::from_str("56.12349").is_err());
    assert!(Amount::from_str("78.12349").is_err());

    assert_eq!(Amount::checked_add(Amount::max_value(), amount("0.0001")), None); //overflow
}

#[test]
#[allow(non_snake_case)]
fn Amount_subtracting() {
    assert_eq!(Amount::checked_sub(amount("0"), amount("0")).unwrap(), amount("0"));
    assert_eq!(Amount::checked_sub(amount("1"), amount("0")).unwrap(), amount("1"));
    assert_eq!(Amount::checked_sub(amount("0"), amount("1")), Some(amount("-1")));
    assert_eq!(Amount::checked_sub(amount("1"), amount("1")), Some(amount("0")));
    assert_eq!(
        Amount::checked_sub(amount("78.1234"), amount("56.1234")).unwrap(),
        amount("22")
    );
    assert!(Amount::from_str("78.12345").is_err());
    assert!(Amount::from_str("56.12343").is_err());

    assert_eq!(Amount::checked_sub(Amount::min_value(), amount("0.0001")), None); //overflow

    assert_eq!(Amount::checked_sub(Amount::max_value(), Amount::min_value()), None); //overflow
}

#[test]
#[allow(non_snake_case)]
fn Amount_compare() {
    assert_eq!(amount("0") > amount("0"), false);
    assert_eq!(amount("-1") > amount("1"), false);
    assert_eq!(amount("1") < amount("1"), false);
    assert_eq!(amount("-1") < amount("1"), true);

    assert_eq!(amount("2.5") == amount("2.5"), true);
    assert_eq!(amount("1") == amount("-1"), false);

    assert!(Amount::from_str("2.50001").is_err());
    assert!(Amount::from_str("2.50003").is_err());
    assert_eq!(amount("2.5001") == amount("2.5003"), false);

    assert_eq!(amount("0.1") > amount("1.1"), false);
    assert_eq!(amount("1.5565") < amount("1.5566"), true);
    assert_eq!(amount("0.1") < amount("1.1"), true);
    assert_eq!(amount("1.5565") > amount("1.5566"), false);
}
