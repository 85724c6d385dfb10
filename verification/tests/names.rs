use dbus_wire::names::{
    BusName, BusNameError, DbusString, DbusStringError, ErrorName, ErrorNameError, InterfaceName,
    InterfaceNameError, MemberName, MemberNameError,
};

#[test]
fn interface_name() {
    let large_string = String::from_utf8(vec![b'X'; 256]).unwrap();
    assert_eq!(
        Err(InterfaceNameError::ExceedsMaxSize),
        InterfaceName::from_str(large_string.as_str())
    );

    assert_eq!(
        Err(InterfaceNameError::ElementsMustContainChars),
        InterfaceName::from_str("Elements..MissingChars")
    );

    assert_eq!(
        Err(InterfaceNameError::MustContainPeriod),
        InterfaceName::from_str("MissingPeriod")
    );

    assert_eq!(
        Err(InterfaceNameError::MustNotBeginWithPeriod),
        InterfaceName::from_str(".Must.Not.Start.With.Period")
    );

    assert_eq!(
        Err(InterfaceNameError::ElementMustNotBeginWithDigit),
        InterfaceName::from_str("Must.Not.Start.With.9Digit")
    );

    assert_eq!(
        Err(InterfaceNameError::InvalidCharacter('|')),
        InterfaceName::from_str("Invalid.C|har")
    );

    let valid_string = "Valid.Interface";
    assert_eq!(
        Ok(InterfaceName(valid_string.to_string())),
        InterfaceName::from_str(valid_string)
    );
}

#[test]
fn bus_name() {
    let large_string = String::from_utf8(vec![b'X'; 256]).unwrap();
    assert_eq!(
        Err(BusNameError::ExceedsMaxSize),
        BusName::from_str(large_string.as_str())
    );

    assert_eq!(
        Err(BusNameError::ElementsMustContainChars),
        BusName::from_str("Elements..MissingChars")
    );

    assert_eq!(
        Err(BusNameError::MustContainPeriod),
        BusName::from_str("MissingPeriod")
    );

    assert_eq!(
        Err(BusNameError::MustNotBeginWithPeriod),
        BusName::from_str(".Must.Not.Start.With.Period")
    );

    assert_eq!(
        Err(BusNameError::InvalidCharacter('|')),
        BusName::from_str("Invalid.C|har")
    );

    let valid_string = "Valid.BusName";
    assert_eq!(Ok(BusName(valid_string.to_string())), BusName::from_str(valid_string));
}

#[test]
fn member_name() {
    let large_string = String::from_utf8(vec![b'X'; 256]).unwrap();
    assert_eq!(
        Err(MemberNameError::ExceedsMaxSize),
        MemberName::from_str(large_string.as_str())
    );

    assert_eq!(
        Err(MemberNameError::InvalidCharacter('|')),
        MemberName::from_str("InvalidC|har")
    );

    assert_eq!(
        Err(MemberNameError::MustNotContainPeriod),
        MemberName::from_str("Contains.Period")
    );

    assert_eq!(
        Err(MemberNameError::MustNotBeginWithDigit),
        MemberName::from_str("1MustNotBeginWithDigit")
    );

    let valid_string = "ValidMemberName";
    assert_eq!(
        Ok(MemberName(valid_string.to_string())),
        MemberName::from_str(valid_string)
    );
}

#[test]
fn error_name() {
    let large_string = String::from_utf8(vec![b'X'; 256]).unwrap();
    assert_eq!(
        Err(ErrorNameError::ExceedsMaxSize),
        ErrorName::from_str(large_string.as_str())
    );

    assert_eq!(
        Err(ErrorNameError::ElementsMustContainChars),
        ErrorName::from_str("Elements..MissingChars")
    );

    assert_eq!(
        Err(ErrorNameError::MustContainPeriod),
        ErrorName::from_str("MissingPeriod")
    );

    assert_eq!(
        Err(ErrorNameError::MustNotBeginWithPeriod),
        ErrorName::from_str(".Must.Not.Start.With.Period")
    );

    assert_eq!(
        Err(ErrorNameError::ElementMustNotBeginWithDigit),
        ErrorName::from_str("Must.Not.Start.With.9Digit")
    );

    assert_eq!(
        Err(ErrorNameError::InvalidCharacter('|')),
        ErrorName::from_str("Invalid.C|har")
    );

    let valid_string = "Valid.Error.Name";
    assert_eq!(Ok(ErrorName(valid_string.to_string())), ErrorName::from_str(valid_string));
}

#[test]
fn names_allow_underscores_and_digits_inside_elements() {
    assert!(InterfaceName::from_str("org.example_iface.v2_test").is_ok());
    assert!(BusName::from_str("org.example_bus-x").is_ok());
    assert!(MemberName::from_str("Do_Thing-2").is_ok());
}

#[test]
fn leading_digit_without_period_reports_missing_period() {
    assert_eq!(
        Err(InterfaceNameError::MustContainPeriod),
        InterfaceName::from_str("9NoPeriod")
    );
}

#[test]
fn bus_name_elements_may_begin_with_digits() {
    assert!(BusName::from_str("1.42").is_ok());
    assert_eq!(
        Err(InterfaceNameError::ElementMustNotBeginWithDigit),
        InterfaceName::from_str("1.42")
    );
}

#[test]
fn member_name_grammar_puts_no_lower_bound_on_length() {
    assert_eq!(Ok(MemberName("".to_string())), MemberName::from_str(""));
    assert_eq!(Ok(MemberName("x".to_string())), MemberName::from_str("x"));
}

#[test]
fn dbus_string_caps_length_at_255_bytes() {
    let large_string = String::from_utf8(vec![b'X'; 256]).unwrap();
    assert_eq!(
        Err(DbusStringError::ExceedsMaxSize),
        DbusString::from_str(large_string.as_str())
    );
    assert_eq!(Ok(DbusString("ok".to_string())), DbusString::from_str("ok"));
}
