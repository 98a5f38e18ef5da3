use ruma_canonical::{validate, Error};

#[test]
fn validator_success() {
    assert_eq!(validate("ed25519:ABCDEF"), Ok(7));
}

#[test]
fn validator_other_algorithms() {
    assert_eq!(validate("curve25519:XYZ"), Ok(10));
    assert_eq!(validate("signed_curve25519:AAAA"), Ok(17));
    assert_eq!(validate("ed25519:"), Ok(7));
    assert_eq!(validate("ed25519:a:b"), Ok(7));
}

#[test]
fn validator_missing_delimiter() {
    assert_eq!(validate("garbage"), Err(Error::MissingKeyDelimiter));
    assert_eq!(validate(""), Err(Error::MissingKeyDelimiter));
}

#[test]
fn validator_unknown_algorithm() {
    assert_eq!(validate("unknownalg:ABCDEF"), Err(Error::UnknownKeyAlgorithm));
    assert_eq!(validate("ed2551:ABCDEF"), Err(Error::UnknownKeyAlgorithm));
    assert_eq!(validate("ED25519:ABCDEF"), Err(Error::UnknownKeyAlgorithm));
}

#[test]
fn validator_empty_algorithm_name() {
    assert_eq!(validate(":ABCDEF"), Err(Error::UnknownKeyAlgorithm));
}

#[test]
fn validator_overlong_algorithm_name() {
    let long = format!("{}:ABCDEF", "a".repeat(300));
    assert_eq!(validate(&long), Err(Error::UnknownKeyAlgorithm));
    let wraps = format!("ed25519{}:ABCDEF", "x".repeat(256));
    assert_eq!(validate(&wraps), Err(Error::UnknownKeyAlgorithm));
}

#[test]
fn error_messages() {
    assert_eq!(Error::MissingKeyDelimiter.message(), "colon is required between algorithm and key identifier");
    assert_eq!(Error::UnknownKeyAlgorithm.message(), "unknown key algorithm specified");
    assert_eq!(Error::InvalidLocalPart.message(), "localpart is empty");
    assert_eq!(Error::MaximumLengthExceeded.message(), "ID exceeds 255 bytes");
    assert_eq!(Error::InvalidCharacters.message(), "localpart contains invalid characters");
    assert_eq!(Error::InvalidKeyVersion.message(), "key id version contains invalid characters");
    assert_eq!(Error::InvalidServerName.message(), "server name is not a valid IP address or domain name");
    assert_eq!(Error::MinimumLengthNotSatisfied.message(), "ID must be at least 4 characters");
    assert_eq!(Error::MissingDelimiter.message(), "colon is required between localpart and server name");
    assert_eq!(Error::MissingSigil.message(), "leading sigil is missing");
}
