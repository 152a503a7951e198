use std::collections::{BTreeSet, HashSet};

use fqdn::{Config, Error, Fqdn, FQDN};

const LENGTH_256_TEXT: &str = "aaaaaaaaaaaaaaaaaaaaaaaaaaaaaaaaaaaaaaaaaaaaaaaaaaaaaaaaaaaaaaa.aaaaaaaaaaaaaaaaaaaaaaaaaaaaaaaaaaaaaaaaaaaaaaaaaaaaaaaaaaaaaaa.aaaaaaaaaaaaaaaaaaaaaaaaaaaaaaaaaaaaaaaaaaaaaaaaaaaaaaaaaaaaaaa.aaaaaaaaaaaaaaaaaaaaaaaaaaaaaaaaaaaaaaaaaaaaaaaaaaaaaaaaaaaaaa.";
const LENGTH_255_TEXT: &str = "aaaaaaaaaaaaaaaaaaaaaaaaaaaaaaaaaaaaaaaaaaaaaaaaaaaaaaaaaaaaaaa.aaaaaaaaaaaaaaaaaaaaaaaaaaaaaaaaaaaaaaaaaaaaaaaaaaaaaaaaaaaaaaa.aaaaaaaaaaaaaaaaaaaaaaaaaaaaaaaaaaaaaaaaaaaaaaaaaaaaaaaaaaaaaaa.aaaaaaaaaaaaaaaaaaaaaaaaaaaaaaaaaaaaaaaaaaaaaaaaaaaaaaaaaaaaa.";
const LENGTH_256_BYTES: &[u8; 256] = b"\x3faaaaaaaaaaaaaaaaaaaaaaaaaaaaaaaaaaaaaaaaaaaaaaaaaaaaaaaaaaaaaaa\x3faaaaaaaaaaaaaaaaaaaaaaaaaaaaaaaaaaaaaaaaaaaaaaaaaaaaaaaaaaaaaaa\x3faaaaaaaaaaaaaaaaaaaaaaaaaaaaaaaaaaaaaaaaaaaaaaaaaaaaaaaaaaaaaaa\x3eaaaaaaaaaaaaaaaaaaaaaaaaaaaaaaaaaaaaaaaaaaaaaaaaaaaaaaaaaaaaaa\x00";
const LENGTH_255_BYTES: &[u8; 255] = b"\x3faaaaaaaaaaaaaaaaaaaaaaaaaaaaaaaaaaaaaaaaaaaaaaaaaaaaaaaaaaaaaaa\x3faaaaaaaaaaaaaaaaaaaaaaaaaaaaaaaaaaaaaaaaaaaaaaaaaaaaaaaaaaaaaaa\x3faaaaaaaaaaaaaaaaaaaaaaaaaaaaaaaaaaaaaaaaaaaaaaaaaaaaaaaaaaaaaaa\x3daaaaaaaaaaaaaaaaaaaaaaaaaaaaaaaaaaaaaaaaaaaaaaaaaaaaaaaaaaaaa\x00";

fn relaxed() -> Config {
    Config::default()
}

fn with_trailing_dot() -> Config {
    Config { name_should_have_trailing_dot: true, ..Config::default() }
}

fn with_short_names() -> Config {
    Config { name_length_limited_to_255: true, ..Config::default() }
}

fn with_hyphen_rule() -> Config {
    Config { label_cannot_start_or_end_with_hyphen: true, ..Config::default() }
}

fn with_punycode() -> Config {
    Config { punycode: true, ..Config::default() }
}

fn name(parts: &[&str]) -> FQDN {
    FQDN::from_parts(parts, relaxed()).unwrap()
}

#[test]
fn parsing_string() {
    assert!(FQDN::default().is_root());
    assert!("github.com.".parse::<FQDN>().is_ok());

    assert_eq!(
        FQDN::from_ascii_str("crates.io", with_trailing_dot()),
        Err(Error::TrailingDotMissing)
    );
    assert_eq!(
        "crates.io".parse::<FQDN>().map(|fqdn| fqdn.to_string(relaxed())),
        Ok("crates.io".to_string())
    );

    assert_eq!("github..com.".parse::<FQDN>(), Err(Error::EmptyLabel));
    assert_eq!(".github.com.".parse::<FQDN>(), Err(Error::EmptyLabel));
    assert_eq!("git@ub.com.".parse::<FQDN>(), Err(Error::InvalidLabelChar));

    assert_eq!(
        FQDN::from_ascii_str(LENGTH_256_TEXT, with_short_names()),
        Err(Error::TooLongDomainName)
    );
    assert!(LENGTH_256_TEXT.parse::<FQDN>().is_ok());

    assert!(LENGTH_255_TEXT.parse::<FQDN>().is_ok());
    assert!(FQDN::from_ascii_str(LENGTH_255_TEXT, with_short_names()).is_ok());

    assert_eq!(
        FQDN::from_ascii_str(&LENGTH_256_TEXT[..LENGTH_256_TEXT.len() - 1], with_short_names()),
        Err(Error::TooLongDomainName)
    );
    assert!(LENGTH_256_TEXT[..LENGTH_256_TEXT.len() - 1].parse::<FQDN>().is_ok());
    assert!(LENGTH_255_TEXT[..LENGTH_255_TEXT.len() - 1].parse::<FQDN>().is_ok());
    assert!(FQDN::from_ascii_str(
        &LENGTH_255_TEXT[..LENGTH_255_TEXT.len() - 1],
        with_short_names()
    )
    .is_ok());
}

#[test]
fn parsing_bytes() {
    assert!(Fqdn::from_bytes(b"\x06github\x03com\x00", relaxed()).is_ok());

    assert_eq!(
        Fqdn::from_bytes(b"\x06github\x03com", relaxed()),
        Err(Error::TrailingNulCharMissing)
    );
    assert_eq!(
        Fqdn::from_bytes(b"\x06g|thub\x03com\x00", relaxed()),
        Err(Error::InvalidLabelChar)
    );

    assert_eq!(
        Fqdn::from_bytes(b"\x05-yeah\x0512345\x03com\x00", with_hyphen_rule()),
        Err(Error::LabelCannotStartWithHyphen)
    );
    assert_eq!(
        Fqdn::from_bytes(b"\x05yeah-\x0512345\x03com\x00", with_hyphen_rule()),
        Err(Error::LabelCannotEndWithHyphen)
    );

    assert_eq!(
        Fqdn::from_bytes(LENGTH_256_BYTES, with_short_names()),
        Err(Error::TooLongDomainName)
    );
    assert!(Fqdn::from_bytes(LENGTH_256_BYTES, relaxed()).is_ok());

    assert!(Fqdn::from_bytes(LENGTH_255_BYTES, relaxed()).is_ok());
    assert!(Fqdn::from_bytes(LENGTH_255_BYTES, with_short_names()).is_ok());
}

#[test]
fn check_bytes() {
    let fqdn = Fqdn::from_bytes(b"\x06github\x03com\x00", relaxed()).unwrap();
    assert_eq!(fqdn.tld().unwrap().as_bytes(), b"\x03com\x00");
    assert_eq!(&fqdn.as_bytes()[fqdn.as_bytes().len() - 5..], b"\x03com\x00");

    assert_eq!(Ok(FQDN::default()), FQDN::from_vec(vec![], relaxed()));

    assert_eq!(Err(Error::InvalidStructure), FQDN::from_vec(vec![1], relaxed()));
    assert_eq!(
        Ok(name(&["a.fr"])),
        FQDN::from_vec(vec![1, b'a', 2, b'f', b'r'], relaxed())
    );
    assert_eq!(
        Ok(name(&["a.fr"])),
        FQDN::from_vec(vec![1, b'a', 2, b'f', b'r', 0], relaxed())
    );
}

#[test]
fn check_bytes_label_with_lowercase() {
    let fqdnref = Fqdn::from_bytes(b"\x06github\x03com\x00", relaxed()).unwrap();

    assert_eq!(fqdnref.to_string(with_trailing_dot()), "github.com.");
    assert_eq!(fqdnref.to_string(relaxed()), "github.com");

    let fqdn = FQDN::from_vec(b"\x06GitHUB\x03com\x00".to_vec(), relaxed()).unwrap();
    assert_eq!(fqdn, fqdnref);

    let fqdn = FQDN::from_vec(b"\x06GitHUB\x03com".to_vec(), relaxed()).unwrap();
    assert_eq!(fqdn, fqdnref);
}

#[test]
fn check_bytes_label_with_single_char() {
    assert!(Fqdn::from_bytes(b"\x01a\x02fr\x00", relaxed()).is_ok());
}

#[test]
fn depth() {
    assert_eq!(".".parse::<FQDN>().map(|f| f.is_root()), Ok(true));
    assert_eq!(".".parse::<FQDN>().map(|f| f.depth()), Ok(0));
    assert_eq!("github.com.".parse::<FQDN>().map(|f| f.depth()), Ok(2));
    assert_eq!("rust-lang.github.com.".parse::<FQDN>().map(|f| f.depth()), Ok(3));
}

#[test]
fn subdomains() {
    let a = "rust-lang.github.com.".parse::<FQDN>().unwrap();
    let b = "GitHub.com.".parse::<FQDN>().unwrap();

    assert!(a.is_subdomain_of(&a));
    assert!(a.is_subdomain_of(&b));
    assert!(!b.is_subdomain_of(&a));

    assert!(name(&["com"]).is_tld());
    assert_eq!(a, name(&["rust-lang", "github", "com"]));
}

#[test]
fn equivalence() {
    let fqdn1 = "github.com.".parse::<FQDN>().unwrap();
    let fqdn2 = "GitHub.com.".parse::<FQDN>().unwrap();
    assert_eq!(fqdn1, fqdn2);
    assert_eq!(&fqdn1, &fqdn2);
    assert_eq!(fqdn1.as_ref(), fqdn2.as_ref());
    assert_eq!(fqdn1, fqdn2.as_ref());
    assert_eq!(fqdn1.as_ref(), fqdn2);
    assert_eq!(&fqdn1.as_ref(), &fqdn2.as_ref());
}

#[test]
fn string_compare() {
    let fqdn = "GitHub.com.".parse::<FQDN>().unwrap();
    assert_eq!(fqdn, "github.com.");
    assert_eq!("github.com.", fqdn);
    assert_eq!(fqdn, "github.COM.");
    assert_ne!(fqdn, "git=hub.COM.");

    assert!(!fqdn.eq_str("github.com", with_trailing_dot()));
    assert!(!fqdn.eq_str("github.COM", with_trailing_dot()));

    assert_eq!(fqdn, "github.com");
    assert_eq!(fqdn, "github.COM");
}

#[test]
fn ordering() {
    assert!("a.github.com.".parse::<FQDN>().unwrap() < "aa.GitHub.com.".parse::<FQDN>().unwrap());
    assert!("ab.github.com.".parse::<FQDN>().unwrap() > "aa.github.com.".parse::<FQDN>().unwrap());
    assert!("ab.GitHub.com.".parse::<FQDN>().unwrap() > "aa.github.com.".parse::<FQDN>().unwrap());
    assert!("ab.GitHub.com.".parse::<FQDN>().unwrap() > "aa.github.co.".parse::<FQDN>().unwrap());

    let items = ["github.com.", "a.Github.com.", "a.GitHub.com.", "a.github.com.", "aa.github.com."];

    let ordered = items.iter().map(|s| s.parse::<FQDN>().unwrap()).collect::<BTreeSet<_>>();

    let unordered = items.iter().map(|s| s.parse::<FQDN>().unwrap()).collect::<HashSet<_>>();

    assert_eq!(ordered.len(), unordered.len());
    assert_eq!(ordered.len(), 3);
}

#[test]
fn special_chars() {
    assert!("git_hub.com.".parse::<FQDN>().is_ok());
    assert!("git#hub.com.".parse::<FQDN>().is_ok());
}

#[test]
fn punycode() {
    let fqdn = FQDN::from_parts(&["www.académie-Française.fr"], with_punycode()).unwrap();
    assert_eq!(fqdn, "www.xn--acadmie-franaise-npb1a.fr");

    assert_eq!(FQDN::punyencode("www.académie-française.fr", relaxed()).unwrap(), fqdn);

    assert_eq!(
        fqdn.as_ref().punydecode(relaxed()),
        Some("www.académie-française.fr".to_string())
    );
    assert_eq!(
        fqdn.as_ref().punydecode(with_trailing_dot()),
        Some("www.académie-française.fr.".to_string())
    );
}
