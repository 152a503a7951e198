use std::collections::hash_map::DefaultHasher;
use std::collections::{BTreeSet, HashSet};
use std::hash::{Hash, Hasher};

use fqdn::{check_and_lower_any_char, check_any_char, check_byte_sequence};
use fqdn::{Config, Error, Fqdn, FQDN};

fn lenient() -> Config {
    Config::default()
}

fn strict() -> Config {
    Config::strict_rfc()
}

fn parse(text: &str) -> FQDN {
    FQDN::from_ascii_str(text, lenient()).unwrap()
}

fn hash_of<T: Hash>(value: &T) -> u64 {
    let mut hasher = DefaultHasher::new();
    value.hash(&mut hasher);
    hasher.finish()
}

#[test]
fn default_policy_is_the_lenient_one() {
    let cfg = Config::default();
    assert_eq!(cfg, Config::relaxed());
    assert!(!cfg.label_length_limited_to_63);
    assert!(!cfg.name_length_limited_to_255);
    assert!(!cfg.name_without_special_chars);
    assert!(!cfg.label_should_start_with_letter);
    assert!(!cfg.label_cannot_start_or_end_with_hyphen);
    assert!(!cfg.name_should_have_trailing_dot);
    assert!(!cfg.punycode);
    assert_eq!(cfg.max_label_len(), 255);
    assert!(cfg.name_fits(256));
}

#[test]
fn strict_policy_is_the_one_of_the_standards() {
    let cfg = Config::strict_rfc();
    assert!(cfg.label_length_limited_to_63);
    assert!(cfg.name_length_limited_to_255);
    assert!(cfg.name_without_special_chars);
    assert!(cfg.label_should_start_with_letter);
    assert!(!cfg.label_cannot_start_or_end_with_hyphen);
    assert!(cfg.name_should_have_trailing_dot);
    assert!(!cfg.punycode);
    assert_eq!(cfg.max_label_len(), 63);
    assert!(cfg.name_fits(255));
    assert!(!cfg.name_fits(256));
}

#[test]
fn class_table_matches_the_alphabet() {
    for c in 0..=255u8 {
        let ch = c as char;
        let expected_lower = if ch.is_ascii_alphanumeric() || ch == '-' || ch == '_' || ch == '#' {
            Ok(ch.to_ascii_lowercase() as u8)
        } else {
            Err(Error::InvalidLabelChar)
        };
        assert_eq!(check_and_lower_any_char(c, lenient()), expected_lower, "byte {}", c);

        let expected_exact = if ch.is_ascii_lowercase()
            || ch.is_ascii_digit()
            || ch == '-'
            || ch == '_'
            || ch == '#'
        {
            Ok(c)
        } else {
            Err(Error::InvalidLabelChar)
        };
        assert_eq!(check_any_char(c, lenient()), expected_exact, "byte {}", c);

        let strict_lower = if ch.is_ascii_alphanumeric() || ch == '-' {
            Ok(ch.to_ascii_lowercase() as u8)
        } else {
            Err(Error::InvalidLabelChar)
        };
        assert_eq!(check_and_lower_any_char(c, strict()), strict_lower, "byte {}", c);
    }
}

#[test]
fn class_table_has_an_entry_for_every_byte() {
    assert_eq!(fqdn::alphabet::CLASS_TABLE.len(), 256);
    assert_eq!(fqdn::alphabet::class_of(b'A'), b'a');
    assert_eq!(fqdn::alphabet::class_of(b'z'), b'z');
    assert_eq!(fqdn::alphabet::class_of(b'7'), b'7');
    assert_eq!(fqdn::alphabet::class_of(b'-'), b'-');
    assert_eq!(fqdn::alphabet::class_of(b'.'), 0);
    assert_eq!(fqdn::alphabet::class_of(0), 0);
    assert_eq!(fqdn::alphabet::fold_char(b'_', lenient()), b'_');
    assert_eq!(fqdn::alphabet::fold_char(b'_', strict()), 0);
}

#[test]
fn error_messages() {
    assert_eq!(
        Error::TrailingDotMissing.message(),
        "the trailing dot of the FQDN string is missing"
    );
    assert_eq!(
        Error::TrailingNulCharMissing.message(),
        "the trailing nul byte of the FQDN bytes is missing"
    );
    assert_eq!(Error::InvalidLabelChar.message(), "invalid char found in FQDN");
    assert_eq!(Error::InvalidStructure.message(), "invalid FQDN byte sequence");
    assert_eq!(Error::TooLongDomainName.message(), "too long FQDN");
    assert_eq!(Error::TooLongLabel.message(), "too long label found in FQDN");
    assert_eq!(
        Error::LabelDoesNotStartWithLetter.message(),
        "FQDN label must start with a letter"
    );
    assert_eq!(
        Error::LabelCannotStartWithHyphen.message(),
        "FQDN label can\u{2019}t start with a hyphen"
    );
    assert_eq!(
        Error::LabelCannotEndWithHyphen.message(),
        "FQDN label can\u{2019}t end with a hyphen"
    );
    assert_eq!(Error::EmptyLabel.message(), "empty label found in FQDN");
}

#[test]
fn encoding_of_a_name() {
    let name = parse("github.com.");
    assert_eq!(
        name.as_bytes(),
        &[0x06, 0x67, 0x69, 0x74, 0x68, 0x75, 0x62, 0x03, 0x63, 0x6f, 0x6d, 0x00]
    );
    assert_eq!(parse("GitHub.COM").as_bytes(), b"\x06github\x03com\x00");
    assert_eq!(parse(".").as_bytes(), b"\x00");
    assert_eq!(parse("").as_bytes(), b"\x00");
    assert_eq!(FQDN::default().as_bytes(), b"\x00");
}

#[test]
fn round_trip_of_text() {
    for text in ["github.com.", "GitHub.Com", "a.b.c.d.e.", "x", "rust-lang.github.io", "."] {
        for cfg in [lenient(), Config { name_should_have_trailing_dot: true, ..lenient() }] {
            let with_dot = if text.ends_with('.') { text.to_string() } else { format!("{}.", text) };
            let first = FQDN::from_ascii_str(&with_dot, cfg).unwrap();
            let written = first.to_string(cfg);
            let second = FQDN::from_ascii_str(&written, cfg).unwrap();
            assert_eq!(first, second);
            assert_eq!(first.as_bytes(), second.as_bytes());
            assert_eq!(written, second.to_string(cfg));
            assert_eq!(written, written.to_lowercase());
        }
    }
    assert_eq!(parse("GitHub.Com").to_string(lenient()), "github.com");
    assert_eq!(parse("GitHub.Com.").to_string(strict()), "github.com.");
    assert_eq!(parse(".").to_string(lenient()), ".");
    assert_eq!(parse("").to_string(strict()), ".");
    assert_eq!(parse("a.b").as_ref().to_text(strict()), b"a.b.".to_vec());
}

#[test]
fn case_never_changes_the_name() {
    let texts = ["GitHub.com.", "github.COM.", "GITHUB.COM.", "github.com.", "gItHuB.cOm"];
    for a in texts {
        for b in texts {
            assert_eq!(parse(a), parse(b));
            assert_eq!(parse(a).as_bytes(), parse(b).as_bytes());
        }
    }
    assert_eq!(
        FQDN::from_ascii_str("git@ub.com.", lenient()),
        FQDN::from_ascii_str("GIT@UB.COM.", lenient())
    );
}

#[test]
fn equality_is_an_equivalence() {
    let a = parse("GitHub.com.");
    let b = parse("github.COM.");
    let c = parse("GITHUB.com");
    let d = parse("gitlab.com.");
    assert!(a == a);
    assert!(a == b && b == a);
    assert!(a == b && b == c && a == c);
    assert!(a != d && d != a);
    assert!(parse("a.b") != parse("ab"));
    assert!(parse("a.b") != parse("a.b.c"));
    assert!(fqdn::relations::are_equivalent(b"\x01a\x00", b"\x01A\x00"));
    assert!(!fqdn::relations::are_equivalent(b"\x01a\x00", b"\x01b\x00"));
    assert!(!fqdn::relations::are_equivalent(b"\x01a\x00", b"\x01a"));
    assert!(!fqdn::relations::are_equivalent(b"\x02a\x00", b"\x02a\x00"));
    assert!(!fqdn::relations::are_equivalent(b"", b""));
    assert!(fqdn::relations::are_equivalent(b"\x00", b"\x00"));
    assert!(!fqdn::relations::are_equivalent(b"\x01a\x01b\x00", b"\x03a.b\x00"));
}

#[test]
fn order_is_total_and_agrees_with_equality() {
    assert!(parse("a.example.com.") < parse("b.example.com."));
    let names = ["b.example.com.", "a.example.com.", "A.example.com.", "example.com.", ".", "aa.b", "a.bb"];
    for x in names {
        for y in names {
            let (p, q) = (parse(x), parse(y));
            let less = p < q;
            let greater = p > q;
            let equal = p == q;
            assert_eq!(1, less as u8 + greater as u8 + equal as u8, "{} and {}", x, y);
            assert_eq!(equal, p.cmp(&q) == std::cmp::Ordering::Equal);
            assert_eq!(p.partial_cmp(&q), Some(p.cmp(&q)));
            assert_eq!(p.as_ref().partial_cmp(&q.as_ref()), Some(p.cmp(&q)));
            assert_eq!(p.partial_cmp(&q.as_ref()), Some(p.cmp(&q)));
            assert_eq!(p.as_ref().partial_cmp(&q), Some(p.cmp(&q)));
            assert_eq!(p.cmp(&q), p.as_bytes().cmp(q.as_bytes()));
            for z in names {
                let r = parse(z);
                if p < q && q < r {
                    assert!(p < r);
                }
            }
        }
    }
    assert_eq!(fqdn::relations::compare_bytes(b"ab", b"abc"), -1);
    assert_eq!(fqdn::relations::compare_bytes(b"abd", b"abc"), 1);
    assert_eq!(fqdn::relations::compare_bytes(b"abc", b"abc"), 0);
    assert_eq!(fqdn::relations::compare_bytes(b"", b""), 0);
    assert_eq!(fqdn::relations::compare_bytes(b"", b"a"), -1);
}

#[test]
fn hash_agrees_with_equality() {
    let a = parse("GitHub.com.");
    let b = parse("github.COM");
    assert_eq!(a, b);
    assert_eq!(hash_of(&a), hash_of(&b));
    assert_eq!(hash_of(&a.as_ref()), hash_of(&b.as_ref()));

    let texts = ["github.com.", "GitHub.com", "GITHUB.COM.", "a.github.com", "A.GITHUB.COM.", "."];
    let hashed = texts.iter().map(|t| parse(t)).collect::<HashSet<_>>();
    let ordered = texts.iter().map(|t| parse(t)).collect::<BTreeSet<_>>();
    assert_eq!(hashed.len(), 3);
    assert_eq!(ordered.len(), 3);
}

#[test]
fn structure_of_bytes_is_validated() {
    assert_eq!(check_byte_sequence(b"\x06github\x03com\x00", lenient()), Ok(()));
    assert_eq!(check_byte_sequence(b"\x00", lenient()), Ok(()));
    assert_eq!(check_byte_sequence(b"", lenient()), Err(Error::TrailingNulCharMissing));
    assert_eq!(check_byte_sequence(b"a", lenient()), Err(Error::TrailingNulCharMissing));
    assert_eq!(
        check_byte_sequence(b"\x06github\x03com", lenient()),
        Err(Error::TrailingNulCharMissing)
    );
    assert_eq!(
        check_byte_sequence(b"\x06github\x04com\x00", lenient()),
        Err(Error::InvalidStructure)
    );
    assert_eq!(
        check_byte_sequence(b"\x06github\x03com\x00\x00", lenient()),
        Err(Error::InvalidStructure)
    );
    assert_eq!(
        check_byte_sequence(b"\x06github\x00\x03com\x00", lenient()),
        Err(Error::InvalidStructure)
    );
    assert_eq!(check_byte_sequence(b"\x01\x00", lenient()), Err(Error::InvalidStructure));
    assert_eq!(
        check_byte_sequence(b"\x02crates\x02io\x00", lenient()),
        Err(Error::InvalidStructure)
    );
    assert_eq!(
        check_byte_sequence(b"\x06cr@tes\x02io\x00", lenient()),
        Err(Error::InvalidLabelChar)
    );
    assert_eq!(
        check_byte_sequence(b"\x06GitHub\x03com\x00", lenient()),
        Err(Error::InvalidLabelChar)
    );
    assert_eq!(
        check_byte_sequence(b"\x07git_hub\x03com\x00", strict()),
        Err(Error::InvalidLabelChar)
    );
    assert_eq!(check_byte_sequence(b"\x07git_hub\x03com\x00", lenient()), Ok(()));
    assert_eq!(
        check_byte_sequence(b"\x041abc\x03com\x00", strict()),
        Err(Error::LabelDoesNotStartWithLetter)
    );
    assert_eq!(
        check_byte_sequence(b"\x04-abc\x03com\x00", strict()),
        Err(Error::LabelDoesNotStartWithLetter)
    );
    assert_eq!(check_byte_sequence(b"\x04a1bc\x03com\x00", strict()), Ok(()));
    let hyphen = Config { label_cannot_start_or_end_with_hyphen: true, ..lenient() };
    assert_eq!(check_byte_sequence(b"\x01-\x00", hyphen), Err(Error::LabelCannotStartWithHyphen));
    assert_eq!(check_byte_sequence(b"\x02a-\x00", hyphen), Err(Error::LabelCannotEndWithHyphen));
    assert_eq!(check_byte_sequence(b"\x03a-b\x00", hyphen), Ok(()));
    assert_eq!(check_byte_sequence(b"\x03-@b\x00", hyphen), Err(Error::LabelCannotStartWithHyphen));
    assert_eq!(check_byte_sequence(b"\x03a@-\x00", hyphen), Err(Error::InvalidLabelChar));
}

#[test]
fn bytes_are_folded_by_from_vec() {
    assert_eq!(
        FQDN::from_vec(b"\x06GitHub\x03COM".to_vec(), lenient()).unwrap().as_bytes(),
        b"\x06github\x03com\x00"
    );
    assert_eq!(FQDN::from_vec(vec![0], lenient()).unwrap().as_bytes(), b"\x00");
    assert_eq!(FQDN::from_vec(vec![], lenient()).unwrap().as_bytes(), b"\x00");
    assert_eq!(FQDN::from_vec(vec![0, 0], lenient()), Err(Error::EmptyLabel));
    assert_eq!(
        FQDN::from_vec(b"\x06github\x00\x03com".to_vec(), lenient()),
        Err(Error::EmptyLabel)
    );
    assert_eq!(FQDN::from_vec(vec![3, b'a'], lenient()), Err(Error::InvalidStructure));
    assert_eq!(FQDN::from_vec(vec![1, b'@'], lenient()), Err(Error::InvalidLabelChar));
    assert_eq!(FQDN::from_vec(vec![1, b'_'], strict()), Err(Error::InvalidLabelChar));
    assert_eq!(FQDN::from_vec(vec![1, b'1'], strict()), Err(Error::LabelDoesNotStartWithLetter));

    let mut long = vec![64u8];
    long.extend(std::iter::repeat(b'a').take(64));
    assert_eq!(FQDN::from_vec(long.clone(), strict()), Err(Error::TooLongLabel));
    assert!(FQDN::from_vec(long, lenient()).is_ok());

    let mut name = Vec::new();
    for _ in 0..4 {
        name.push(63u8);
        name.extend(std::iter::repeat(b'a').take(63));
    }
    assert_eq!(name.len(), 256);
    assert_eq!(FQDN::from_vec(name.clone(), strict()), Err(Error::TooLongDomainName));
    assert!(FQDN::from_vec(name.clone(), lenient()).is_ok());
    name.truncate(254);
    name[192] = 61;
    assert_eq!(name.len(), 254);
    assert_eq!(FQDN::from_vec(name, strict()).unwrap().as_bytes().len(), 255);
}

#[test]
fn empty_labels_in_text_are_refused() {
    for cfg in [lenient(), strict()] {
        assert_eq!(FQDN::from_ascii_str("github..com.", cfg), Err(Error::EmptyLabel));
        assert_eq!(FQDN::from_ascii_str(".github.com.", cfg), Err(Error::EmptyLabel));
        assert_eq!(FQDN::from_ascii_str("github.com..", cfg), Err(Error::EmptyLabel));
        assert_eq!(FQDN::from_ascii_str("..", cfg), Err(Error::EmptyLabel));
    }
}

#[test]
fn text_is_held_to_the_policy() {
    assert_eq!(FQDN::from_ascii_str("github.com", strict()), Err(Error::TrailingDotMissing));
    assert_eq!(FQDN::from_ascii_str("", strict()), Err(Error::TrailingDotMissing));
    assert!(FQDN::from_ascii_str(".", strict()).unwrap().is_root());
    assert!(FQDN::from_ascii_str("", lenient()).unwrap().is_root());
    assert_eq!(FQDN::from_ascii_str("git_hub.com.", strict()), Err(Error::InvalidLabelChar));
    assert_eq!(FQDN::from_ascii_str("git hub.com.", lenient()), Err(Error::InvalidLabelChar));
    assert_eq!(FQDN::from_ascii_str("caf\u{e9}.com.", lenient()), Err(Error::InvalidLabelChar));
    assert_eq!(
        FQDN::from_ascii_str("1github.com.", strict()),
        Err(Error::LabelDoesNotStartWithLetter)
    );
    assert_eq!(
        FQDN::from_ascii_str("github.-com.", strict()),
        Err(Error::LabelDoesNotStartWithLetter)
    );
    assert!(FQDN::from_ascii_str("GitHub.Com.", strict()).is_ok());
    let hyphen = Config { label_cannot_start_or_end_with_hyphen: true, ..lenient() };
    assert_eq!(FQDN::from_ascii_str("-a.com", hyphen), Err(Error::LabelCannotStartWithHyphen));
    assert_eq!(FQDN::from_ascii_str("a-.com", hyphen), Err(Error::LabelCannotEndWithHyphen));
    assert_eq!(FQDN::from_ascii_str("a.-", hyphen), Err(Error::LabelCannotStartWithHyphen));
    assert!(FQDN::from_ascii_str("a-b.com", hyphen).is_ok());
    assert!(FQDN::from_ascii_str("-a-.com", lenient()).is_ok());
}

#[test]
fn length_limits() {
    let label_63 = "a".repeat(63);
    let label_64 = "a".repeat(64);
    let label_255 = "a".repeat(255);
    let label_256 = "a".repeat(256);
    assert!(FQDN::from_ascii_str(&format!("{}.com.", label_63), strict()).is_ok());
    assert_eq!(
        FQDN::from_ascii_str(&format!("{}.com.", label_64), strict()),
        Err(Error::TooLongLabel)
    );
    assert!(FQDN::from_ascii_str(&format!("{}.com.", label_64), lenient()).is_ok());
    assert!(FQDN::from_ascii_str(&format!("{}.com.", label_255), lenient()).is_ok());
    assert_eq!(
        FQDN::from_ascii_str(&format!("{}.com.", label_256), lenient()),
        Err(Error::TooLongLabel)
    );

    let name_255 = format!("{0}.{0}.{0}.{1}.", label_63, "a".repeat(61));
    let name_256 = format!("{0}.{0}.{0}.{1}.", label_63, "a".repeat(62));
    assert_eq!(FQDN::from_ascii_str(&name_255, strict()).unwrap().as_bytes().len(), 255);
    assert_eq!(FQDN::from_ascii_str(&name_256, strict()), Err(Error::TooLongDomainName));
    assert_eq!(FQDN::from_ascii_str(&name_256, lenient()).unwrap().as_bytes().len(), 256);

    let bytes_256 = FQDN::from_ascii_str(&name_256, lenient()).unwrap();
    assert_eq!(
        Fqdn::from_bytes(bytes_256.as_bytes(), strict()),
        Err(Error::TooLongDomainName)
    );
    assert!(Fqdn::from_bytes(bytes_256.as_bytes(), lenient()).is_ok());
    let mut long_label = vec![64u8];
    long_label.extend(std::iter::repeat(b'a').take(64));
    long_label.push(0);
    assert_eq!(Fqdn::from_bytes(&long_label, strict()), Err(Error::TooLongLabel));
    assert!(Fqdn::from_bytes(&long_label, lenient()).is_ok());
}

#[test]
fn root_is_the_boundary() {
    for root in [parse("."), parse(""), FQDN::default(), FQDN::from_vec(vec![], lenient()).unwrap()] {
        assert!(root.is_root());
        assert!(!root.is_tld());
        assert_eq!(root.depth(), 0);
        assert!(root.parent().is_none());
        assert!(root.tld().is_none());
        assert!(root.hierarchy().is_empty());
        assert!(root.labels().is_empty());
        assert_eq!(root.as_bytes(), b"\x00");
        assert_eq!(root.to_string(lenient()), ".");
        assert_eq!(root.to_string(strict()), ".");
        assert!(root.is_subdomain_of(&root));
    }
    let root = Fqdn::from_bytes(b"\x00", strict()).unwrap();
    assert!(root.is_root());
    assert_eq!(root.depth(), 0);
    assert!(root.parent().is_none());
}

#[test]
fn hierarchy_and_labels() {
    let name = parse("rust-lang.github.com.");
    let cfg = Config { name_should_have_trailing_dot: true, ..lenient() };
    let above: Vec<String> = name.hierarchy().iter().map(|n| n.to_string(cfg)).collect();
    assert_eq!(above, vec!["rust-lang.github.com.", "github.com.", "com."]);
    assert_eq!(name.labels(), vec!["rust-lang", "github", "com"]);
    assert_eq!(name.as_ref().labels(), vec!["rust-lang", "github", "com"]);
    assert_eq!(name.hierarchy()[1].as_bytes(), b"\x06github\x03com\x00");
    assert_eq!(name.hierarchy()[0], name);

    let parent = name.parent().unwrap();
    assert_eq!(parent, parse("github.com"));
    assert_eq!(parent.parent().unwrap(), parse("com"));
    assert!(parent.parent().unwrap().parent().unwrap().is_root());
    assert!(parent.parent().unwrap().parent().unwrap().parent().is_none());
    assert_eq!(name.tld().unwrap(), parse("com."));
    assert_eq!(name.tld().unwrap().as_bytes(), b"\x03com\x00");
    assert!(name.tld().unwrap().is_tld());
    assert!(!name.is_tld());
    assert_eq!(parse("com").tld().unwrap(), parse("com"));
    assert_eq!(name.depth(), 3);
    assert_eq!(name.as_ref().depth(), 3);
    assert_eq!(name.as_ref().to_owned(), name);
    assert_eq!(name.clone(), name);
}

#[test]
fn subdomain_relation() {
    let deep = parse("www.rust-lang.github.com.");
    let shallow = parse("github.com.");
    assert!(deep.is_subdomain_of(&shallow));
    assert!(!shallow.is_subdomain_of(&deep));
    for text in ["www.rust-lang.github.com.", "github.com.", "com", "."] {
        let name = parse(text);
        assert!(name.is_subdomain_of(&name));
        assert!(name.is_subdomain_of(&parse(".")));
        for above in name.hierarchy() {
            assert!(name.as_ref().is_subdomain_of(&above));
        }
    }
    assert!(deep.is_subdomain_of(&parse("GITHUB.COM")));
    assert!(!deep.is_subdomain_of(&parse("gitlab.com")));
    assert!(!deep.is_subdomain_of(&parse("hub.com")));
    assert!(!parse("github.com").is_subdomain_of(&parse("github.org")));
}

#[test]
fn comparison_with_text() {
    let name = parse("GitHub.com.");
    let dot = Config { name_should_have_trailing_dot: true, ..lenient() };
    assert!(name.eq_str("github.com.", lenient()));
    assert!(name.eq_str("GITHUB.COM.", dot));
    assert!(name.eq_str("github.com", lenient()));
    assert!(!name.eq_str("github.com", dot));
    assert!(!name.eq_str("github.com..", lenient()));
    assert!(!name.eq_str("github-com.", lenient()));
    assert!(!name.eq_str("github.co.", lenient()));
    assert!(!name.eq_str("github.comm", lenient()));
    assert!(!name.eq_str("githubxcom.", lenient()));
    assert!(!name.eq_str("", lenient()));
    assert!(!name.eq_str(".", lenient()));
    assert!(!parse("a-b.com").eq_str("a.b.com", lenient()));
    assert!(!parse("a.b.com").eq_str("a-b.com", lenient()));

    let root = parse(".");
    assert!(root.eq_str(".", lenient()));
    assert!(root.eq_str(".", dot));
    assert!(root.eq_str("", lenient()));
    assert!(!root.eq_str("", dot));
    assert!(!root.eq_str("..", lenient()));
    assert!(!root.eq_str("a", lenient()));

    assert!(name.as_ref() == "github.COM");
    assert!("github.COM" == name.as_ref());
    assert!(name.as_ref() != "github.org");
}

#[test]
fn names_from_parts() {
    assert!(FQDN::from_parts(&[], lenient()).unwrap().is_root());
    assert!(FQDN::from_parts(&[""], lenient()).unwrap().is_root());
    assert!(FQDN::from_parts(&[""], strict()).unwrap().is_root());
    assert_eq!(FQDN::from_parts(&["rust-lang", "github.io"], lenient()), Ok(parse("rust-lang.github.io.")));
    assert_eq!(FQDN::from_parts(&["github.com."], strict()), Ok(parse("github.com.")));
    assert_eq!(FQDN::from_parts(&["github", "com"], strict()), Ok(parse("github.com.")));
    assert_eq!(FQDN::from_parts(&["foo.bar"], lenient()).unwrap().as_bytes(), b"\x03foo\x03bar\x00");
    assert_eq!(FQDN::from_parts(&["w@w", "fr"], lenient()), Err(Error::InvalidLabelChar));
    assert_eq!(FQDN::from_parts(&["", "fr"], lenient()), Err(Error::EmptyLabel));
    assert_eq!(FQDN::from_parts(&["fr", ""], lenient()), Ok(parse("fr")));
    assert_eq!(FQDN::from_parts(&["fr", "", ""], lenient()), Err(Error::EmptyLabel));
}

#[test]
fn names_from_c_strings() {
    assert_eq!(FQDN::from_c_bytes(b"\x06github\x03com", lenient()), Ok(parse("github.com")));
    assert_eq!(FQDN::from_c_bytes(b"\x06GitHub\x03COM", lenient()), Ok(parse("github.com")));
    assert_eq!(FQDN::from_c_bytes(b"github.com.", lenient()), Ok(parse("github.com")));
    assert_eq!(FQDN::from_c_bytes(b"GitHub.com", lenient()), Ok(parse("github.com")));
    assert_eq!(FQDN::from_c_bytes(b"", lenient()), Ok(parse(".")));
    assert_eq!(FQDN::from_c_bytes(b"github.com", strict()), Err(Error::TrailingDotMissing));
    assert_eq!(FQDN::from_c_bytes(b"git@ub.com", lenient()), Err(Error::InvalidLabelChar));
    assert_eq!(FQDN::from_c_bytes(b"\xff\xfe", lenient()), Err(Error::InvalidLabelChar));
    assert_eq!(FQDN::from_c_bytes(b"a..b", lenient()), Err(Error::EmptyLabel));
}

#[test]
fn unicode_names() {
    let puny = Config { punycode: true, ..lenient() };
    let name = FQDN::punyencode("www.acad\u{e9}mie-fran\u{e7}aise.fr", lenient()).unwrap();
    assert_eq!(name.as_bytes(), b"\x03www\x1axn--acadmie-franaise-npb1a\x02fr\x00");
    assert_eq!(FQDN::parse("WWW.ACAD\u{c9}MIE-FRAN\u{c7}AISE.FR.", puny), Ok(name.clone()));
    assert_eq!(
        FQDN::parse("www.acad\u{e9}mie-fran\u{e7}aise.fr", lenient()),
        Err(Error::InvalidLabelChar)
    );
    assert_eq!(FQDN::punyencode("GitHub.com.", lenient()), Ok(parse("github.com")));
    assert_eq!(FQDN::punyencode(".", strict()), Ok(parse(".")));
    assert_eq!(FQDN::punyencode("", lenient()), Ok(parse(".")));
    assert_eq!(FQDN::punyencode("", strict()), Err(Error::TrailingDotMissing));
    assert_eq!(FQDN::punyencode("github.com", strict()), Err(Error::TrailingDotMissing));
    assert_eq!(FQDN::punyencode(".github.com.", lenient()), Err(Error::EmptyLabel));
    assert_eq!(FQDN::punyencode("github..com.", lenient()), Err(Error::EmptyLabel));
    assert_eq!(FQDN::punyencode("git@hub.com.", lenient()), Err(Error::InvalidLabelChar));
    assert_eq!(FQDN::punyencode("git_hub.com.", strict()), Err(Error::InvalidLabelChar));
    assert_eq!(
        FQDN::punyencode(&format!("{}.com", "\u{e9}".repeat(300)), lenient()),
        Err(Error::TooLongLabel)
    );
    assert_eq!(
        FQDN::punyencode(&format!("{}.com.", "a".repeat(64)), strict()),
        Err(Error::TooLongLabel)
    );
    assert_eq!(
        FQDN::from_unicode_text(b"\xff.com", lenient()),
        Err(Error::InvalidLabelChar)
    );

    assert_eq!(
        name.as_ref().punydecode(lenient()),
        Some("www.acad\u{e9}mie-fran\u{e7}aise.fr".to_string())
    );
    assert_eq!(parse("github.com").as_ref().punydecode(strict()), Some("github.com.".to_string()));
    assert_eq!(parse(".").as_ref().punydecode(lenient()), Some(".".to_string()));
    assert_eq!(parse("xn--9.com").as_ref().punydecode(lenient()), None);
    assert_eq!(name.to_string(lenient()), "www.xn--acadmie-franaise-npb1a.fr");
}

#[test]
fn label_for_a_piece_of_text() {
    let cfg = lenient();
    assert_eq!(
        fqdn::punycode::transcoded_label(b"abc", Some(b"abc-"), cfg),
        Ok(b"abc".to_vec())
    );
    assert_eq!(
        fqdn::punycode::transcoded_label("\u{e9}".as_bytes(), Some(b"9ca"), cfg),
        Ok(b"xn--9ca".to_vec())
    );
    assert_eq!(
        fqdn::punycode::transcoded_label(b"abc", None, cfg),
        Err(Error::InvalidLabelChar)
    );
    assert_eq!(
        fqdn::punycode::transcoded_label(b"", Some(b"-"), cfg),
        Err(Error::EmptyLabel)
    );
    assert_eq!(
        fqdn::punycode::transcoded_label(b"x", Some(b""), cfg),
        Ok(b"xn--".to_vec())
    );
    let long = vec![b'a'; 60];
    assert_eq!(
        fqdn::punycode::transcoded_label(b"x", Some(&long), strict()),
        Err(Error::TooLongLabel)
    );
    assert_eq!(
        fqdn::punycode::transcoded_label(b"x", Some(&long[..59]), strict()).map(|l| l.len()),
        Ok(63)
    );
}
