use sovereign_os::pii_redact::{contains_pii, detect, redact, redact_with, PiiKind};

#[test]
fn detects_email() {
    let dets = detect("contact me at jane.doe+test@example.co.uk please");
    assert_eq!(dets.len(), 1);
    assert_eq!(dets[0].kind, PiiKind::Email);
    assert_eq!(dets[0].text, "jane.doe+test@example.co.uk");
}

#[test]
fn email_trailing_dot_trimmed() {
    let dets = detect("write to bob@mail.com.");
    assert_eq!(dets[0].text, "bob@mail.com");
}

#[test]
fn detects_ssn() {
    let dets = detect("SSN: 123-45-6789.");
    assert_eq!(dets.len(), 1);
    assert_eq!(dets[0].kind, PiiKind::Ssn);
    assert_eq!(dets[0].text, "123-45-6789");
}

#[test]
fn detects_ipv4_and_rejects_out_of_range() {
    let dets = detect("server at 192.168.1.100 and bogus 999.1.1.1");
    let ips: Vec<&str> = dets
        .iter()
        .filter(|d| d.kind == PiiKind::IpV4)
        .map(|d| d.text.as_str())
        .collect();
    assert_eq!(ips, vec!["192.168.1.100"]);
}

#[test]
fn detects_credit_card_with_luhn() {
    let dets = detect("card 4111 1111 1111 1111 on file");
    let cards: Vec<&str> = dets
        .iter()
        .filter(|d| d.kind == PiiKind::CreditCard)
        .map(|d| d.text.as_str())
        .collect();
    assert_eq!(cards, vec!["4111 1111 1111 1111"]);
}

#[test]
fn rejects_non_luhn_digit_run() {
    let dets = detect("order number 1234567812345670000");
    assert!(!dets.iter().any(|d| d.kind == PiiKind::CreditCard));
}

#[test]
fn redact_replaces_with_tags() {
    let text = "email a@b.com ip 10.0.0.1 ssn 111-22-3333";
    let red = redact(text);
    assert_eq!(red, "email [EMAIL] ip [IP] ssn [SSN]");
    assert!(!contains_pii(&red));
}

#[test]
fn redact_with_custom_replacement() {
    let red = redact_with("mail x@y.com", |k| format!("<{k:?}>"));
    assert_eq!(red, "mail <Email>");
}

#[test]
fn clean_text_has_no_pii() {
    assert!(!contains_pii("the quick brown fox jumps over the lazy dog"));
    assert!(detect("version 1.2.3 build 456").iter().all(|d| d.kind != PiiKind::IpV4));
}

#[test]
fn multiple_and_sorted_no_overlap() {
    let text = "a@b.com then 1.2.3.4";
    let dets = detect(text);
    assert_eq!(dets.len(), 2);
    assert!(dets[0].start < dets[1].start);
    assert!(dets[0].end <= dets[1].start);
}

#[test]
fn tags_per_kind() {
    assert_eq!(PiiKind::Email.tag(), "[EMAIL]");
    assert_eq!(PiiKind::Ssn.tag(), "[SSN]");
    assert_eq!(PiiKind::IpV4.tag(), "[IP]");
    assert_eq!(PiiKind::CreditCard.tag(), "[CARD]");
}

#[test]
fn spans_are_byte_offsets_into_utf8_text() {
    let text = "héllo bob@mail.com";
    let dets = detect(text);
    assert_eq!(dets.len(), 1);
    assert_eq!(dets[0].start, 7);
    assert_eq!(dets[0].end, 19);
    assert_eq!(&text[dets[0].start..dets[0].end], dets[0].text);
    assert_eq!(redact(text), "héllo [EMAIL]");
}

#[test]
fn clean_text_redacts_to_itself() {
    for t in ["", "plain words", "version 1.2.3", "über straße"] {
        assert_eq!(redact(t), t);
        assert_eq!(redact_with(t, |_| String::from("X")), t);
    }
}

#[test]
fn ssn_embedded_in_digits_is_not_a_match() {
    assert!(detect("0123-45-6789").is_empty());
    assert!(detect("123-45-67890").is_empty());
}

#[test]
fn ipv4_needs_four_octets() {
    assert!(detect("1.2.3").is_empty());
    assert!(detect("1.2.3.4.5").is_empty());
    assert_eq!(detect("at 0.0.0.0.")[0].text, "0.0.0.0");
}

#[test]
fn email_needs_a_dotted_domain() {
    assert!(detect("user@localhost").is_empty());
    assert!(detect("@example.com").is_empty());
    assert!(detect("a@.com").is_empty());
}

#[test]
fn longer_match_wins_at_the_same_start() {
    // "1.2.3.4" is an IPv4 candidate and the local part of an email starting
    // at the same byte: the longer email wins and the address is dropped
    let dets = detect("1.2.3.4@x.com");
    assert_eq!(dets.len(), 1);
    assert_eq!(dets[0].kind, PiiKind::Email);
    assert_eq!((dets[0].start, dets[0].end), (0, 13));
}

#[test]
fn grouped_card_digits_form_one_card() {
    let dets = detect("4111-1111-1111-1111");
    assert_eq!(dets.len(), 1);
    assert_eq!(dets[0].kind, PiiKind::CreditCard);
    assert_eq!((dets[0].start, dets[0].end), (0, 19));
}
