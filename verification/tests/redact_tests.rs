use llm_gateway::redact::{luhn_check, mask_digits, mask_mid, redact_text, RedactionStats};

#[test]
fn test_luhn() {
    assert!(luhn_check("4242424242424242"));
    assert!(!luhn_check("1234567890123456"));
}

#[test]
fn luhn_rejects_wrong_length_and_non_digits() {
    assert!(!luhn_check(""));
    assert!(!luhn_check("42424242424"));
    assert!(!luhn_check("42424242424242424242"));
    assert!(!luhn_check("424242424242424x"));
}

#[test]
fn unmatched_input_is_returned_unchanged() {
    let (out, stats) = redact_text("hello world, nothing sensitive here.");
    assert_eq!(out.as_str(), "hello world, nothing sensitive here.");
    assert_eq!(stats.matches, 0);
}

#[test]
fn empty_input_is_safe() {
    let (out, stats) = redact_text("");
    assert_eq!(out.as_str(), "");
    assert_eq!(stats.matches, 0);
}

#[test]
fn multiline_input_is_safe() {
    let (out, stats) = redact_text("line one\nline two\n");
    assert_eq!(out.as_str(), "line one\nline two\n");
    assert_eq!(stats.matches, 0);
}

#[test]
fn email_local_part_of_length_one_is_fully_masked() {
    let (out, stats) = redact_text("Contact a@b.com now");
    assert_eq!(out.as_str(), "Contact *@b.com now");
    assert_eq!(stats.matches, 1);
}

#[test]
fn email_interior_is_masked_and_domain_kept() {
    let (out, stats) = redact_text("mail alice.smith@example.org please");
    assert_eq!(out.as_str(), "mail a*********h@example.org please");
    assert_eq!(stats.matches, 1);
}

#[test]
fn sentence_final_email_is_still_redacted() {
    let (out, stats) = redact_text("Reach out to a@b.com.");
    assert_eq!(out.as_str(), "Reach out to *@b.com.");
    assert_eq!(stats.matches, 1);
    let (out2, stats2) = redact_text("see c@d.org- thanks");
    assert_eq!(out2.as_str(), "see *@d.org- thanks");
    assert_eq!(stats2.matches, 1);
}

#[test]
fn email_match_starts_at_a_word_character() {
    let (out, stats) = redact_text(".a@b.com");
    assert_eq!(out.as_str(), ".*@b.com");
    assert_eq!(stats.matches, 1);
}

#[test]
fn valid_card_embedded_in_text_becomes_tag_with_last_four() {
    let (out, stats) = redact_text("pay 4242 4242 4242 4242 now");
    assert_eq!(out.as_str(), "pay CC_MASKED_LAST4_4242 now");
    assert_eq!(stats.matches, 1);
}

#[test]
fn valid_card_with_dashes_becomes_tag() {
    let (out, stats) = redact_text("card 4242-4242-4242-4242.");
    assert_eq!(out.as_str(), "card CC_MASKED_LAST4_4242.");
    assert_eq!(stats.matches, 1);
}

#[test]
fn valid_card_between_short_digit_runs_is_tagged_alone() {
    let (out, stats) = redact_text("order 77 total: 4242 4242 4242 4242, ref 99");
    assert_eq!(out.as_str(), "order 77 total: CC_MASKED_LAST4_4242, ref 99");
    assert_eq!(stats.matches, 1);
}

#[test]
fn card_not_word_bounded_is_not_tagged() {
    let (out, _) = redact_text("x4242424242424242");
    assert!(!out.contains("CC_MASKED_LAST4"));
    assert_eq!(out.as_str(), "x42xxxxxxxxxxxxxx");
}

#[test]
fn invalid_card_is_not_tagged() {
    // The card pass leaves a Luhn-failing run untouched; the phone pass
    // then masks it as an over-long digit run, without any card tag.
    let (out, stats) = redact_text("id 1234567890123456 x");
    assert_eq!(out.as_str(), "id 12xxxxxxxxxxxxxx x");
    assert_eq!(stats.matches, 1);
    assert!(!out.contains("CC_MASKED_LAST4"));
}

#[test]
fn phone_like_run_keeps_first_two_digits() {
    let (out, stats) = redact_text("call +1 234-567-8901 now");
    assert_eq!(out.as_str(), "call +1 2xx-xxx-xxxx now");
    assert_eq!(stats.matches, 1);
}

#[test]
fn short_digit_runs_are_left_alone() {
    let (out, stats) = redact_text("room 123456 floor 9");
    assert_eq!(out.as_str(), "room 123456 floor 9");
    assert_eq!(stats.matches, 0);
}

#[test]
fn redacting_redacted_email_output_is_stable() {
    let (once, first) = redact_text("Contact a@b.com now");
    assert_eq!(first.matches, 1);
    let (twice, again) = redact_text(once.as_str());
    assert_eq!(twice.as_str(), once.as_str());
    assert_eq!(again.matches, 0);
}

#[test]
fn redacting_redacted_card_output_is_stable() {
    let (once, _) = redact_text("pay 4242 4242 4242 4242 now");
    let (twice, again) = redact_text(once.as_str());
    assert_eq!(twice.as_str(), once.as_str());
    assert_eq!(again.matches, 0);
}

#[test]
fn redacting_redacted_phone_output_is_stable() {
    let (once, _) = redact_text("call +1 234-567-8901 now");
    let (twice, again) = redact_text(once.as_str());
    assert_eq!(twice.as_str(), once.as_str());
    assert_eq!(again.matches, 0);
}

#[test]
fn all_three_kinds_in_one_text_are_counted() {
    let (out, stats) = redact_text("a@b.com 4242424242424242 +12345678901");
    assert_eq!(out.as_str(), "*@b.com CC_MASKED_LAST4_4242 +12xxxxxxxxx");
    assert_eq!(stats.matches, 3);
}

#[test]
fn mask_mid_keeps_first_and_last() {
    assert_eq!(mask_mid("abcdef", 1).as_str(), "a****f");
    assert_eq!(mask_mid("ab", 1).as_str(), "ab");
    assert_eq!(mask_mid("a", 1).as_str(), "*");
    assert_eq!(mask_mid("", 1).as_str(), "");
}

#[test]
fn mask_digits_keeps_two_digits_and_separators() {
    assert_eq!(mask_digits("123-456 789").as_str(), "12x-xxx xxx");
    assert_eq!(mask_digits("no digits").as_str(), "no digits");
    assert_eq!(mask_digits("12").as_str(), "12");
}

#[test]
fn stats_accumulate_by_addition() {
    let a = RedactionStats::new();
    assert_eq!(a.matches, 0);
    let b = RedactionStats { matches: 2 };
    let c = a.plus(b).plus(RedactionStats { matches: 3 });
    assert_eq!(c.matches, 5);
}
