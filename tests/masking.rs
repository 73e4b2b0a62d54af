use text_masker::{capitalize_first, determine_case_suffix, mask_text, mask_text_with_fields};

fn words(ws: &[&str]) -> Vec<String> {
    ws.iter().map(|w| w.to_string()).collect()
}

#[test]
fn test_mask_text_basic() {
    let ws = words(&["secret", "password"]);
    let r = mask_text("My secret password is confidential.".to_string(), &ws);
    assert_eq!(r, "My ****** ******** is confidential.");
}

#[test]
fn test_mask_text_case_insensitive() {
    let ws = words(&["secret"]);
    let r = mask_text("This is a Secret that should be SECRET.".to_string(), &ws);
    assert_eq!(r, "This is a ****** that should be ******.");
}

#[test]
fn test_mask_text_empty_word() {
    let ws = words(&["", "password"]);
    let r = mask_text("My password is secure.".to_string(), &ws);
    assert_eq!(r, "My ******** is secure.");
}

#[test]
fn test_mask_text_empty_inputs() {
    assert_eq!(mask_text(String::new(), &words(&["secret"])), "");
    assert_eq!(mask_text("a secret".to_string(), &words(&[])), "a secret");
    assert_eq!(mask_text_with_fields("a secret".to_string(), &words(&[])), "a secret");
}

#[test]
fn test_mask_text_substring_words() {
    let ws = words(&["bob", "bobby"]);
    let input = "bob and bobby are different names";
    assert_eq!(mask_text(input.to_string(), &ws), "*** and ***** are different names");
    assert_eq!(
        mask_text_with_fields(input.to_string(), &ws),
        "FIELD_2 and FIELD_1 are different names"
    );
}

#[test]
fn substring_ordering_scenario() {
    let ws = words(&["bob", "bobby"]);
    let r = mask_text("bob and bobby are different".to_string(), &ws);
    assert_eq!(r, "*** and ***** are different");
}

#[test]
fn test_mask_text_with_compound_words() {
    let ws = words(&["secret", "password"]);
    let r = mask_text("SECRET_TEXT mySecretKey password_123 UserPassword".to_string(), &ws);
    assert_eq!(r, "******_TEXT my******Key ********_123 User********");
}

#[test]
fn mask_skips_plain_lowercase_continuation() {
    let ws = words(&["secret"]);
    let r = mask_text("secretary secret-key secret9 xsecret".to_string(), &ws);
    assert_eq!(r, "secretary ******-key ******9 xsecret");
}

#[test]
fn mask_keeps_text_without_occurrences() {
    let ws = words(&["secret", "password"]);
    let once = mask_text("My secret password".to_string(), &ws);
    assert_eq!(once, "My ****** ********");
    assert_eq!(mask_text(once.clone(), &ws), once);
    let plain = "nothing to hide here";
    assert_eq!(mask_text(plain.to_string(), &ws), plain);
    assert_eq!(mask_text_with_fields(plain.to_string(), &ws), plain);
}

#[test]
fn mask_preserves_length_per_span() {
    let ws = words(&["straße"]);
    let input = "STRASSE Straße straße";
    let r = mask_text(input.to_string(), &ws);
    assert_eq!(r, "STRASSE ****** ******");
    assert_eq!(r.chars().count(), input.chars().count());
}

#[test]
fn test_mask_text_with_fields_basic() {
    let ws = words(&["name", "email"]);
    let r = mask_text_with_fields(
        "My name is John and my email is john@example.com.".to_string(),
        &ws,
    );
    assert_eq!(r, "My FIELD_2 is John and my FIELD_1 is john@example.com.");
}

#[test]
fn test_mask_text_with_fields_incremental() {
    let ws = words(&["first", "second", "third"]);
    let r = mask_text_with_fields("The first, second, and third items.".to_string(), &ws);
    assert_eq!(r, "The FIELD_2, FIELD_1, and FIELD_3 items.");
}

#[test]
fn test_mask_text_with_fields_multiple_occurrences() {
    let ws = words(&["repeat"]);
    let r = mask_text_with_fields("This repeat will repeat and repeat again.".to_string(), &ws);
    assert_eq!(r, "This FIELD_1 will FIELD_1 and FIELD_1 again.");
}

#[test]
fn field_numbers_ignore_case_duplicates() {
    let ws = words(&["Token", "api", "TOKEN", "token"]);
    let r = mask_text_with_fields("token api Token".to_string(), &ws);
    assert_eq!(r, "FIELD_1 FIELD_2 FIELD_1_F");
    let r2 = mask_text_with_fields("api".to_string(), &ws);
    assert_eq!(r2, "FIELD_2");
}

#[test]
fn field_numbers_past_nine() {
    let ws = words(&["aa", "bb", "cc", "dd", "ee", "ff", "gg", "hh", "ii", "jj", "kk"]);
    let r = mask_text_with_fields("jj kk aa".to_string(), &ws);
    assert_eq!(r, "FIELD_10 FIELD_11 FIELD_1");
}

#[test]
fn test_case_suffix_scenario() {
    let ws = words(&["test"]);
    assert_eq!(mask_text_with_fields("TEST".to_string(), &ws), "FIELD_1_A");
    assert_eq!(mask_text_with_fields("Test".to_string(), &ws), "FIELD_1_F");
    assert_eq!(mask_text_with_fields("test".to_string(), &ws), "FIELD_1");
}

#[test]
fn test_mask_text_with_fields_compound_words() {
    let ws = words(&["secret", "password"]);
    let r = mask_text_with_fields(
        "SECRET_TEXT mySecretKey password_123 UserPassword".to_string(),
        &ws,
    );
    assert_eq!(r, "FIELD_2_A_TEXT myFIELD_2_FKey FIELD_1_123 UserFIELD_1_F");
}

#[test]
fn test_mask_text_with_fields_camel_case() {
    let ws = words(&["secret"]);
    let r = mask_text_with_fields("thisIsASecretValue SecretData secretConfig".to_string(), &ws);
    assert_eq!(r, "thisIsAFIELD_1_FValue FIELD_1_FData FIELD_1Config");
}

#[test]
fn test_mask_text_with_fields_snake_case() {
    let ws = words(&["secret"]);
    let r = mask_text_with_fields("this_secret_value SECRET_DATA secret_config".to_string(), &ws);
    assert_eq!(r, "this_FIELD_1_value FIELD_1_A_DATA FIELD_1_config");
}

#[test]
fn test_mask_text_with_fields_mixed_compound_types() {
    let ws = words(&["password", "user"]);
    let r = mask_text_with_fields(
        "password123 USER_ID userPassword USER-PASS pass_word_user".to_string(),
        &ws,
    );
    assert_eq!(r, "FIELD_1123 FIELD_2_A_ID FIELD_2FIELD_1_F FIELD_2_A-PASS pass_word_FIELD_2");
}

#[test]
fn case_suffix_of_words() {
    assert_eq!(determine_case_suffix("TEST"), "_A");
    assert_eq!(determine_case_suffix("Test"), "_F");
    assert_eq!(determine_case_suffix("test"), "");
    assert_eq!(determine_case_suffix(""), "");
    assert_eq!(determine_case_suffix("T"), "_F");
    assert_eq!(determine_case_suffix("A1"), "_A");
    assert_eq!(determine_case_suffix("tEST"), "");
    assert_eq!(determine_case_suffix("ÉCOLE"), "_A");
}

#[test]
fn capitalize_first_letter() {
    assert_eq!(capitalize_first("hello world"), "Hello world");
    assert_eq!(capitalize_first(""), "");
    assert_eq!(capitalize_first("élan"), "Élan");
    assert_eq!(capitalize_first("ßx"), "SSx");
    assert_eq!(capitalize_first("Already"), "Already");
}

#[test]
fn non_ascii_letter_joins_a_token() {
    let ws = words(&["secret"]);
    let r = mask_text("ésecret secret".to_string(), &ws);
    assert_eq!(r, "ésecret ******");
}

#[test]
fn field_order_counts_bytes() {
    let ws = words(&["abc", "éé"]);
    let r = mask_text_with_fields("abc éé".to_string(), &ws);
    assert_eq!(r, "FIELD_2 FIELD_1");
}
