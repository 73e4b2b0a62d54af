use text_masker::{decode_obfuscated_text, mask_text_with_fields};

fn words(ws: &[&str]) -> Vec<String> {
    ws.iter().map(|w| w.to_string()).collect()
}

fn round_trip(text: &str, ws: &[String]) -> String {
    let ws = ws.to_vec();
    decode_obfuscated_text(mask_text_with_fields(text.to_string(), &ws), &ws)
}

#[test]
fn test_decode_obfuscated_text_basic() {
    let ws = words(&["John", "john@example.com"]);
    let r = decode_obfuscated_text(
        "My FIELD_2 is FIELD_2_F and my FIELD_1 is FIELD_1_A.".to_string(),
        &ws,
    );
    assert_eq!(r, "My john is John and my john@example.com is JOHN@EXAMPLE.COM.");
}

#[test]
fn test_decode_obfuscated_text_empty() {
    let ws = words(&["test"]);
    assert_eq!(decode_obfuscated_text(String::new(), &ws), "");
}

#[test]
fn test_decode_obfuscated_text_no_fields() {
    let ws = words(&["secret", "password"]);
    let input = "This text has no fields to replace.";
    assert_eq!(decode_obfuscated_text(input.to_string(), &ws), input);
}

#[test]
fn test_decode_obfuscated_text_empty_words() {
    let ws = words(&["", "valid"]);
    let r = decode_obfuscated_text("This FIELD_1 should be replaced.".to_string(), &ws);
    assert_eq!(r, "This valid should be replaced.");
}

#[test]
fn decode_without_words_keeps_text() {
    let r = decode_obfuscated_text("FIELD_1 stays".to_string(), &words(&[]));
    assert_eq!(r, "FIELD_1 stays");
}

#[test]
fn test_decode_obfuscated_text_mask_word_casing() {
    let ws = words(&["Rich", "richard"]);
    let input = "i want to know which names get removed from the mask, FIELD_2 or FIELD_1 or FIELD_1_F, or FIELD_2, or FIELD_2_F or FIELD_1_A or FIELD_2_A";
    let expected = "i want to know which names get removed from the mask, rich or richard or Richard, or rich, or Rich or RICHARD or RICH";
    assert_eq!(decode_obfuscated_text(input.to_string(), &ws), expected);
}

#[test]
fn test_case_suffix_decoding() {
    let ws = words(&["test"]);
    assert_eq!(decode_obfuscated_text("FIELD_1_A".to_string(), &ws), "TEST");
    assert_eq!(decode_obfuscated_text("FIELD_1_F".to_string(), &ws), "Test");
    assert_eq!(decode_obfuscated_text("FIELD_1".to_string(), &ws), "test");
}

#[test]
fn decode_reads_longest_field_number_in_range() {
    let ws = words(&["test"]);
    assert_eq!(decode_obfuscated_text("FIELD_12".to_string(), &ws), "test2");
    assert_eq!(decode_obfuscated_text("FIELD_0 FIELD_2 FIELD_".to_string(), &ws), "FIELD_0 FIELD_2 FIELD_");
    let many = words(&["aa", "bb", "cc", "dd", "ee", "ff", "gg", "hh", "ii", "jj", "kk"]);
    assert_eq!(decode_obfuscated_text("FIELD_10 FIELD_11_A FIELD_111".to_string(), &many), "jj KK kk1");
}

#[test]
fn decode_separates_glued_placeholders() {
    let ws = words(&["user", "api"]);
    assert_eq!(decode_obfuscated_text("FIELD_1_FIELD_2".to_string(), &ws), "user_api");
    assert_eq!(decode_obfuscated_text("FIELD_1_F".to_string(), &ws), "User");
    assert_eq!(decode_obfuscated_text("FIELD_1_FFIELD_2_F".to_string(), &ws), "UserApi");
    assert_eq!(decode_obfuscated_text("FIELD_1-FIELD_2_A".to_string(), &ws), "user-API");
    assert_eq!(decode_obfuscated_text("FIELD_1_F_FIELD_2".to_string(), &ws), "User_api");
}

#[test]
fn test_decode_obfuscated_text_with_compound_words() {
    let ws = words(&["password", "secret"]);
    let r = decode_obfuscated_text(
        "FIELD_1_A_VALUE myFIELD_2_FData FIELD_1_config userFIELD_2_F".to_string(),
        &ws,
    );
    assert_eq!(r, "PASSWORD_VALUE mySecretData password_config userSecret");
}

#[test]
fn test_decode_compound_words_with_underscores() {
    let ws = words(&["secret", "password"]);
    let r = decode_obfuscated_text(
        "user_FIELD_1_config FIELD_2_A_VALUE important_FIELD_1_data".to_string(),
        &ws,
    );
    assert_eq!(r, "user_password_config SECRET_VALUE important_password_data");
}

#[test]
fn test_decode_compound_words_with_camel_case() {
    let ws = words(&["token", "api"]);
    let r = decode_obfuscated_text("myFIELD_1_FKey FIELD_2Key theFIELD_1Handler".to_string(), &ws);
    assert_eq!(r, "myTokenKey apiKey thetokenHandler");
}

#[test]
fn test_decode_compound_words_mixed_formats() {
    let ws = words(&["user", "auth", "key"]);
    let r = decode_obfuscated_text(
        "FIELD_1_F-FIELD_2: myFIELD_3_123, FIELD_1_A_FIELD_2, FIELD_1_name".to_string(),
        &ws,
    );
    assert_eq!(r, "User-auth: mykey_123, USER_auth, user_name");
}

#[test]
fn test_mask_and_decode_roundtrip() {
    let ws = words(&["username", "password"]);
    let text = "My username is admin and my password is 12345.";
    let masked = mask_text_with_fields(text.to_string(), &ws);
    assert_eq!(masked, "My FIELD_1 is admin and my FIELD_2 is 12345.");
    assert_eq!(decode_obfuscated_text(masked, &ws), text);
}

#[test]
fn test_mask_and_decode_case_preservation() {
    let ws = words(&["name", "email", "id"]);
    let text = "My Name is john, my EMAIL is test@example.com, and my ID is ABC123.";
    let masked = mask_text_with_fields(text.to_string(), &ws);
    assert_eq!(
        masked,
        "My FIELD_2_F is john, my FIELD_1_A is test@example.com, and my FIELD_3_A is ABC123."
    );
    assert_eq!(decode_obfuscated_text(masked, &ws), text);
}

#[test]
fn test_case_preservation_variations() {
    let ws = words(&["test"]);
    for (text, masked) in [
        ("this is a test message", "this is a FIELD_1 message"),
        ("this is a Test message", "this is a FIELD_1_F message"),
        ("this is a TEST message", "this is a FIELD_1_A message"),
    ] {
        let m = mask_text_with_fields(text.to_string(), &ws);
        assert_eq!(m, masked);
        assert_eq!(decode_obfuscated_text(m, &ws), text);
    }
}

#[test]
fn test_roundtrip_compound_words() {
    let ws = words(&["api", "token", "secret"]);
    let text = "apiKey: my_secret_token, API_SECRET, secretValue";
    let masked = mask_text_with_fields(text.to_string(), &ws);
    assert_eq!(masked, "FIELD_3Key: my_FIELD_1_FIELD_2, FIELD_3_A_FIELD_1_A, FIELD_1Value");
    assert_eq!(decode_obfuscated_text(masked, &ws), text);
}

#[test]
fn test_mask_decode_compound_camel_case() {
    let ws = words(&["user", "token", "api"]);
    let text = "myUserToken apiTokenKey userApiHandler";
    let masked = mask_text_with_fields(text.to_string(), &ws);
    assert_eq!(masked, "myFIELD_2_FFIELD_1_F FIELD_3FIELD_1_FKey FIELD_2FIELD_3_FHandler");
    assert_eq!(decode_obfuscated_text(masked, &ws), text);
}

#[test]
fn test_mask_decode_compound_underscore() {
    let ws = words(&["user", "token", "api"]);
    let text = "my_user_token api_token_key user_api_config";
    let masked = mask_text_with_fields(text.to_string(), &ws);
    assert_eq!(masked, "my_FIELD_2_FIELD_1 FIELD_3_FIELD_1_key FIELD_2_FIELD_3_config");
    assert_eq!(decode_obfuscated_text(masked, &ws), text);
}

#[test]
fn test_mask_decode_mixed_compound_patterns() {
    let ws = words(&["user", "token", "api"]);
    let text = "myUserToken_api user_apiToken API_TOKEN_KEY";
    let masked = mask_text_with_fields(text.to_string(), &ws);
    assert_eq!(
        masked,
        "myFIELD_2_FFIELD_1_F_FIELD_3 FIELD_2_FIELD_3FIELD_1_F FIELD_3_A_FIELD_1_A_KEY"
    );
    assert_eq!(decode_obfuscated_text(masked, &ws), text);
}

#[test]
fn test_mask_decode_compound_case_preservation() {
    let ws = words(&["user", "api"]);
    let input = "myUserApi USER_API_KEY user_api_config UserApiToken";
    let masked = mask_text_with_fields(input.to_string(), &ws);
    assert_eq!(
        masked,
        "myFIELD_1_FFIELD_2_F FIELD_1_A_FIELD_2_A_KEY FIELD_1_FIELD_2_config FIELD_1_FFIELD_2_FToken"
    );
    assert_eq!(decode_obfuscated_text(masked, &ws), input);
}

#[test]
fn round_trip_of_separate_words() {
    let ws = words(&["alpha", "beta"]);
    let text = "Alpha and beta, then ALPHA; beta!";
    assert_eq!(round_trip(text, &ws), text);
}

#[test]
fn placeholders_are_not_matched_again() {
    let ws = words(&["secret", "field"]);
    let text = "my secret field";
    let masked = mask_text_with_fields(text.to_string(), &ws);
    assert_eq!(masked, "my FIELD_1 FIELD_2");
    assert_eq!(decode_obfuscated_text(masked, &ws), text);
}
