use oxiwhisper::languages::{
    find_token, language_code_from_token, LANG_TOKEN_END, LANG_TOKEN_START,
};
use oxiwhisper::tokenizer::SpecialTokens;

#[test]
fn codes_and_tokens_belong_together() {
    for token in LANG_TOKEN_START..LANG_TOKEN_END {
        assert_eq!(find_token(&language_code_from_token(token)), token);
    }
    assert_eq!(LANG_TOKEN_END - LANG_TOKEN_START, 99);
}

#[test]
fn unknown_languages_are_english() {
    assert_eq!(find_token("tlh"), LANG_TOKEN_START);
    assert_eq!(find_token(""), LANG_TOKEN_START);
    assert_eq!(find_token("EN"), LANG_TOKEN_START);
    assert_eq!(language_code_from_token(LANG_TOKEN_END), "en");
    assert_eq!(language_code_from_token(0), "en");
}

#[test]
fn well_known_languages_have_their_tokens() {
    let special = SpecialTokens::new(51865);
    assert_eq!(special.language_token("en"), 50259);
    assert_eq!(special.language_token("ja"), 50266);
    assert_eq!(special.language_token("haw"), 50352);
    assert_eq!(special.language_token("su"), 50357);
    assert_eq!(language_code_from_token(50261), "de");
}
