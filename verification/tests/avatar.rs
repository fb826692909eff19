use labello::avatar::{avatar_id, avatar_url, parse_u64};

#[test]
fn invalid_avatar_ids_never_start_a_download() {
    for id in ["", "0", "-1", "octocat", "42/path", "18446744073709551616"] {
        assert!(avatar_url(id).is_none());
        assert!(avatar_id(id).is_none());
    }
}

#[test]
fn valid_avatar_ids_download_a_small_avatar() {
    assert_eq!(avatar_url("42").as_deref(), Some("https://avatars.githubusercontent.com/u/42?s=96"));
    assert_eq!(avatar_url("+0042").as_deref(), Some("https://avatars.githubusercontent.com/u/42?s=96"));
    assert_eq!(avatar_id("18446744073709551615"), Some(u64::MAX));
}

#[test]
fn parsing_agrees_with_the_standard_library() {
    for text in ["", "+", "-0", "0", "+7", "007", "12a", " 1", "18446744073709551615", "18446744073709551616", "99999999999999999999"] {
        assert_eq!(parse_u64(text), text.parse::<u64>().ok(), "{text}");
    }
}
