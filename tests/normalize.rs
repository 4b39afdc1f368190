use snowflake_api::parse_account;

#[test]
fn test_parse_account() {
    // A global identifier whose account part has no dash keeps that part
    // whole and still loses its `.GLOBAL` qualifier: the locator is always
    // the first segment, less any external-organization suffix.
    let cases = [
        ("S3TESTACCOUNT.GLOBAL", "S3TESTACCOUNT"),
        ("ACCT-WITH-DASHES", "ACCT-WITH-DASHES"),
        ("TESTACCOUNT.EXTRA", "TESTACCOUNT"),
        ("TESTACCOUNT-USER.GLOBAL", "TESTACCOUNT"),
        ("NORMALACCOUNT", "NORMALACCOUNT"),
        ("ACCOUNT.US-EAST-2.AWS", "ACCOUNT"),
    ];
    for (input, expected) in cases {
        assert_eq!(parse_account(input), expected);
    }
}

#[test]
fn empty_identifier_is_unchanged() {
    assert_eq!(parse_account(""), "");
}

#[test]
fn identifier_without_dot_is_unchanged() {
    assert_eq!(parse_account("my-org-account_1"), "my-org-account_1");
    assert_eq!(parse_account("GLOBAL"), "GLOBAL");
}

#[test]
fn global_strips_only_the_last_dash_suffix() {
    assert_eq!(parse_account("ORG-ACCT-USER.GLOBAL"), "ORG-ACCT");
    assert_eq!(parse_account("PREFIX-SUFFIX.GLOBAL"), "PREFIX");
}

#[test]
fn global_marker_is_case_sensitive() {
    assert_eq!(parse_account("ACCT-USER.global"), "ACCT-USER");
    assert_eq!(parse_account("ACCT-USER.GLOBALX"), "ACCT-USER");
}

#[test]
fn global_with_further_segments() {
    assert_eq!(parse_account("ACCT-USER.GLOBAL.EXTRA"), "ACCT");
}

#[test]
fn subdomains_are_dropped() {
    assert_eq!(parse_account("xy12345.us-east-2.aws"), "xy12345");
    assert_eq!(parse_account("ACCT-USER.EU"), "ACCT-USER");
    assert_eq!(parse_account("ACCT.."), "ACCT");
}

#[test]
fn empty_segments() {
    assert_eq!(parse_account(".GLOBAL"), "");
    assert_eq!(parse_account("-X.GLOBAL"), "");
    assert_eq!(parse_account(".EXTRA"), "");
    assert_eq!(parse_account("ACCT."), "ACCT");
}

#[test]
fn non_ascii_characters_are_kept() {
    assert_eq!(parse_account("ÄCCÖUNT-ÜSER.GLOBAL"), "ÄCCÖUNT");
    assert_eq!(parse_account("日本-組織.GLOBAL"), "日本");
    assert_eq!(parse_account("çà.région"), "çà");
}

#[test]
fn result_is_a_prefix_of_the_input() {
    for input in ["A-B.GLOBAL", "A.B.C", "ABC", "", "-.", "A-B-.GLOBAL"] {
        let out = parse_account(input);
        assert!(input.starts_with(out.as_str()));
        assert!(out.len() <= input.len());
    }
}
