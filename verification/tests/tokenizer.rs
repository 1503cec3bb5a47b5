use taghint::tokenizer::parse_tags;
use taghint::tokenizer::try_parse_tag;

#[test]
fn splits_on_commas_and_trims() {
    assert_eq!(parse_tags("a, b,  c"), vec!["a".to_string(), "b".to_string(), "c".to_string()]);
}

#[test]
fn escaped_comma_stays_in_token() {
    assert_eq!(parse_tags("a\\,b, c"), vec!["a,b".to_string(), "c".to_string()]);
}

#[test]
fn underscores_and_runs_collapse() {
    assert_eq!(parse_tags("foo_bar  baz"), vec!["foo bar baz".to_string()]);
}

#[test]
fn empty_text_yields_no_tokens() {
    assert_eq!(parse_tags(""), Vec::<String>::new());
}

#[test]
fn commas_alone_yield_no_tokens() {
    assert_eq!(parse_tags(",,,"), Vec::<String>::new());
}

#[test]
fn trailing_backslash_ends_token() {
    assert_eq!(parse_tags("ab\\"), vec!["ab".to_string()]);
}

#[test]
fn escaped_backslash_is_kept() {
    assert_eq!(parse_tags("a\\\\b"), vec!["a\\b".to_string()]);
}

#[test]
fn escaped_space_is_kept() {
    assert_eq!(parse_tags("a\\  b"), vec!["a  b".to_string()]);
}

#[test]
fn retokenizing_plain_join_is_identity() {
    let tokens = vec!["alpha".to_string(), "beta".to_string(), "gamma".to_string()];
    let joined = tokens.join(",");
    assert_eq!(parse_tags(&joined), tokens);
}

#[test]
fn first_token_becomes_key() {
    assert_eq!(try_parse_tag("foo_bar, x"), "foo bar".to_string());
}

#[test]
fn raw_field_kept_when_no_tokens() {
    assert_eq!(try_parse_tag(",,"), ",,".to_string());
}
