use ozhlathi::codec::{encode_config, parse_config};
use ozhlathi::data::Config;

fn config(url: &str, logins: &[&str], password: &str) -> Config {
    Config {
        url: url.to_string(),
        twitch_logins: logins.iter().map(|l| l.to_string()).collect(),
        password: password.to_string(),
    }
}

fn assert_round_trip(c: &Config) {
    let text = encode_config(c);
    let back = parse_config(&text).expect("canonical text must parse");
    assert_eq!(back.url, c.url);
    assert_eq!(back.twitch_logins, c.twitch_logins);
    assert_eq!(back.password, c.password);
}

#[test]
fn encode_plain_config() {
    let c = config("127.0.0.1:8000", &["alpha", "beta"], "secret");
    assert_eq!(
        encode_config(&c),
        "{\"url\":\"127.0.0.1:8000\",\"twitchLogins\":[\"alpha\",\"beta\"],\"password\":\"secret\"}"
    );
}

#[test]
fn encode_empty_logins() {
    let c = config("h:1", &[], "");
    assert_eq!(encode_config(&c), "{\"url\":\"h:1\",\"twitchLogins\":[],\"password\":\"\"}");
}

#[test]
fn encode_escapes_specials() {
    let c = config("h:1", &[], "a\"b\\c\nd\re\tf\u{01}g");
    assert_eq!(
        encode_config(&c),
        "{\"url\":\"h:1\",\"twitchLogins\":[],\"password\":\"a\\\"b\\\\c\\nd\\re\\tf\\u0001g\"}"
    );
}

#[test]
fn round_trip_plain() {
    assert_round_trip(&config("127.0.0.1:8000", &["alpha", "beta"], "secret"));
}

#[test]
fn round_trip_empty_fields() {
    assert_round_trip(&config("", &[], ""));
    assert_round_trip(&config("h:1", &[""], ""));
}

#[test]
fn round_trip_specials_and_unicode() {
    assert_round_trip(&config("héllo:1", &["a\"b", "c\\d", "e,f", "g]h"], "p\nq\rr\ts\u{1f}\u{0}z"));
    assert_round_trip(&config("☃:9", &["日本語"], "naïve ✓"));
}

#[test]
fn parse_rejects_malformed_text() {
    assert!(parse_config("").is_none());
    assert!(parse_config("{}").is_none());
    assert!(parse_config("{\"url\":\"h:1\",\"twitchLogins\":[],\"password\":\"\"} ").is_none());
    assert!(parse_config("{\"url\":\"h:1\",\"twitchLogins\":[],\"password\":\"\"}x").is_none());
    assert!(parse_config("{ \"url\":\"h:1\",\"twitchLogins\":[],\"password\":\"\"}").is_none());
    assert!(parse_config("{\"url\":\"h:1\",\"twitchLogins\":[\"a\",],\"password\":\"\"}").is_none());
    assert!(parse_config("{\"url\":\"h:1\",\"twitchLogins\":[],\"password\":\"unterminated}").is_none());
}

#[test]
fn encoded_text_is_real_json() {
    let c = config("h:1", &["a\"b", "x\ny"], "p\\q\u{02}");
    let text = encode_config(&c);
    let v: serde_json::Value = serde_json::from_str(&text).expect("valid JSON");
    assert_eq!(v["url"].as_str().unwrap(), "h:1");
    let logins: Vec<&str> = v["twitchLogins"]
        .as_array()
        .unwrap()
        .iter()
        .map(|x| x.as_str().unwrap())
        .collect();
    assert_eq!(logins, vec!["a\"b", "x\ny"]);
    assert_eq!(v["password"].as_str().unwrap(), "p\\q\u{02}");
}

#[test]
fn serde_parses_canonical_text_like_the_library() {
    let c = config("127.0.0.1:8000", &["alpha"], "s");
    let text = encode_config(&c);
    let v: serde_json::Value = serde_json::from_str(&text).unwrap();
    let back = parse_config(&text).unwrap();
    assert_eq!(v["url"].as_str().unwrap(), back.url);
    assert_eq!(v["password"].as_str().unwrap(), back.password);
}
