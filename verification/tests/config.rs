use stock_average::config::{
    lookup, make_config, missing_env_var_message, parse_day_count, Config, ConfigError,
    API_TOKEN_KEY, DEFAULT_NDAYS, NDAYS_VAR_KEY, SYMBOL_VAR_KEY,
};

fn vars(pairs: &[(&str, &str)]) -> Vec<(String, String)> {
    pairs.iter().map(|(k, v)| (String::from(*k), String::from(*v))).collect()
}

fn configure(pairs: &[(&str, &str)]) -> Result<Config, ConfigError> {
    make_config(&vars(pairs), SYMBOL_VAR_KEY, NDAYS_VAR_KEY, API_TOKEN_KEY)
}

#[test]
fn variable_names_are_fixed() {
    assert_eq!(SYMBOL_VAR_KEY, "SYMBOL");
    assert_eq!(NDAYS_VAR_KEY, "NDAYS");
    assert_eq!(API_TOKEN_KEY, "APIKEY");
    assert_eq!(DEFAULT_NDAYS, 1);
}

#[test]
fn lookup_finds_a_variable() {
    let all = vars(&[("HOME", "/root"), ("SYMBOL", "ACME"), ("PATH", "/bin")]);
    assert_eq!(lookup(&all, "SYMBOL"), Some(String::from("ACME")));
    assert_eq!(lookup(&all, "PATH"), Some(String::from("/bin")));
    assert_eq!(lookup(&all, "symbol"), None);
    assert_eq!(lookup(&Vec::new(), "SYMBOL"), None);
}

#[test]
fn lookup_takes_the_last_of_a_name() {
    let all = vars(&[("SYMBOL", "ACME"), ("SYMBOL", "EMCA")]);
    assert_eq!(lookup(&all, "SYMBOL"), Some(String::from("EMCA")));
}

#[test]
fn parse_day_count_reads_digits() {
    assert_eq!(parse_day_count("1"), 1);
    assert_eq!(parse_day_count("7"), 7);
    assert_eq!(parse_day_count("30"), 30);
    assert_eq!(parse_day_count("007"), 7);
    assert_eq!(parse_day_count("+5"), 5);
    assert_eq!(parse_day_count("12345"), 12345);
}

#[test]
fn parse_day_count_falls_back_to_one_day() {
    assert_eq!(parse_day_count(""), 1);
    assert_eq!(parse_day_count("+"), 1);
    assert_eq!(parse_day_count("-3"), 1);
    assert_eq!(parse_day_count("-0"), 1);
    assert_eq!(parse_day_count("++5"), 1);
    assert_eq!(parse_day_count("5+"), 1);
    assert_eq!(parse_day_count(" 5"), 1);
    assert_eq!(parse_day_count("5 "), 1);
    assert_eq!(parse_day_count("5_0"), 1);
    assert_eq!(parse_day_count("3.0"), 1);
    assert_eq!(parse_day_count("1e3"), 1);
    assert_eq!(parse_day_count("0x10"), 1);
    assert_eq!(parse_day_count("seven"), 1);
    assert_eq!(parse_day_count("５"), 1);
    assert_eq!(parse_day_count("5é"), 1);
}

#[test]
fn parse_day_count_stops_at_the_largest_usize() {
    assert_eq!(parse_day_count(&usize::MAX.to_string()), usize::MAX);
    assert_eq!(parse_day_count(&format!("{}0", usize::MAX)), 1);
    assert_eq!(parse_day_count("340282366920938463463374607431768211456"), 1);
    let one_more = (usize::MAX as u128 + 1).to_string();
    assert_eq!(parse_day_count(&one_more), 1);
}

#[test]
fn parse_day_count_takes_no_day_for_one_day() {
    assert_eq!(parse_day_count("0"), 1);
    assert_eq!(parse_day_count("00"), 1);
    assert_eq!(parse_day_count("+0"), 1);
    assert_eq!(parse_day_count("0000000000000000000000000000000"), 1);
}

#[test]
fn parse_day_count_reads_as_std_reads_a_positive_usize() {
    let texts = [
        "", "0", "00", "1", "+1", "-1", "+", "-", "+-1", "10", "99999", "1 ", " 1", "1\n", "a",
        "1a", "٣", "+0", "18446744073709551615", "18446744073709551616", "4294967295",
        "4294967296", "000000000000000000000000000001",
    ];
    for text in texts.iter() {
        let expected = match text.parse::<usize>() {
            Ok(count) if count >= 1 => count,
            _ => 1,
        };
        assert_eq!(parse_day_count(text), expected);
    }
}

#[test]
fn make_config_takes_all_three_variables() {
    let made = configure(&[("APIKEY", "demo"), ("NDAYS", "5"), ("SYMBOL", "ACME")]);
    assert_eq!(
        made,
        Ok(Config { symbol: String::from("ACME"), ndays: 5, api_token: String::from("demo") })
    );
}

#[test]
fn make_config_defaults_to_one_day() {
    let made = configure(&[("SYMBOL", "ACME"), ("APIKEY", "demo")]).unwrap();
    assert_eq!(made.ndays, 1);
    let made = configure(&[("SYMBOL", "ACME"), ("NDAYS", "many"), ("APIKEY", "demo")]).unwrap();
    assert_eq!(made.ndays, 1);
    let made = configure(&[("SYMBOL", "ACME"), ("NDAYS", ""), ("APIKEY", "demo")]).unwrap();
    assert_eq!(made.ndays, 1);
}

#[test]
fn make_config_never_asks_for_no_day() {
    let made = configure(&[("SYMBOL", "ACME"), ("NDAYS", "0"), ("APIKEY", "demo")]).unwrap();
    assert_eq!(made.ndays, 1);
    let made = configure(&[("SYMBOL", "ACME"), ("NDAYS", "+0"), ("APIKEY", "demo")]).unwrap();
    assert_eq!(made.ndays, 1);
    let made = configure(&[("SYMBOL", "ACME"), ("NDAYS", "00"), ("APIKEY", "demo")]).unwrap();
    assert_eq!(made.ndays, 1);
    let made = configure(&[("SYMBOL", "ACME"), ("NDAYS", "2"), ("APIKEY", "demo")]).unwrap();
    assert_eq!(made.ndays, 2);
}

#[test]
fn make_config_needs_the_symbol() {
    assert_eq!(configure(&[("APIKEY", "demo"), ("NDAYS", "5")]), Err(ConfigError::MissingSymbol));
    assert_eq!(
        configure(&[("SYMBOL", ""), ("APIKEY", "demo")]),
        Err(ConfigError::MissingSymbol)
    );
    assert_eq!(configure(&[]), Err(ConfigError::MissingSymbol));
}

#[test]
fn make_config_needs_the_api_token() {
    assert_eq!(configure(&[("SYMBOL", "ACME"), ("NDAYS", "5")]), Err(ConfigError::MissingApiToken));
    assert_eq!(
        configure(&[("SYMBOL", "ACME"), ("APIKEY", "")]),
        Err(ConfigError::MissingApiToken)
    );
}

#[test]
fn make_config_reads_the_variables_it_is_told_to() {
    let all = vars(&[("S", "ACME"), ("N", "3"), ("K", "demo"), ("SYMBOL", "OTHER")]);
    let made = make_config(&all, "S", "N", "K").unwrap();
    assert_eq!(made.symbol, "ACME");
    assert_eq!(made.ndays, 3);
    assert_eq!(made.api_token, "demo");
}

#[test]
fn config_error_names_its_variable() {
    assert_eq!(ConfigError::MissingSymbol.variable(), "SYMBOL");
    assert_eq!(ConfigError::MissingApiToken.variable(), "APIKEY");
}

#[test]
fn missing_env_var_message_names_the_variable() {
    assert_eq!(
        missing_env_var_message("SYMBOL"),
        "environment variable 'SYMBOL' not found; please set this environment variable to proceed."
    );
}
