//! The configuration of the service, read once from the variables of the
//! environment.

use vstd::prelude::*;
use vstd::string::StringExecFns;

verus! {

/// The variable that names the ticker symbol.
pub const SYMBOL_VAR_KEY: &'static str = "SYMBOL";

/// The variable that gives the number of days to average.
pub const NDAYS_VAR_KEY: &'static str = "NDAYS";

/// The variable that holds the credential for the upstream API.
pub const API_TOKEN_KEY: &'static str = "APIKEY";

/// The number of days where none is given, or none that can be read.
pub const DEFAULT_NDAYS: usize = 1;

/// What the service is configured with.
#[derive(Debug, PartialEq, Eq)]
pub struct Config {
    /// The ticker symbol to ask for.
    pub symbol: String,
    /// The number of recent days to average.
    pub ndays: usize,
    /// The credential for the upstream API.
    pub api_token: String,
}

/// A configuration as the contracts see it.
pub struct Settings {
    pub symbol: Seq<char>,
    pub ndays: usize,
    pub api_token: Seq<char>,
}

impl View for Config {
    type V = Settings;

    open spec fn view(&self) -> Settings {
        Settings { symbol: self.symbol@, ndays: self.ndays, api_token: self.api_token@ }
    }
}

/// A variable that the service cannot start without.
#[derive(Clone, Copy, Debug, PartialEq, Eq, Structural)]
pub enum ConfigError {
    /// The ticker symbol is not set, or set to nothing.
    MissingSymbol,
    /// The credential is not set, or set to nothing.
    MissingApiToken,
}

impl ConfigError {
    /// The name of the variable that is missing.
    pub fn variable(&self) -> (name: &'static str)
        ensures
            name@ == match *self {
                ConfigError::MissingSymbol => SYMBOL_VAR_KEY@,
                ConfigError::MissingApiToken => API_TOKEN_KEY@,
            },
    {
        match self {
            ConfigError::MissingSymbol => SYMBOL_VAR_KEY,
            ConfigError::MissingApiToken => API_TOKEN_KEY,
        }
    }
}

/// The value that `vars` give to the variable `key`: that of the last
/// variable of that name, `None` where there is none.
pub open spec fn setting(vars: Seq<(Seq<char>, Seq<char>)>, key: Seq<char>) -> Option<Seq<char>>
    decreases vars.len(),
{
    if vars.len() == 0 {
        None
    } else if vars.last().0 == key {
        Some(vars.last().1)
    } else {
        setting(vars.drop_last(), key)
    }
}

/// `c` is one of the digits `0` to `9`.
pub open spec fn is_digit(c: char) -> bool {
    '0' <= c && c <= '9'
}

/// The number that a run of digits writes in base ten.
pub open spec fn digits_value(digits: Seq<char>) -> nat
    decreases digits.len(),
{
    if digits.len() == 0 {
        0
    } else {
        (digits_value(digits.drop_last()) * 10 + (digits.last() as int - '0' as int)) as nat
    }
}

/// The digits of a number text: the text without a leading `+`.
pub open spec fn digits_of(text: Seq<char>) -> Seq<char> {
    if text.len() > 0 && text[0] == '+' {
        text.skip(1)
    } else {
        text
    }
}

/// The number that `text` writes: one digit or more, with nothing before
/// them but at most a `+`, and nothing behind. `None` for any other text.
pub open spec fn unsigned_of(text: Seq<char>) -> Option<nat> {
    let digits = digits_of(text);
    if digits.len() > 0 && (forall|i: int| 0 <= i < digits.len() ==> is_digit(#[trigger] digits[i])) {
        Some(digits_value(digits))
    } else {
        None
    }
}

/// The number of days that `text` asks for: the number it writes, where
/// that is one day at least and fits a `usize`; the default for every other
/// text. So it is never zero.
pub open spec fn day_count_of(text: Seq<char>) -> usize {
    match unsigned_of(text) {
        Some(count) => if 1 <= count <= usize::MAX {
            count as usize
        } else {
            DEFAULT_NDAYS
        },
        None => DEFAULT_NDAYS,
    }
}

/// The configuration that the variables `vars` give, or the first of the
/// two needed variables that is missing. A variable that is set to the
/// empty text counts as missing. The number of days is the default where
/// its variable is not set.
pub open spec fn config_of(
    vars: Seq<(Seq<char>, Seq<char>)>,
    symbol_key: Seq<char>,
    ndays_key: Seq<char>,
    api_token_key: Seq<char>,
) -> Result<Settings, ConfigError> {
    let symbol = setting(vars, symbol_key);
    let api_token = setting(vars, api_token_key);
    if symbol is None || symbol->0.len() == 0 {
        Err(ConfigError::MissingSymbol)
    } else if api_token is None || api_token->0.len() == 0 {
        Err(ConfigError::MissingApiToken)
    } else {
        Ok(
            Settings {
                symbol: symbol->0,
                ndays: match setting(vars, ndays_key) {
                    Some(text) => day_count_of(text),
                    None => DEFAULT_NDAYS,
                },
                api_token: api_token->0,
            },
        )
    }
}

/// The words that tell the operator which variable is missing.
pub open spec fn missing_message(key: Seq<char>) -> Seq<char> {
    "environment variable '"@ + key
        + "' not found; please set this environment variable to proceed."@
}

/// A run of digits is worth at least as much as its first digits.
pub proof fn lemma_digits_value_grows(digits: Seq<char>, n: int)
    requires
        0 <= n <= digits.len(),
        forall|i: int| 0 <= i < digits.len() ==> is_digit(#[trigger] digits[i]),
    ensures
        digits_value(digits.take(n)) <= digits_value(digits),
    decreases digits.len() - n,
{
    if n < digits.len() {
        let longer = digits.take(n + 1);
        assert(longer.drop_last() =~= digits.take(n));
        assert(is_digit(digits[n]) && longer.last() == digits[n]);
        lemma_digits_value_grows(digits, n + 1);
    } else {
        assert(digits.take(n) =~= digits);
    }
}

/// The value that `vars` give to the variable `key`.
pub fn lookup(vars: &Vec<(String, String)>, key: &str) -> (found: Option<String>)
    ensures
        match found {
            Some(value) => setting(vars.deep_view(), key@) == Some(value@),
            None => setting(vars.deep_view(), key@) is None,
        },
{
    let wanted = key.to_owned();
    let ghost all = vars.deep_view();
    let mut i: usize = vars.len();
    assert(all.take(i as int) =~= all);
    while i > 0
        invariant
            i <= vars@.len(),
            all == vars.deep_view(),
            wanted@ == key@,
            setting(all, key@) == setting(all.take(i as int), key@),
        decreases i,
    {
        i -= 1;
        assert(all.take(i + 1).last() == all[i as int]);
        assert(all.take(i + 1).drop_last() =~= all.take(i as int));
        if vars[i].0 == wanted {
            return Some(vars[i].1.clone());
        }
    }
    assert(all.take(0).len() == 0);
    None
}

/// The number of days that `text` asks for.
///
/// The text is read as Rust reads a `usize`: digits only, with at most a
/// `+` before them. Any other text, a number that is too large and the
/// number zero give the default of one day.
pub fn parse_day_count(text: &str) -> (count: usize)
    ensures
        count == day_count_of(text@),
        count >= 1,
{
    if !text.is_ascii() {
        proof {
            let i = choose|i: int|
                0 <= i < text@.len() && !('\0' <= (#[trigger] text@[i]) <= '\u{7f}');
            if text@[0] == '+' {
                assert(digits_of(text@)[i - 1] == text@[i]);
            }
        }
        return DEFAULT_NDAYS;
    }
    let bytes = text.as_bytes();
    let len = bytes.len();
    proof {
        vstd::string::is_ascii_spec_bytes(text);
    }
    let start: usize = if len > 0 && bytes[0] == 43 {
        1
    } else {
        0
    };
    let ghost digits = digits_of(text@);
    assert(digits =~= text@.skip(start as int));
    if start == len {
        return DEFAULT_NDAYS;
    }
    let mut value: usize = 0;
    let mut i: usize = start;
    assert(digits.take(0) =~= Seq::<char>::empty());
    while i < len
        invariant
            start <= i <= len,
            len == text@.len(),
            len == bytes@.len(),
            digits == text@.skip(start as int),
            digits == digits_of(text@),
            forall|k: int| 0 <= k < len ==> bytes@[k] == (#[trigger] text@[k]) as u8,
            forall|k: int| 0 <= k < len ==> '\0' <= (#[trigger] text@[k]) <= '\u{7f}',
            forall|k: int| 0 <= k < i - start ==> is_digit(#[trigger] digits[k]),
            value == digits_value(digits.take(i - start)),
        decreases len - i,
    {
        let byte = bytes[i];
        assert(digits[i - start] == text@[i as int]);
        if byte < 48 || byte > 57 {
            assert(!is_digit(digits[i - start]));
            return DEFAULT_NDAYS;
        }
        let digit: usize = (byte - 48) as usize;
        proof {
            let longer = digits.take(i - start + 1);
            assert(longer.drop_last() =~= digits.take(i - start));
            assert(longer.last() == digits[i - start]);
            assert(is_digit(digits[i - start]));
            assert(digits_value(longer) == value * 10 + digit);
        }
        let next = match value.checked_mul(10) {
            Some(tens) => tens.checked_add(digit),
            None => None,
        };
        match next {
            Some(sum) => {
                value = sum;
            },
            None => {
                proof {
                    if unsigned_of(text@) is Some {
                        lemma_digits_value_grows(digits, i - start + 1);
                    }
                }
                return DEFAULT_NDAYS;
            },
        }
        i += 1;
    }
    assert(digits.take(i - start) =~= digits);
    if value == 0 {
        DEFAULT_NDAYS
    } else {
        value
    }
}

/// Builds the configuration from the variables of the environment, each a
/// name and a value.
///
/// The symbol and the credential are needed: where one is not set, or set to
/// the empty text, the result names it, the symbol first. The number of
/// days is one where the variable is not set, cannot be read or asks for
/// no day: every configuration has a symbol, a credential and one day at
/// least.
pub fn make_config(
    vars: &Vec<(String, String)>,
    symbol_key: &str,
    ndays_key: &str,
    api_token_key: &str,
) -> (made: Result<Config, ConfigError>)
    ensures
        match made {
            Ok(config) => config_of(vars.deep_view(), symbol_key@, ndays_key@, api_token_key@)
                == Ok::<Settings, ConfigError>(config@),
            Err(error) => config_of(vars.deep_view(), symbol_key@, ndays_key@, api_token_key@)
                == Err::<Settings, ConfigError>(error),
        },
        made matches Ok(config) ==> config.ndays >= 1 && config.symbol@.len() > 0
            && config.api_token@.len() > 0,
{
    let symbol = match lookup(vars, symbol_key) {
        Some(value) => value,
        None => {
            return Err(ConfigError::MissingSymbol);
        },
    };
    if symbol.as_str().unicode_len() == 0 {
        return Err(ConfigError::MissingSymbol);
    }
    let api_token = match lookup(vars, api_token_key) {
        Some(value) => value,
        None => {
            return Err(ConfigError::MissingApiToken);
        },
    };
    if api_token.as_str().unicode_len() == 0 {
        return Err(ConfigError::MissingApiToken);
    }
    let ndays = match lookup(vars, ndays_key) {
        Some(text) => parse_day_count(text.as_str()),
        None => DEFAULT_NDAYS,
    };
    Ok(Config { symbol, ndays, api_token })
}

/// The words that tell the operator that the variable `key` is missing.
pub fn missing_env_var_message(key: &str) -> (message: String)
    ensures
        message@ == missing_message(key@),
{
    let mut message = String::from_str("environment variable '");
    message.append(key);
    message.append("' not found; please set this environment variable to proceed.");
    message
}

} // verus!
