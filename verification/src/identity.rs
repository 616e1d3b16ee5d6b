//! Identities: the keys and details under which a user signs changes.
use vstd::prelude::*;
use vstd::string::*;
use crate::commands::str_eq;
use crate::config::Author;
use crate::interaction::{Confirm, ContextCell, DefaultPrompt, Input, InteractionError, InteractiveContext, TextPrompt, Validator};
use crate::path::{join, join_spec};

verus! {

/// Whether the validator crate accepts `s` as an email address.
pub uninterp spec fn email_accepted(s: Seq<char>) -> bool;

/// Whether `s` is an email address, by `validator::validate_email`: a
/// string with no `@` never is.
#[verifier::external_body]
fn email_is_valid(s: &str) -> (r: bool)
    ensures
        r == email_accepted(s@),
        !s@.contains('@') ==> !r,
{
    validator::validate_email(s)
}

/// The current time, in milliseconds since the Unix epoch, by `chrono::Utc::now`.
#[verifier::external_body]
fn now_millis() -> (r: i64) {
    chrono::offset::Utc::now().timestamp_millis()
}

/// `c` is a decimal digit.
pub open spec fn is_digit(c: char) -> bool {
    '0' <= c && c <= '9'
}

/// At `i`, `s` holds a sign and two digits that read as an hour offset of
/// 24 or more.
pub open spec fn oversized_offset_at(s: Seq<char>, i: int) -> bool {
    &&& 0 <= i && i + 2 < s.len()
    &&& (s[i] == '+' || s[i] == '-')
    &&& is_digit(s[i + 1]) && is_digit(s[i + 2])
    &&& (s[i + 1] as int - '0' as int) * 10 + (s[i + 2] as int - '0' as int) >= 24
}

/// At `i`, `s` holds two digits that read as minutes (00 to 59).
pub open spec fn minutes_at(s: Seq<char>, i: int) -> bool {
    &&& 0 <= i && i + 1 < s.len()
    &&& '0' <= s[i] && s[i] <= '5'
    &&& is_digit(s[i + 1])
}

/// `s` ends with a time zone offset of 24 hours or more, with its minutes:
/// `+HHMM`, `+HHMM` and one more character, or `+HH:MM` (or with `-`). The
/// date parser reads a time zone only in the last six characters of its
/// input, and cannot represent such an offset.
pub open spec fn has_oversized_offset(s: Seq<char>) -> bool {
    let n = s.len() as int;
    ||| (n >= 5 && oversized_offset_at(s, n - 5) && minutes_at(s, n - 2))
    ||| (n >= 6 && oversized_offset_at(s, n - 6) && minutes_at(s, n - 3))
    ||| (n >= 6 && oversized_offset_at(s, n - 6) && s[n - 3] == ':' && minutes_at(s, n - 2))
}

/// The value of the decimal digit `c`.
pub open spec fn digit_value(c: char) -> int {
    c as int - '0' as int
}

/// Whether `y` is a leap year of the Gregorian calendar.
pub open spec fn is_leap(y: int) -> bool {
    (y % 4 == 0 && y % 100 != 0) || y % 400 == 0
}

/// The number of days of the month `m` of the year `y`.
pub open spec fn days_in_month(y: int, m: int) -> int {
    if m == 2 {
        if is_leap(y) { 29 } else { 28 }
    } else if m == 4 || m == 6 || m == 9 || m == 11 {
        30
    } else {
        31
    }
}

/// The number of days from 1970-01-01 to the date `y`-`m`-`d` of the
/// proleptic Gregorian calendar, counted in eras of 400 years from March.
pub open spec fn days_from_civil(y: int, m: int, d: int) -> int {
    let y1 = if m <= 2 { y - 1 } else { y };
    let era = y1 / 400;
    let yoe = y1 - era * 400;
    let mp = if m > 2 { m - 3 } else { m + 9 };
    let doy = (153 * mp + 2) / 5 + d - 1;
    let doe = yoe * 365 + yoe / 4 - yoe / 100 + doy;
    era * 146097 + doe - 719468
}

/// The day (counted from 1970-01-01) that `s` designates where it is a
/// date of the calendar written `YYYY-MM-DD`.
pub open spec fn iso_day(s: Seq<char>) -> Option<int> {
    if s.len() == 10 && s[4] == '-' && s[7] == '-' && is_digit(s[0]) && is_digit(s[1]) && is_digit(s[2]) && is_digit(s[3])
        && is_digit(s[5]) && is_digit(s[6]) && is_digit(s[8]) && is_digit(s[9]) {
        let y = 1000 * digit_value(s[0]) + 100 * digit_value(s[1]) + 10 * digit_value(s[2]) + digit_value(s[3]);
        let m = 10 * digit_value(s[5]) + digit_value(s[6]);
        let d = 10 * digit_value(s[8]) + digit_value(s[9]);
        if 1 <= m <= 12 && 1 <= d <= days_in_month(y, m) {
            Some(days_from_civil(y, m, d))
        } else {
            None
        }
    } else {
        None
    }
}

/// The day after `y`-`m`-`d`.
pub open spec fn next_date(y: int, m: int, d: int) -> (int, int, int) {
    if d < days_in_month(y, m) {
        (y, m, d + 1)
    } else if m < 12 {
        (y, m + 1, 1)
    } else {
        (y + 1, 1, 1)
    }
}

proof fn lemma_march_follows_february(y: int)
    ensures
        days_from_civil(y, 3, 1) == days_from_civil(y, 2, days_in_month(y, 2)) + 1,
{
    let p = y - 1;
    let era = p / 400;
    let yoe = p - era * 400;
    assert(0 <= yoe < 400);
    assert(p == era * 400 + yoe);
    if yoe < 399 {
        assert(y / 400 == era && y - era * 400 == yoe + 1) by (nonlinear_arith)
            requires
                y == era * 400 + yoe + 1,
                0 <= yoe < 399,
        ;
        assert(((yoe + 1) / 4 - yoe / 4 == 1) == ((yoe + 1) % 4 == 0)) by (nonlinear_arith)
            requires
                0 <= yoe < 399,
        ;
        assert(((yoe + 1) / 100 - yoe / 100 == 1) == ((yoe + 1) % 100 == 0)) by (nonlinear_arith)
            requires
                0 <= yoe < 399,
        ;
        assert((yoe + 1) / 4 - yoe / 4 <= 1 && (yoe + 1) / 4 - yoe / 4 >= 0) by (nonlinear_arith)
            requires
                0 <= yoe < 399,
        ;
        assert((yoe + 1) / 100 - yoe / 100 <= 1 && (yoe + 1) / 100 - yoe / 100 >= 0) by (nonlinear_arith)
            requires
                0 <= yoe < 399,
        ;
        assert(y % 4 == (yoe + 1) % 4 && y % 100 == (yoe + 1) % 100 && y % 400 == yoe + 1) by (nonlinear_arith)
            requires
                y == era * 400 + yoe + 1,
                0 <= yoe < 399,
        ;
    } else {
        assert(y / 400 == era + 1 && y - (era + 1) * 400 == 0) by (nonlinear_arith)
            requires
                y == era * 400 + 400,
        ;
        assert(y % 400 == 0) by (nonlinear_arith)
            requires
                y == era * 400 + 400,
        ;
    }
}

/// The days of the calendar are numbered one after the other from
/// 1970-01-01, day zero: the day after a date is numbered one more.
pub proof fn lemma_days_are_consecutive(y: int, m: int, d: int)
    requires
        1 <= m <= 12,
        1 <= d <= days_in_month(y, m),
    ensures
        days_from_civil(1970, 1, 1) == 0,
        days_from_civil(next_date(y, m, d).0, next_date(y, m, d).1, next_date(y, m, d).2) == days_from_civil(y, m, d) + 1,
{
    if d == days_in_month(y, m) && m == 2 {
        lemma_march_follows_february(y);
    }
}

/// The number of milliseconds in a day.
pub open spec fn day_millis() -> int {
    86_400_000
}

/// Whether `s` holds a sign and two digits at `i` that read as an hour
/// offset of 24 or more.
fn oversized_at(s: &str, i: usize) -> (r: bool)
    requires
        i + 2 < s@.len(),
        s@.len() <= usize::MAX,
    ensures
        r == oversized_offset_at(s@, i as int),
{
    let c = s.get_char(i);
    let d1 = s.get_char(i + 1);
    let d2 = s.get_char(i + 2);
    if (c == '+' || c == '-') && '0' <= d1 && d1 <= '9' && '0' <= d2 && d2 <= '9' {
        (d1 as u32 - '0' as u32) * 10 + (d2 as u32 - '0' as u32) >= 24
    } else {
        false
    }
}

/// Whether `s` holds minutes at `i`.
fn minutes_here(s: &str, i: usize) -> (r: bool)
    requires
        i + 1 < s@.len(),
        s@.len() <= usize::MAX,
    ensures
        r == minutes_at(s@, i as int),
{
    let m1 = s.get_char(i);
    let m2 = s.get_char(i + 1);
    '0' <= m1 && m1 <= '5' && '0' <= m2 && m2 <= '9'
}

/// Whether `s` ends with a time zone offset of 24 hours or more.
fn oversized_offset(s: &str) -> (r: bool)
    ensures
        r == has_oversized_offset(s@),
{
    let n = s.unicode_len();
    let a = n >= 5 && oversized_at(s, n - 5) && minutes_here(s, n - 2);
    let b = n >= 6 && oversized_at(s, n - 6) && minutes_here(s, n - 3);
    let c = n >= 6 && oversized_at(s, n - 6) && s.get_char(n - 3) == ':' && minutes_here(s, n - 2);
    a || b || c
}

/// The date that `s` designates, in milliseconds since the Unix epoch, by
/// `dateparser::parse_with_timezone` in UTC. Some forms designate a day
/// relative to the current one, and a date without time takes the current
/// time of day, so no value is named. What is stated: an empty text
/// designates none, and a calendar date written `YYYY-MM-DD` (read by the
/// parser's `ymd` form, the only one that matches it) designates a moment
/// of that day, in UTC. The parser panics on a time
/// zone offset of 24 hours or more (it builds it with
/// `chrono::FixedOffset::east`), which it reads only at the end of its
/// input, so texts ending with one are left out.
#[verifier::external_body]
fn parse_date_millis(s: &str) -> (r: Option<i64>)
    requires
        !has_oversized_offset(s@),
    ensures
        s@.len() == 0 ==> r is None,
        iso_day(s@) is Some ==> r is Some && iso_day(s@).unwrap() * day_millis() <= r.unwrap() < (iso_day(s@).unwrap() + 1)
            * day_millis(),
{
    match dateparser::parse_with_timezone(s, &chrono::offset::Utc) {
        Ok(d) => Some(d.timestamp_millis()),
        Err(_) => None,
    }
}

/// The text that chrono gives of the UTC date `ms` (in milliseconds since
/// the Unix epoch) in the form `fmt`, `None` out of chrono's range of dates.
pub uninterp spec fn date_text(ms: i64, fmt: Seq<char>) -> Option<Seq<char>>;

/// The form in which expiry dates are shown.
pub open spec fn expiry_format() -> Seq<char> {
    "%Y-%m-%d %H:%M:%S"@
}

/// The date `ms` as text in the form `fmt`, by
/// `chrono::DateTime::from_timestamp_millis` and `format`. Only the form of
/// expiry dates is admitted: chrono panics when it writes a form it cannot
/// read.
#[verifier::external_body]
fn format_date(ms: i64, fmt: &str) -> (r: Option<String>)
    requires
        fmt@ == expiry_format(),
    ensures
        match r {
            Some(t) => date_text(ms, fmt@) == Some(t@),
            None => date_text(ms, fmt@) is None,
        },
{
    match chrono::DateTime::from_timestamp_millis(ms) {
        Some(d) => Some(d.format(fmt).to_string()),
        None => None,
    }
}

/// Errors in the arguments of identity commands.
#[derive(Clone, Copy, Debug, PartialEq, Eq, Structural)]
pub enum IdentityArgError {
    InvalidEmail,
    EmptyName,
    NameExists,
    NameDoesNotExist,
    InvalidDate,
    DateInPast,
    UnnamedIdentity,
    MissingIdentity,
}

/// The message of the error `e`.
pub open spec fn arg_error_message(e: IdentityArgError) -> Seq<char> {
    match e {
        IdentityArgError::InvalidEmail => "Invalid email address"@,
        IdentityArgError::EmptyName => "Name is empty"@,
        IdentityArgError::NameExists => "Name already exists"@,
        IdentityArgError::NameDoesNotExist => "Name does not exist"@,
        IdentityArgError::InvalidDate => "Invalid date"@,
        IdentityArgError::DateInPast => "Date is in the past"@,
        IdentityArgError::UnnamedIdentity => "Cannot get path of un-named identity"@,
        IdentityArgError::MissingIdentity => "Cannot get identity path: name does not exist"@,
    }
}

impl IdentityArgError {
    /// The message of this error.
    pub fn to_string(&self) -> (r: String)
        ensures
            r@ == arg_error_message(*self),
    {
        match self {
            IdentityArgError::InvalidEmail => String::from_str("Invalid email address"),
            IdentityArgError::EmptyName => String::from_str("Name is empty"),
            IdentityArgError::NameExists => String::from_str("Name already exists"),
            IdentityArgError::NameDoesNotExist => String::from_str("Name does not exist"),
            IdentityArgError::InvalidDate => String::from_str("Invalid date"),
            IdentityArgError::DateInPast => String::from_str("Date is in the past"),
            IdentityArgError::UnnamedIdentity => String::from_str("Cannot get path of un-named identity"),
            IdentityArgError::MissingIdentity => String::from_str("Cannot get identity path: name does not exist"),
        }
    }
}

/// The errors of the identity files.
#[derive(Debug)]
pub enum IdentityParseError {
    MismatchingKeys,
    NoSecretKey(String),
    Other(String),
}

/// Checks that `input` is an email address.
pub fn validate_email(input: &str) -> (r: Result<String, IdentityArgError>)
    ensures
        r is Ok <==> email_accepted(input@),
        r matches Ok(s) ==> s@ == input@,
        r matches Err(e) ==> e == IdentityArgError::InvalidEmail,
{
    if email_is_valid(input) {
        Ok(String::from_str(input))
    } else {
        Err(IdentityArgError::InvalidEmail)
    }
}

/// Checks that `input` is a possible identity name: it is not empty.
pub fn valid_name(input: &str) -> (r: Result<(), IdentityArgError>)
    ensures
        r is Ok <==> input@.len() > 0,
        r matches Err(e) ==> e == IdentityArgError::EmptyName,
{
    if input.unicode_len() == 0 {
        Err(IdentityArgError::EmptyName)
    } else {
        Ok(())
    }
}

/// Checks that `input` is the name of a new identity, `taken` telling
/// whether an identity of that name can be loaded.
pub fn name_does_not_exist(input: &str, taken: bool) -> (r: Result<String, IdentityArgError>)
    ensures
        input@.len() == 0 ==> r == Err::<String, IdentityArgError>(IdentityArgError::EmptyName),
        input@.len() > 0 && taken ==> r == Err::<String, IdentityArgError>(IdentityArgError::NameExists),
        input@.len() > 0 && !taken ==> (r matches Ok(s) && s@ == input@),
{
    valid_name(input)?;
    if taken {
        Err(IdentityArgError::NameExists)
    } else {
        Ok(String::from_str(input))
    }
}

/// Checks that `input` is the name of an existing identity, `taken`
/// telling whether an identity of that name can be loaded.
pub fn name_exists(input: &str, taken: bool) -> (r: Result<String, IdentityArgError>)
    ensures
        input@.len() == 0 ==> r == Err::<String, IdentityArgError>(IdentityArgError::EmptyName),
        input@.len() > 0 && !taken ==> r == Err::<String, IdentityArgError>(IdentityArgError::NameDoesNotExist),
        input@.len() > 0 && taken ==> (r matches Ok(s) && s@ == input@),
{
    valid_name(input)?;
    if !taken {
        Err(IdentityArgError::NameDoesNotExist)
    } else {
        Ok(String::from_str(input))
    }
}

/// The expiry date of a key: the date parsed, if any, unless it is before
/// `now`.
pub open spec fn expiry_spec(parsed: Option<i64>, now: i64) -> Result<i64, IdentityArgError> {
    match parsed {
        None => Err(IdentityArgError::InvalidDate),
        Some(d) => if now > d { Err(IdentityArgError::DateInPast) } else { Ok(d) },
    }
}

/// The expiry accepted is the parsed date itself, never another moment
/// (such as `now`); a date is refused only when there is none, or when it
/// is before `now`.
pub proof fn lemma_expiry_is_the_parsed_date(parsed: Option<i64>, now: i64)
    ensures
        expiry_spec(parsed, now) matches Ok(d) ==> parsed == Some(d) && now <= d,
        parsed is None <==> expiry_spec(parsed, now) == Err::<i64, IdentityArgError>(IdentityArgError::InvalidDate),
        (parsed matches Some(d) && d < now) <==> expiry_spec(parsed, now) == Err::<i64, IdentityArgError>(IdentityArgError::DateInPast),
{
}

/// The expiry date of a key: a date that was parsed (`parsed`, in
/// milliseconds) and is not before `now`.
pub fn check_expiry(parsed: Option<i64>, now: i64) -> (r: Result<i64, IdentityArgError>)
    ensures
        r == expiry_spec(parsed, now),
        parsed is None ==> r == Err::<i64, IdentityArgError>(IdentityArgError::InvalidDate),
        parsed is Some && now > parsed.unwrap() ==> r == Err::<i64, IdentityArgError>(IdentityArgError::DateInPast),
        parsed is Some && now <= parsed.unwrap() ==> r == Ok::<i64, IdentityArgError>(parsed.unwrap()),
{
    match parsed {
        None => Err(IdentityArgError::InvalidDate),
        Some(d) => if now > d {
            Err(IdentityArgError::DateInPast)
        } else {
            Ok(d)
        },
    }
}

/// Parses the expiry date `input`, which must not be in the past. A time
/// zone offset of 24 hours or more is an invalid date. The expiry is the
/// date parsed: for a calendar date `YYYY-MM-DD`, a moment of that day.
pub fn parse_expiry(input: &str) -> (r: Result<i64, IdentityArgError>)
    ensures
        r is Err ==> (r matches Err(e) && (e == IdentityArgError::InvalidDate || e == IdentityArgError::DateInPast)),
        (input@.len() == 0 || has_oversized_offset(input@)) ==> r == Err::<i64, IdentityArgError>(IdentityArgError::InvalidDate),
        iso_day(input@) is Some ==> r is Ok || r == Err::<i64, IdentityArgError>(IdentityArgError::DateInPast),
        iso_day(input@) matches Some(day) ==> (r matches Ok(d) ==> day * day_millis() <= d < (day + 1) * day_millis()),
{
    if oversized_offset(input) {
        return Err(IdentityArgError::InvalidDate);
    }
    let parsed = parse_date_millis(input);
    let now = now_millis();
    check_expiry(parsed, now)
}

/// The directory of the identity `name` in the global configuration
/// directory `config_dir`.
pub open spec fn identity_path_spec(config_dir: Seq<char>, name: Seq<char>) -> Seq<char> {
    join_spec(join_spec(config_dir, "identities"@), name)
}

/// The directory of the identity `name`; an identity must have a name,
/// and where `should_exist` is set, that directory must be on disk, which
/// `on_disk` tells.
pub fn path(config_dir: &str, name: &str, should_exist: bool, on_disk: bool) -> (r: Result<String, IdentityArgError>)
    ensures
        name@.len() == 0 ==> r == Err::<String, IdentityArgError>(IdentityArgError::UnnamedIdentity),
        name@.len() > 0 && should_exist && !on_disk ==> r == Err::<String, IdentityArgError>(IdentityArgError::MissingIdentity),
        name@.len() > 0 && (on_disk || !should_exist) ==> (r matches Ok(p) && p@ == identity_path_spec(config_dir@, name@)),
{
    if name.unicode_len() == 0 {
        return Err(IdentityArgError::UnnamedIdentity);
    }
    if should_exist && !on_disk {
        return Err(IdentityArgError::MissingIdentity);
    }
    let mut p = String::from_str(config_dir);
    join(&mut p, "identities");
    join(&mut p, name);
    Ok(p)
}

/// A public key.
#[derive(Debug)]
pub struct PublicKey {
    pub version: u64,
    pub algorithm: String,
    pub key: String,
    pub expires: Option<i64>,
}

/// A secret key, possibly encrypted.
#[derive(Debug)]
pub struct SecretKey {
    pub version: u64,
    pub algorithm: String,
    pub encrypted: bool,
    pub key: String,
    pub expires: Option<i64>,
}

/// The details of an identity.
#[derive(Debug)]
pub struct Config {
    pub author: Author,
    pub key_path: Option<String>,
}

impl Config {
    /// The details of `author`, with no key path.
    pub fn from_author(author: Author) -> (r: Config)
        ensures
            r.author == author,
            r.key_path is None,
    {
        Config { key_path: None, author }
    }
}

/// The secret key of an identity, and the password that decrypts it, if known.
#[derive(Debug)]
pub struct Credentials {
    pub secret_key: SecretKey,
    pub password: Option<String>,
}

impl Credentials {
    pub fn new(secret_key: SecretKey, password: Option<String>) -> (r: Credentials)
        ensures
            r.secret_key == secret_key,
            r.password == password,
    {
        Credentials { secret_key, password }
    }

    /// The credentials of a key whose password is not known.
    pub fn from_key(secret_key: SecretKey) -> (r: Credentials)
        ensures
            r.secret_key == secret_key,
            r.password is None,
    {
        Credentials { secret_key, password: None }
    }
}

/// A complete identity: its name, details, keys, and time of last change
/// (in milliseconds since the Unix epoch).
#[derive(Debug)]
pub struct Complete {
    pub name: String,
    pub config: Config,
    pub last_modified: i64,
    pub public_key: PublicKey,
    pub credentials: Option<Credentials>,
}

impl Complete {
    /// A new identity, modified now. An identity must have a name.
    pub fn new(name: String, config: Config, public_key: PublicKey, credentials: Option<Credentials>) -> (r: Complete)
        requires
            name@.len() > 0,
        ensures
            r.name == name,
            r.config == config,
            r.public_key == public_key,
            r.credentials == credentials,
    {
        Complete { name, config, public_key, credentials, last_modified: now_millis() }
    }

    /// The secret key of this identity, if it has credentials.
    pub fn secret_key(&self) -> (r: Option<&SecretKey>)
        ensures
            match self.credentials {
                Some(c) => r == Some(&c.secret_key),
                None => r is None,
            },
    {
        match &self.credentials {
            Some(c) => Some(&c.secret_key),
            None => None,
        }
    }

    /// This identity without what is specific to a device: no name, no key
    /// path, no credentials, modified now.
    pub fn as_portable(&self) -> (r: Complete)
        ensures
            r.name@.len() == 0,
            r.config.key_path is None,
            r.config.author.username@ == self.config.author.username@,
            r.config.author.display_name@ == self.config.author.display_name@,
            r.config.author.email@ == self.config.author.email@,
            r.config.author.origin@ == self.config.author.origin@,
            r.public_key.version == self.public_key.version,
            r.public_key.algorithm@ == self.public_key.algorithm@,
            r.public_key.key@ == self.public_key.key@,
            r.public_key.expires == self.public_key.expires,
            r.credentials is None,
    {
        Complete {
            name: String::new(),
            last_modified: now_millis(),
            config: Config { key_path: None, author: self.config.author.clone_author() },
            public_key: PublicKey {
                version: self.public_key.version,
                algorithm: self.public_key.algorithm.clone(),
                key: self.public_key.key.clone(),
                expires: self.public_key.expires,
            },
            credentials: None,
        }
    }

    /// How an identity is shown when the user chooses one: its name, with
    /// its username and origin if it has them.
    pub open spec fn label_spec(name: Seq<char>, username: Seq<char>, origin: Seq<char>) -> Seq<char> {
        name + if username.len() > 0 && origin.len() > 0 {
            " ["@ + username + "@"@ + origin + "]"@
        } else if username.len() > 0 {
            " [@"@ + username + "]"@
        } else if origin.len() > 0 {
            " [:"@ + origin + "]"@
        } else {
            Seq::empty()
        }
    }

    pub fn to_string(&self) -> (r: String)
        ensures
            r@ == Self::label_spec(self.name@, self.config.author.username@, self.config.author.origin@),
    {
        let username = &self.config.author.username;
        let origin = &self.config.author.origin;
        let has_username = username.unicode_len() > 0;
        let has_remote = origin.unicode_len() > 0;
        let mut r = self.name.clone();
        if has_username && has_remote {
            r.append(" [");
            r.append(username.as_str());
            r.append("@");
            r.append(origin.as_str());
            r.append("]");
        } else if has_username {
            r.append(" [@");
            r.append(username.as_str());
            r.append("]");
        } else if has_remote {
            r.append(" [:");
            r.append(origin.as_str());
            r.append("]");
        }
        proof {
            reveal_strlit(" [");
            reveal_strlit("@");
            reveal_strlit("]");
            reveal_strlit(" [@");
            reveal_strlit(" [:");
        }
        assert(r@ =~= Self::label_spec(self.name@, username@, origin@));
        r
    }
}

/// The value of an option, or the default value.
fn or_default(v: Option<String>, default: String) -> (r: String)
    ensures
        r == match v {
            Some(x) => x,
            None => default,
        },
{
    match v {
        Some(x) => x,
        None => default,
    }
}

/// The identity that the arguments of a command describe: each detail
/// given replaces that of `default`. The secret key of `default`, if any,
/// gets the expiry date `expiry` and the password `password`.
pub fn unwrap_args(
    default: Complete,
    identity_name: Option<String>,
    login: Option<String>,
    display_name: Option<String>,
    origin: Option<String>,
    email: Option<String>,
    expiry: Option<i64>,
    password: Option<String>,
) -> (r: Complete)
    requires
        match identity_name {
            Some(n) => n@.len() > 0,
            None => default.name@.len() > 0,
        },
    ensures
        r.name == (match identity_name {
            Some(x) => x,
            None => default.name,
        }),
        r.config.author.username == (match login {
            Some(x) => x,
            None => default.config.author.username,
        }),
        r.config.author.display_name == (match display_name {
            Some(x) => x,
            None => default.config.author.display_name,
        }),
        r.config.author.email == (match email {
            Some(x) => x,
            None => default.config.author.email,
        }),
        r.config.author.origin == (match origin {
            Some(x) => x,
            None => default.config.author.origin,
        }),
        r.config.key_path is None,
        r.config.author.key_path is None,
        r.public_key == default.public_key,
        match default.credentials {
            Some(c) => r.credentials matches Some(rc) && rc.password == password && rc.secret_key.expires == expiry
                && rc.secret_key.key == c.secret_key.key && rc.secret_key.encrypted == c.secret_key.encrypted
                && rc.secret_key.version == c.secret_key.version && rc.secret_key.algorithm == c.secret_key.algorithm,
            None => r.credentials is None,
        },
{
    let credentials = match default.credentials {
        Some(c) => {
            let mut key = c.secret_key;
            key.expires = expiry;
            Some(Credentials::new(key, password))
        },
        None => None,
    };
    let author = Author {
        username: or_default(login, default.config.author.username),
        display_name: or_default(display_name, default.config.author.display_name),
        email: or_default(email, default.config.author.email),
        origin: or_default(origin, default.config.author.origin),
        key_path: None,
    };
    Complete::new(
        or_default(identity_name, default.name),
        Config { key_path: None, author },
        default.public_key,
        credentials,
    )
}

/// `c` holds the details of an identity migrated from the old format on
/// disk: those of the global configuration `global_author` if there is one
/// (with its key path), else those of a new author named like the only
/// identity of `identities`, if there is exactly one.
pub open spec fn is_migrated_config(c: Config, global_author: Option<Author>, identities: Seq<Complete>) -> bool {
    match global_author {
        Some(a) => c.author == a && (c.key_path is Some <==> a.key_path is Some) && (c.key_path is Some
            ==> c.key_path.unwrap()@ == a.key_path.unwrap()@),
        None => {
            &&& c.key_path is None
            &&& c.author.email@.len() == 0
            &&& c.author.origin@.len() == 0
            &&& c.author.key_path is None
            &&& c.author.username@ == if identities.len() == 1 {
                identities[0].config.author.username@
            } else {
                Seq::empty()
            }
        },
    }
}

/// The details of an identity migrated from the old format on disk.
pub fn migrated_config(global_author: Option<Author>, identities: &Vec<Complete>) -> (r: Config)
    ensures
        is_migrated_config(r, global_author, identities@),
{
    match global_author {
        Some(a) => {
            let key_path = match &a.key_path {
                Some(p) => Some(p.clone()),
                None => None,
            };
            Config { key_path, author: a }
        },
        None => {
            let mut author = Author::default();
            author.username = if identities.len() == 1 {
                identities[0].config.author.username.clone()
            } else {
                String::new()
            };
            Config { key_path: None, author }
        },
    }
}

/// Whether the public key of an identity is the one that its secret key
/// gives once decrypted (`decrypted`).
pub fn valid_keys(public_key: &PublicKey, decrypted: &PublicKey) -> (r: bool)
    ensures
        r == (public_key.key@ == decrypted.key@),
{
    str_eq(public_key.key.as_str(), decrypted.key.as_str())
}

/// The identity `default` rebuilt from the files of the old format: its
/// secret key (`None` if the file at `secret_key_path` does not exist), its
/// public key (`None` if its file does not exist), the identities read from
/// the identity files, the author of the global configuration (`None` if
/// there is none), and what the check of the keys against each other gave
/// (see `valid_keys`).
pub fn from_old_format(
    secret_key_path: &str,
    secret_key: Option<SecretKey>,
    public_key: Option<PublicKey>,
    identities: &Vec<Complete>,
    global_author: Option<Author>,
    keys_valid: Result<bool, String>,
) -> (r: Result<Complete, IdentityParseError>)
    ensures
        secret_key is None ==> (r matches Err(IdentityParseError::NoSecretKey(p)) && p@ == secret_key_path@),
        secret_key is Some && public_key is None ==> (r matches Err(IdentityParseError::Other(m)) && m@
            == "Public key does not exist!"@),
        secret_key is Some && public_key is Some ==> match keys_valid {
            Err(e) => r matches Err(IdentityParseError::Other(m)) && m@ == e@,
            Ok(false) => r matches Err(IdentityParseError::MismatchingKeys),
            Ok(true) => r matches Ok(c) && {
                &&& c.name@ == "default"@
                &&& is_migrated_config(c.config, global_author, identities@)
                &&& c.public_key == public_key.unwrap()
                &&& c.credentials == Some(Credentials { secret_key: secret_key.unwrap(), password: None })
            },
        },
{
    let secret_key = match secret_key {
        Some(k) => k,
        None => return Err(IdentityParseError::NoSecretKey(String::from_str(secret_key_path))),
    };
    let public_key = match public_key {
        Some(k) => k,
        None => return Err(IdentityParseError::Other(String::from_str("Public key does not exist!"))),
    };
    let config = migrated_config(global_author, identities);
    let name = String::from_str("default");
    proof {
        reveal_strlit("default");
    }
    let identity = Complete::new(name, config, public_key, Some(Credentials::from_key(secret_key)));
    match keys_valid {
        Err(e) => Err(IdentityParseError::Other(e)),
        Ok(false) => Err(IdentityParseError::MismatchingKeys),
        Ok(true) => Ok(identity),
    }
}

/// Accepts the expiry dates that [parse_expiry] accepts; its messages are
/// those of the errors of [parse_expiry].
pub struct ExpiryValidator;

impl Validator<String> for ExpiryValidator {
    fn validate(&self, value: &String) -> (r: Result<(), String>)
        ensures
            r matches Err(m) ==> m@ == arg_error_message(IdentityArgError::InvalidDate) || m@ == arg_error_message(
                IdentityArgError::DateInPast,
            ),
    {
        match parse_expiry(value.as_str()) {
            Ok(_) => Ok(()),
            Err(e) => Err(e.to_string()),
        }
    }
}

/// The errors of the prompts about an identity.
#[derive(Debug)]
pub enum PromptError {
    Interaction(InteractionError),
    /// The date given could not be read.
    InvalidDate,
}

/// `a` and `b` are the same identity but for the expiry date of the public key.
pub open spec fn same_but_expiry(a: Complete, b: Complete) -> bool {
    &&& a.name == b.name
    &&& a.config == b.config
    &&& a.last_modified == b.last_modified
    &&& a.credentials == b.credentials
    &&& a.public_key.version == b.public_key.version
    &&& a.public_key.algorithm == b.public_key.algorithm
    &&& a.public_key.key == b.public_key.key
}

impl Complete {
    /// Asks whether the public key should expire, and if so when: the
    /// question is asked through `confirm` and the date through `input` on a
    /// terminal. Where no interaction is possible, the key does not expire.
    pub fn prompt_expiry(
        &mut self,
        cell: &ContextCell,
        confirm: Box<dyn DefaultPrompt<bool>>,
        input: Box<dyn TextPrompt<String>>,
    ) -> (r: Result<(), PromptError>)
        ensures
            same_but_expiry(*old(self), *final(self)),
            r is Err ==> final(self).public_key.expires == old(self).public_key.expires,
            cell.spec_value() is None ==> (r matches Err(PromptError::Interaction(InteractionError::NoContext))),
            cell.spec_value() == Some(InteractiveContext::NotInteractive) ==> r is Ok && final(self).public_key.expires is None,
    {
        let message = match self.public_key.expires {
            Some(d) => format_date(d, "%Y-%m-%d %H:%M:%S"),
            None => None,
        };
        let mut question = String::from_str("Do you want this key to expire? (Current expiry: ");
        match &message {
            Some(m) => question.append(m.as_str()),
            None => question.append("never"),
        }
        question.append(")");
        let mut c = match Confirm::new(cell, confirm) {
            Ok(c) => c,
            Err(e) => return Err(PromptError::Interaction(e)),
        };
        let expires = match c.with_prompt(question.as_str()).with_default(false).interact() {
            Err(e) => return Err(PromptError::Interaction(e)),
            Ok(false) => None,
            Ok(true) => {
                let mut i = match Input::new(cell, input) {
                    Ok(i) => i,
                    Err(e) => return Err(PromptError::Interaction(e)),
                };
                let initial = match message {
                    Some(m) => m,
                    None => String::new(),
                };
                let answer = i.with_prompt("Expiry date (YYYY-MM-DD)").with_initial_text(initial.as_str()).with_validator(
                    Box::new(ExpiryValidator),
                ).interact();
                match answer {
                    Err(e) => return Err(PromptError::Interaction(e)),
                    Ok(text) => {
                        if oversized_offset(text.as_str()) {
                            return Err(PromptError::InvalidDate);
                        }
                        match parse_date_millis(text.as_str()) {
                            Some(d) => Some(d),
                            None => return Err(PromptError::InvalidDate),
                        }
                    },
                }
            },
        };
        self.public_key.expires = expires;
        Ok(())
    }
}

} // verus!
