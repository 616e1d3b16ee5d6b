use libpijul::config::Author;
use libpijul::interaction::{
    set_context, BasePrompt, ContextCell, DefaultPrompt, InteractionError, InteractiveContext, TextPrompt,
    ValidationPrompt, Validator,
};
use libpijul::identity::{
    check_expiry, from_old_format, migrated_config, name_does_not_exist, name_exists, parse_expiry, path, unwrap_args, valid_name,
    valid_keys, validate_email, Complete, PromptError, Config, Credentials, IdentityArgError, IdentityParseError, PublicKey,
    SecretKey,
};

fn author(username: &str, origin: &str) -> Author {
    Author {
        username: username.to_string(),
        display_name: String::from("Ada"),
        email: String::from("ada@example.org"),
        origin: origin.to_string(),
        key_path: None,
    }
}

fn public_key() -> PublicKey {
    PublicKey { version: 0, algorithm: String::from("Ed25519"), key: String::from("PUB"), expires: None }
}

fn secret_key() -> SecretKey {
    SecretKey { version: 0, algorithm: String::from("Ed25519"), encrypted: false, key: String::from("SEC"), expires: None }
}

fn identity(name: &str, a: Author) -> Complete {
    Complete::new(
        name.to_string(),
        Config { author: a, key_path: Some(String::from("/k")) },
        public_key(),
        Some(Credentials::new(secret_key(), None)),
    )
}

#[test]
fn email_validation() {
    assert_eq!(validate_email("ada@example.org"), Ok(String::from("ada@example.org")));
    assert_eq!(validate_email("ada.example.org"), Err(IdentityArgError::InvalidEmail));
    assert_eq!(validate_email(""), Err(IdentityArgError::InvalidEmail));
    assert_eq!(IdentityArgError::InvalidEmail.to_string(), "Invalid email address");
}

#[test]
fn names() {
    assert_eq!(valid_name(""), Err(IdentityArgError::EmptyName));
    assert_eq!(valid_name("x"), Ok(()));
    assert_eq!(name_does_not_exist("x", false), Ok(String::from("x")));
    assert_eq!(name_does_not_exist("x", true), Err(IdentityArgError::NameExists));
    assert_eq!(name_does_not_exist("", false), Err(IdentityArgError::EmptyName));
    assert_eq!(name_exists("x", true), Ok(String::from("x")));
    assert_eq!(name_exists("x", false), Err(IdentityArgError::NameDoesNotExist));
    assert_eq!(IdentityArgError::NameExists.to_string(), "Name already exists");
}

#[test]
fn expiry_dates() {
    assert_eq!(check_expiry(None, 0), Err(IdentityArgError::InvalidDate));
    assert_eq!(check_expiry(Some(10), 11), Err(IdentityArgError::DateInPast));
    assert_eq!(check_expiry(Some(10), 10), Ok(10));
    assert_eq!(parse_expiry("not a date"), Err(IdentityArgError::InvalidDate));
    assert_eq!(parse_expiry("2000-01-01"), Err(IdentityArgError::DateInPast));
    assert!(parse_expiry("2999-01-01").is_ok());
}

#[test]
fn identity_paths() {
    assert_eq!(path("/home/u/.config/pijul", "work", false, false), Ok(String::from("/home/u/.config/pijul/identities/work")));
    assert_eq!(path("/home/u/.config/pijul", "work", true, true), Ok(String::from("/home/u/.config/pijul/identities/work")));
    assert_eq!(path("/c", "", false, false), Err(IdentityArgError::UnnamedIdentity));
    assert_eq!(path("/c", "work", true, false), Err(IdentityArgError::MissingIdentity));
    assert_eq!(path("/c/", "work", false, false), Ok(String::from("/c/identities/work")));
    assert_eq!(path("/c", "/work", false, false), Ok(String::from("/work")));
    assert_eq!(IdentityArgError::MissingIdentity.to_string(), "Cannot get identity path: name does not exist");
}

#[test]
fn identity_labels() {
    assert_eq!(identity("work", author("ada", "nest.pijul.com")).to_string(), "work [ada@nest.pijul.com]");
    assert_eq!(identity("work", author("ada", "")).to_string(), "work [@ada]");
    assert_eq!(identity("work", author("", "nest")).to_string(), "work [:nest]");
    assert_eq!(identity("work", author("", "")).to_string(), "work");
}

#[test]
fn portable_identity_has_no_device_details() {
    let id = identity("work", author("ada", "nest"));
    let p = id.as_portable();
    assert!(p.name.is_empty());
    assert!(p.config.key_path.is_none());
    assert!(p.credentials.is_none());
    assert_eq!(p.config.author.username, "ada");
    assert_eq!(p.public_key.key, "PUB");
    assert!(id.secret_key().is_some());
    assert!(p.secret_key().is_none());
}

#[test]
fn arguments_replace_details() {
    let id = identity("work", author("ada", "nest"));
    let r = unwrap_args(id, None, Some(String::from("bob")), None, None, None, Some(99), Some(String::from("pw")));
    assert_eq!(r.name, "work");
    assert_eq!(r.config.author.username, "bob");
    assert_eq!(r.config.author.display_name, "Ada");
    assert_eq!(r.config.author.origin, "nest");
    assert!(r.config.key_path.is_none());
    let c = r.credentials.unwrap();
    assert_eq!(c.password, Some(String::from("pw")));
    assert_eq!(c.secret_key.expires, Some(99));
    let id = identity("work", author("ada", "nest"));
    let r = unwrap_args(id, Some(String::from("home")), None, None, None, Some(String::from("b@c.d")), None, None);
    assert_eq!(r.name, "home");
    assert_eq!(r.config.author.email, "b@c.d");
}

#[test]
fn migration_prefers_the_global_configuration() {
    let mut a = author("ada", "nest");
    a.key_path = Some(String::from("/old/key"));
    let c = migrated_config(Some(a), &Vec::new());
    assert_eq!(c.author.username, "ada");
    assert_eq!(c.key_path, Some(String::from("/old/key")));
    let ids = vec![identity("x", author("bob", ""))];
    let c = migrated_config(None, &ids);
    assert_eq!(c.author.username, "bob");
    assert!(c.key_path.is_none());
    let ids = vec![identity("x", author("bob", "")), identity("y", author("eve", ""))];
    assert!(migrated_config(None, &ids).author.username.is_empty());
}

#[test]
fn keys_are_valid_when_the_public_keys_agree() {
    let mut other = public_key();
    assert!(valid_keys(&public_key(), &other));
    other.key = String::from("OTHER");
    assert!(!valid_keys(&public_key(), &other));
}

#[test]
fn old_format_without_a_secret_key() {
    let r = from_old_format("/c/secretkey.json", None, Some(public_key()), &Vec::new(), None, Ok(true));
    match r {
        Err(IdentityParseError::NoSecretKey(p)) => assert_eq!(p, "/c/secretkey.json"),
        _ => panic!("expected NoSecretKey"),
    }
}

#[test]
fn old_format_without_a_public_key() {
    let r = from_old_format("/c/secretkey.json", Some(secret_key()), None, &Vec::new(), None, Ok(true));
    match r {
        Err(IdentityParseError::Other(m)) => assert_eq!(m, "Public key does not exist!"),
        _ => panic!("expected Other"),
    }
}

#[test]
fn old_format_with_mismatching_keys() {
    let r = from_old_format("/s", Some(secret_key()), Some(public_key()), &Vec::new(), None, Ok(false));
    assert!(matches!(r, Err(IdentityParseError::MismatchingKeys)));
    let r = from_old_format("/s", Some(secret_key()), Some(public_key()), &Vec::new(), None, Err(String::from("locked")));
    match r {
        Err(IdentityParseError::Other(m)) => assert_eq!(m, "locked"),
        _ => panic!("expected Other"),
    }
}

#[test]
fn old_format_migrates_to_the_default_identity() {
    let ids = vec![identity("x", author("bob", "nest"))];
    let r = from_old_format("/s", Some(secret_key()), Some(public_key()), &ids, None, Ok(true)).unwrap();
    assert_eq!(r.name, "default");
    assert_eq!(r.config.author.username, "bob");
    assert!(r.config.author.origin.is_empty());
    assert_eq!(r.public_key.key, "PUB");
    let c = r.credentials.unwrap();
    assert_eq!(c.secret_key.key, "SEC");
    assert!(c.password.is_none());
}

#[test]
fn configs_and_credentials_from_parts() {
    let c = Config::from_author(author("ada", "nest"));
    assert_eq!(c.author.username, "ada");
    assert!(c.key_path.is_none());
    let k = Credentials::from_key(secret_key());
    assert_eq!(k.secret_key.key, "SEC");
    assert!(k.password.is_none());
}

struct Answer(bool);

impl BasePrompt<bool> for Answer {
    fn set_prompt(&mut self, _prompt: String) {}
    fn interact(&mut self) -> Result<bool, InteractionError> {
        Ok(self.0)
    }
}

impl DefaultPrompt<bool> for Answer {
    fn set_default(&mut self, _value: bool) {}
}

struct Typed(String);

impl BasePrompt<String> for Typed {
    fn set_prompt(&mut self, _prompt: String) {}
    fn interact(&mut self) -> Result<String, InteractionError> {
        Ok(self.0.clone())
    }
}

impl DefaultPrompt<String> for Typed {
    fn set_default(&mut self, _value: String) {}
}

impl ValidationPrompt<String> for Typed {
    fn allow_empty(&mut self, _empty: bool) {}
    fn set_validator(&mut self, _validator: Box<dyn Validator<String>>) {}
}

impl TextPrompt<String> for Typed {
    fn set_inital_text(&mut self, _text: String) {}
}

fn cell(c: Option<InteractiveContext>) -> ContextCell {
    let mut cell = ContextCell::new();
    if let Some(c) = c {
        set_context(&mut cell, c);
    }
    cell
}

#[test]
fn keys_do_not_expire_without_interaction() {
    let mut id = identity("x", author("ada", ""));
    id.public_key.expires = Some(5);
    let r = id.prompt_expiry(
        &cell(Some(InteractiveContext::NotInteractive)),
        Box::new(Answer(true)),
        Box::new(Typed(String::from("2999-01-01"))),
    );
    assert!(r.is_ok());
    assert_eq!(id.public_key.expires, None);
}

#[test]
fn expiry_prompts_need_a_context() {
    let mut id = identity("x", author("ada", ""));
    id.public_key.expires = Some(5);
    let r = id.prompt_expiry(&cell(None), Box::new(Answer(true)), Box::new(Typed(String::from("2999-01-01"))));
    assert!(matches!(r, Err(PromptError::Interaction(InteractionError::NoContext))));
    assert_eq!(id.public_key.expires, Some(5));
}

#[test]
fn expiry_date_from_the_terminal() {
    let terminal = cell(Some(InteractiveContext::Terminal));
    let mut id = identity("x", author("ada", ""));
    let r = id.prompt_expiry(&terminal, Box::new(Answer(true)), Box::new(Typed(String::from("2999-01-01 00:00:00"))));
    assert!(r.is_ok());
    assert_eq!(id.public_key.expires, Some(32472144000000));
    let r = id.prompt_expiry(&terminal, Box::new(Answer(false)), Box::new(Typed(String::new())));
    assert!(r.is_ok());
    assert_eq!(id.public_key.expires, None);
    let r = id.prompt_expiry(&terminal, Box::new(Answer(true)), Box::new(Typed(String::from("not a date"))));
    assert!(matches!(r, Err(PromptError::InvalidDate)));
    assert_eq!(id.public_key.expires, None);
}

struct Recording(std::rc::Rc<std::cell::RefCell<String>>);

impl BasePrompt<String> for Recording {
    fn set_prompt(&mut self, _prompt: String) {}
    fn interact(&mut self) -> Result<String, InteractionError> {
        Ok(self.0.borrow().clone())
    }
}

impl DefaultPrompt<String> for Recording {
    fn set_default(&mut self, _value: String) {}
}

impl ValidationPrompt<String> for Recording {
    fn allow_empty(&mut self, _empty: bool) {}
    fn set_validator(&mut self, _validator: Box<dyn Validator<String>>) {}
}

impl TextPrompt<String> for Recording {
    fn set_inital_text(&mut self, text: String) {
        *self.0.borrow_mut() = text;
    }
}

#[test]
fn the_current_expiry_date_is_the_initial_text() {
    let terminal = cell(Some(InteractiveContext::Terminal));
    let mut id = identity("x", author("ada", ""));
    id.public_key.expires = Some(32472144000000);
    let seen = std::rc::Rc::new(std::cell::RefCell::new(String::new()));
    let r = id.prompt_expiry(&terminal, Box::new(Answer(true)), Box::new(Recording(seen.clone())));
    assert!(r.is_ok());
    assert_eq!(*seen.borrow(), "2999-01-01 00:00:00");
    assert_eq!(id.public_key.expires, Some(32472144000000));
}

#[test]
fn expiry_dates_and_offsets() {
    assert!(parse_expiry("2030-12-31").is_ok());
    assert!(parse_expiry("2030-12-31 10:00 +0100").is_ok());
    assert_eq!(parse_expiry("2030-12-31 10:00 +2500"), Err(IdentityArgError::InvalidDate));
    assert_eq!(parse_expiry("2030-12-31 10:00 -24:00"), Err(IdentityArgError::InvalidDate));
}
