use std::cell::Cell;
use std::rc::Rc;

use libpijul::interaction::{
    get_context, set_context, BasePrompt, Confirm, ContextCell, DefaultPrompt, Input, InteractionError,
    InteractiveContext, Password, ProgressBar, ProgressBarTrait, PromptType, PseudoInteractive, Select, Spinner,
    SpinnerTrait, Validator, pseudo_outcome,
};

struct NonEmpty;

impl Validator<String> for NonEmpty {
    fn validate(&self, value: &String) -> Result<(), String> {
        if value.is_empty() {
            Err(String::from("empty"))
        } else {
            Ok(())
        }
    }
}

fn not_interactive_cell() -> ContextCell {
    let mut cell = ContextCell::new();
    set_context(&mut cell, InteractiveContext::NotInteractive);
    cell
}

struct Never;

impl BasePrompt<bool> for Never {
    fn set_prompt(&mut self, _prompt: String) {}
    fn interact(&mut self) -> Result<bool, InteractionError> {
        Ok(true)
    }
}

impl DefaultPrompt<bool> for Never {
    fn set_default(&mut self, _value: bool) {}
}

#[test]
fn context_must_be_set() {
    let cell = ContextCell::new();
    assert!(matches!(get_context(&cell), Err(InteractionError::NoContext)));
    assert!(matches!(Confirm::new(&cell, Box::new(Never)), Err(InteractionError::NoContext)));
    let cell = not_interactive_cell();
    assert!(matches!(get_context(&cell), Ok(InteractiveContext::NotInteractive)));
}

#[test]
fn prompt_type_names() {
    assert_eq!(PromptType::Confirm.to_string(), "confirm");
    assert_eq!(PromptType::Input.to_string(), "input");
    assert_eq!(PromptType::Select.to_string(), "fuzzy selection");
    assert_eq!(PromptType::Password.to_string(), "password");
}

#[test]
fn non_interactive_prompt_answers_its_default() {
    let cell = not_interactive_cell();
    let mut c = Confirm::new(&cell, Box::new(Never)).unwrap();
    assert!(!c.with_prompt("Continue?").with_default(false).interact().unwrap());
    let mut s = Select::new(&cell, Box::new(PseudoInteractive::<usize>::new(PromptType::Select))).unwrap();
    let items = vec![String::from("a"), String::from("b")];
    assert_eq!(s.with_items(&items).with_default(1).interact().unwrap(), 1);
}

#[test]
fn non_interactive_prompt_without_default_fails() {
    let cell = not_interactive_cell();
    let mut c = Confirm::new(&cell, Box::new(Never)).unwrap();
    match c.with_prompt("Continue?").interact() {
        Err(InteractionError::NotInteractive(t, p)) => {
            assert_eq!(t, PromptType::Confirm);
            assert_eq!(p, "Continue?");
        }
        _ => panic!("expected an error"),
    }
    let mut p = PseudoInteractive::<bool>::new(PromptType::Confirm);
    match p.interact() {
        Err(InteractionError::NotInteractive(_, text)) => assert_eq!(text, "[NO PROMPT SET]"),
        _ => panic!("expected an error"),
    }
}

#[test]
fn initial_text_wins_over_default() {
    let cell = not_interactive_cell();
    let mut i = Input::new(&cell, Box::new(PseudoInteractive::<String>::new(PromptType::Input))).unwrap();
    let r = i.with_prompt("Name").with_default(String::from("d")).with_initial_text("i").interact().unwrap();
    assert_eq!(r, "i");
}

#[test]
fn validator_decides_the_default() {
    let cell = not_interactive_cell();
    let mut i = Input::new(&cell, Box::new(PseudoInteractive::<String>::new(PromptType::Input))).unwrap();
    i.with_prompt("Name").with_default(String::new()).with_validator(Box::new(NonEmpty));
    assert!(matches!(i.interact(), Err(InteractionError::NotInteractive(PromptType::Input, _))));
    let mut i = Input::new(&cell, Box::new(PseudoInteractive::<String>::new(PromptType::Input))).unwrap();
    i.with_default(String::from("ok")).with_validator(Box::new(NonEmpty));
    assert_eq!(i.interact().unwrap(), "ok");
}

#[test]
fn password_prompt_without_answer_fails() {
    let cell = not_interactive_cell();
    let mut p = Password::new(&cell, Box::new(PseudoInteractive::<String>::new(PromptType::Password))).unwrap();
    let r = p.with_prompt("Password").with_confirmation("Again", "Mismatch").with_allow_empty(true).interact();
    assert!(matches!(r, Err(InteractionError::NotInteractive(PromptType::Password, _))));
}

#[test]
fn terminal_prompt_is_the_given_one() {
    let mut cell = ContextCell::new();
    set_context(&mut cell, InteractiveContext::Terminal);
    let mut c = Confirm::new(&cell, Box::new(Never)).unwrap();
    assert!(c.interact().unwrap());
}

#[test]
fn pseudo_prompt_settings() {
    let mut p = PseudoInteractive::<String>::new(PromptType::Input);
    p.set_prompt(String::from("Name"));
    p.add_items(&[String::from("a"), String::from("b")]);
    p.allow_empty(true);
    p.set_confirmation(String::from("Again"), String::from("Mismatch"));
    p.set_default(String::from("d"));
    assert_eq!(p.prompt.as_deref(), Some("Name"));
    assert_eq!(p.items, vec![String::from("a"), String::from("b")]);
    assert!(p.allow_empty);
    assert_eq!(p.confirmation, Some((String::from("Again"), String::from("Mismatch"))));
    assert_eq!(p.interact().unwrap(), "d");
    p.set_inital_text(String::from(""));
    p.set_validator(Box::new(NonEmpty));
    match p.interact() {
        Err(InteractionError::NotInteractive(t, text)) => {
            assert_eq!(t, PromptType::Input);
            assert_eq!(text, "Name");
        }
        _ => panic!("expected an error"),
    }
}

#[test]
fn prompt_setters_reach_the_prompt() {
    let cell = not_interactive_cell();
    let mut i = Input::new(&cell, Box::new(PseudoInteractive::<String>::new(PromptType::Input))).unwrap();
    i.set_prompt(String::from("Name"));
    i.set_allow_empty(true);
    i.set_default(String::from("d"));
    i.set_validator(Box::new(NonEmpty));
    assert_eq!(i.interact().unwrap(), "d");
    i.set_inital_text("");
    assert!(matches!(i.interact(), Err(InteractionError::NotInteractive(PromptType::Input, _))));
    let mut p = Password::new(&cell, Box::new(PseudoInteractive::<String>::new(PromptType::Password))).unwrap();
    p.set_prompt(String::from("Password"));
    p.set_allow_empty(false);
    p.set_validator(Box::new(NonEmpty));
    p.set_confirmation("Again", "Mismatch");
    assert!(matches!(p.interact(), Err(InteractionError::NotInteractive(PromptType::Password, _))));
    let mut s = Select::new(&cell, Box::new(PseudoInteractive::<usize>::new(PromptType::Select))).unwrap();
    s.add_items(&[String::from("a")]);
    s.set_prompt(String::from("Pick"));
    s.set_default(0);
    assert_eq!(s.interact().unwrap(), 0);
    let mut c = Confirm::new(&cell, Box::new(Never)).unwrap();
    c.set_prompt(String::from("Sure?"));
    c.set_default(true);
    assert!(c.interact().unwrap());
}

struct Counter(Rc<Cell<u64>>, Rc<Cell<bool>>);

impl ProgressBarTrait for Counter {
    fn inc(&self, delta: u64) {
        self.0.set(self.0.get() + delta);
    }
    fn finish(&self) {
        self.1.set(true);
    }
}

impl SpinnerTrait for Counter {
    fn finish(&self) {
        self.1.set(true);
    }
}

#[test]
fn progress_bars_and_spinners_drive_their_drawing() {
    let count = Rc::new(Cell::new(0));
    let done = Rc::new(Cell::new(false));
    assert!(matches!(
        ProgressBar::new(&ContextCell::new(), Box::new(Counter(count.clone(), done.clone()))),
        Err(InteractionError::NoContext)
    ));
    let cell = not_interactive_cell();
    let bar = ProgressBar::new(&cell, Box::new(Counter(count.clone(), done.clone()))).unwrap();
    bar.inc(3);
    bar.inc(4);
    assert_eq!(count.get(), 7);
    assert!(!done.get());
    bar.finish();
    assert!(done.get());
    let finished = Rc::new(Cell::new(false));
    let spinner = Spinner::new(&cell, Box::new(Counter(count.clone(), finished.clone()))).unwrap();
    spinner.finish();
    assert!(finished.get());
    assert!(matches!(
        Spinner::new(&ContextCell::new(), Box::new(Counter(count, finished))),
        Err(InteractionError::NoContext)
    ));
}

#[test]
fn items_of_two_calls_are_all_kept() {
    let mut p = PseudoInteractive::<usize>::new(PromptType::Select);
    p.add_items(&[String::from("a"), String::from("b")]);
    p.add_items(&[String::from("c")]);
    assert_eq!(p.items, vec![String::from("a"), String::from("b"), String::from("c")]);
}

#[test]
fn outcome_of_a_prompt_that_cannot_ask() {
    let ok: Result<usize, InteractionError> = pseudo_outcome(PromptType::Select, String::from("Pick"), Some(2), None);
    assert_eq!(ok.unwrap(), 2);
    let accepted = pseudo_outcome(PromptType::Input, String::from("Email"), Some(String::from("a@b")), Some(Ok(())));
    assert_eq!(accepted.unwrap(), "a@b");
    let rejected = pseudo_outcome(PromptType::Input, String::from("Email"), Some(String::from("bad")), Some(Err(String::from("no"))));
    assert!(matches!(rejected, Err(InteractionError::NotInteractive(PromptType::Input, ref s)) if s == "Email"));
    let none: Result<String, InteractionError> = pseudo_outcome(PromptType::Input, String::from("Name"), None, None);
    assert!(matches!(none, Err(InteractionError::NotInteractive(PromptType::Input, ref s)) if s == "Name"));
}
