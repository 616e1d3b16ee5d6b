//! Interaction with the user: prompts, that either ask on a terminal or,
//! where no interaction is possible, answer with their default value.
use vstd::prelude::*;
use vstd::string::*;

verus! {

/// The different kinds of prompts.
#[derive(Clone, Copy, Debug, PartialEq, Eq, Structural)]
pub enum PromptType {
    Confirm,
    Input,
    Select,
    Password,
}

/// The name of a kind of prompt.
pub open spec fn prompt_type_name(t: PromptType) -> Seq<char> {
    match t {
        PromptType::Confirm => "confirm"@,
        PromptType::Input => "input"@,
        PromptType::Select => "fuzzy selection"@,
        PromptType::Password => "password"@,
    }
}

impl PromptType {
    /// The name of this kind of prompt.
    pub fn to_string(&self) -> (r: String)
        ensures
            r@ == prompt_type_name(*self),
    {
        match *self {
            PromptType::Confirm => String::from_str("confirm"),
            PromptType::Input => String::from_str("input"),
            PromptType::Select => String::from_str("fuzzy selection"),
            PromptType::Password => String::from_str("password"),
        }
    }
}

/// Errors that can occur while interacting with the user.
#[derive(Debug)]
pub enum InteractionError {
    /// The mode of interactivity is not set.
    NoContext,
    /// No interaction is possible, and the prompt of this kind and text has
    /// no valid default value.
    NotInteractive(PromptType, String),
    /// Input or output failed while interacting with the terminal.
    IO(std::io::Error),
}

/// The different contexts of interaction.
#[derive(Clone, Copy, Debug, PartialEq, Eq, Structural)]
pub enum InteractiveContext {
    Terminal,
    NotInteractive,
}

/// The mode of interactivity of a process: set once, before any prompt.
pub struct ContextCell {
    value: Option<InteractiveContext>,
}

impl ContextCell {
    pub closed spec fn spec_value(&self) -> Option<InteractiveContext> {
        self.value
    }

    /// A cell where no mode is set yet.
    pub fn new() -> (r: ContextCell)
        ensures
            r.spec_value() is None,
    {
        ContextCell { value: None }
    }
}

/// The mode of interactivity, or an error if it is not set.
pub fn get_context(cell: &ContextCell) -> (r: Result<InteractiveContext, InteractionError>)
    ensures
        match cell.spec_value() {
            Some(c) => (r matches Ok(x) && x == c),
            None => (r matches Err(InteractionError::NoContext)),
        },
{
    match cell.value {
        Some(c) => Ok(c),
        None => Err(InteractionError::NoContext),
    }
}

/// Sets the mode of interactivity, which must not be set already.
pub fn set_context(cell: &mut ContextCell, value: InteractiveContext)
    requires
        old(cell).spec_value() is None,
    ensures
        final(cell).spec_value() == Some(value),
{
    cell.value = Some(value);
}

/// A check of the values that a prompt accepts.
pub trait Validator<T> {
    /// `Ok` if `value` is accepted, else the message to show.
    fn validate(&self, value: &T) -> Result<(), String>;
}

/// A common interface shared by every prompt type.
pub trait BasePrompt<T> {
    fn set_prompt(&mut self, prompt: String);

    fn interact(&mut self) -> Result<T, InteractionError>;
}

/// A prompt that allows a default value.
pub trait DefaultPrompt<T>: BasePrompt<T> {
    fn set_default(&mut self, value: T);
}

/// A prompt whose input may need validation.
pub trait ValidationPrompt<T>: BasePrompt<T> {
    fn allow_empty(&mut self, empty: bool);

    fn set_validator(&mut self, validator: Box<dyn Validator<T>>);
}

/// A prompt that accepts a password.
pub trait PasswordPrompt<T>: ValidationPrompt<T> {
    fn set_confirmation(&mut self, confirm_prompt: String, mismatch_err: String);
}

/// A prompt that accepts text with a default value (not a password).
pub trait TextPrompt<T>: ValidationPrompt<T> + DefaultPrompt<T> {
    fn set_inital_text(&mut self, text: String);
}

/// A prompt where the user may choose from a selection of items.
pub trait SelectionPrompt<T>: DefaultPrompt<T> {
    fn add_items(&mut self, items: &[String]);
}

/// The state of a prompt where no interaction is possible: the prompt
/// answers with its initial value, or else its default value, if the
/// validator accepts it.
#[verifier::reject_recursive_types(T)]
pub struct PseudoInteractive<T> {
    pub prompt_type: PromptType,
    pub prompt: Option<String>,
    pub default: Option<T>,
    pub items: Vec<String>,
    pub validator: Option<Box<dyn Validator<T>>>,
    pub confirmation: Option<(String, String)>,
    pub allow_empty: bool,
    pub initial_value: Option<T>,
}

/// The value a non-interactive prompt answers with, before validation.
pub open spec fn pseudo_answer<T>(p: PseudoInteractive<T>) -> Option<T> {
    if p.initial_value is Some {
        p.initial_value
    } else {
        p.default
    }
}

/// The text of a prompt, as shown in errors.
pub open spec fn prompt_text(prompt: Option<String>) -> Seq<char> {
    match prompt {
        Some(p) => p@,
        None => "[NO PROMPT SET]"@,
    }
}

/// The error of a non-interactive prompt that has no acceptable answer.
pub open spec fn not_interactive<T>(r: Result<T, InteractionError>, t: PromptType, text: Seq<char>) -> bool {
    match r {
        Err(InteractionError::NotInteractive(t2, p)) => t2 == t && p@ == text,
        _ => false,
    }
}

/// The outcome of a prompt that cannot ask: its `answer` (the initial value,
/// or else the default), unless there is none or the validator rejected it
/// (`verdict` is the validator's answer, `None` where none was asked), in
/// which case the error of a prompt that cannot ask, with its kind and text.
pub fn pseudo_outcome<T>(
    prompt_type: PromptType,
    prompt: String,
    answer: Option<T>,
    verdict: Option<Result<(), String>>,
) -> (r: Result<T, InteractionError>)
    ensures
        match answer {
            None => r == Err::<T, InteractionError>(InteractionError::NotInteractive(prompt_type, prompt)),
            Some(d) => match verdict {
                Some(Err(_)) => r == Err::<T, InteractionError>(InteractionError::NotInteractive(prompt_type, prompt)),
                _ => r == Ok::<T, InteractionError>(d),
            },
        },
{
    match answer {
        Some(d) => match verdict {
            Some(Err(_)) => Err(InteractionError::NotInteractive(prompt_type, prompt)),
            _ => Ok(d),
        },
        None => Err(InteractionError::NotInteractive(prompt_type, prompt)),
    }
}

impl<T: Clone> PseudoInteractive<T> {
    pub fn new(prompt_type: PromptType) -> (r: Self)
        ensures
            r.prompt_type == prompt_type,
            r.prompt is None,
            r.default is None,
            r.items@.len() == 0,
            r.validator is None,
            r.confirmation is None,
            !r.allow_empty,
            r.initial_value is None,
    {
        PseudoInteractive {
            prompt_type,
            prompt: None,
            default: None,
            items: Vec::new(),
            validator: None,
            confirmation: None,
            allow_empty: false,
            initial_value: None,
        }
    }

    pub fn set_prompt(&mut self, prompt: String)
        ensures
            *final(self) == (PseudoInteractive { prompt: Some(prompt), ..*old(self) }),
    {
        self.prompt = Some(prompt);
    }

    /// Answers with the initial value, or else the default value, if there
    /// is one and the validator (if any) accepts it; otherwise fails, with
    /// the kind and the text of the prompt.
    pub fn interact(&mut self) -> (r: Result<T, InteractionError>)
        ensures
            *final(self) == *old(self),
            pseudo_answer(*old(self)) is None ==> not_interactive(r, old(self).prompt_type, prompt_text(old(self).prompt)),
            pseudo_answer(*old(self)) is Some && old(self).validator is None ==> (r matches Ok(x) && cloned(pseudo_answer(*old(self)).unwrap(), x)),
            pseudo_answer(*old(self)) is Some && old(self).validator is Some ==> (r matches Ok(x) && cloned(pseudo_answer(*old(self)).unwrap(), x))
                || not_interactive(r, old(self).prompt_type, prompt_text(old(self).prompt)),
    {
        let prompt = match &self.prompt {
            Some(p) => p.clone(),
            None => String::from_str("[NO PROMPT SET]"),
        };
        let default = match &self.initial_value {
            Some(v) => Some(v.clone()),
            None => match &self.default {
                Some(v) => Some(v.clone()),
                None => None,
            },
        };
        let verdict = match (&default, &self.validator) {
            (Some(d), Some(v)) => Some(v.validate(d)),
            _ => None,
        };
        pseudo_outcome(self.prompt_type, prompt, default, verdict)
    }

    pub fn set_default(&mut self, value: T)
        ensures
            *final(self) == (PseudoInteractive { default: Some(value), ..*old(self) }),
    {
        self.default = Some(value);
    }

    pub fn add_items(&mut self, items: &[String])
        ensures
            final(self).items@.len() == old(self).items@.len() + items@.len(),
            forall|i: int| 0 <= i < old(self).items@.len() ==> #[trigger] final(self).items@[i] == old(self).items@[i],
            forall|i: int| 0 <= i < items@.len() ==> (#[trigger] final(self).items@[old(self).items@.len() + i])@ == items@[i]@,
            final(self).prompt_type == old(self).prompt_type,
            final(self).prompt == old(self).prompt,
            final(self).default == old(self).default,
            final(self).initial_value == old(self).initial_value,
            final(self).validator == old(self).validator,
            final(self).confirmation == old(self).confirmation,
            final(self).allow_empty == old(self).allow_empty,
    {
        let n = self.items.len();
        let mut i: usize = 0;
        while i < items.len()
            invariant
                0 <= i <= items@.len(),
                n == old(self).items@.len(),
                self.items@.len() == n + i,
                forall|j: int| 0 <= j < n ==> #[trigger] self.items@[j] == old(self).items@[j],
                forall|j: int| 0 <= j < i ==> (#[trigger] self.items@[n + j])@ == items@[j]@,
                self.prompt_type == old(self).prompt_type,
                self.prompt == old(self).prompt,
                self.default == old(self).default,
                self.initial_value == old(self).initial_value,
                self.validator == old(self).validator,
                self.confirmation == old(self).confirmation,
                self.allow_empty == old(self).allow_empty,
            decreases items.len() - i,
        {
            self.items.push(items[i].clone());
            i = i + 1;
        }
    }

    pub fn allow_empty(&mut self, empty: bool)
        ensures
            *final(self) == (PseudoInteractive { allow_empty: empty, ..*old(self) }),
    {
        self.allow_empty = empty;
    }

    pub fn set_validator(&mut self, validator: Box<dyn Validator<T>>)
        ensures
            *final(self) == (PseudoInteractive { validator: Some(validator), ..*old(self) }),
    {
        self.validator = Some(validator);
    }

    pub fn set_confirmation(&mut self, confirm_prompt: String, mismatch_err: String)
        ensures
            *final(self) == (PseudoInteractive { confirmation: Some((confirm_prompt, mismatch_err)), ..*old(self) }),
    {
        self.confirmation = Some((confirm_prompt, mismatch_err));
    }

    pub fn set_inital_text(&mut self, text: T)
        ensures
            *final(self) == (PseudoInteractive { initial_value: Some(text), ..*old(self) }),
    {
        self.initial_value = Some(text);
    }
}

impl<T: Clone> BasePrompt<T> for PseudoInteractive<T> {
    fn set_prompt(&mut self, prompt: String)
        ensures
            *final(self) == (PseudoInteractive { prompt: Some(prompt), ..*old(self) }),
    {
        PseudoInteractive::set_prompt(self, prompt)
    }

    fn interact(&mut self) -> (r: Result<T, InteractionError>)
        ensures
            *final(self) == *old(self),
            pseudo_answer(*old(self)) is None ==> not_interactive(r, old(self).prompt_type, prompt_text(old(self).prompt)),
            pseudo_answer(*old(self)) is Some && old(self).validator is None ==> (r matches Ok(x) && cloned(pseudo_answer(*old(self)).unwrap(), x)),
            pseudo_answer(*old(self)) is Some && old(self).validator is Some ==> (r matches Ok(x) && cloned(pseudo_answer(*old(self)).unwrap(), x))
                || not_interactive(r, old(self).prompt_type, prompt_text(old(self).prompt)),
    {
        PseudoInteractive::interact(self)
    }
}

impl<T: Clone> DefaultPrompt<T> for PseudoInteractive<T> {
    fn set_default(&mut self, value: T)
        ensures
            *final(self) == (PseudoInteractive { default: Some(value), ..*old(self) }),
    {
        PseudoInteractive::set_default(self, value)
    }
}

impl<T: Clone> SelectionPrompt<T> for PseudoInteractive<T> {
    fn add_items(&mut self, items: &[String])
        ensures
            final(self).items@.len() == old(self).items@.len() + items@.len(),
            forall|i: int| 0 <= i < old(self).items@.len() ==> #[trigger] final(self).items@[i] == old(self).items@[i],
            forall|i: int| 0 <= i < items@.len() ==> (#[trigger] final(self).items@[old(self).items@.len() + i])@ == items@[i]@,
            final(self).prompt_type == old(self).prompt_type,
            final(self).prompt == old(self).prompt,
            final(self).default == old(self).default,
            final(self).initial_value == old(self).initial_value,
            final(self).validator == old(self).validator,
            final(self).confirmation == old(self).confirmation,
            final(self).allow_empty == old(self).allow_empty,
    {
        PseudoInteractive::add_items(self, items)
    }
}

impl<T: Clone> ValidationPrompt<T> for PseudoInteractive<T> {
    fn allow_empty(&mut self, empty: bool)
        ensures
            *final(self) == (PseudoInteractive { allow_empty: empty, ..*old(self) }),
    {
        PseudoInteractive::allow_empty(self, empty)
    }

    fn set_validator(&mut self, validator: Box<dyn Validator<T>>)
        ensures
            *final(self) == (PseudoInteractive { validator: Some(validator), ..*old(self) }),
    {
        self.validator = Some(validator);
    }
}

impl<T: Clone> PasswordPrompt<T> for PseudoInteractive<T> {
    fn set_confirmation(&mut self, confirm_prompt: String, mismatch_err: String)
        ensures
            *final(self) == (PseudoInteractive { confirmation: Some((confirm_prompt, mismatch_err)), ..*old(self) }),
    {
        PseudoInteractive::set_confirmation(self, confirm_prompt, mismatch_err)
    }
}

impl TextPrompt<String> for PseudoInteractive<String> {
    fn set_inital_text(&mut self, text: String)
        ensures
            *final(self) == (PseudoInteractive { initial_value: Some(text), ..*old(self) }),
    {
        PseudoInteractive::set_inital_text(self, text)
    }
}

/// Where a prompt asks: on a terminal, through `P`, or nowhere, answering
/// as a non-interactive prompt.
#[verifier::reject_recursive_types(T)]
enum Asker<T, P> {
    Terminal(P),
    Pseudo(PseudoInteractive<T>),
}

/// `q` is a non-interactive prompt of kind `t` with nothing set yet.
pub open spec fn fresh_pseudo<T>(q: PseudoInteractive<T>, t: PromptType) -> bool {
    &&& q.prompt_type == t
    &&& q.prompt is None
    &&& q.default is None
    &&& q.items@.len() == 0
    &&& q.validator is None
    &&& q.confirmation is None
    &&& !q.allow_empty
    &&& q.initial_value is None
}

/// What a non-interactive prompt `q` answers (see [PseudoInteractive::interact]).
pub open spec fn pseudo_answers<T: Clone>(q: PseudoInteractive<T>, r: Result<T, InteractionError>) -> bool {
    &&& pseudo_answer(q) is None ==> not_interactive(r, q.prompt_type, prompt_text(q.prompt))
    &&& pseudo_answer(q) is Some && q.validator is None ==> (r matches Ok(x) && cloned(pseudo_answer(q).unwrap(), x))
    &&& pseudo_answer(q) is Some && q.validator is Some ==> (r matches Ok(x) && cloned(pseudo_answer(q).unwrap(), x))
        || not_interactive(r, q.prompt_type, prompt_text(q.prompt))
}

/// `q2` is `q` with the prompt `text`.
pub open spec fn with_prompt_text<T>(q: PseudoInteractive<T>, q2: PseudoInteractive<T>, text: Seq<char>) -> bool {
    &&& q2 == (PseudoInteractive { prompt: q2.prompt, ..q })
    &&& q2.prompt matches Some(p) && p@ == text
}

/// A prompt that asks the user to select yes or no.
pub struct Confirm(Asker<bool, Box<dyn DefaultPrompt<bool>>>);

impl Confirm {
    /// The state of this prompt if it is non-interactive, `None` if it asks on a terminal.
    pub closed spec fn pseudo(&self) -> Option<PseudoInteractive<bool>> {
        match self.0 {
            Asker::Pseudo(q) => Some(q),
            Asker::Terminal(_) => None,
        }
    }

    /// Creates the prompt: `terminal` where the user can be asked on a
    /// terminal, a non-interactive prompt where no interaction is possible.
    /// Fails if the mode of interactivity is not set.
    pub fn new(cell: &ContextCell, terminal: Box<dyn DefaultPrompt<bool>>) -> (r: Result<Self, InteractionError>)
        ensures
            match cell.spec_value() {
                Some(InteractiveContext::NotInteractive) => r matches Ok(p) && p.pseudo() matches Some(q) && fresh_pseudo(q, PromptType::Confirm),
                Some(InteractiveContext::Terminal) => r matches Ok(p) && p.pseudo() is None,
                None => r matches Err(InteractionError::NoContext),
            },
    {
        match get_context(cell) {
            Ok(InteractiveContext::Terminal) => Ok(Confirm(Asker::Terminal(terminal))),
            Ok(InteractiveContext::NotInteractive) => Ok(Confirm(Asker::Pseudo(PseudoInteractive::<bool>::new(PromptType::Confirm)))),
            Err(e) => Err(e),
        }
    }

    /// Sets the prompt.
    pub fn set_prompt(&mut self, prompt: String)
        ensures
            match old(self).pseudo() {
                Some(q) => final(self).pseudo() == Some(PseudoInteractive { prompt: Some(prompt), ..q }),
                None => final(self).pseudo() is None,
            },
    {
        match &mut self.0 {
            Asker::Terminal(t) => t.set_prompt(prompt),
            Asker::Pseudo(q) => q.set_prompt(prompt),
        }
    }

    /// Sets the prompt, and gives the prompt back.
    pub fn with_prompt(&mut self, prompt: &str) -> (r: &mut Self)
        ensures
            match old(self).pseudo() {
                Some(q) => r.pseudo() matches Some(q2) && with_prompt_text(q, q2, prompt@),
                None => r.pseudo() is None,
            },
            *final(self) == *final(r),
    {
        self.set_prompt(String::from_str(prompt));
        self
    }

    /// Presents the prompt to the user (answers as a non-interactive prompt
    /// where no interaction is possible).
    pub fn interact(&mut self) -> (r: Result<bool, InteractionError>)
        ensures
            match old(self).pseudo() {
                Some(q) => final(self).pseudo() == Some(q) && pseudo_answers(q, r),
                None => final(self).pseudo() is None,
            },
    {
        match &mut self.0 {
            Asker::Terminal(t) => t.interact(),
            Asker::Pseudo(q) => q.interact(),
        }
    }

    /// Sets the value used when the user gives none.
    pub fn set_default(&mut self, value: bool)
        ensures
            match old(self).pseudo() {
                Some(q) => final(self).pseudo() == Some(PseudoInteractive { default: Some(value), ..q }),
                None => final(self).pseudo() is None,
            },
    {
        match &mut self.0 {
            Asker::Terminal(t) => t.set_default(value),
            Asker::Pseudo(q) => q.set_default(value),
        }
    }

    /// Sets the default value, and gives the prompt back.
    pub fn with_default(&mut self, value: bool) -> (r: &mut Self)
        ensures
            match old(self).pseudo() {
                Some(q) => r.pseudo() == Some(PseudoInteractive { default: Some(value), ..q }),
                None => r.pseudo() is None,
            },
            *final(self) == *final(r),
    {
        self.set_default(value);
        self
    }
}

/// A prompt that asks the user to choose from a list of items.
pub struct Select(Asker<usize, Box<dyn SelectionPrompt<usize>>>);

impl Select {
    /// The state of this prompt if it is non-interactive, `None` if it asks on a terminal.
    pub closed spec fn pseudo(&self) -> Option<PseudoInteractive<usize>> {
        match self.0 {
            Asker::Pseudo(q) => Some(q),
            Asker::Terminal(_) => None,
        }
    }

    /// Creates the prompt: `terminal` where the user can be asked on a
    /// terminal, a non-interactive prompt where no interaction is possible.
    /// Fails if the mode of interactivity is not set.
    pub fn new(cell: &ContextCell, terminal: Box<dyn SelectionPrompt<usize>>) -> (r: Result<Self, InteractionError>)
        ensures
            match cell.spec_value() {
                Some(InteractiveContext::NotInteractive) => r matches Ok(p) && p.pseudo() matches Some(q) && fresh_pseudo(q, PromptType::Select),
                Some(InteractiveContext::Terminal) => r matches Ok(p) && p.pseudo() is None,
                None => r matches Err(InteractionError::NoContext),
            },
    {
        match get_context(cell) {
            Ok(InteractiveContext::Terminal) => Ok(Select(Asker::Terminal(terminal))),
            Ok(InteractiveContext::NotInteractive) => Ok(Select(Asker::Pseudo(PseudoInteractive::<usize>::new(PromptType::Select)))),
            Err(e) => Err(e),
        }
    }

    /// Sets the prompt.
    pub fn set_prompt(&mut self, prompt: String)
        ensures
            match old(self).pseudo() {
                Some(q) => final(self).pseudo() == Some(PseudoInteractive { prompt: Some(prompt), ..q }),
                None => final(self).pseudo() is None,
            },
    {
        match &mut self.0 {
            Asker::Terminal(t) => t.set_prompt(prompt),
            Asker::Pseudo(q) => q.set_prompt(prompt),
        }
    }

    /// Sets the prompt, and gives the prompt back.
    pub fn with_prompt(&mut self, prompt: &str) -> (r: &mut Self)
        ensures
            match old(self).pseudo() {
                Some(q) => r.pseudo() matches Some(q2) && with_prompt_text(q, q2, prompt@),
                None => r.pseudo() is None,
            },
            *final(self) == *final(r),
    {
        self.set_prompt(String::from_str(prompt));
        self
    }

    /// Presents the prompt to the user (answers as a non-interactive prompt
    /// where no interaction is possible).
    pub fn interact(&mut self) -> (r: Result<usize, InteractionError>)
        ensures
            match old(self).pseudo() {
                Some(q) => final(self).pseudo() == Some(q) && pseudo_answers(q, r),
                None => final(self).pseudo() is None,
            },
    {
        match &mut self.0 {
            Asker::Terminal(t) => t.interact(),
            Asker::Pseudo(q) => q.interact(),
        }
    }

    /// Sets the value used when the user gives none.
    pub fn set_default(&mut self, value: usize)
        ensures
            match old(self).pseudo() {
                Some(q) => final(self).pseudo() == Some(PseudoInteractive { default: Some(value), ..q }),
                None => final(self).pseudo() is None,
            },
    {
        match &mut self.0 {
            Asker::Terminal(t) => t.set_default(value),
            Asker::Pseudo(q) => q.set_default(value),
        }
    }

    /// Sets the default value, and gives the prompt back.
    pub fn with_default(&mut self, value: usize) -> (r: &mut Self)
        ensures
            match old(self).pseudo() {
                Some(q) => r.pseudo() == Some(PseudoInteractive { default: Some(value), ..q }),
                None => r.pseudo() is None,
            },
            *final(self) == *final(r),
    {
        self.set_default(value);
        self
    }

    /// Adds items to choose from.
    pub fn add_items(&mut self, items: &[String])
        ensures
            match old(self).pseudo() {
                Some(q) => final(self).pseudo() matches Some(q2) && with_items_of(q, q2, items@),
                None => final(self).pseudo() is None,
            },
    {
        match &mut self.0 {
            Asker::Terminal(t) => t.add_items(items),
            Asker::Pseudo(q) => q.add_items(items),
        }
    }

    /// Adds items to choose from, and gives the prompt back.
    pub fn with_items(&mut self, items: &[String]) -> (r: &mut Self)
        ensures
            match old(self).pseudo() {
                Some(q) => r.pseudo() matches Some(q2) && with_items_of(q, q2, items@),
                None => r.pseudo() is None,
            },
            *final(self) == *final(r),
    {
        self.add_items(items);
        self
    }
}

/// `q2` is `q` with a validator.
pub open spec fn with_some_validator<T>(q: PseudoInteractive<T>, q2: PseudoInteractive<T>) -> bool {
    q2 == (PseudoInteractive { validator: q2.validator, ..q }) && q2.validator is Some
}

/// `q2` is `q` with the validator `v`.
pub open spec fn with_validator_set<T>(q: PseudoInteractive<T>, q2: PseudoInteractive<T>, v: Box<dyn Validator<T>>) -> bool {
    q2 == (PseudoInteractive { validator: Some(v), ..q })
}

/// `q2` is `q` with the items `items` added after its own.
pub open spec fn with_items_of<T>(q: PseudoInteractive<T>, q2: PseudoInteractive<T>, items: Seq<String>) -> bool {
    &&& q2 == (PseudoInteractive { items: q2.items, ..q })
    &&& q2.items@.len() == q.items@.len() + items.len()
    &&& forall|i: int| 0 <= i < q.items@.len() ==> #[trigger] q2.items@[i] == q.items@[i]
    &&& forall|i: int| 0 <= i < items.len() ==> (#[trigger] q2.items@[q.items@.len() + i])@ == items[i]@
}

/// A prompt that asks the user to enter text.
pub struct Input(Asker<String, Box<dyn TextPrompt<String>>>);

impl Input {
    /// The state of this prompt if it is non-interactive, `None` if it asks on a terminal.
    pub closed spec fn pseudo(&self) -> Option<PseudoInteractive<String>> {
        match self.0 {
            Asker::Pseudo(q) => Some(q),
            Asker::Terminal(_) => None,
        }
    }

    /// Creates the prompt: `terminal` where the user can be asked on a
    /// terminal, a non-interactive prompt where no interaction is possible.
    /// Fails if the mode of interactivity is not set.
    pub fn new(cell: &ContextCell, terminal: Box<dyn TextPrompt<String>>) -> (r: Result<Self, InteractionError>)
        ensures
            match cell.spec_value() {
                Some(InteractiveContext::NotInteractive) => r matches Ok(p) && p.pseudo() matches Some(q) && fresh_pseudo(q, PromptType::Input),
                Some(InteractiveContext::Terminal) => r matches Ok(p) && p.pseudo() is None,
                None => r matches Err(InteractionError::NoContext),
            },
    {
        match get_context(cell) {
            Ok(InteractiveContext::Terminal) => Ok(Input(Asker::Terminal(terminal))),
            Ok(InteractiveContext::NotInteractive) => Ok(Input(Asker::Pseudo(PseudoInteractive::<String>::new(PromptType::Input)))),
            Err(e) => Err(e),
        }
    }

    /// Sets the prompt.
    pub fn set_prompt(&mut self, prompt: String)
        ensures
            match old(self).pseudo() {
                Some(q) => final(self).pseudo() == Some(PseudoInteractive { prompt: Some(prompt), ..q }),
                None => final(self).pseudo() is None,
            },
    {
        match &mut self.0 {
            Asker::Terminal(t) => t.set_prompt(prompt),
            Asker::Pseudo(q) => q.set_prompt(prompt),
        }
    }

    /// Sets the prompt, and gives the prompt back.
    pub fn with_prompt(&mut self, prompt: &str) -> (r: &mut Self)
        ensures
            match old(self).pseudo() {
                Some(q) => r.pseudo() matches Some(q2) && with_prompt_text(q, q2, prompt@),
                None => r.pseudo() is None,
            },
            *final(self) == *final(r),
    {
        self.set_prompt(String::from_str(prompt));
        self
    }

    /// Presents the prompt to the user (answers as a non-interactive prompt
    /// where no interaction is possible).
    pub fn interact(&mut self) -> (r: Result<String, InteractionError>)
        ensures
            match old(self).pseudo() {
                Some(q) => final(self).pseudo() == Some(q) && pseudo_answers(q, r),
                None => final(self).pseudo() is None,
            },
    {
        match &mut self.0 {
            Asker::Terminal(t) => t.interact(),
            Asker::Pseudo(q) => q.interact(),
        }
    }

    /// Sets the value used when the user gives none.
    pub fn set_default(&mut self, value: String)
        ensures
            match old(self).pseudo() {
                Some(q) => final(self).pseudo() == Some(PseudoInteractive { default: Some(value), ..q }),
                None => final(self).pseudo() is None,
            },
    {
        match &mut self.0 {
            Asker::Terminal(t) => t.set_default(value),
            Asker::Pseudo(q) => q.set_default(value),
        }
    }

    /// Sets the default value, and gives the prompt back.
    pub fn with_default(&mut self, value: String) -> (r: &mut Self)
        ensures
            match old(self).pseudo() {
                Some(q) => r.pseudo() == Some(PseudoInteractive { default: Some(value), ..q }),
                None => r.pseudo() is None,
            },
            *final(self) == *final(r),
    {
        self.set_default(value);
        self
    }

    /// Sets whether no input is a valid input (by default, it is not).
    pub fn set_allow_empty(&mut self, empty: bool)
        ensures
            match old(self).pseudo() {
                Some(q) => final(self).pseudo() == Some(PseudoInteractive { allow_empty: empty, ..q }),
                None => final(self).pseudo() is None,
            },
    {
        match &mut self.0 {
            Asker::Terminal(t) => t.allow_empty(empty),
            Asker::Pseudo(q) => q.allow_empty(empty),
        }
    }

    /// Sets whether no input is valid, and gives the prompt back.
    pub fn with_allow_empty(&mut self, empty: bool) -> (r: &mut Self)
        ensures
            match old(self).pseudo() {
                Some(q) => r.pseudo() == Some(PseudoInteractive { allow_empty: empty, ..q }),
                None => r.pseudo() is None,
            },
            *final(self) == *final(r),
    {
        self.set_allow_empty(empty);
        self
    }

    /// Sets the check that input must pass: on failure, its message is shown.
    pub fn set_validator(&mut self, validator: Box<dyn Validator<String>>)
        ensures
            match old(self).pseudo() {
                Some(q) => final(self).pseudo() matches Some(q2) && with_validator_set(q, q2, validator),
                None => final(self).pseudo() is None,
            },
    {
        match &mut self.0 {
            Asker::Terminal(t) => t.set_validator(validator),
            Asker::Pseudo(q) => q.set_validator(validator),
        }
    }

    /// Sets the check of the input, and gives the prompt back.
    pub fn with_validator(&mut self, validator: Box<dyn Validator<String>>) -> (r: &mut Self)
        ensures
            match old(self).pseudo() {
                Some(q) => r.pseudo() matches Some(q2) && with_some_validator(q, q2),
                None => r.pseudo() is None,
            },
            *final(self) == *final(r),
    {
        self.set_validator(validator);
        self
    }

    /// Sets the text the input starts with.
    pub fn set_inital_text(&mut self, text: &str)
        ensures
            match old(self).pseudo() {
                Some(q) => final(self).pseudo() matches Some(q2) && with_initial_text_of(q, q2, text@),
                None => final(self).pseudo() is None,
            },
    {
        match &mut self.0 {
            Asker::Terminal(t) => t.set_inital_text(String::from_str(text)),
            Asker::Pseudo(q) => q.set_inital_text(String::from_str(text)),
        }
    }

    /// Sets the initial text, and gives the prompt back.
    pub fn with_initial_text(&mut self, text: &str) -> (r: &mut Self)
        ensures
            match old(self).pseudo() {
                Some(q) => r.pseudo() matches Some(q2) && with_initial_text_of(q, q2, text@),
                None => r.pseudo() is None,
            },
            *final(self) == *final(r),
    {
        self.set_inital_text(text);
        self
    }
}

/// `q2` is `q` with the initial text `text`.
pub open spec fn with_initial_text_of(q: PseudoInteractive<String>, q2: PseudoInteractive<String>, text: Seq<char>) -> bool {
    &&& q2 == (PseudoInteractive { initial_value: q2.initial_value, ..q })
    &&& q2.initial_value matches Some(t) && t@ == text
}

/// A prompt that asks the user to enter a password.
pub struct Password(Asker<String, Box<dyn PasswordPrompt<String>>>);

impl Password {
    /// The state of this prompt if it is non-interactive, `None` if it asks on a terminal.
    pub closed spec fn pseudo(&self) -> Option<PseudoInteractive<String>> {
        match self.0 {
            Asker::Pseudo(q) => Some(q),
            Asker::Terminal(_) => None,
        }
    }

    /// Creates the prompt: `terminal` where the user can be asked on a
    /// terminal, a non-interactive prompt where no interaction is possible.
    /// Fails if the mode of interactivity is not set.
    pub fn new(cell: &ContextCell, terminal: Box<dyn PasswordPrompt<String>>) -> (r: Result<Self, InteractionError>)
        ensures
            match cell.spec_value() {
                Some(InteractiveContext::NotInteractive) => r matches Ok(p) && p.pseudo() matches Some(q) && fresh_pseudo(q, PromptType::Password),
                Some(InteractiveContext::Terminal) => r matches Ok(p) && p.pseudo() is None,
                None => r matches Err(InteractionError::NoContext),
            },
    {
        match get_context(cell) {
            Ok(InteractiveContext::Terminal) => Ok(Password(Asker::Terminal(terminal))),
            Ok(InteractiveContext::NotInteractive) => Ok(Password(Asker::Pseudo(PseudoInteractive::<String>::new(PromptType::Password)))),
            Err(e) => Err(e),
        }
    }

    /// Sets the prompt.
    pub fn set_prompt(&mut self, prompt: String)
        ensures
            match old(self).pseudo() {
                Some(q) => final(self).pseudo() == Some(PseudoInteractive { prompt: Some(prompt), ..q }),
                None => final(self).pseudo() is None,
            },
    {
        match &mut self.0 {
            Asker::Terminal(t) => t.set_prompt(prompt),
            Asker::Pseudo(q) => q.set_prompt(prompt),
        }
    }

    /// Sets the prompt, and gives the prompt back.
    pub fn with_prompt(&mut self, prompt: &str) -> (r: &mut Self)
        ensures
            match old(self).pseudo() {
                Some(q) => r.pseudo() matches Some(q2) && with_prompt_text(q, q2, prompt@),
                None => r.pseudo() is None,
            },
            *final(self) == *final(r),
    {
        self.set_prompt(String::from_str(prompt));
        self
    }

    /// Presents the prompt to the user (answers as a non-interactive prompt
    /// where no interaction is possible).
    pub fn interact(&mut self) -> (r: Result<String, InteractionError>)
        ensures
            match old(self).pseudo() {
                Some(q) => final(self).pseudo() == Some(q) && pseudo_answers(q, r),
                None => final(self).pseudo() is None,
            },
    {
        match &mut self.0 {
            Asker::Terminal(t) => t.interact(),
            Asker::Pseudo(q) => q.interact(),
        }
    }

    /// Sets whether no input is a valid input (by default, it is not).
    pub fn set_allow_empty(&mut self, empty: bool)
        ensures
            match old(self).pseudo() {
                Some(q) => final(self).pseudo() == Some(PseudoInteractive { allow_empty: empty, ..q }),
                None => final(self).pseudo() is None,
            },
    {
        match &mut self.0 {
            Asker::Terminal(t) => t.allow_empty(empty),
            Asker::Pseudo(q) => q.allow_empty(empty),
        }
    }

    /// Sets whether no input is valid, and gives the prompt back.
    pub fn with_allow_empty(&mut self, empty: bool) -> (r: &mut Self)
        ensures
            match old(self).pseudo() {
                Some(q) => r.pseudo() == Some(PseudoInteractive { allow_empty: empty, ..q }),
                None => r.pseudo() is None,
            },
            *final(self) == *final(r),
    {
        self.set_allow_empty(empty);
        self
    }

    /// Sets the check that input must pass: on failure, its message is shown.
    pub fn set_validator(&mut self, validator: Box<dyn Validator<String>>)
        ensures
            match old(self).pseudo() {
                Some(q) => final(self).pseudo() matches Some(q2) && with_validator_set(q, q2, validator),
                None => final(self).pseudo() is None,
            },
    {
        match &mut self.0 {
            Asker::Terminal(t) => t.set_validator(validator),
            Asker::Pseudo(q) => q.set_validator(validator),
        }
    }

    /// Sets the check of the input, and gives the prompt back.
    pub fn with_validator(&mut self, validator: Box<dyn Validator<String>>) -> (r: &mut Self)
        ensures
            match old(self).pseudo() {
                Some(q) => r.pseudo() matches Some(q2) && with_some_validator(q, q2),
                None => r.pseudo() is None,
            },
            *final(self) == *final(r),
    {
        self.set_validator(validator);
        self
    }

    /// Asks the user to confirm the password, with this prompt and this error message.
    pub fn set_confirmation(&mut self, confirm_prompt: &str, mismatch_err: &str)
        ensures
            match old(self).pseudo() {
                Some(q) => final(self).pseudo() matches Some(q2) && with_confirmation_of(q, q2, confirm_prompt@, mismatch_err@),
                None => final(self).pseudo() is None,
            },
    {
        match &mut self.0 {
            Asker::Terminal(t) => t.set_confirmation(String::from_str(confirm_prompt), String::from_str(mismatch_err)),
            Asker::Pseudo(q) => q.set_confirmation(String::from_str(confirm_prompt), String::from_str(mismatch_err)),
        }
    }

    /// Asks for a confirmation of the password, and gives the prompt back.
    pub fn with_confirmation(&mut self, confirm_prompt: &str, mismatch_err: &str) -> (r: &mut Self)
        ensures
            match old(self).pseudo() {
                Some(q) => r.pseudo() matches Some(q2) && with_confirmation_of(q, q2, confirm_prompt@, mismatch_err@),
                None => r.pseudo() is None,
            },
            *final(self) == *final(r),
    {
        self.set_confirmation(confirm_prompt, mismatch_err);
        self
    }
}

/// `q2` is `q` asking for a confirmation with the prompt `p` and the error message `m`.
pub open spec fn with_confirmation_of(q: PseudoInteractive<String>, q2: PseudoInteractive<String>, p: Seq<char>, m: Seq<char>) -> bool {
    &&& q2 == (PseudoInteractive { confirmation: q2.confirmation, ..q })
    &&& q2.confirmation matches Some(c) && c.0@ == p && c.1@ == m
}

/// A progress bar that code advances.
pub trait ProgressBarTrait {
    fn inc(&self, delta: u64);

    fn finish(&self);
}

/// An animation showing activity.
pub trait SpinnerTrait {
    fn finish(&self);
}

/// A progress bar, drawn by `bar`.
pub struct ProgressBar(Box<dyn ProgressBarTrait>);

/// An animated indicator of activity, drawn by `spinner`.
pub struct Spinner(Box<dyn SpinnerTrait>);

impl ProgressBar {
    /// Creates the progress bar. Fails if the mode of interactivity is not set.
    pub fn new(cell: &ContextCell, bar: Box<dyn ProgressBarTrait>) -> (r: Result<ProgressBar, InteractionError>)
        ensures
            r is Ok <==> cell.spec_value() is Some,
            cell.spec_value() is None ==> (r matches Err(InteractionError::NoContext)),
    {
        match get_context(cell) {
            Ok(_) => Ok(ProgressBar(bar)),
            Err(e) => Err(e),
        }
    }

    /// Advances the bar by `delta`.
    pub fn inc(&self, delta: u64) {
        self.0.inc(delta);
    }

    /// Finishes the bar.
    pub fn finish(&self) {
        self.0.finish()
    }
}

impl Spinner {
    /// Creates the spinner. Fails if the mode of interactivity is not set.
    pub fn new(cell: &ContextCell, spinner: Box<dyn SpinnerTrait>) -> (r: Result<Spinner, InteractionError>)
        ensures
            r is Ok <==> cell.spec_value() is Some,
            cell.spec_value() is None ==> (r matches Err(InteractionError::NoContext)),
    {
        match get_context(cell) {
            Ok(_) => Ok(Spinner(spinner)),
            Err(e) => Err(e),
        }
    }

    /// Finishes the spinner.
    pub fn finish(&self) {
        self.0.finish();
    }
}

} // verus!
