//! The decisions of the identity command, as a machine that goes from a
//! state and an event to the next state and an action. The caller performs
//! each action (files, prompts, the key server) and reports what came of it
//! as the next event.
use vstd::prelude::*;

verus! {

/// The subcommands of the identity command, with the arguments that the
/// decisions read.
#[derive(Clone, Debug)]
pub enum IdentitySubCommand {
    /// Create a new identity, under `name` where one is given.
    New { name: Option<String>, no_link: bool },
    /// Repair the identities on disk.
    Repair,
    /// Prove an identity to a server.
    Prove { identity_name: Option<String>, server: Option<String> },
    /// Print the identities on disk.
    List,
    /// Edit an existing identity.
    Edit { old_name: Option<String>, no_link: bool },
    /// Remove an existing identity.
    Remove { identity_name: Option<String>, no_confirm: bool },
}

/// The identity command.
#[derive(Clone, Debug)]
pub struct IdentityArgs {
    pub subcmd: IdentitySubCommand,
    /// Do not verify the server's certificates.
    pub no_cert_check: bool,
}

/// Where the command stands between two actions.
#[derive(Clone, Debug)]
pub enum IdentityState {
    Start,
    /// Waiting to learn whether the new name is taken.
    CheckingName(String),
    /// Waiting for the new identity to be created.
    Creating,
    /// Waiting for the proof of the identity `name`; its failure only warns.
    ProvingLeniently(String),
    /// Waiting for the user to choose an identity.
    Choosing,
    /// Waiting for the identity `name` to be loaded.
    Loading(String),
    /// Waiting for the proof that the command asked for.
    Proving,
    /// Waiting for the number of identities on disk.
    Counting,
    /// Waiting for the identities to be printed.
    Printing,
    /// Waiting for the notice that `name` is being edited to be printed.
    EditAnnounced(String),
    /// Waiting for the identity to be edited.
    Editing,
    /// Waiting for the notice of removal of `name` to be printed.
    Announced { name: String, encrypted: bool },
    /// Waiting for the user's confirmation of the removal of `name`.
    Confirming { name: String, encrypted: bool },
    /// Waiting for the directory of `name` to be removed.
    Removing { name: String, encrypted: bool },
    /// Waiting for the notice that `name` was removed to be printed.
    Removed { name: String, encrypted: bool },
    /// Waiting for the stored password of `name` to be deleted.
    DeletingPassword,
    /// Waiting for a last notice to be printed.
    Closing,
    /// Waiting for the repair of the identities.
    Repairing,
    /// The command is over.
    Finished,
}

/// What came of the last action.
#[derive(Clone, Debug)]
pub enum IdentityEvent {
    /// The command begins.
    Start,
    /// The action was performed.
    Done,
    /// The action failed, with this message.
    Failed(String),
    /// Whether an identity of the new name already exists.
    NameTaken(bool),
    /// The user chose the identity `name`.
    Chosen(String),
    /// The number of identities on disk.
    Count(usize),
    /// The identity was loaded; whether its secret key is encrypted.
    Loaded { encrypted: bool },
    /// The new identity was created under `name`.
    Created(String),
    /// The identity was edited into `name`; whether its secret key or its
    /// author changed.
    Edited { name: String, relink: bool },
    /// The user's answer to the confirmation.
    Answer(bool),
}

/// The notices that the command prints.
#[derive(Clone, Debug)]
pub enum IdentityNotice {
    /// No identity is on disk, and how to create or repair one.
    NoIdentitiesFound,
    /// Removal was asked for, but no identity is on disk.
    NoIdentitiesToRemove,
    /// The identity `name` is being edited.
    Editing(String),
    /// The identity `name` is about to be removed.
    Removing(String),
    /// The identity was removed.
    IdentityRemoved,
    /// The identity `name` was proved to the server.
    Proved(String),
    /// The identity `name` could not be proved; it stays on disk.
    CouldNotProve(String),
    /// The stored password could not be deleted, for this reason.
    UnableToDeletePassword(String),
}

/// Why the command failed.
#[derive(Clone, Debug)]
pub enum IdentityFailure {
    /// An outside action failed with this message.
    Outside(String),
    /// The new identity would have an empty name.
    EmptyName,
    /// An identity of the new name already exists.
    NameExists,
    /// The user declined the removal.
    Declined,
    /// An event came that the state does not wait for.
    Unexpected,
}

/// What the caller does next.
#[derive(Debug)]
pub enum IdentityAction {
    /// Tell whether an identity named so exists (event `NameTaken`).
    CheckName(String),
    /// Create the new identity from the arguments, under `name` where it is
    /// given, linking its keys to the server where `link` (event `Created`).
    Create { name: Option<String>, link: bool },
    /// Prove the identity `name` to `server` (or its own), checking
    /// certificates unless `no_cert_check` (event `Done` or `Failed`).
    Prove { name: String, server: Option<String>, no_cert_check: bool },
    /// Repair the identities on disk (event `Done`).
    Repair,
    /// Let the user choose an identity (event `Chosen`).
    ChooseName,
    /// Count the identities on disk (event `Count`).
    CountIdentities,
    /// Load the identity `name` (event `Loaded`).
    Load(String),
    /// Print the tree of the identities on disk (event `Done`).
    PrintTree,
    /// Edit the identity `name`, by the arguments or by prompts, linking
    /// its keys where `link` (event `Edited`).
    Edit { name: String, link: bool },
    /// Print the notice (event `Done`).
    Say(IdentityNotice),
    /// Ask the user to confirm, `false` being the default (event `Answer`).
    Confirm,
    /// Remove the directory of the identity `name` (event `Done`).
    RemoveDir(String),
    /// Delete the stored password of `name` (event `Done` or `Failed`).
    DeletePassword(String),
    /// The command ends with this result.
    Finish(Result<(), IdentityFailure>),
}

/// The first action of `cmd`.
pub open spec fn start_spec(cmd: IdentityArgs) -> (IdentityState, IdentityAction) {
    match cmd.subcmd {
        IdentitySubCommand::New { name, no_link } => match name {
            Some(n) => if n@.len() == 0 {
                (IdentityState::Finished, IdentityAction::Finish(Err(IdentityFailure::EmptyName)))
            } else {
                (IdentityState::CheckingName(n), IdentityAction::CheckName(n))
            },
            None => (IdentityState::Creating, IdentityAction::Create { name: None, link: !no_link }),
        },
        IdentitySubCommand::Repair => (IdentityState::Repairing, IdentityAction::Repair),
        IdentitySubCommand::Prove { identity_name, server } => match identity_name {
            Some(n) => (IdentityState::Loading(n), IdentityAction::Load(n)),
            None => (IdentityState::Choosing, IdentityAction::ChooseName),
        },
        IdentitySubCommand::List => (IdentityState::Counting, IdentityAction::CountIdentities),
        IdentitySubCommand::Edit { old_name, no_link } => match old_name {
            Some(n) => (IdentityState::EditAnnounced(n), IdentityAction::Say(IdentityNotice::Editing(n))),
            None => (IdentityState::Choosing, IdentityAction::ChooseName),
        },
        IdentitySubCommand::Remove { identity_name, no_confirm } => (IdentityState::Counting, IdentityAction::CountIdentities),
    }
}

/// The next state and action of `cmd` once the identity `name` is chosen
/// or given.
pub open spec fn named_spec(cmd: IdentityArgs, name: String) -> (IdentityState, IdentityAction) {
    match cmd.subcmd {
        IdentitySubCommand::Edit { .. } => (IdentityState::EditAnnounced(name), IdentityAction::Say(IdentityNotice::Editing(name))),
        _ => (IdentityState::Loading(name), IdentityAction::Load(name)),
    }
}

/// The end of the command with `result`.
pub open spec fn finish(result: Result<(), IdentityFailure>) -> (IdentityState, IdentityAction) {
    (IdentityState::Finished, IdentityAction::Finish(result))
}

/// The next state and action of the identity command `cmd`, in `state`,
/// on `event`.
pub open spec fn identity_step_spec(cmd: IdentityArgs, state: IdentityState, event: IdentityEvent) -> (IdentityState, IdentityAction) {
    match (state, event) {
        (IdentityState::Start, IdentityEvent::Start) => start_spec(cmd),
        (IdentityState::ProvingLeniently(n), IdentityEvent::Done) => (IdentityState::Closing, IdentityAction::Say(IdentityNotice::Proved(n))),
        (IdentityState::ProvingLeniently(n), IdentityEvent::Failed(_)) => (IdentityState::Closing, IdentityAction::Say(IdentityNotice::CouldNotProve(n))),
        (IdentityState::DeletingPassword, IdentityEvent::Done) => finish(Ok(())),
        (IdentityState::DeletingPassword, IdentityEvent::Failed(m)) => (IdentityState::Closing, IdentityAction::Say(IdentityNotice::UnableToDeletePassword(m))),
        (_, IdentityEvent::Failed(m)) => finish(Err(IdentityFailure::Outside(m))),
        (IdentityState::CheckingName(n), IdentityEvent::NameTaken(taken)) => if taken {
            finish(Err(IdentityFailure::NameExists))
        } else {
            match cmd.subcmd {
                IdentitySubCommand::New { no_link, .. } => (IdentityState::Creating, IdentityAction::Create { name: Some(n), link: !no_link }),
                _ => finish(Err(IdentityFailure::Unexpected)),
            }
        },
        (IdentityState::Creating, IdentityEvent::Created(n)) => (IdentityState::ProvingLeniently(n), IdentityAction::Prove { name: n, server: None, no_cert_check: cmd.no_cert_check }),
        (IdentityState::Repairing, IdentityEvent::Done) => finish(Ok(())),
        (IdentityState::Choosing, IdentityEvent::Chosen(n)) => named_spec(cmd, n),
        (IdentityState::Loading(n), IdentityEvent::Loaded { encrypted }) => match cmd.subcmd {
            IdentitySubCommand::Prove { server, .. } => (IdentityState::Proving, IdentityAction::Prove { name: n, server: server, no_cert_check: cmd.no_cert_check }),
            IdentitySubCommand::Remove { .. } => (IdentityState::Announced { name: n, encrypted }, IdentityAction::Say(IdentityNotice::Removing(n))),
            _ => finish(Err(IdentityFailure::Unexpected)),
        },
        (IdentityState::Proving, IdentityEvent::Done) => finish(Ok(())),
        (IdentityState::Counting, IdentityEvent::Count(k)) => match cmd.subcmd {
            IdentitySubCommand::List => if k == 0 {
                (IdentityState::Closing, IdentityAction::Say(IdentityNotice::NoIdentitiesFound))
            } else {
                (IdentityState::Printing, IdentityAction::PrintTree)
            },
            IdentitySubCommand::Remove { identity_name, .. } => if k == 0 {
                (IdentityState::Closing, IdentityAction::Say(IdentityNotice::NoIdentitiesToRemove))
            } else {
                match identity_name {
                    Some(n) => (IdentityState::Loading(n), IdentityAction::Load(n)),
                    None => (IdentityState::Choosing, IdentityAction::ChooseName),
                }
            },
            _ => finish(Err(IdentityFailure::Unexpected)),
        },
        (IdentityState::Printing, IdentityEvent::Done) => finish(Ok(())),
        (IdentityState::EditAnnounced(n), IdentityEvent::Done) => match cmd.subcmd {
            IdentitySubCommand::Edit { no_link, .. } => (IdentityState::Editing, IdentityAction::Edit { name: n, link: !no_link }),
            _ => finish(Err(IdentityFailure::Unexpected)),
        },
        (IdentityState::Editing, IdentityEvent::Edited { name, relink }) => match cmd.subcmd {
            IdentitySubCommand::Edit { no_link, .. } => if !no_link && relink {
                (IdentityState::ProvingLeniently(name), IdentityAction::Prove { name: name, server: None, no_cert_check: cmd.no_cert_check })
            } else {
                finish(Ok(()))
            },
            _ => finish(Err(IdentityFailure::Unexpected)),
        },
        (IdentityState::Announced { name, encrypted }, IdentityEvent::Done) => match cmd.subcmd {
            IdentitySubCommand::Remove { no_confirm, .. } => if no_confirm {
                (IdentityState::Removing { name: name, encrypted }, IdentityAction::RemoveDir(name))
            } else {
                (IdentityState::Confirming { name: name, encrypted }, IdentityAction::Confirm)
            },
            _ => finish(Err(IdentityFailure::Unexpected)),
        },
        (IdentityState::Confirming { name, encrypted }, IdentityEvent::Answer(yes)) => if yes {
            (IdentityState::Removing { name: name, encrypted }, IdentityAction::RemoveDir(name))
        } else {
            finish(Err(IdentityFailure::Declined))
        },
        (IdentityState::Removing { name, encrypted }, IdentityEvent::Done) => (IdentityState::Removed { name: name, encrypted }, IdentityAction::Say(IdentityNotice::IdentityRemoved)),
        (IdentityState::Removed { name, encrypted }, IdentityEvent::Done) => if encrypted {
            (IdentityState::DeletingPassword, IdentityAction::DeletePassword(name))
        } else {
            finish(Ok(()))
        },
        (IdentityState::Closing, IdentityEvent::Done) => finish(Ok(())),
        _ => finish(Err(IdentityFailure::Unexpected)),
    }
}

fn clone_name(s: &String) -> (r: String)
    ensures
        r == *s,
{
    s.clone()
}

fn clone_opt_name(s: &Option<String>) -> (r: Option<String>)
    ensures
        r == *s,
{
    match s {
        Some(n) => Some(n.clone()),
        None => None,
    }
}

fn finish_with(result: Result<(), IdentityFailure>) -> (r: (IdentityState, IdentityAction))
    ensures
        r == finish(result),
{
    (IdentityState::Finished, IdentityAction::Finish(result))
}

/// The first action of `cmd`.
fn start(cmd: &IdentityArgs) -> (r: (IdentityState, IdentityAction))
    ensures
        r == start_spec(*cmd),
{
    match &cmd.subcmd {
        IdentitySubCommand::New { name, no_link } => match name {
            Some(n) => if n.unicode_len() == 0 {
                finish_with(Err(IdentityFailure::EmptyName))
            } else {
                (IdentityState::CheckingName(clone_name(n)), IdentityAction::CheckName(clone_name(n)))
            },
            None => (IdentityState::Creating, IdentityAction::Create { name: None, link: !*no_link }),
        },
        IdentitySubCommand::Repair => (IdentityState::Repairing, IdentityAction::Repair),
        IdentitySubCommand::Prove { identity_name, .. } => match identity_name {
            Some(n) => (IdentityState::Loading(clone_name(n)), IdentityAction::Load(clone_name(n))),
            None => (IdentityState::Choosing, IdentityAction::ChooseName),
        },
        IdentitySubCommand::List => (IdentityState::Counting, IdentityAction::CountIdentities),
        IdentitySubCommand::Edit { old_name, .. } => match old_name {
            Some(n) => (IdentityState::EditAnnounced(clone_name(n)), IdentityAction::Say(IdentityNotice::Editing(clone_name(n)))),
            None => (IdentityState::Choosing, IdentityAction::ChooseName),
        },
        IdentitySubCommand::Remove { .. } => (IdentityState::Counting, IdentityAction::CountIdentities),
    }
}

/// The next state and action of the identity command `cmd`, in `state`,
/// on `event`.
pub fn identity_step(cmd: &IdentityArgs, state: &IdentityState, event: IdentityEvent) -> (r: (IdentityState, IdentityAction))
    ensures
        r == identity_step_spec(*cmd, *state, event),
{
    match (state, event) {
        (IdentityState::Start, IdentityEvent::Start) => start(cmd),
        (IdentityState::ProvingLeniently(n), IdentityEvent::Done) => (IdentityState::Closing, IdentityAction::Say(IdentityNotice::Proved(clone_name(n)))),
        (IdentityState::ProvingLeniently(n), IdentityEvent::Failed(_)) => (IdentityState::Closing, IdentityAction::Say(IdentityNotice::CouldNotProve(clone_name(n)))),
        (IdentityState::DeletingPassword, IdentityEvent::Done) => finish_with(Ok(())),
        (IdentityState::DeletingPassword, IdentityEvent::Failed(m)) => (IdentityState::Closing, IdentityAction::Say(IdentityNotice::UnableToDeletePassword(m))),
        (_, IdentityEvent::Failed(m)) => finish_with(Err(IdentityFailure::Outside(m))),
        (IdentityState::CheckingName(n), IdentityEvent::NameTaken(taken)) => if taken {
            finish_with(Err(IdentityFailure::NameExists))
        } else {
            match &cmd.subcmd {
                IdentitySubCommand::New { no_link, .. } => (IdentityState::Creating, IdentityAction::Create { name: Some(clone_name(n)), link: !*no_link }),
                _ => finish_with(Err(IdentityFailure::Unexpected)),
            }
        },
        (IdentityState::Creating, IdentityEvent::Created(n)) => (IdentityState::ProvingLeniently(clone_name(&n)), IdentityAction::Prove { name: n, server: None, no_cert_check: cmd.no_cert_check }),
        (IdentityState::Repairing, IdentityEvent::Done) => finish_with(Ok(())),
        (IdentityState::Choosing, IdentityEvent::Chosen(n)) => match &cmd.subcmd {
            IdentitySubCommand::Edit { .. } => (IdentityState::EditAnnounced(clone_name(&n)), IdentityAction::Say(IdentityNotice::Editing(n))),
            _ => (IdentityState::Loading(clone_name(&n)), IdentityAction::Load(n)),
        },
        (IdentityState::Loading(n), IdentityEvent::Loaded { encrypted }) => match &cmd.subcmd {
            IdentitySubCommand::Prove { server, .. } => (IdentityState::Proving, IdentityAction::Prove { name: clone_name(n), server: clone_opt_name(server), no_cert_check: cmd.no_cert_check }),
            IdentitySubCommand::Remove { .. } => (IdentityState::Announced { name: clone_name(n), encrypted }, IdentityAction::Say(IdentityNotice::Removing(clone_name(n)))),
            _ => finish_with(Err(IdentityFailure::Unexpected)),
        },
        (IdentityState::Proving, IdentityEvent::Done) => finish_with(Ok(())),
        (IdentityState::Counting, IdentityEvent::Count(k)) => match &cmd.subcmd {
            IdentitySubCommand::List => if k == 0 {
                (IdentityState::Closing, IdentityAction::Say(IdentityNotice::NoIdentitiesFound))
            } else {
                (IdentityState::Printing, IdentityAction::PrintTree)
            },
            IdentitySubCommand::Remove { identity_name, .. } => if k == 0 {
                (IdentityState::Closing, IdentityAction::Say(IdentityNotice::NoIdentitiesToRemove))
            } else {
                match identity_name {
                    Some(n) => (IdentityState::Loading(clone_name(n)), IdentityAction::Load(clone_name(n))),
                    None => (IdentityState::Choosing, IdentityAction::ChooseName),
                }
            },
            _ => finish_with(Err(IdentityFailure::Unexpected)),
        },
        (IdentityState::Printing, IdentityEvent::Done) => finish_with(Ok(())),
        (IdentityState::EditAnnounced(n), IdentityEvent::Done) => match &cmd.subcmd {
            IdentitySubCommand::Edit { no_link, .. } => (IdentityState::Editing, IdentityAction::Edit { name: clone_name(n), link: !*no_link }),
            _ => finish_with(Err(IdentityFailure::Unexpected)),
        },
        (IdentityState::Editing, IdentityEvent::Edited { name, relink }) => match &cmd.subcmd {
            IdentitySubCommand::Edit { no_link, .. } => if !*no_link && relink {
                (IdentityState::ProvingLeniently(clone_name(&name)), IdentityAction::Prove { name: name, server: None, no_cert_check: cmd.no_cert_check })
            } else {
                finish_with(Ok(()))
            },
            _ => finish_with(Err(IdentityFailure::Unexpected)),
        },
        (IdentityState::Announced { name, encrypted }, IdentityEvent::Done) => match &cmd.subcmd {
            IdentitySubCommand::Remove { no_confirm, .. } => if *no_confirm {
                (IdentityState::Removing { name: clone_name(name), encrypted: *encrypted }, IdentityAction::RemoveDir(clone_name(name)))
            } else {
                (IdentityState::Confirming { name: clone_name(name), encrypted: *encrypted }, IdentityAction::Confirm)
            },
            _ => finish_with(Err(IdentityFailure::Unexpected)),
        },
        (IdentityState::Confirming { name, encrypted }, IdentityEvent::Answer(yes)) => if yes {
            (IdentityState::Removing { name: clone_name(name), encrypted: *encrypted }, IdentityAction::RemoveDir(clone_name(name)))
        } else {
            finish_with(Err(IdentityFailure::Declined))
        },
        (IdentityState::Removing { name, encrypted }, IdentityEvent::Done) => (IdentityState::Removed { name: clone_name(name), encrypted: *encrypted }, IdentityAction::Say(IdentityNotice::IdentityRemoved)),
        (IdentityState::Removed { name, encrypted }, IdentityEvent::Done) => if *encrypted {
            (IdentityState::DeletingPassword, IdentityAction::DeletePassword(clone_name(name)))
        } else {
            finish_with(Ok(()))
        },
        (IdentityState::Closing, IdentityEvent::Done) => finish_with(Ok(())),
        _ => finish_with(Err(IdentityFailure::Unexpected)),
    }
}

/// Removal with no identity on disk prints that there is none to remove,
/// and then ends in success.
pub proof fn lemma_remove_without_identities(cmd: IdentityArgs)
    requires
        cmd.subcmd is Remove,
    ensures
        identity_step_spec(cmd, IdentityState::Start, IdentityEvent::Start)
            == (IdentityState::Counting, IdentityAction::CountIdentities),
        identity_step_spec(cmd, IdentityState::Counting, IdentityEvent::Count(0))
            == (IdentityState::Closing, IdentityAction::Say(IdentityNotice::NoIdentitiesToRemove)),
        identity_step_spec(cmd, IdentityState::Closing, IdentityEvent::Done) == finish(Ok(())),
{
}

/// A directory is removed only once the user confirmed, or where the
/// command asked for no confirmation; a declined confirmation ends the
/// command in failure.
pub proof fn lemma_removal_needs_consent(cmd: IdentityArgs, state: IdentityState, event: IdentityEvent)
    ensures
        identity_step_spec(cmd, state, event).1 is RemoveDir ==> {
            ||| (state is Confirming && event == IdentityEvent::Answer(true))
            ||| (state is Announced && event is Done && (cmd.subcmd matches IdentitySubCommand::Remove { no_confirm, .. } && no_confirm))
        },
        (state is Confirming && event == IdentityEvent::Answer(false))
            ==> identity_step_spec(cmd, state, event) == finish(Err(IdentityFailure::Declined)),
{
}

/// A new identity is created only under no name or under a name that is
/// not taken; a taken name ends the command in failure.
pub proof fn lemma_new_name_taken(cmd: IdentityArgs, state: IdentityState, event: IdentityEvent)
    ensures
        identity_step_spec(cmd, state, event).1 matches IdentityAction::Create { name, .. } ==> {
            &&& cmd.subcmd is New
            &&& (name is None ==> state is Start && event is Start)
            &&& (name is Some ==> state is CheckingName && event == IdentityEvent::NameTaken(false))
        },
        (state is CheckingName && event == IdentityEvent::NameTaken(true))
            ==> identity_step_spec(cmd, state, event) == finish(Err(IdentityFailure::NameExists)),
{
}

/// A failed action ends the command with its message, except a failed
/// proof of a new or edited identity and a failed deletion of a password,
/// which only give a notice.
pub proof fn lemma_failure_ends(cmd: IdentityArgs, state: IdentityState, m: String)
    ensures
        !(state is ProvingLeniently) && !(state is DeletingPassword)
            ==> identity_step_spec(cmd, state, IdentityEvent::Failed(m)) == finish(Err(IdentityFailure::Outside(m))),
        state is ProvingLeniently ==> identity_step_spec(cmd, state, IdentityEvent::Failed(m)).1
            == IdentityAction::Say(IdentityNotice::CouldNotProve(state->ProvingLeniently_0)),
{
}

/// Once the command is over, every event ends it again: no further
/// action is taken.
pub proof fn lemma_finished_stays(cmd: IdentityArgs, event: IdentityEvent)
    ensures
        identity_step_spec(cmd, IdentityState::Finished, event).0 is Finished,
        identity_step_spec(cmd, IdentityState::Finished, event).1 is Finish,
{
}

/// The identity that an edit, a proof or a removal acts on: the name
/// given, or else the one the user chose.
pub open spec fn target_name(cmd: IdentityArgs, chosen: String) -> String {
    match cmd.subcmd {
        IdentitySubCommand::Edit { old_name, .. } => match old_name { Some(n) => n, None => chosen },
        IdentitySubCommand::Prove { identity_name, .. } => match identity_name { Some(n) => n, None => chosen },
        IdentitySubCommand::Remove { identity_name, .. } => match identity_name { Some(n) => n, None => chosen },
        _ => chosen,
    }
}

/// An edit announces, then edits, the identity named or chosen: from the
/// start, after the choice where no name was given, it says "Editing
/// identity" of that name, and once that is printed, edits that very
/// identity, linking its keys unless `--no-link`.
pub proof fn lemma_edit_edits_the_named_identity(cmd: IdentityArgs, chosen: String)
    requires
        cmd.subcmd is Edit,
    ensures
        ({
            let name = target_name(cmd, chosen);
            let s1 = identity_step_spec(cmd, IdentityState::Start, IdentityEvent::Start);
            let s2 = if cmd.subcmd->Edit_old_name is Some { s1 } else { identity_step_spec(cmd, s1.0, IdentityEvent::Chosen(chosen)) };
            &&& (cmd.subcmd->Edit_old_name is None ==> s1 == (IdentityState::Choosing, IdentityAction::ChooseName))
            &&& s2 == (IdentityState::EditAnnounced(name), IdentityAction::Say(IdentityNotice::Editing(name)))
            &&& identity_step_spec(cmd, s2.0, IdentityEvent::Done)
                == (IdentityState::Editing, IdentityAction::Edit { name: name, link: !cmd.subcmd->Edit_no_link })
        }),
{
}

/// A proof loads, then proves, the identity named or chosen, to the server
/// given, checking certificates as asked.
pub proof fn lemma_prove_proves_the_named_identity(cmd: IdentityArgs, chosen: String, encrypted: bool)
    requires
        cmd.subcmd is Prove,
    ensures
        ({
            let name = target_name(cmd, chosen);
            let s1 = identity_step_spec(cmd, IdentityState::Start, IdentityEvent::Start);
            let s2 = if cmd.subcmd->Prove_identity_name is Some { s1 } else { identity_step_spec(cmd, s1.0, IdentityEvent::Chosen(chosen)) };
            &&& (cmd.subcmd->Prove_identity_name is None ==> s1 == (IdentityState::Choosing, IdentityAction::ChooseName))
            &&& s2 == (IdentityState::Loading(name), IdentityAction::Load(name))
            &&& identity_step_spec(cmd, s2.0, IdentityEvent::Loaded { encrypted }) == (
                IdentityState::Proving,
                IdentityAction::Prove { name: name, server: cmd.subcmd->Prove_server, no_cert_check: cmd.no_cert_check },
            )
        }),
{
}

/// A removal, when identities exist, loads the identity named or chosen
/// and announces the removal of that very identity.
pub proof fn lemma_remove_removes_the_named_identity(cmd: IdentityArgs, chosen: String, count: usize, encrypted: bool)
    requires
        cmd.subcmd is Remove,
        count > 0,
    ensures
        ({
            let name = target_name(cmd, chosen);
            let s1 = identity_step_spec(cmd, IdentityState::Counting, IdentityEvent::Count(count));
            let s2 = if cmd.subcmd->Remove_identity_name is Some { s1 } else { identity_step_spec(cmd, s1.0, IdentityEvent::Chosen(chosen)) };
            &&& (cmd.subcmd->Remove_identity_name is None ==> s1 == (IdentityState::Choosing, IdentityAction::ChooseName))
            &&& s2 == (IdentityState::Loading(name), IdentityAction::Load(name))
            &&& identity_step_spec(cmd, s2.0, IdentityEvent::Loaded { encrypted }) == (
                IdentityState::Announced { name: name, encrypted },
                IdentityAction::Say(IdentityNotice::Removing(name)),
            )
        }),
{
}

/// A new identity, once created, is proved to the server under the name
/// it was created with.
pub proof fn lemma_new_identity_is_proved(cmd: IdentityArgs, created: String)
    requires
        cmd.subcmd is New,
    ensures
        identity_step_spec(cmd, IdentityState::Creating, IdentityEvent::Created(created)) == (
            IdentityState::ProvingLeniently(created),
            IdentityAction::Prove { name: created, server: None, no_cert_check: cmd.no_cert_check },
        ),
{
}

/// Once announced, the removal of `name` removes that very directory, at
/// once with `--no-confirm`, else after a "yes"; then it says so, and
/// deletes the stored password of `name` where its key is encrypted.
pub proof fn lemma_removal_of_the_announced_identity(cmd: IdentityArgs, name: String, encrypted: bool)
    requires
        cmd.subcmd is Remove,
    ensures
        ({
            let s = identity_step_spec(cmd, IdentityState::Announced { name: name, encrypted }, IdentityEvent::Done);
            &&& cmd.subcmd->Remove_no_confirm ==> s == (IdentityState::Removing { name: name, encrypted }, IdentityAction::RemoveDir(name))
            &&& !cmd.subcmd->Remove_no_confirm ==> s == (IdentityState::Confirming { name: name, encrypted }, IdentityAction::Confirm)
        }),
        identity_step_spec(cmd, IdentityState::Confirming { name: name, encrypted }, IdentityEvent::Answer(true))
            == (IdentityState::Removing { name: name, encrypted }, IdentityAction::RemoveDir(name)),
        identity_step_spec(cmd, IdentityState::Removing { name: name, encrypted }, IdentityEvent::Done)
            == (IdentityState::Removed { name: name, encrypted }, IdentityAction::Say(IdentityNotice::IdentityRemoved)),
        encrypted ==> identity_step_spec(cmd, IdentityState::Removed { name: name, encrypted }, IdentityEvent::Done)
            == (IdentityState::DeletingPassword, IdentityAction::DeletePassword(name)),
        !encrypted ==> identity_step_spec(cmd, IdentityState::Removed { name: name, encrypted }, IdentityEvent::Done) == finish(Ok(())),
        identity_step_spec(cmd, IdentityState::DeletingPassword, IdentityEvent::Done) == finish(Ok(())),
{
}

/// A new identity is created under the name given, once that name is
/// found free, or under its default name where none is given; an empty
/// name is refused. Its keys are linked unless `--no-link`.
pub proof fn lemma_new_creates_under_the_given_name(cmd: IdentityArgs)
    requires
        cmd.subcmd is New,
    ensures
        ({
            let link = !cmd.subcmd->New_no_link;
            let s1 = identity_step_spec(cmd, IdentityState::Start, IdentityEvent::Start);
            match cmd.subcmd->New_name {
                None => s1 == (IdentityState::Creating, IdentityAction::Create { name: None, link: link }),
                Some(n) => if n@.len() == 0 {
                    s1 == finish(Err(IdentityFailure::EmptyName))
                } else {
                    &&& s1 == (IdentityState::CheckingName(n), IdentityAction::CheckName(n))
                    &&& identity_step_spec(cmd, s1.0, IdentityEvent::NameTaken(false))
                        == (IdentityState::Creating, IdentityAction::Create { name: Some(n), link: link })
                },
            }
        }),
{
}

/// Listing counts the identities; with none it prints the notice, else the
/// tree of them; either way it then ends in success.
pub proof fn lemma_list_prints_the_identities(cmd: IdentityArgs, count: usize)
    requires
        cmd.subcmd is List,
    ensures
        identity_step_spec(cmd, IdentityState::Start, IdentityEvent::Start) == (IdentityState::Counting, IdentityAction::CountIdentities),
        count == 0 ==> identity_step_spec(cmd, IdentityState::Counting, IdentityEvent::Count(count))
            == (IdentityState::Closing, IdentityAction::Say(IdentityNotice::NoIdentitiesFound)),
        count > 0 ==> identity_step_spec(cmd, IdentityState::Counting, IdentityEvent::Count(count))
            == (IdentityState::Printing, IdentityAction::PrintTree),
        identity_step_spec(cmd, IdentityState::Printing, IdentityEvent::Done) == finish(Ok(())),
{
}

/// A repair repairs the identities on disk, and ends in success once done;
/// a finished proof ends in success too.
pub proof fn lemma_repair_and_proof_end(cmd: IdentityArgs)
    ensures
        cmd.subcmd is Repair ==> identity_step_spec(cmd, IdentityState::Start, IdentityEvent::Start)
            == (IdentityState::Repairing, IdentityAction::Repair),
        identity_step_spec(cmd, IdentityState::Repairing, IdentityEvent::Done) == finish(Ok(())),
        identity_step_spec(cmd, IdentityState::Proving, IdentityEvent::Done) == finish(Ok(())),
{
}

} // verus!
