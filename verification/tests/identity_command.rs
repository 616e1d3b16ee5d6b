use libpijul::identity_command::{
    identity_step, IdentityAction, IdentityArgs, IdentityEvent, IdentityFailure, IdentityNotice, IdentityState,
    IdentitySubCommand,
};

fn args(subcmd: IdentitySubCommand) -> IdentityArgs {
    IdentityArgs { subcmd, no_cert_check: false }
}

#[test]
fn remove_without_identities_says_so() {
    let cmd = args(IdentitySubCommand::Remove { identity_name: None, no_confirm: false });
    let (s, a) = identity_step(&cmd, &IdentityState::Start, IdentityEvent::Start);
    assert!(matches!(a, IdentityAction::CountIdentities));
    let (s, a) = identity_step(&cmd, &s, IdentityEvent::Count(0));
    assert!(matches!(a, IdentityAction::Say(IdentityNotice::NoIdentitiesToRemove)));
    let (s, a) = identity_step(&cmd, &s, IdentityEvent::Done);
    assert!(matches!(a, IdentityAction::Finish(Ok(()))));
    assert!(matches!(s, IdentityState::Finished));
}

#[test]
fn declined_removal_removes_nothing() {
    let cmd = args(IdentitySubCommand::Remove { identity_name: Some("work".to_string()), no_confirm: false });
    let (s, _) = identity_step(&cmd, &IdentityState::Start, IdentityEvent::Start);
    let (s, a) = identity_step(&cmd, &s, IdentityEvent::Count(2));
    assert!(matches!(a, IdentityAction::Load(ref n) if n == "work"));
    let (s, a) = identity_step(&cmd, &s, IdentityEvent::Loaded { encrypted: true });
    assert!(matches!(a, IdentityAction::Say(IdentityNotice::Removing(ref n)) if n == "work"));
    let (s, a) = identity_step(&cmd, &s, IdentityEvent::Done);
    assert!(matches!(a, IdentityAction::Confirm));
    let (_, a) = identity_step(&cmd, &s, IdentityEvent::Answer(false));
    assert!(matches!(a, IdentityAction::Finish(Err(IdentityFailure::Declined))));
}

#[test]
fn confirmed_removal_deletes_the_password() {
    let cmd = args(IdentitySubCommand::Remove { identity_name: None, no_confirm: true });
    let (s, _) = identity_step(&cmd, &IdentityState::Start, IdentityEvent::Start);
    let (s, a) = identity_step(&cmd, &s, IdentityEvent::Count(1));
    assert!(matches!(a, IdentityAction::ChooseName));
    let (s, _) = identity_step(&cmd, &s, IdentityEvent::Chosen("home".to_string()));
    let (s, _) = identity_step(&cmd, &s, IdentityEvent::Loaded { encrypted: true });
    let (s, a) = identity_step(&cmd, &s, IdentityEvent::Done);
    assert!(matches!(a, IdentityAction::RemoveDir(ref n) if n == "home"));
    let (s, a) = identity_step(&cmd, &s, IdentityEvent::Done);
    assert!(matches!(a, IdentityAction::Say(IdentityNotice::IdentityRemoved)));
    let (s, a) = identity_step(&cmd, &s, IdentityEvent::Done);
    assert!(matches!(a, IdentityAction::DeletePassword(ref n) if n == "home"));
    let (s, a) = identity_step(&cmd, &s, IdentityEvent::Failed("no keyring".to_string()));
    assert!(matches!(a, IdentityAction::Say(IdentityNotice::UnableToDeletePassword(ref m)) if m == "no keyring"));
    let (_, a) = identity_step(&cmd, &s, IdentityEvent::Done);
    assert!(matches!(a, IdentityAction::Finish(Ok(()))));
}

#[test]
fn new_identity_with_a_taken_name_fails() {
    let cmd = args(IdentitySubCommand::New { name: Some("work".to_string()), no_link: false });
    let (s, a) = identity_step(&cmd, &IdentityState::Start, IdentityEvent::Start);
    assert!(matches!(a, IdentityAction::CheckName(ref n) if n == "work"));
    let (_, a) = identity_step(&cmd, &s, IdentityEvent::NameTaken(true));
    assert!(matches!(a, IdentityAction::Finish(Err(IdentityFailure::NameExists))));
}

#[test]
fn new_identity_is_proved_and_a_failed_proof_only_warns() {
    let cmd = args(IdentitySubCommand::New { name: None, no_link: true });
    let (s, a) = identity_step(&cmd, &IdentityState::Start, IdentityEvent::Start);
    assert!(matches!(a, IdentityAction::Create { name: None, link: false }));
    let (s, a) = identity_step(&cmd, &s, IdentityEvent::Created("default".to_string()));
    assert!(matches!(a, IdentityAction::Prove { ref name, server: None, no_cert_check: false } if name == "default"));
    let (s, a) = identity_step(&cmd, &s, IdentityEvent::Failed("offline".to_string()));
    assert!(matches!(a, IdentityAction::Say(IdentityNotice::CouldNotProve(ref n)) if n == "default"));
    let (_, a) = identity_step(&cmd, &s, IdentityEvent::Done);
    assert!(matches!(a, IdentityAction::Finish(Ok(()))));
}

#[test]
fn list_without_identities_prints_the_notice() {
    let cmd = args(IdentitySubCommand::List);
    let (s, _) = identity_step(&cmd, &IdentityState::Start, IdentityEvent::Start);
    let (_, a) = identity_step(&cmd, &s, IdentityEvent::Count(0));
    assert!(matches!(a, IdentityAction::Say(IdentityNotice::NoIdentitiesFound)));
    let (_, a) = identity_step(&cmd, &IdentityState::Counting, IdentityEvent::Count(3));
    assert!(matches!(a, IdentityAction::PrintTree));
}

#[test]
fn edit_proves_again_only_when_linked_and_changed() {
    let cmd = args(IdentitySubCommand::Edit { old_name: Some("work".to_string()), no_link: false });
    let (s, a) = identity_step(&cmd, &IdentityState::Start, IdentityEvent::Start);
    assert!(matches!(a, IdentityAction::Say(IdentityNotice::Editing(ref n)) if n == "work"));
    let (s, a) = identity_step(&cmd, &s, IdentityEvent::Done);
    assert!(matches!(a, IdentityAction::Edit { ref name, link: true } if name == "work"));
    let (_, a) = identity_step(&cmd, &s, IdentityEvent::Edited { name: "job".to_string(), relink: false });
    assert!(matches!(a, IdentityAction::Finish(Ok(()))));
    let (_, a) = identity_step(&cmd, &IdentityState::Editing, IdentityEvent::Edited { name: "job".to_string(), relink: true });
    assert!(matches!(a, IdentityAction::Prove { ref name, .. } if name == "job"));
}

#[test]
fn prove_with_a_given_name_loads_it_first() {
    let cmd = IdentityArgs {
        subcmd: IdentitySubCommand::Prove { identity_name: Some("work".to_string()), server: Some("nest".to_string()) },
        no_cert_check: true,
    };
    let (s, a) = identity_step(&cmd, &IdentityState::Start, IdentityEvent::Start);
    assert!(matches!(a, IdentityAction::Load(ref n) if n == "work"));
    let (s, a) = identity_step(&cmd, &s, IdentityEvent::Loaded { encrypted: false });
    assert!(matches!(a, IdentityAction::Prove { ref name, server: Some(ref sv), no_cert_check: true } if name == "work" && sv == "nest"));
    let (_, a) = identity_step(&cmd, &s, IdentityEvent::Failed("refused".to_string()));
    assert!(matches!(a, IdentityAction::Finish(Err(IdentityFailure::Outside(ref m))) if m == "refused"));
}
