use libpijul::application::register_change;
use libpijul::change::Change;
use libpijul::apply::ApplyError;
use libpijul::changestore::MemoryChangeStore;
use libpijul::commands::{
    apply_changes, changes_after, dependents, last_modified, output_roots, overwrite_changes, parse_pos, parse_u64,
    starts_with, str_eq, token_from_query, touched_inodes, ApplyCommandError, Client, Reset, ResetError, ResetStep,
};
use libpijul::config::Choice;
use libpijul::pristine::{ChangeHash, ChangeId, ChangePosition, Position};
use libpijul::txn::{Channel, Merkle, Txn};

fn reset(channel: Option<&str>, dry_run: bool, force: bool, files: &[&str]) -> Reset {
    Reset {
        repo_path: None,
        channel: channel.map(String::from),
        dry_run,
        force,
        files: files.iter().map(|f| f.to_string()).collect(),
    }
}

#[test]
fn reset_overwrites_unless_configured_never() {
    assert!(overwrite_changes(None));
    assert!(overwrite_changes(Some(Choice::Auto)));
    assert!(overwrite_changes(Some(Choice::Always)));
    assert!(!overwrite_changes(Some(Choice::Never)));
}

#[test]
fn reset_dry_run_needs_one_file() {
    assert_eq!(reset(None, true, false, &[]).run("main", None, None), ResetStep::Fail(ResetError::DryRunNeedsOneFile));
    assert_eq!(reset(None, true, false, &["a"]).run("main", None, None), ResetStep::OutputFile);
}

#[test]
fn reset_checks_unrecorded_changes_without_force() {
    let r = reset(None, false, false, &[]);
    assert_eq!(r.run("main", None, None), ResetStep::CheckUnrecorded);
    assert_eq!(r.run("main", None, Some(true)), ResetStep::Fail(ResetError::UnrecordedChanges));
    assert_eq!(r.run("main", None, Some(false)), ResetStep::OutputRepository);
    // With --force, no check.
    assert_eq!(reset(None, false, true, &[]).run("main", None, None), ResetStep::OutputRepository);
    // When the configuration says never, changes would be lost: warn.
    assert_eq!(r.run("main", Some(Choice::Never), None), ResetStep::WarnChangesLost);
}

#[test]
fn switch_to_current_channel_does_nothing() {
    let r = reset(Some("main"), false, false, &[]);
    assert_eq!(r.switch("main", None), ResetStep::Nothing);
}

#[test]
fn switch_channel_checks_the_current_one() {
    let r = reset(Some("dev"), false, false, &[]);
    assert_eq!(r.switch("main", None), ResetStep::CheckUnrecorded);
    assert_eq!(r.switch("main", Some(true)), ResetStep::Fail(ResetError::UnrecordedBeforeSwitch));
    assert_eq!(r.switch("main", Some(false)), ResetStep::SwitchChannel);
    assert_eq!(reset(Some("dev"), false, false, &["a"]).switch("main", None), ResetStep::Fail(ResetError::ChannelWithPaths));
    assert_eq!(reset(Some("dev"), false, true, &[]).switch("main", None), ResetStep::SwitchChannel);
    assert_eq!(reset(None, false, false, &["a", "b"]).run("main", None, None), ResetStep::OutputFiles);
}

#[test]
fn parse_u64_accepts_decimal() {
    assert_eq!(parse_u64("0"), Some(0));
    assert_eq!(parse_u64("+17"), Some(17));
    assert_eq!(parse_u64("18446744073709551615"), Some(u64::MAX));
    assert_eq!(parse_u64("18446744073709551616"), None);
    assert_eq!(parse_u64(""), None);
    assert_eq!(parse_u64("+"), None);
    assert_eq!(parse_u64("-1"), None);
    assert_eq!(parse_u64("1a"), None);
    for s in ["0", "42", "+42", "007", "x", "99999999999999999999", " 1"] {
        assert_eq!(parse_u64(s), s.parse::<u64>().ok(), "{}", s);
    }
}

#[test]
fn parse_pos_reads_change_and_offset() {
    let id = ChangeId(1);
    let s = format!("{}.42", id.to_base32());
    assert_eq!(parse_pos(&s), Some(Position { change: id, pos: ChangePosition(42) }));
    // What follows a second dot is ignored.
    let s = format!("{}.42.7", id.to_base32());
    assert_eq!(parse_pos(&s), Some(Position { change: id, pos: ChangePosition(42) }));
    assert_eq!(parse_pos(&id.to_base32()), None);
    assert_eq!(parse_pos("nope.42"), None);
    let s = format!("{}.x", id.to_base32());
    assert_eq!(parse_pos(&s), None);
}

#[test]
fn token_is_read_from_the_start_of_the_query() {
    assert_eq!(token_from_query(Some("token=abc")), Some(String::from("abc")));
    assert_eq!(token_from_query(Some("token=")), Some(String::new()));
    assert_eq!(token_from_query(Some("x=1&token=abc")), None);
    assert_eq!(token_from_query(None), None);
}

#[test]
fn output_roots_skip_prefixed_paths() {
    let paths: Vec<String> = ["a", "a/b", "ab", "c", "c/d/e"].iter().map(|s| s.to_string()).collect();
    let r = output_roots(&paths);
    // "ab" starts with "a" as a string.
    assert_eq!(r, vec![String::from("a"), String::from("c")]);
    assert!(output_roots(&Vec::new()).is_empty());
}

fn empty_change(deps: Vec<ChangeHash>) -> Change {
    Change { dependencies: deps, extra_known: Vec::new(), changes: Vec::new() }
}

fn hash(n: u64) -> ChangeHash {
    ChangeHash::Blake3(n, 0, 0, 0)
}

#[test]
fn changes_after_collects_touched_files() {
    let mut txn = Txn::new();
    let mut channel = Channel::new(String::from("main"));
    for i in 1..=3u64 {
        channel.log.push((ChangeId(i), hash(i), Merkle(i)));
        txn.rev_touched.push((ChangeId(i), Position { change: ChangeId(i), pos: ChangePosition(10 * i) }));
    }
    let mut diff = Vec::new();
    let mut inodes = Vec::new();
    changes_after(&txn, &channel, Some(0), &mut diff, &mut inodes);
    assert_eq!(diff, vec![ChangeId(2), ChangeId(3)]);
    assert_eq!(inodes.len(), 2);
    assert!(inodes.contains(&Position { change: ChangeId(3), pos: ChangePosition(30) }));
    let mut diff = Vec::new();
    let mut inodes = Vec::new();
    changes_after(&txn, &channel, None, &mut diff, &mut inodes);
    assert_eq!(diff.len(), 3);
    let mut diff = Vec::new();
    changes_after(&txn, &channel, Some(u64::MAX), &mut diff, &mut inodes);
    assert!(diff.is_empty());
}

#[test]
fn touched_inodes_are_listed_once() {
    let mut txn = Txn::new();
    register_change(&mut txn, ChangeId(1), &hash(1), &empty_change(Vec::new()));
    let p = Position { change: ChangeId(1), pos: ChangePosition(0) };
    txn.rev_touched.push((ChangeId(1), p));
    txn.rev_touched.push((ChangeId(1), p));
    assert_eq!(touched_inodes(&txn, &vec![hash(1), hash(1)]), vec![p]);
    assert!(touched_inodes(&txn, &vec![hash(5)]).is_empty());
}

#[test]
fn dependents_list_the_root_last() {
    let mut txn = Txn::new();
    let mut channel = Channel::new(String::from("main"));
    register_change(&mut txn, ChangeId(1), &hash(1), &empty_change(Vec::new()));
    register_change(&mut txn, ChangeId(2), &hash(2), &empty_change(vec![hash(1)]));
    register_change(&mut txn, ChangeId(3), &hash(3), &empty_change(vec![hash(2)]));
    for i in 1..=3u64 {
        channel.log.push((ChangeId(i), hash(i), Merkle(i)));
    }
    let d = dependents(&txn, &channel, ChangeId(1));
    assert_eq!(d, vec![hash(3), hash(2), hash(1)]);
    let d = dependents(&txn, &channel, ChangeId(3));
    assert_eq!(d, vec![hash(3)]);
}

#[test]
fn string_comparisons() {
    assert!(str_eq("abc", "abc"));
    assert!(!str_eq("abc", "abd"));
    assert!(!str_eq("abc", "ab"));
    assert!(str_eq("", ""));
    assert!(starts_with("abc", "ab"));
    assert!(starts_with("abc", ""));
    assert!(!starts_with("ab", "abc"));
    assert!(!starts_with("abc", "b"));
}

#[test]
fn last_modified_of_a_channel() {
    let mut channel = Channel::new(String::from("main"));
    assert_eq!(last_modified(&channel), 0);
    channel.last_modified = 1234;
    assert_eq!(last_modified(&channel), 1234);
}

#[test]
fn apply_command_applies_each_change_and_lists_touched_files() {
    let mut store = MemoryChangeStore::new();
    store.insert(hash(1), empty_change(Vec::new()));
    store.insert(hash(2), empty_change(vec![hash(1)]));
    let mut txn = Txn::new();
    let mut channel = Channel::new(String::from("main"));
    let touched = apply_changes(&store, &mut txn, &mut channel, &vec![hash(2)], false).unwrap();
    assert_eq!(channel.log.len(), 2);
    assert_eq!(channel.log[1].1, hash(2));
    // An empty change touches no file.
    assert!(touched.is_empty());
}

#[test]
fn apply_command_with_deps_only() {
    let mut store = MemoryChangeStore::new();
    store.insert(hash(1), empty_change(Vec::new()));
    store.insert(hash(2), empty_change(vec![hash(1)]));
    let mut txn = Txn::new();
    let mut channel = Channel::new(String::from("main"));
    let r = apply_changes(&store, &mut txn, &mut channel, &vec![hash(1), hash(2)], true);
    assert!(matches!(r, Err(ApplyCommandError::DepsOnlyNeedsOneChange)));
    assert!(channel.log.is_empty());
    apply_changes(&store, &mut txn, &mut channel, &vec![hash(2)], true).unwrap();
    assert_eq!(channel.log.len(), 1);
    assert_eq!(channel.log[0].1, hash(1));
}

#[test]
fn apply_command_reports_a_missing_change() {
    let store = MemoryChangeStore::new();
    let mut txn = Txn::new();
    let mut channel = Channel::new(String::from("main"));
    let r = apply_changes(&store, &mut txn, &mut channel, &vec![hash(3)], false);
    match r {
        Err(ApplyCommandError::Apply(ApplyError::Changestore(e))) => assert_eq!(e.hash, hash(3)),
        _ => panic!("expected a change store error"),
    }
}

#[test]
fn dependents_of_a_diamond_are_listed_once_each() {
    let mut txn = Txn::new();
    let mut channel = Channel::new(String::from("main"));
    register_change(&mut txn, ChangeId(1), &hash(1), &empty_change(Vec::new()));
    register_change(&mut txn, ChangeId(2), &hash(2), &empty_change(vec![hash(1)]));
    register_change(&mut txn, ChangeId(3), &hash(3), &empty_change(vec![hash(1)]));
    register_change(&mut txn, ChangeId(4), &hash(4), &empty_change(vec![hash(2), hash(3)]));
    // A change that depends on 1 but is not on the channel is not listed.
    register_change(&mut txn, ChangeId(5), &hash(5), &empty_change(vec![hash(1)]));
    for i in 1..=4u64 {
        channel.log.push((ChangeId(i), hash(i), Merkle(i)));
    }
    let d = dependents(&txn, &channel, ChangeId(1));
    assert_eq!(d.len(), 4);
    assert_eq!(d[3], hash(1));
    for i in 1..=4u64 {
        assert!(d.contains(&hash(i)));
    }
    assert!(!d.contains(&hash(5)));
    let pos = |h: ChangeHash| d.iter().position(|x| *x == h).unwrap();
    assert!(pos(hash(4)) < pos(hash(2)));
    assert!(pos(hash(4)) < pos(hash(3)));
}

#[test]
fn client_tries_the_next_port_up_to_the_last() {
    assert_eq!(Client::next_port(3000), Some(3001));
    assert_eq!(Client::next_port(u16::MAX - 1), Some(u16::MAX));
    assert_eq!(Client::next_port(u16::MAX), None);
}
