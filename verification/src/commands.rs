//! The decisions of the commands of the command-line tool: what each
//! command does, given its arguments and the state of the repository.
use vstd::prelude::*;
use vstd::string::*;
use crate::application::{apply_change_rec, deps_before, hash_applied, lemma_deps_before_grows, lemma_hash_applied_grows, pristine_wf};
use crate::apply::ApplyError;
use crate::base32::decode_spec;
use crate::changestore::ChangeStore;
use crate::config::Choice;
use crate::pristine::{ChangeHash, ChangeId, ChangePosition, Position};
use crate::txn::{external_of, internal_of, log_position, Channel, Txn};

verus! {

/// Resetting the working copy to a channel.
#[derive(Debug)]
pub struct Reset {
    pub repo_path: Option<String>,
    /// The channel to reset to (and make current).
    pub channel: Option<String>,
    /// Print a single file instead of modifying the repository.
    pub dry_run: bool,
    /// Reset even if there are unrecorded changes.
    pub force: bool,
    /// Only reset these files.
    pub files: Vec<String>,
}

/// The reasons for refusing a reset.
#[derive(Clone, Copy, Debug, PartialEq, Eq, Structural)]
pub enum ResetError {
    /// A dry run prints exactly one file.
    DryRunNeedsOneFile,
    /// Changing channel resets the whole working copy.
    ChannelWithPaths,
    /// The current channel has unrecorded changes, which a change of channel would lose.
    UnrecordedBeforeSwitch,
    /// The channel has unrecorded changes, which a reset would lose.
    UnrecordedChanges,
}

/// What a reset does next.
#[derive(Clone, Copy, Debug, PartialEq, Eq, Structural)]
pub enum ResetStep {
    /// Print the single file given, from the channel.
    OutputFile,
    /// Stop, with this error.
    Fail(ResetError),
    /// Find out whether the working copy has unrecorded changes, and decide again.
    CheckUnrecorded,
    /// Warn that unrecorded changes would be lost, and stop.
    WarnChangesLost,
    /// Output the whole channel to the working copy.
    OutputRepository,
    /// Make the channel current, and output the files that the changes of
    /// the two channels since their last common state touch.
    SwitchChannel,
    /// Output the given files.
    OutputFiles,
    /// Nothing to do.
    Nothing,
}

/// A step that writes over the working copy without being asked to for
/// given files.
pub open spec fn overwrites(s: ResetStep) -> bool {
    s == ResetStep::OutputRepository || s == ResetStep::SwitchChannel
}

/// Whether a reset overwrites unrecorded changes, for the setting
/// `reset_overwrites_changes` (yes, unless it is `never`).
pub fn overwrite_changes(setting: Option<Choice>) -> (r: bool)
    ensures
        r == !(setting == Some(Choice::Never)),
{
    match setting {
        Some(Choice::Never) => false,
        _ => true,
    }
}

impl Reset {
    /// Whether this reset targets the current channel `current`.
    pub open spec fn targets_current(&self, current: Seq<char>) -> bool {
        self.channel matches Some(c) && c@ == current
    }

    /// The next step of a reset (with the configuration setting
    /// `reset_overwrites_changes`), `unrecorded` telling whether the working
    /// copy has unrecorded changes if that was found out.
    pub fn run(&self, current: &str, setting: Option<Choice>, unrecorded: Option<bool>) -> (r: ResetStep)
        ensures
            r == self.spec_reset(current@, !(setting == Some(Choice::Never)), unrecorded),
    {
        let overwrite = overwrite_changes(setting);
        self.reset(current, overwrite, unrecorded)
    }

    /// The next step of a change of channel, which never overwrites changes
    /// on the channel it stays on.
    pub fn switch(&self, current: &str, unrecorded: Option<bool>) -> (r: ResetStep)
        ensures
            r == self.spec_reset(current@, false, unrecorded),
    {
        self.reset(current, false, unrecorded)
    }

    /// The decision of a reset: a dry run prints one file; resetting to the
    /// current channel does nothing unless changes may be overwritten;
    /// changing channel without `force` needs no given files and no
    /// unrecorded changes; with no given files, the whole channel is output
    /// (if changes may be overwritten or `force` is given, and, without
    /// `force`, there are no unrecorded changes), or the channel is
    /// switched; with given files, they are output.
    pub open spec fn spec_reset(&self, current: Seq<char>, overwrite: bool, unrecorded: Option<bool>) -> ResetStep {
        if self.dry_run {
            if self.files@.len() != 1 {
                ResetStep::Fail(ResetError::DryRunNeedsOneFile)
            } else {
                ResetStep::OutputFile
            }
        } else if self.targets_current(current) && !overwrite {
            ResetStep::Nothing
        } else if !self.targets_current(current) && self.channel is Some && !self.force && self.files@.len() != 0 {
            ResetStep::Fail(ResetError::ChannelWithPaths)
        } else if !self.targets_current(current) && self.channel is Some && !self.force && unrecorded is None {
            ResetStep::CheckUnrecorded
        } else if !self.targets_current(current) && self.channel is Some && !self.force && unrecorded == Some(true) {
            ResetStep::Fail(ResetError::UnrecordedBeforeSwitch)
        } else if self.files@.len() != 0 {
            ResetStep::OutputFiles
        } else if self.channel is Some && !self.targets_current(current) {
            ResetStep::SwitchChannel
        } else if !overwrite && !self.force {
            ResetStep::WarnChangesLost
        } else if !self.force && unrecorded is None {
            ResetStep::CheckUnrecorded
        } else if !self.force && unrecorded == Some(true) {
            ResetStep::Fail(ResetError::UnrecordedChanges)
        } else {
            ResetStep::OutputRepository
        }
    }

    fn reset(&self, current: &str, overwrite: bool, unrecorded: Option<bool>) -> (r: ResetStep)
        ensures
            r == self.spec_reset(current@, overwrite, unrecorded),
    {
        if self.dry_run {
            if self.files.len() != 1 {
                return ResetStep::Fail(ResetError::DryRunNeedsOneFile);
            }
            return ResetStep::OutputFile;
        }
        let is_current = match &self.channel {
            Some(c) => str_eq(c.as_str(), current),
            None => false,
        };
        if is_current {
            if !overwrite {
                return ResetStep::Nothing;
            }
        } else if self.channel.is_some() && !self.force {
            if self.files.len() != 0 {
                return ResetStep::Fail(ResetError::ChannelWithPaths);
            }
            match unrecorded {
                None => return ResetStep::CheckUnrecorded,
                Some(true) => return ResetStep::Fail(ResetError::UnrecordedBeforeSwitch),
                Some(false) => {},
            }
        }
        if self.files.len() == 0 {
            if self.channel.is_none() || is_current {
                if !overwrite && !self.force {
                    return ResetStep::WarnChangesLost;
                }
                if !self.force {
                    match unrecorded {
                        None => return ResetStep::CheckUnrecorded,
                        Some(true) => return ResetStep::Fail(ResetError::UnrecordedChanges),
                        Some(false) => {},
                    }
                }
                return ResetStep::OutputRepository;
            }
            ResetStep::SwitchChannel
        } else {
            ResetStep::OutputFiles
        }
    }
}

/// Without `force`, a reset or a change of channel never writes over the
/// working copy unless it was found to have no unrecorded changes.
pub proof fn lemma_reset_keeps_unrecorded(r: Reset, current: Seq<char>, overwrite: bool, unrecorded: Option<bool>)
    requires
        !r.force,
        unrecorded != Some(false),
    ensures
        !overwrites(r.spec_reset(current, overwrite, unrecorded)),
{
    match unrecorded {
        None => {},
        Some(b) => {
            assert(b);
        },
    }
}

/// A reset given files (not a dry run) touches only those files: it never
/// outputs the whole channel, warns of changes lost for the whole working
/// copy, or switches channel, `force` or not. It outputs the files, except
/// that a reset to the current channel that may not overwrite changes does
/// nothing, and one to another channel without `force` is refused.
pub proof fn lemma_reset_given_files(r: Reset, current: Seq<char>, overwrite: bool, unrecorded: Option<bool>)
    requires
        !r.dry_run,
        r.files@.len() != 0,
    ensures
        r.spec_reset(current, overwrite, unrecorded) != ResetStep::OutputRepository,
        r.spec_reset(current, overwrite, unrecorded) != ResetStep::WarnChangesLost,
        r.spec_reset(current, overwrite, unrecorded) != ResetStep::SwitchChannel,
        r.spec_reset(current, overwrite, unrecorded) != ResetStep::OutputFile,
        r.channel is None ==> r.spec_reset(current, overwrite, unrecorded) == ResetStep::OutputFiles,
        r.force && !(r.targets_current(current) && !overwrite) ==> r.spec_reset(current, overwrite, unrecorded)
            == ResetStep::OutputFiles,
        r.targets_current(current) && !overwrite ==> r.spec_reset(current, overwrite, unrecorded) == ResetStep::Nothing,
        r.channel is Some && !r.targets_current(current) && !r.force ==> r.spec_reset(current, overwrite, unrecorded)
            == ResetStep::Fail(ResetError::ChannelWithPaths),
{
}

/// A reset given no file (not a dry run) never outputs files one by one;
/// with `force` it outputs the whole current channel, or switches to the
/// other channel it names, whatever the working copy holds.
pub proof fn lemma_reset_without_files(r: Reset, current: Seq<char>, overwrite: bool, unrecorded: Option<bool>)
    requires
        !r.dry_run,
        r.files@.len() == 0,
    ensures
        r.spec_reset(current, overwrite, unrecorded) != ResetStep::OutputFiles,
        r.spec_reset(current, overwrite, unrecorded) != ResetStep::OutputFile,
        r.force && r.channel is None ==> r.spec_reset(current, overwrite, unrecorded) == ResetStep::OutputRepository,
        r.force && r.channel is Some && !r.targets_current(current) ==> r.spec_reset(current, overwrite, unrecorded)
            == ResetStep::SwitchChannel,
        r.force && r.targets_current(current) && overwrite ==> r.spec_reset(current, overwrite, unrecorded)
            == ResetStep::OutputRepository,
        r.targets_current(current) && !overwrite ==> r.spec_reset(current, overwrite, unrecorded) == ResetStep::Nothing,
        !r.force && r.channel is None && !overwrite ==> r.spec_reset(current, overwrite, unrecorded) == ResetStep::WarnChangesLost,
        !r.force && (r.channel is None || r.targets_current(current)) && overwrite ==> r.spec_reset(current, overwrite, unrecorded)
            == match unrecorded {
            None => ResetStep::CheckUnrecorded,
            Some(true) => ResetStep::Fail(ResetError::UnrecordedChanges),
            Some(false) => ResetStep::OutputRepository,
        },
        !r.force && r.channel is Some && !r.targets_current(current) ==> r.spec_reset(current, overwrite, unrecorded)
            == match unrecorded {
            None => ResetStep::CheckUnrecorded,
            Some(true) => ResetStep::Fail(ResetError::UnrecordedBeforeSwitch),
            Some(false) => ResetStep::SwitchChannel,
        },
{
}

/// A dry run prints its one file, and is refused with any other number of
/// files; it writes nothing to the working copy.
pub proof fn lemma_reset_dry_run(r: Reset, current: Seq<char>, overwrite: bool, unrecorded: Option<bool>)
    requires
        r.dry_run,
    ensures
        r.files@.len() == 1 ==> r.spec_reset(current, overwrite, unrecorded) == ResetStep::OutputFile,
        r.files@.len() != 1 ==> r.spec_reset(current, overwrite, unrecorded) == ResetStep::Fail(ResetError::DryRunNeedsOneFile),
{
}

/// Whether the strings `a` and `b` are equal.
pub fn str_eq(a: &str, b: &str) -> (r: bool)
    ensures
        r == (a@ == b@),
{
    let n = a.unicode_len();
    if n != b.unicode_len() {
        return false;
    }
    let mut i: usize = 0;
    while i < n
        invariant
            0 <= i <= n,
            n == a@.len(),
            n == b@.len(),
            forall|j: int| 0 <= j < i ==> a@[j] == b@[j],
        decreases n - i,
    {
        if a.get_char(i) != b.get_char(i) {
            return false;
        }
        i = i + 1;
    }
    assert(a@ =~= b@);
    true
}

/// Whether `s` starts with `p`.
pub fn starts_with(s: &str, p: &str) -> (r: bool)
    ensures
        r == prefixed(s@, p@),
{
    let n = p.unicode_len();
    if n > s.unicode_len() {
        return false;
    }
    let mut i: usize = 0;
    while i < n
        invariant
            0 <= i <= n,
            n == p@.len(),
            n <= s@.len(),
            forall|j: int| 0 <= j < i ==> s@[j] == p@[j],
        decreases n - i,
    {
        if s.get_char(i) != p.get_char(i) {
            assert(s@.subrange(0, n as int)[i as int] != p@[i as int]);
            return false;
        }
        i = i + 1;
    }
    assert(s@.subrange(0, n as int) =~= p@);
    true
}

/// `s` starts with `p`.
pub open spec fn prefixed(s: Seq<char>, p: Seq<char>) -> bool {
    p.len() <= s.len() && s.subrange(0, p.len() as int) == p
}

/// The views of the strings `s`.
pub open spec fn views(s: Seq<String>) -> Seq<Seq<char>> {
    s.map_values(|x: String| x@)
}

/// The paths to output, among the paths `paths` in their order: a path
/// that starts with the last path kept is skipped, as outputting that one
/// outputs it.
pub open spec fn roots(paths: Seq<Seq<char>>) -> Seq<Seq<char>>
    decreases paths.len(),
{
    if paths.len() == 0 {
        Seq::empty()
    } else {
        let r = roots(paths.drop_last());
        if r.len() > 0 && prefixed(paths.last(), r.last()) {
            r
        } else {
            r.push(paths.last())
        }
    }
}

/// The paths to output, among the sorted paths `paths` (see [roots]).
pub fn output_roots(paths: &Vec<String>) -> (r: Vec<String>)
    ensures
        views(r@) == roots(views(paths@)),
{
    let mut r: Vec<String> = Vec::new();
    let mut i: usize = 0;
    while i < paths.len()
        invariant
            0 <= i <= paths@.len(),
            views(r@) == roots(views(paths@.take(i as int))),
        decreases paths.len() - i,
    {
        let ghost r0 = r@;
        proof {
            assert(views(paths@.take(i + 1)).drop_last() == views(paths@.take(i as int)));
            assert(views(paths@.take(i + 1)).last() == paths@[i as int]@);
        }
        let skip = if r.len() > 0 {
            starts_with(paths[i].as_str(), r[r.len() - 1].as_str())
        } else {
            false
        };
        if !skip {
            r.push(paths[i].clone());
            assert(views(r@) == views(r0).push(paths@[i as int]@));
        }
        i = i + 1;
    }
    assert(paths@.take(paths@.len() as int) == paths@);
    r
}

/// Whether `v` holds `x`.
fn id_in(v: &Vec<ChangeId>, x: ChangeId) -> (r: bool)
    ensures
        r == v@.contains(x),
{
    let mut i: usize = 0;
    while i < v.len()
        invariant
            0 <= i <= v@.len(),
            forall|j: int| 0 <= j < i ==> v@[j] != x,
        decreases v.len() - i,
    {
        if v[i] == x {
            assert(v@[i as int] == x);
            return true;
        }
        i = i + 1;
    }
    false
}

/// Records in `changediff` the changes of `channel` after its
/// application number `from` (all of them if `from` is `None`), and in
/// `inodes` the files touched by those that were not recorded yet.
pub fn changes_after(
    txn: &Txn,
    channel: &Channel,
    from: Option<u64>,
    changediff: &mut Vec<ChangeId>,
    inodes: &mut Vec<Position<ChangeId>>,
)
    ensures
        forall|c: ChangeId| #[trigger] final(changediff)@.contains(c) <==> old(changediff)@.contains(c) || exists|i: int|
            first_after(from) <= i < channel.log@.len() && channel.log@[i].0 == c,
        forall|p: Position<ChangeId>| #[trigger] old(inodes)@.contains(p) ==> final(inodes)@.contains(p),
        forall|i: int, t: int|
            first_after(from) <= i < channel.log@.len() && 0 <= t < txn.rev_touched@.len() && !old(changediff)@.contains(
                channel.log@[i].0,
            ) && (#[trigger] txn.rev_touched@[t]).0 == (#[trigger] channel.log@[i]).0 ==> final(inodes)@.contains(txn.rev_touched@[t].1),
{
    let n = channel.log.len();
    let start: u64 = match from {
        Some(f) => if f < u64::MAX {
            f + 1
        } else {
            return;
        },
        None => 0,
    };
    let mut i: usize = if (start as u128) < (n as u128) {
        start as usize
    } else {
        n
    };
    assert(i as int == if first_after(from) < n { first_after(from) } else { n as int });
    let ghost i0 = i as int;
    while i < n
        invariant
            i0 <= i <= n,
            n == channel.log@.len(),
            i0 == if first_after(from) < n { first_after(from) } else { n as int },
            forall|c: ChangeId| #[trigger] changediff@.contains(c) <==> old(changediff)@.contains(c) || exists|j: int|
                i0 <= j < i && channel.log@[j].0 == c,
            forall|p: Position<ChangeId>| #[trigger] old(inodes)@.contains(p) ==> inodes@.contains(p),
            forall|j: int, t: int|
                i0 <= j < i && 0 <= t < txn.rev_touched@.len() && !old(changediff)@.contains(channel.log@[j].0)
                    && (#[trigger] txn.rev_touched@[t]).0 == (#[trigger] channel.log@[j]).0 ==> inodes@.contains(txn.rev_touched@[t].1),
        decreases n - i,
    {
        let p = channel.log[i].0;
        if !id_in(changediff, p) {
            let ghost cd0 = changediff@;
            changediff.push(p);
            assert forall|c: ChangeId| #[trigger] changediff@.contains(c) <==> cd0.contains(c) || c == p by {
                if changediff@.contains(c) {
                    let k = choose|k: int| 0 <= k < changediff@.len() && changediff@[k] == c;
                    if k < cd0.len() {
                        assert(cd0[k] == c);
                    }
                }
                if cd0.contains(c) {
                    let k = choose|k: int| 0 <= k < cd0.len() && cd0[k] == c;
                    assert(changediff@[k] == c);
                }
                if c == p {
                    assert(changediff@[changediff@.len() - 1] == c);
                }
            }
            let mut t: usize = 0;
            while t < txn.rev_touched.len()
                invariant
                    0 <= t <= txn.rev_touched@.len(),
                    forall|q: Position<ChangeId>| #[trigger] old(inodes)@.contains(q) ==> inodes@.contains(q),
                    forall|j: int, u: int|
                        i0 <= j < i && 0 <= u < txn.rev_touched@.len() && !old(changediff)@.contains(channel.log@[j].0)
                            && (#[trigger] txn.rev_touched@[u]).0 == (#[trigger] channel.log@[j]).0 ==> inodes@.contains(
                            txn.rev_touched@[u].1,
                        ),
                    forall|u: int| 0 <= u < t && (#[trigger] txn.rev_touched@[u]).0 == p ==> inodes@.contains(txn.rev_touched@[u].1),
                decreases txn.rev_touched.len() - t,
            {
                if txn.rev_touched[t].0 == p {
                    let ghost in0 = inodes@;
                    crate::apply::insert_position(inodes, txn.rev_touched[t].1);
                }
                t = t + 1;
            }
        } else {
            proof {
                if !old(changediff)@.contains(p) {
                    let j = choose|j: int| i0 <= j < i && channel.log@[j].0 == p;
                    assert forall|u: int| 0 <= u < txn.rev_touched@.len() && (#[trigger] txn.rev_touched@[u]).0 == p implies inodes@.contains(txn.rev_touched@[u].1) by {
                        assert(txn.rev_touched@[u].0 == channel.log@[j].0);
                    }
                }
            }
        }
        proof {
            assert forall|j: int, u: int|
                i0 <= j < i + 1 && 0 <= u < txn.rev_touched@.len() && !old(changediff)@.contains(channel.log@[j].0)
                    && (#[trigger] txn.rev_touched@[u]).0 == (#[trigger] channel.log@[j]).0 implies inodes@.contains(txn.rev_touched@[u].1) by {
                if j == i {
                    assert(channel.log@[j].0 == p);
                }
            }
        }
        i = i + 1;
    }
}

/// The application number after `from`: 0 when `from` is `None`.
pub open spec fn first_after(from: Option<u64>) -> int {
    match from {
        Some(f) => f + 1,
        None => 0,
    }
}

/// The time of the last modification of `channel`, in milliseconds since
/// the Unix epoch.
pub fn last_modified(channel: &Channel) -> (r: u64)
    ensures
        r == channel.last_modified,
{
    channel.last_modified
}

/// The index of the first `.` of `s`, if any.
pub open spec fn first_dot(s: Seq<char>) -> Option<int>
    decreases s.len(),
{
    if s.len() == 0 {
        None
    } else if s[0] == '.' {
        Some(0)
    } else {
        match first_dot(s.drop_first()) {
            Some(i) => Some(i + 1),
            None => None,
        }
    }
}

pub proof fn lemma_first_dot(s: Seq<char>)
    ensures
        first_dot(s) matches Some(i) ==> 0 <= i < s.len() && s[i] == '.' && forall|j: int| 0 <= j < i ==> s[j] != '.',
        first_dot(s) is None ==> forall|j: int| 0 <= j < s.len() ==> s[j] != '.',
    decreases s.len(),
{
    if s.len() > 0 && s[0] != '.' {
        lemma_first_dot(s.drop_first());
        assert forall|j: int| 0 < j < s.len() implies s.drop_first()[j - 1] == s[j] by {}
    }
}

/// The index of the first `.` of `s`, if any.
fn find_dot(s: &str) -> (r: Option<usize>)
    ensures
        match r {
            Some(k) => first_dot(s@) == Some(k as int),
            None => first_dot(s@) is None,
        },
{
    proof { lemma_first_dot(s@); }
    let n = s.unicode_len();
    let mut i: usize = 0;
    while i < n
        invariant
            0 <= i <= n,
            n == s@.len(),
            forall|j: int| 0 <= j < i ==> s@[j] != '.',
        decreases n - i,
    {
        if s.get_char(i) == '.' {
            proof {
                lemma_first_dot(s@);
                if let Some(k) = first_dot(s@) {
                    if k > i {
                        assert(s@[i as int] == '.');
                    }
                }
            }
            return Some(i);
        }
        i = i + 1;
    }
    proof {
        if let Some(k) = first_dot(s@) {
            assert(s@[k] == '.');
        }
    }
    None
}

/// The value of a decimal digit.
pub open spec fn dec_digit(c: char) -> int {
    c as int - '0' as int
}

/// Whether `c` is a decimal digit.
pub open spec fn is_dec_digit(c: char) -> bool {
    '0' <= c && c <= '9'
}

/// The value of a sequence of decimal digits.
pub open spec fn dec_value(s: Seq<char>) -> int
    decreases s.len(),
{
    if s.len() == 0 {
        0
    } else {
        dec_value(s.drop_last()) * 10 + dec_digit(s.last())
    }
}

/// The unsigned 64-bit integer that `s` writes: decimal digits, possibly
/// after a `+`, whose value fits.
pub open spec fn parse_u64_spec(s: Seq<char>) -> Option<u64> {
    if unsigned_digits(s).len() > 0 && all_digits(unsigned_digits(s)) && dec_value(unsigned_digits(s)) <= u64::MAX {
        Some(dec_value(unsigned_digits(s)) as u64)
    } else {
        None
    }
}

/// The digits of a decimal number, after its `+` if it has one.
pub open spec fn unsigned_digits(s: Seq<char>) -> Seq<char> {
    if s.len() > 0 && s[0] == '+' {
        s.drop_first()
    } else {
        s
    }
}

/// Every character of `d` is a decimal digit.
pub open spec fn all_digits(d: Seq<char>) -> bool {
    forall|i: int| 0 <= i < d.len() ==> #[trigger] is_dec_digit(d[i])
}

proof fn lemma_dec_value_nonneg(s: Seq<char>)
    requires
        forall|i: int| 0 <= i < s.len() ==> #[trigger] is_dec_digit(s[i]),
    ensures
        dec_value(s) >= 0,
    decreases s.len(),
{
    if s.len() > 0 {
        assert(is_dec_digit(s[s.len() - 1]));
        lemma_dec_value_nonneg(s.drop_last());
    }
}

proof fn lemma_dec_value_monotone(s: Seq<char>, k: int)
    requires
        0 <= k <= s.len(),
        forall|i: int| 0 <= i < s.len() ==> #[trigger] is_dec_digit(s[i]),
    ensures
        dec_value(s.take(k)) <= dec_value(s),
    decreases s.len() - k,
{
    if k < s.len() {
        lemma_dec_value_monotone(s, k + 1);
        assert(s.take(k + 1).drop_last() == s.take(k));
        assert(is_dec_digit(s[k]));
        assert(forall|i: int| 0 <= i < s.take(k).len() ==> #[trigger] is_dec_digit(s.take(k)[i]));
        lemma_dec_value_nonneg(s.take(k));
    } else {
        assert(s.take(k) == s);
    }
}

/// Parses an unsigned 64-bit integer, written in decimal.
pub fn parse_u64(s: &str) -> (r: Option<u64>)
    ensures
        r == parse_u64_spec(s@),
{
    let n = s.unicode_len();
    let start: usize = if n > 0 && s.get_char(0) == '+' {
        1
    } else {
        0
    };
    let ghost d = unsigned_digits(s@);
    assert(d == s@.skip(start as int));
    if start >= n {
        return None;
    }
    let mut v: u64 = 0;
    let mut i: usize = start;
    while i < n
        invariant
            start <= i <= n,
            n == s@.len(),
            start < n,
            d == s@.skip(start as int),
            d == unsigned_digits(s@),
            forall|j: int| 0 <= j < i - start ==> #[trigger] is_dec_digit(d[j]),
            v as int == dec_value(d.take(i - start)),
        decreases n - i,
    {
        let c = s.get_char(i);
        assert(c == d[i - start]);
        assert(d.take(i - start + 1).drop_last() == d.take(i - start));
        if !('0' <= c && c <= '9') {
            assert(!is_dec_digit(d[i - start]));
            assert(!(forall|j: int| 0 <= j < d.len() ==> #[trigger] is_dec_digit(d[j])));
            return None;
        }
        let digit: u64 = (c as u32 - '0' as u32) as u64;
        match v.checked_mul(10) {
            Some(m) => match m.checked_add(digit) {
                Some(w) => {
                    v = w;
                },
                None => {
                    proof {
                        assert(forall|j: int| 0 <= j < i - start + 1 ==> #[trigger] is_dec_digit(d[j]));
                        if forall|j: int| 0 <= j < d.len() ==> #[trigger] is_dec_digit(d[j]) {
                            lemma_dec_value_monotone(d, i - start + 1);
                            assert(dec_value(d.take(i - start + 1)) == dec_value(d.take(i - start)) * 10 + dec_digit(c));
                            assert(dec_value(d) > u64::MAX);
                        }
                    }
                    return None;
                },
            },
            None => {
                proof {
                    assert(forall|j: int| 0 <= j < i - start ==> #[trigger] is_dec_digit(d.take(i - start)[j]));
                    lemma_dec_value_nonneg(d.take(i - start));
                    if forall|j: int| 0 <= j < d.len() ==> #[trigger] is_dec_digit(d[j]) {
                        lemma_dec_value_monotone(d, i - start + 1);
                    }
                }
                return None;
            },
        }
        i = i + 1;
    }
    assert(d.take(n - start) == d);
    Some(v)
}

/// The position that the text `s` designates: the text form of a change
/// identifier, a `.`, and a decimal offset (up to the next `.`).
pub open spec fn parse_pos_spec(s: Seq<char>) -> Option<Position<ChangeId>> {
    match first_dot(s) {
        None => None,
        Some(i) => {
            let rest = s.skip(i + 1);
            let b = match first_dot(rest) {
                Some(j) => rest.take(j),
                None => rest,
            };
            match (decode_spec(s.take(i)), parse_u64_spec(b)) {
                (Some(c), Some(p)) => Some(Position { change: ChangeId(c), pos: ChangePosition(p) }),
                _ => None,
            }
        },
    }
}

pub fn parse_pos(s: &str) -> (r: Option<Position<ChangeId>>)
    ensures
        r == parse_pos_spec(s@),
{
    proof { lemma_first_dot(s@); }
    let i = match find_dot(s) {
        Some(i) => i,
        None => return None,
    };
    let n = s.unicode_len();
    let a = s.substring_char(0, i);
    let rest = s.substring_char(i + 1, n);
    assert(a@ =~= s@.take(i as int));
    assert(rest@ =~= s@.skip(i + 1));
    proof { lemma_first_dot(rest@); }
    let b = match find_dot(rest) {
        Some(j) => {
            let b = rest.substring_char(0, j);
            assert(b@ =~= rest@.take(j as int));
            b
        },
        None => rest,
    };
    let change = match ChangeId::from_base32(a) {
        Some(c) => c,
        None => return None,
    };
    let pos = match parse_u64(b) {
        Some(p) => p,
        None => return None,
    };
    Some(Position { change, pos: ChangePosition(pos) })
}

/// The token that an authentication server sends back, in the query of
/// its request: what follows `token=` at its start.
pub fn token_from_query(query: Option<&str>) -> (r: Option<String>)
    ensures
        match query {
            Some(q) => if prefixed(q@, "token="@) {
                r is Some && r.unwrap()@ == q@.skip(6)
            } else {
                r is None
            },
            None => r is None,
        },
{
    match query {
        Some(q) => {
            proof { reveal_strlit("token="); }
            if starts_with(q, "token=") {
                let n = q.unicode_len();
                let t = q.substring_char(6, n);
                assert(t@ =~= q@.skip(6));
                Some(String::from_str(t))
            } else {
                None
            }
        },
        None => None,
    }
}

/// Applying changes to a channel.
#[derive(Debug)]
pub struct Apply {
    pub repo_path: Option<String>,
    /// The channel to apply the changes to.
    pub channel: Option<String>,
    /// Only apply the dependencies of the change, not the change itself.
    pub deps_only: bool,
    /// The changes to apply.
    pub change: Vec<String>,
}

/// The errors of the application of changes by the command.
#[derive(Debug)]
pub enum ApplyCommandError<C> {
    /// Only the dependencies of a single change can be applied.
    DepsOnlyNeedsOneChange,
    Apply(ApplyError<C>),
}

/// The files that the registered changes `hashes` touch, each once.
pub open spec fn touched_by(txn: Txn, hashes: Seq<ChangeHash>, p: Position<ChangeId>) -> bool {
    exists|k: int, t: int|
        0 <= k < hashes.len() && 0 <= t < txn.rev_touched@.len() && internal_of(txn.internal@, #[trigger] hashes[k]) == Some(
            (#[trigger] txn.rev_touched@[t]).0,
        ) && txn.rev_touched@[t].1 == p
}

pub fn touched_inodes(txn: &Txn, hashes: &Vec<ChangeHash>) -> (r: Vec<Position<ChangeId>>)
    ensures
        r@.no_duplicates(),
        forall|p: Position<ChangeId>| r@.contains(p) <==> touched_by(*txn, hashes@, p),
{
    let mut r: Vec<Position<ChangeId>> = Vec::new();
    let mut k: usize = 0;
    while k < hashes.len()
        invariant
            0 <= k <= hashes@.len(),
            r@.no_duplicates(),
            forall|p: Position<ChangeId>| r@.contains(p) <==> touched_by(*txn, hashes@.take(k as int), p),
        decreases hashes.len() - k,
    {
        let ghost hk = hashes@.take(k as int);
        let ghost hk1 = hashes@.take(k + 1);
        assert forall|p: Position<ChangeId>| touched_by(*txn, hk, p) implies touched_by(*txn, hk1, p) by {
            let (a, t) = choose|a: int, t: int|
                0 <= a < hk.len() && 0 <= t < txn.rev_touched@.len() && internal_of(txn.internal@, #[trigger] hk[a]) == Some(
                    (#[trigger] txn.rev_touched@[t]).0,
                ) && txn.rev_touched@[t].1 == p;
            assert(hk1[a] == hk[a]);
        }
        if let Some(cid) = txn.get_internal(&hashes[k]) {
            let mut t: usize = 0;
            while t < txn.rev_touched.len()
                invariant
                    0 <= t <= txn.rev_touched@.len(),
                    r@.no_duplicates(),
                    internal_of(txn.internal@, hashes@[k as int]) == Some(cid),
                    hk1 == hashes@.take(k + 1),
                    hk == hashes@.take(k as int),
                    0 <= k < hashes@.len(),
                    forall|p: Position<ChangeId>| r@.contains(p) ==> touched_by(*txn, hk1, p),
                    forall|p: Position<ChangeId>| touched_by(*txn, hk, p) ==> r@.contains(p),
                    forall|u: int| 0 <= u < t && (#[trigger] txn.rev_touched@[u]).0 == cid ==> r@.contains(txn.rev_touched@[u].1),
                decreases txn.rev_touched.len() - t,
            {
                if txn.rev_touched[t].0 == cid {
                    let p = txn.rev_touched[t].1;
                    assert(hk1[k as int] == hashes@[k as int]);
                    assert(touched_by(*txn, hk1, p));
                    crate::apply::insert_position(&mut r, p);
                }
                t = t + 1;
            }
            assert forall|p: Position<ChangeId>| touched_by(*txn, hk1, p) implies r@.contains(p) by {
                let (a, u) = choose|a: int, u: int|
                    0 <= a < hk1.len() && 0 <= u < txn.rev_touched@.len() && internal_of(txn.internal@, #[trigger] hk1[a]) == Some(
                        (#[trigger] txn.rev_touched@[u]).0,
                    ) && txn.rev_touched@[u].1 == p;
                if a < k {
                    assert(hk[a] == hk1[a]);
                    assert(touched_by(*txn, hk, p));
                }
            }
        } else {
            assert forall|p: Position<ChangeId>| touched_by(*txn, hk1, p) implies touched_by(*txn, hk, p) by {
                let (a, u) = choose|a: int, u: int|
                    0 <= a < hk1.len() && 0 <= u < txn.rev_touched@.len() && internal_of(txn.internal@, #[trigger] hk1[a]) == Some(
                        (#[trigger] txn.rev_touched@[u]).0,
                    ) && txn.rev_touched@[u].1 == p;
                if a == k {
                    assert(hk1[a] == hashes@[k as int]);
                } else {
                    assert(hk[a] == hk1[a]);
                }
            }
        }
        k = k + 1;
    }
    assert(hashes@.take(hashes@.len() as int) == hashes@);
    r
}

/// Applies the changes `hashes`, taken from `store`, to `channel`, each
/// after its dependencies (only the dependencies of the single change
/// given, with `deps_only`). Returns the files that the changes touch.
pub fn apply_changes<P: ChangeStore>(
    store: &P,
    txn: &mut Txn,
    channel: &mut Channel,
    hashes: &Vec<ChangeHash>,
    deps_only: bool,
) -> (r: Result<Vec<Position<ChangeId>>, ApplyCommandError<P::Error>>)
    requires
        pristine_wf(*old(txn), *old(channel)),
        deps_only ==> hashes@.len() > 0,
    ensures
        pristine_wf(*final(txn), *final(channel)),
        old(channel).log@.is_prefix_of(final(channel).log@),
        deps_only && hashes@.len() > 1 ==> (r matches Err(ApplyCommandError::DepsOnlyNeedsOneChange)) && *final(channel)
            == *old(channel) && *final(txn) == *old(txn),
        (r matches Err(ApplyCommandError::DepsOnlyNeedsOneChange)) ==> deps_only && hashes@.len() > 1,
        !deps_only && hashes@.len() == 0 ==> (r matches Ok(v) && v@.len() == 0),
        r matches Ok(v) ==> v@.no_duplicates() && forall|p: Position<ChangeId>| v@.contains(p) <==> touched_by(*final(txn), hashes@, p),
        deps_only && hashes@.len() == 1 ==> forall|i: int| old(channel).log@.len() <= i < final(channel).log@.len() ==> (#[trigger] final(channel).log@[i]).1 != hashes@[0],
        forall|i: int| old(channel).log@.len() <= i < final(channel).log@.len() ==> deps_before(store.dependencies_of((#[trigger] final(channel).log@[i]).1), final(txn).internal@, final(channel).log@, i),
        r is Ok && !deps_only ==> forall|k: int| 0 <= k < hashes@.len() ==> hash_applied(
            final(txn).internal@,
            final(channel).log@,
            #[trigger] hashes@[k],
        ),
{
    if deps_only {
        if hashes.len() > 1 {
            return Err(ApplyCommandError::DepsOnlyNeedsOneChange);
        }
        let last = hashes[hashes.len() - 1];
        match apply_change_rec(store, txn, channel, &last, true) {
            Ok(()) => {},
            Err(e) => return Err(ApplyCommandError::Apply(e)),
        }
    } else {
        let mut k: usize = 0;
        while k < hashes.len()
            invariant
                0 <= k <= hashes@.len(),
                !deps_only,
                pristine_wf(*txn, *channel),
                old(channel).log@.is_prefix_of(channel.log@),
                forall|j: int| 0 <= j < k ==> hash_applied(txn.internal@, channel.log@, #[trigger] hashes@[j]),
                forall|i: int| old(channel).log@.len() <= i < channel.log@.len() ==> deps_before(store.dependencies_of((#[trigger] channel.log@[i]).1), txn.internal@, channel.log@, i),
            decreases hashes.len() - k,
        {
            let ghost l0 = channel.log@;
            let ghost i0 = txn.internal@;
            let r = apply_change_rec(store, txn, channel, &hashes[k], false);
            proof {
                lemma_deps_before_grows(store, old(channel).log@.len() as int, i0, l0, txn.internal@, channel.log@);
            }
            match r {
                Ok(()) => {},
                Err(e) => {
                    proof { lemma_prefix_trans(old(channel).log@, l0, channel.log@); }
                    return Err(ApplyCommandError::Apply(e));
                },
            }
            proof {
                lemma_prefix_trans(old(channel).log@, l0, channel.log@);
                assert forall|j: int| 0 <= j < k + 1 implies hash_applied(txn.internal@, channel.log@, #[trigger] hashes@[j]) by {
                    if j < k {
                        lemma_hash_applied_grows(i0, l0, txn.internal@, channel.log@, hashes@[j]);
                    }
                }
            }
            k = k + 1;
        }
    }
    let v = touched_inodes(txn, hashes);
    proof {
        if hashes@.len() == 0 && v@.len() > 0 {
            assert(v@.contains(v@[0]));
        }
    }
    Ok(v)
}

proof fn lemma_prefix_trans<A>(a: Seq<A>, b: Seq<A>, c: Seq<A>)
    requires
        a.is_prefix_of(b),
        b.is_prefix_of(c),
    ensures
        a.is_prefix_of(c),
{
    assert forall|i: int| 0 <= i < a.len() implies a[i] == c[i] by {
        assert(b[i] == c[i]);
    }
}

/// Authenticating to a server.
#[derive(Debug)]
pub struct Client {
    /// The URL to authenticate to.
    pub url: String,
}

impl Client {
    /// The port to try after `port` when the local server cannot listen on
    /// it: the next one, unless `port` is the last.
    pub fn next_port(port: u16) -> (r: Option<u16>)
        ensures
            port < u16::MAX ==> r == Some((port + 1) as u16),
            port == u16::MAX ==> r is None,
    {
        if port < u16::MAX {
            Some(port + 1)
        } else {
            None
        }
    }
}

/// Printing the internals of a repository.
#[derive(Debug)]
pub struct Debug {
    pub repo_path: Option<String>,
    pub channel: Option<String>,
    pub sanakirja_only: bool,
    pub root: Option<String>,
}

/// Creating a channel from another one, from a change, or from a state of the current channel.
#[derive(Debug)]
pub struct Fork {
    pub repo_path: Option<String>,
    pub state: Option<String>,
    pub channel: Option<String>,
    pub change: Option<String>,
    pub to: String,
}

/// The arguments of the creation of an identity.
#[derive(Debug)]
pub struct New {
    pub no_link: bool,
    pub no_prompt: bool,
    pub username: Option<String>,
    pub remote: Option<String>,
    pub display_name: Option<String>,
    pub email: Option<String>,
    pub name: Option<String>,
    /// In milliseconds since the Unix epoch.
    pub expiry: Option<i64>,
    pub password: bool,
}

/// The arguments of the edition of an identity.
#[derive(Debug)]
pub struct Edit {
    pub old_name: Option<String>,
    pub no_link: bool,
    pub no_prompt: bool,
    pub username: Option<String>,
    pub remote: Option<String>,
    pub display_name: Option<String>,
    pub email: Option<String>,
    pub new_name: Option<String>,
    /// In milliseconds since the Unix epoch.
    pub expiry: Option<i64>,
    pub password: bool,
}

/// The subcommands of identity management.
#[derive(Debug)]
pub enum SubCommand {
    New(New),
    Repair,
    Prove { identity_name: Option<String>, server: Option<String> },
    List,
    Edit(Edit),
    Remove { identity_name: Option<String>, no_confirm: bool },
}

/// Managing identities.
#[derive(Debug)]
pub struct IdentityCommand {
    pub subcmd: SubCommand,
    /// Do not verify certificates.
    pub no_cert_check: bool,
}

/// The changes that depend on others: the first of each entry of the
/// dependency table, and `id`.
pub open spec fn dependency_ids(txn: Txn, id: ChangeId) -> Set<ChangeId> {
    txn.dep@.map_values(|x: (ChangeId, ChangeId)| x.0).to_set().insert(id)
}

/// `h` is the hash of a change of [dependency_ids].
pub open spec fn is_dependency_hash(txn: Txn, id: ChangeId, h: ChangeHash) -> bool {
    exists|c: ChangeId| #[trigger] dependency_ids(txn, id).contains(c) && external_of(txn.internal@, c) == Some(h)
}

/// Sorts `v` by increasing application number.
fn sort_by_number(v: &mut Vec<(ChangeId, u64, bool)>)
    ensures
        final(v)@.to_multiset() == old(v)@.to_multiset(),
        final(v)@.len() == old(v)@.len(),
        forall|i: int, j: int| 0 <= i < j < final(v)@.len() ==> (#[trigger] final(v)@[i]).1 <= (#[trigger] final(v)@[j]).1,
{
    broadcast use vstd::seq_lib::group_to_multiset_ensures;
    let n = v.len();
    if n == 0 {
        return;
    }
    let mut i: usize = 1;
    while i < n
        invariant
            1 <= i <= n,
            v@.len() == n,
            v@.to_multiset() == old(v)@.to_multiset(),
            forall|x: int, y: int| 0 <= x < y < i ==> (#[trigger] v@[x]).1 <= (#[trigger] v@[y]).1,
        decreases n - i,
    {
        let ghost b0 = v@;
        let x = v.remove(i);
        proof {
            vstd::seq_lib::to_multiset_remove(b0, i as int);
        }
        assert(x == b0[i as int]);
        let mut j: usize = i;
        while j > 0 && v[j - 1].1 > x.1
            invariant
                0 <= j <= i,
                i < n,
                v@.len() == n - 1,
                v@ == b0.remove(i as int),
                forall|p: int, q: int| 0 <= p < q < i ==> (#[trigger] v@[p]).1 <= (#[trigger] v@[q]).1,
                forall|k: int| j <= k < i ==> (#[trigger] v@[k]).1 > x.1,
            decreases j,
        {
            j = j - 1;
        }
        let ghost b1 = v@;
        v.insert(j, x);
        proof {
            vstd::seq_lib::to_multiset_insert(b1, j as int, x);
            vstd::seq_lib::to_multiset_contains(b0, x);
            assert(b0.contains(x)) by {
                assert(b0[i as int] == x);
            }
            broadcast use vstd::multiset::group_multiset_axioms;
            assert(v@.to_multiset() =~= b0.to_multiset());
            assert forall|p: int, q: int| 0 <= p < q < i + 1 implies (#[trigger] v@[p]).1 <= (#[trigger] v@[q]).1 by {
                if q < j {
                    assert(v@[p] == b1[p] && v@[q] == b1[q]);
                } else if q == j {
                    assert(v@[p] == b1[p] && v@[q] == x);
                    assert(b1[j - 1].1 <= x.1);
                    if p < j - 1 {
                        assert(b1[p].1 <= b1[j - 1].1);
                    }
                } else if p < j {
                    assert(v@[p] == b1[p] && v@[q] == b1[q - 1]);
                } else if p == j {
                    assert(v@[p] == x && v@[q] == b1[q - 1]);
                } else {
                    assert(v@[p] == b1[p - 1] && v@[q] == b1[q - 1]);
                }
            }
        }
        i = i + 1;
    }
}

/// `c` is a change of `channel` that depends directly on `p`.
pub open spec fn dep_child(txn: Txn, channel: Channel, p: ChangeId, c: ChangeId) -> bool {
    txn.dep@.contains((c, p)) && log_position(channel.log@, c) is Some
}

/// The changes `s` are the ones that `dependents` lists: they hold `id`,
/// every change of the channel that depends on one of them, and each listed
/// hash is the hash of one of them.
pub open spec fn lists_dependents(txn: Txn, channel: Channel, id: ChangeId, s: Set<ChangeId>, r: Seq<ChangeHash>) -> bool {
    &&& s.contains(id)
    &&& forall|p: ChangeId, c: ChangeId| s.contains(p) && #[trigger] dep_child(txn, channel, p, c) ==> s.contains(c)
    &&& forall|c: ChangeId| #[trigger] s.contains(c) && external_of(txn.internal@, c) is Some ==> r.contains(
        external_of(txn.internal@, c).unwrap(),
    )
    &&& forall|k: int| 0 <= k < r.len() ==> exists|c: ChangeId| #[trigger] s.contains(c) && external_of(txn.internal@, c) == Some(
        #[trigger] r[k],
    )
}

/// The hashes of `id` and of the changes of `channel` that depend on it,
/// directly or not, each once: a change is listed after the changes that
/// depend on it and were not listed yet (the later ones on the channel
/// first), so `id` comes last.
pub fn dependents(txn: &Txn, channel: &Channel, id: ChangeId) -> (r: Vec<ChangeHash>)
    ensures
        forall|k: int| 0 <= k < r@.len() ==> is_dependency_hash(*txn, id, #[trigger] r@[k]),
        external_of(txn.internal@, id) is Some ==> r@.len() > 0 && r@.last() == external_of(txn.internal@, id).unwrap(),
        exists|s: Set<ChangeId>| lists_dependents(*txn, *channel, id, s, r@),
{
    let ghost u = dependency_ids(*txn, id);
    proof {
        vstd::seq_lib::seq_to_set_is_finite(txn.dep@.map_values(|x: (ChangeId, ChangeId)| x.0));
    }
    let mut out: Vec<ChangeHash> = Vec::new();
    let mut ids: Vec<(ChangeId, u64, bool)> = Vec::new();
    ids.push((id, 0, false));
    let mut seen: Vec<ChangeId> = Vec::new();
    while ids.len() > 0
        invariant
            u == dependency_ids(*txn, id),
            u.finite(),
            forall|k: int| 0 <= k < ids@.len() ==> u.contains(#[trigger] ids@[k].0),
            ids@.len() > 0 ==> ids@[0].0 == id,
            ids@.len() > 0 && ids@[0].2 ==> seen@.contains(id),
            ids@.len() > 0 && !ids@[0].2 ==> seen@.len() == 0 && ids@.len() == 1,
            ids@.len() == 0 ==> seen@.contains(id),
            ids@.len() == 0 ==> (external_of(txn.internal@, id) is Some ==> out@.len() > 0 && out@.last() == external_of(txn.internal@, id).unwrap()),
            seen@.no_duplicates(),
            forall|k: int| 0 <= k < seen@.len() ==> u.contains(#[trigger] seen@[k]),
            seen@.len() <= u.len(),
            forall|k: int| 0 <= k < out@.len() ==> exists|c: ChangeId| #[trigger] u.contains(c) && external_of(txn.internal@, c) == Some(
                #[trigger] out@[k],
            ),
            forall|k: int| 0 <= k < out@.len() ==> exists|c: ChangeId| #[trigger] seen@.contains(c) && external_of(txn.internal@, c) == Some(
                #[trigger] out@[k],
            ),
            forall|j: int| 0 <= j < ids@.len() && (#[trigger] ids@[j]).2 ==> seen@.contains(ids@[j].0),
            forall|p: ChangeId, c: ChangeId| seen@.contains(p) && #[trigger] dep_child(*txn, *channel, p, c) ==> seen@.contains(c)
                || exists|j: int| 0 <= j < ids@.len() && (#[trigger] ids@[j]).0 == c && !ids@[j].2,
            forall|c: ChangeId| #[trigger] seen@.contains(c) ==> (exists|j: int| 0 <= j < ids@.len() && #[trigger] ids@[j] == (c, ids@[j].1, true))
                || (external_of(txn.internal@, c) is Some ==> out@.contains(external_of(txn.internal@, c).unwrap())),
        decreases u.len() - seen@.len(), ids@.len(),
    {
        let ghost old_ids = ids@;
        let ghost seen0 = seen@;
        let ghost out0 = out@;
        let (cur, n, visited) = ids.pop().unwrap();
        assert(ids@ == old_ids.drop_last());
        assert((cur, n, visited) == old_ids.last());
        assert(ids@.len() == 0 ==> cur == id && (!visited ==> seen@.len() == 0));
        assert(ids@.len() > 0 ==> ids@[0] == old_ids[0]);
        assert(forall|j: int| 0 <= j < ids@.len() ==> ids@[j] == old_ids[j]);
        if visited {
            match txn.get_external(cur) {
                Some(h) => {
                    out.push(h);
                    assert forall|k: int| 0 <= k < out@.len() implies exists|c: ChangeId| #[trigger] u.contains(c) && external_of(txn.internal@, c) == Some(
                        #[trigger] out@[k],
                    ) by {
                        if k < out0.len() {
                            assert(out@[k] == out0[k]);
                        } else {
                            assert(u.contains(cur) && external_of(txn.internal@, cur) == Some(out@[k]));
                        }
                    }
                    assert forall|k: int| 0 <= k < out@.len() implies exists|c: ChangeId| #[trigger] seen@.contains(c) && external_of(txn.internal@, c) == Some(
                        #[trigger] out@[k],
                    ) by {
                        if k < out0.len() {
                            assert(out@[k] == out0[k]);
                        } else {
                            assert(old_ids[old_ids.len() - 1].2);
                            assert(seen@.contains(cur) && external_of(txn.internal@, cur) == Some(out@[k]));
                        }
                    }
                },
                None => {},
            }
            proof {
                assert forall|p: ChangeId, c: ChangeId| seen@.contains(p) && #[trigger] dep_child(*txn, *channel, p, c) implies seen@.contains(c)
                    || exists|j: int| 0 <= j < ids@.len() && (#[trigger] ids@[j]).0 == c && !ids@[j].2 by {
                    if !seen@.contains(c) {
                        let j = choose|j: int| 0 <= j < old_ids.len() && (#[trigger] old_ids[j]).0 == c && !old_ids[j].2;
                        assert(j < old_ids.len() - 1);
                        assert(ids@[j] == old_ids[j]);
                    }
                }
                assert forall|c: ChangeId| #[trigger] seen@.contains(c) implies (exists|j: int| 0 <= j < ids@.len() && #[trigger] ids@[j] == (c, ids@[j].1, true))
                    || (external_of(txn.internal@, c) is Some ==> out@.contains(external_of(txn.internal@, c).unwrap())) by {
                    if c == cur {
                        if external_of(txn.internal@, c) is Some {
                            assert(out@[out@.len() - 1] == external_of(txn.internal@, c).unwrap());
                        }
                    } else if exists|j: int| 0 <= j < old_ids.len() && #[trigger] old_ids[j] == (c, old_ids[j].1, true) {
                        let j = choose|j: int| 0 <= j < old_ids.len() && #[trigger] old_ids[j] == (c, old_ids[j].1, true);
                        assert(j < old_ids.len() - 1);
                        assert(ids@[j] == old_ids[j]);
                    } else {
                        if external_of(txn.internal@, c) is Some {
                            let q = choose|q: int| 0 <= q < out0.len() && out0[q] == external_of(txn.internal@, c).unwrap();
                            assert(out@[q] == out0[q]);
                        }
                    }
                }
            }
        } else if !id_in(&seen, cur) {
            seen.push(cur);
            proof {
                assert(seen@.no_duplicates()) by {
                    assert forall|a: int, b: int| 0 <= a < b < seen@.len() implies seen@[a] != seen@[b] by {
                        if b == seen@.len() - 1 {
                            assert(seen0[a] == seen@[a]);
                        }
                    }
                }
                seen@.unique_seq_to_set();
                assert(seen@.to_set().subset_of(u)) by {
                    assert forall|x: ChangeId| seen@.to_set().contains(x) implies u.contains(x) by {
                        let k = choose|k: int| 0 <= k < seen@.len() && seen@[k] == x;
                        assert(u.contains(seen@[k]));
                    }
                }
                vstd::set_lib::lemma_len_subset(seen@.to_set(), u);
                assert forall|x: ChangeId| seen0.contains(x) implies seen@.contains(x) by {
                    let k = choose|k: int| 0 <= k < seen0.len() && seen0[k] == x;
                    assert(seen@[k] == x);
                }
                assert(seen@[seen@.len() - 1] == cur);
            }
            let ghost before_push = ids@;
            ids.push((cur, n, true));
            proof {
                if before_push.len() == 0 {
                    assert(cur == id);
                    assert(seen@[seen@.len() - 1] == id);
                } else {
                    assert(ids@[0] == before_push[0]);
                    assert(before_push[0] == old_ids[0]);
                    assert(old_ids[0].2);
                }
                assert(seen@.contains(id)) by {
                    if before_push.len() == 0 {
                        assert(seen@[seen@.len() - 1] == id);
                    } else {
                        assert(seen0.contains(id));
                    }
                }
            }
            let mut children: Vec<(ChangeId, u64, bool)> = Vec::new();
            let mut t: usize = 0;
            while t < txn.dep.len()
                invariant
                    0 <= t <= txn.dep@.len(),
                    u == dependency_ids(*txn, id),
                    forall|k: int| 0 <= k < children@.len() ==> u.contains(#[trigger] children@[k].0),
                    forall|k: int| 0 <= k < children@.len() ==> !(#[trigger] children@[k]).2,
                    forall|j: int| 0 <= j < t && (#[trigger] txn.dep@[j]).1 == cur && log_position(channel.log@, txn.dep@[j].0) is Some
                        ==> exists|q: int| 0 <= q < children@.len() && (#[trigger] children@[q]).0 == txn.dep@[j].0,
                decreases txn.dep.len() - t,
            {
                let (c, d) = txn.dep[t];
                let ghost ch0 = children@;
                if d == cur {
                    if let Some(m) = channel.get_changeset(c) {
                        assert(u.contains(c)) by {
                            let s = txn.dep@.map_values(|x: (ChangeId, ChangeId)| x.0);
                            assert(s[t as int] == c);
                            assert(s.contains(c));
                        }
                        children.push((c, m, false));
                        assert(children@[children@.len() - 1].0 == c);
                    }
                }
                assert forall|j: int| 0 <= j < t + 1 && (#[trigger] txn.dep@[j]).1 == cur && log_position(channel.log@, txn.dep@[j].0) is Some
                    implies exists|q: int| 0 <= q < children@.len() && (#[trigger] children@[q]).0 == txn.dep@[j].0 by {
                    if j < t {
                        let q = choose|q: int| 0 <= q < ch0.len() && (#[trigger] ch0[q]).0 == txn.dep@[j].0;
                        assert(children@[q] == ch0[q]);
                    } else {
                        assert(children@[children@.len() - 1].0 == txn.dep@[j].0);
                    }
                }
                t = t + 1;
            }
            let ghost c0 = children@;
            sort_by_number(&mut children);
            proof {
                broadcast use vstd::seq_lib::group_to_multiset_ensures;
                assert forall|k: int| 0 <= k < children@.len() implies u.contains((#[trigger] children@[k]).0) && !children@[k].2 by {
                    assert(children@.to_multiset().count(children@[k]) > 0);
                    assert(c0.contains(children@[k]));
                    let p = choose|p: int| 0 <= p < c0.len() && c0[p] == children@[k];
                    assert(u.contains(c0[p].0));
                }
                assert forall|q: int| 0 <= q < c0.len() implies exists|q2: int| 0 <= q2 < children@.len() && (#[trigger] children@[q2]) == #[trigger] c0[q] by {
                    assert(c0.contains(c0[q]));
                    assert(c0.to_multiset().count(c0[q]) > 0);
                    assert(children@.contains(c0[q]));
                }
            }
            let mut k: usize = 0;
            let ghost len0 = ids@.len();
            let ghost ids0 = ids@;
            while k < children.len()
                invariant
                    0 <= k <= children@.len(),
                    ids@.len() == len0 + k,
                    len0 > 0,
                    ids0.len() == len0,
                    forall|j: int| 0 <= j < len0 ==> #[trigger] ids@[j] == ids0[j],
                    forall|j: int| len0 <= j < len0 + k ==> #[trigger] ids@[j] == children@[j - len0],
                    ids@[0].0 == id,
                    ids@[0].2,
                    seen@.contains(id),
                    forall|j: int| 0 <= j < ids@.len() ==> u.contains(#[trigger] ids@[j].0),
                    forall|j: int| 0 <= j < children@.len() ==> u.contains(#[trigger] children@[j].0),
                    forall|j: int| 0 <= j < children@.len() ==> !(#[trigger] children@[j]).2,
                decreases children.len() - k,
            {
                ids.push(children[k]);
                k = k + 1;
            }
            proof {
                assert(ids0[len0 - 1] == (cur, n, true));
                assert forall|j: int| 0 <= j < ids@.len() && (#[trigger] ids@[j]).2 implies seen@.contains(ids@[j].0) by {
                    if j >= len0 {
                        assert(ids@[j] == children@[j - len0]);
                    } else if j < len0 - 1 {
                        assert(ids@[j] == old_ids[j]);
                        assert(seen0.contains(old_ids[j].0));
                    } else {
                        assert(ids@[j] == (cur, n, true));
                    }
                }
                assert forall|p: ChangeId, c: ChangeId| seen@.contains(p) && #[trigger] dep_child(*txn, *channel, p, c) implies seen@.contains(c)
                    || exists|j: int| 0 <= j < ids@.len() && (#[trigger] ids@[j]).0 == c && !ids@[j].2 by {
                    if p == cur {
                        let i = choose|i: int| 0 <= i < txn.dep@.len() && txn.dep@[i] == (c, p);
                        assert(txn.dep@[i].1 == cur && log_position(channel.log@, txn.dep@[i].0) is Some);
                        let q = choose|q: int| 0 <= q < c0.len() && (#[trigger] c0[q]).0 == txn.dep@[i].0;
                        let q2 = choose|q2: int| 0 <= q2 < children@.len() && (#[trigger] children@[q2]) == c0[q];
                        assert(ids@[len0 + q2] == children@[q2]);
                    } else if !seen@.contains(c) {
                        assert(seen0.contains(p)) by {
                            let k2 = choose|k2: int| 0 <= k2 < seen@.len() && seen@[k2] == p;
                            assert(k2 < seen0.len());
                            assert(seen0[k2] == p);
                        }
                        assert(!seen0.contains(c));
                        let j = choose|j: int| 0 <= j < old_ids.len() && (#[trigger] old_ids[j]).0 == c && !old_ids[j].2;
                        assert(j < old_ids.len() - 1);
                        assert(ids@[j] == old_ids[j]);
                    }
                }
                assert forall|c: ChangeId| #[trigger] seen@.contains(c) implies (exists|j: int| 0 <= j < ids@.len() && #[trigger] ids@[j] == (c, ids@[j].1, true))
                    || (external_of(txn.internal@, c) is Some ==> out@.contains(external_of(txn.internal@, c).unwrap())) by {
                    if c == cur {
                        assert(ids@[len0 - 1] == (cur, n, true));
                    } else {
                        assert(seen0.contains(c)) by {
                            let k2 = choose|k2: int| 0 <= k2 < seen@.len() && seen@[k2] == c;
                            assert(k2 < seen0.len());
                            assert(seen0[k2] == c);
                        }
                        if exists|j: int| 0 <= j < old_ids.len() && #[trigger] old_ids[j] == (c, old_ids[j].1, true) {
                            let j = choose|j: int| 0 <= j < old_ids.len() && #[trigger] old_ids[j] == (c, old_ids[j].1, true);
                            assert(j < old_ids.len() - 1);
                            assert(ids@[j] == old_ids[j]);
                        }
                    }
                }
                assert forall|k2: int| 0 <= k2 < out@.len() implies exists|c: ChangeId| #[trigger] seen@.contains(c) && external_of(txn.internal@, c) == Some(
                    #[trigger] out@[k2],
                ) by {
                    let c = choose|c: ChangeId| #[trigger] seen0.contains(c) && external_of(txn.internal@, c) == Some(out@[k2]);
                    let q = choose|q: int| 0 <= q < seen0.len() && seen0[q] == c;
                    assert(seen@[q] == c);
                }
            }
        } else {
            proof {
                assert forall|p: ChangeId, c: ChangeId| seen@.contains(p) && #[trigger] dep_child(*txn, *channel, p, c) implies seen@.contains(c)
                    || exists|j: int| 0 <= j < ids@.len() && (#[trigger] ids@[j]).0 == c && !ids@[j].2 by {
                    if !seen@.contains(c) {
                        let j = choose|j: int| 0 <= j < old_ids.len() && (#[trigger] old_ids[j]).0 == c && !old_ids[j].2;
                        assert(j < old_ids.len() - 1);
                        assert(ids@[j] == old_ids[j]);
                    }
                }
                assert forall|c: ChangeId| #[trigger] seen@.contains(c) implies (exists|j: int| 0 <= j < ids@.len() && #[trigger] ids@[j] == (c, ids@[j].1, true))
                    || (external_of(txn.internal@, c) is Some ==> out@.contains(external_of(txn.internal@, c).unwrap())) by {
                    if exists|j: int| 0 <= j < old_ids.len() && #[trigger] old_ids[j] == (c, old_ids[j].1, true) {
                        let j = choose|j: int| 0 <= j < old_ids.len() && #[trigger] old_ids[j] == (c, old_ids[j].1, true);
                        assert(j < old_ids.len() - 1);
                        assert(ids@[j] == old_ids[j]);
                    }
                }
            }
        }
    }
    assert forall|k: int| 0 <= k < out@.len() implies is_dependency_hash(*txn, id, #[trigger] out@[k]) by {
        let c = choose|c: ChangeId| #[trigger] u.contains(c) && external_of(txn.internal@, c) == Some(out@[k]);
        assert(dependency_ids(*txn, id).contains(c));
    }
    let ghost s = seen@.to_set();
    assert(lists_dependents(*txn, *channel, id, s, out@)) by {
        assert(s.contains(id));
        assert forall|p: ChangeId, c: ChangeId| s.contains(p) && #[trigger] dep_child(*txn, *channel, p, c) implies s.contains(c) by {
            assert(seen@.contains(p));
        }
        assert forall|c: ChangeId| #[trigger] s.contains(c) && external_of(txn.internal@, c) is Some implies out@.contains(
            external_of(txn.internal@, c).unwrap(),
        ) by {
            assert(seen@.contains(c));
        }
        assert forall|k: int| 0 <= k < out@.len() implies exists|c: ChangeId| #[trigger] s.contains(c) && external_of(txn.internal@, c) == Some(
            #[trigger] out@[k],
        ) by {
            let c = choose|c: ChangeId| #[trigger] seen@.contains(c) && external_of(txn.internal@, c) == Some(out@[k]);
            assert(s.contains(c));
        }
    }
    out
}

} // verus!
