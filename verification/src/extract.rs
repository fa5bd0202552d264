use vstd::prelude::*;

use crate::passwords::{Password, PasswordDatabase};

verus! {

/// The answer of one archive-tool call for one candidate password.
#[derive(Clone, Copy, PartialEq, Eq, Structural, Debug)]
pub enum PasswordAttempt {
    /// The tool accepted the candidate.
    Correct,
    /// The tool reported a wrong password.
    Incorrect,
    /// The tool reported structural damage rather than a password problem.
    CorruptArchive,
}

/// Why an extraction gave up.
#[derive(Debug)]
pub enum ExtractError {
    /// Every candidate was tried and none opened the archive.
    NoPassword,
    /// The archive itself is broken, or a seemingly good password failed the
    /// confirming extraction and no candidate is left.
    Incomplete,
    /// A volume path has no usable parent directory.
    Encoding,
    /// The external tool could not be run at all; the message says why.
    Forwarded(String),
}

impl ExtractError {
    /// A one-line account of the failure, as shown to the user.
    pub fn describe(&self) -> (r: String)
        ensures
            r@ == match self {
                ExtractError::NoPassword => "no password found"@,
                ExtractError::Incomplete => "incomplete archive"@,
                ExtractError::Encoding => "invalid encoding"@,
                ExtractError::Forwarded(msg) => msg@,
            },
    {
        match self {
            ExtractError::NoPassword => String::from_str("no password found"),
            ExtractError::Incomplete => String::from_str("incomplete archive"),
            ExtractError::Encoding => String::from_str("invalid encoding"),
            ExtractError::Forwarded(msg) => msg.clone(),
        }
    }
}

/// A successful extraction: the password that opened the archive.
#[derive(Debug)]
pub struct Extract {
    pub password: Password,
}

/// The capability that each archive kind supplies: a cheap listing probe and
/// a full extraction, both reporting how the tool judged the password.  The
/// process-spawning implementations live outside the verified library.
pub trait ArchiveToolAdapter {
    /// Lists the archive's contents with the candidate password, writing
    /// nothing; `Err` carries the message of a failure to run the tool.
    fn try_pwd_by_list(&self, first_part: &String, pwd: &Password) -> Result<
        PasswordAttempt,
        String,
    >;

    /// Extracts the archive with the candidate password into `to`; `Err`
    /// carries the message of a failure to run the tool.
    fn try_extract(&self, first_part: &String, pwd: &Password, to: &String) -> Result<
        PasswordAttempt,
        String,
    >;
}

// The password-discovery protocol, as an explicit state machine ---------------
//
// Phase 1 walks the candidates with the cheap probe; a candidate the probe
// accepts is confirmed by a real extraction.  If the confirmation fails, that
// one candidate is set aside and phase 2 tries a real extraction with every
// remaining candidate in order.

/// Where discovery stands.  `idx` is always a position in the trial order.
#[derive(Clone, Copy, PartialEq, Eq, Structural, Debug)]
pub enum DiscoveryState {
    /// Phase 1: waiting for the listing probe of candidate `idx`.
    Probing { idx: usize },
    /// Phase 1: the probe accepted candidate `idx`; waiting for the
    /// confirming extraction.
    Confirming { idx: usize },
    /// Phase 2 with no candidate set aside: waiting for the extraction with
    /// candidate `idx`.
    Retrying { idx: usize },
    /// Phase 2 with the candidate `excluded` set aside after its failed
    /// confirmation: waiting for the extraction with candidate `idx`.
    RetryingExcluding { idx: usize, excluded: usize },
    /// Discovery ended: candidate `idx` extracted the archive.
    Succeeded { idx: usize },
    /// Discovery ended: the archive is structurally broken.
    FailedIncomplete,
    /// Discovery ended: every candidate was tried in vain.
    FailedNoPassword,
}

pub open spec fn is_final(s: DiscoveryState) -> bool {
    match s {
        DiscoveryState::Succeeded { .. } => true,
        DiscoveryState::FailedIncomplete => true,
        DiscoveryState::FailedNoPassword => true,
        _ => false,
    }
}

/// Every index a state mentions lies inside the trial order of length `n`,
/// and a set-aside candidate is never the one being retried.
pub open spec fn state_wf(s: DiscoveryState, n: nat) -> bool {
    match s {
        DiscoveryState::Probing { idx } => idx < n,
        DiscoveryState::Confirming { idx } => idx < n,
        DiscoveryState::Retrying { idx } => idx < n,
        DiscoveryState::RetryingExcluding { idx, excluded } => idx < n && excluded < n && idx
            != excluded,
        DiscoveryState::Succeeded { idx } => idx < n,
        _ => true,
    }
}

/// The successor state once the pending tool call has answered `a`.
pub open spec fn step_spec(s: DiscoveryState, n: nat, a: PasswordAttempt) -> DiscoveryState {
    match s {
        DiscoveryState::Probing { idx } => match a {
            PasswordAttempt::CorruptArchive => DiscoveryState::FailedIncomplete,
            PasswordAttempt::Correct => DiscoveryState::Confirming { idx },
            PasswordAttempt::Incorrect => if idx + 1 < n {
                DiscoveryState::Probing { idx: (idx + 1) as usize }
            } else {
                DiscoveryState::Retrying { idx: 0 }
            },
        },
        DiscoveryState::Confirming { idx } => match a {
            PasswordAttempt::CorruptArchive => DiscoveryState::FailedIncomplete,
            PasswordAttempt::Correct => DiscoveryState::Succeeded { idx },
            PasswordAttempt::Incorrect => if idx == 0 {
                if n > 1 {
                    DiscoveryState::RetryingExcluding { idx: 1, excluded: 0 }
                } else {
                    DiscoveryState::FailedNoPassword
                }
            } else {
                DiscoveryState::RetryingExcluding { idx: 0, excluded: idx }
            },
        },
        DiscoveryState::Retrying { idx } => match a {
            PasswordAttempt::CorruptArchive => DiscoveryState::FailedIncomplete,
            PasswordAttempt::Correct => DiscoveryState::Succeeded { idx },
            PasswordAttempt::Incorrect => if idx + 1 < n {
                DiscoveryState::Retrying { idx: (idx + 1) as usize }
            } else {
                DiscoveryState::FailedNoPassword
            },
        },
        DiscoveryState::RetryingExcluding { idx, excluded } => match a {
            PasswordAttempt::CorruptArchive => DiscoveryState::FailedIncomplete,
            PasswordAttempt::Correct => DiscoveryState::Succeeded { idx },
            PasswordAttempt::Incorrect => {
                let next = if idx + 1 == excluded {
                    idx + 2
                } else {
                    idx + 1
                };
                if next < n {
                    DiscoveryState::RetryingExcluding { idx: next as usize, excluded }
                } else {
                    DiscoveryState::FailedNoPassword
                }
            },
        },
        _ => s,
    }
}

/// An upper bound on the tool calls still ahead; every step shrinks it.
pub open spec fn state_measure(s: DiscoveryState, n: nat) -> nat {
    match s {
        DiscoveryState::Probing { idx } => ((n - idx) + n + 2) as nat,
        DiscoveryState::Confirming { .. } => n + 2,
        DiscoveryState::Retrying { idx } => (n - idx) as nat,
        DiscoveryState::RetryingExcluding { idx, .. } => (n - idx) as nat,
        _ => 0,
    }
}

pub proof fn lemma_step_preserves_wf(s: DiscoveryState, n: nat, a: PasswordAttempt)
    requires
        1 <= n <= usize::MAX,
        state_wf(s, n),
    ensures
        state_wf(step_spec(s, n, a), n),
{
}

pub proof fn lemma_step_decreases(s: DiscoveryState, n: nat, a: PasswordAttempt)
    requires
        1 <= n <= usize::MAX,
        state_wf(s, n),
        !is_final(s),
    ensures
        state_measure(step_spec(s, n, a), n) < state_measure(s, n),
{
}

/// A structurally broken archive stops discovery at once: whatever the state
/// of the protocol, a corrupt answer moves it straight to the incomplete
/// failure, with no candidate tried after it.
pub proof fn lemma_corrupt_aborts(s: DiscoveryState, n: nat)
    requires
        !is_final(s),
    ensures
        step_spec(s, n, PasswordAttempt::CorruptArchive) == DiscoveryState::FailedIncomplete,
{
}

/// One step of the protocol, as executable code.
pub fn discovery_step(s: DiscoveryState, n: usize, a: PasswordAttempt) -> (r: DiscoveryState)
    requires
        n >= 1,
        state_wf(s, n as nat),
    ensures
        r == step_spec(s, n as nat, a),
        state_wf(r, n as nat),
{
    match s {
        DiscoveryState::Probing { idx } => match a {
            PasswordAttempt::CorruptArchive => DiscoveryState::FailedIncomplete,
            PasswordAttempt::Correct => DiscoveryState::Confirming { idx },
            PasswordAttempt::Incorrect => if idx + 1 < n {
                DiscoveryState::Probing { idx: idx + 1 }
            } else {
                DiscoveryState::Retrying { idx: 0 }
            },
        },
        DiscoveryState::Confirming { idx } => match a {
            PasswordAttempt::CorruptArchive => DiscoveryState::FailedIncomplete,
            PasswordAttempt::Correct => DiscoveryState::Succeeded { idx },
            PasswordAttempt::Incorrect => if idx == 0 {
                if n > 1 {
                    DiscoveryState::RetryingExcluding { idx: 1, excluded: 0 }
                } else {
                    DiscoveryState::FailedNoPassword
                }
            } else {
                DiscoveryState::RetryingExcluding { idx: 0, excluded: idx }
            },
        },
        DiscoveryState::Retrying { idx } => match a {
            PasswordAttempt::CorruptArchive => DiscoveryState::FailedIncomplete,
            PasswordAttempt::Correct => DiscoveryState::Succeeded { idx },
            PasswordAttempt::Incorrect => if idx + 1 < n {
                DiscoveryState::Retrying { idx: idx + 1 }
            } else {
                DiscoveryState::FailedNoPassword
            },
        },
        DiscoveryState::RetryingExcluding { idx, excluded } => match a {
            PasswordAttempt::CorruptArchive => DiscoveryState::FailedIncomplete,
            PasswordAttempt::Correct => DiscoveryState::Succeeded { idx },
            PasswordAttempt::Incorrect => {
                let next = if idx + 1 == excluded {
                    idx + 2
                } else {
                    idx + 1
                };
                if next < n {
                    DiscoveryState::RetryingExcluding { idx: next, excluded }
                } else {
                    DiscoveryState::FailedNoPassword
                }
            },
        },
        _ => s,
    }
}

// Trace-level laws ------------------------------------------------------------

/// The states the protocol passes through from `s` while consuming `answers`.
pub open spec fn run_spec(s: DiscoveryState, n: nat, answers: Seq<PasswordAttempt>) -> Seq<
    DiscoveryState,
>
    decreases answers.len(),
{
    if answers.len() == 0 {
        seq![s]
    } else {
        seq![s] + run_spec(step_spec(s, n, answers[0]), n, answers.skip(1))
    }
}

/// Whether a state is waiting for a full extraction with candidate `i`.
pub open spec fn requests_extraction_of(s: DiscoveryState, i: nat) -> bool {
    match s {
        DiscoveryState::Confirming { idx } => idx == i,
        DiscoveryState::Retrying { idx } => idx == i,
        DiscoveryState::RetryingExcluding { idx, .. } => idx == i,
        _ => false,
    }
}

// The states reachable once candidate `e` has been set aside: phase 2 keeps
// skipping `e` until it ends.
spec fn past_exclusion(s: DiscoveryState, n: nat, e: nat) -> bool {
    match s {
        DiscoveryState::RetryingExcluding { idx, excluded } => excluded == e && idx != e && idx
            < n,
        DiscoveryState::Succeeded { .. } => true,
        DiscoveryState::FailedIncomplete => true,
        DiscoveryState::FailedNoPassword => true,
        _ => false,
    }
}

proof fn lemma_past_exclusion_closed(s: DiscoveryState, n: nat, e: nat, a: PasswordAttempt)
    requires
        n <= usize::MAX,
        past_exclusion(s, n, e),
    ensures
        past_exclusion(step_spec(s, n, a), n, e),
{
    match s {
        DiscoveryState::RetryingExcluding { idx, excluded } => {
            match a {
                PasswordAttempt::Incorrect => {
                    let next = if idx + 1 == excluded {
                        idx + 2
                    } else {
                        idx + 1
                    };
                    assert(next != excluded);
                },
                _ => {},
            }
        },
        _ => {},
    }
}

proof fn lemma_run_past_exclusion(s: DiscoveryState, n: nat, e: nat, answers: Seq<PasswordAttempt>)
    requires
        n <= usize::MAX,
        past_exclusion(s, n, e),
    ensures
        forall|k: int|
            0 <= k < run_spec(s, n, answers).len() ==> past_exclusion(
                #[trigger] run_spec(s, n, answers)[k],
                n,
                e,
            ),
    decreases answers.len(),
{
    if answers.len() == 0 {
    } else {
        lemma_past_exclusion_closed(s, n, e, answers[0]);
        lemma_run_past_exclusion(step_spec(s, n, answers[0]), n, e, answers.skip(1));
        let rest = run_spec(step_spec(s, n, answers[0]), n, answers.skip(1));
        assert forall|k: int|
            0 <= k < run_spec(s, n, answers).len() implies past_exclusion(
            #[trigger] run_spec(s, n, answers)[k],
            n,
            e,
        ) by {
            if k > 0 {
                assert(run_spec(s, n, answers)[k] == rest[k - 1]);
            }
        }
    }
}

/// Law: the confirming extraction is never repeated.  Once the extraction
/// with candidate `e` (accepted by the phase-1 probe) has answered
/// "incorrect", no state the protocol can ever reach afterwards requests an
/// extraction with `e` again, whatever the remaining answers are.
pub proof fn lemma_excluded_never_extracted_again(
    n: nat,
    e: usize,
    answers: Seq<PasswordAttempt>,
)
    requires
        e < n <= usize::MAX,
    ensures
        forall|k: int|
            0 <= k < run_spec(
                step_spec(DiscoveryState::Confirming { idx: e }, n, PasswordAttempt::Incorrect),
                n,
                answers,
            ).len() ==> !requests_extraction_of(
                #[trigger] run_spec(
                    step_spec(
                        DiscoveryState::Confirming { idx: e },
                        n,
                        PasswordAttempt::Incorrect,
                    ),
                    n,
                    answers,
                )[k],
                e as nat,
            ),
{
    let after = step_spec(DiscoveryState::Confirming { idx: e }, n, PasswordAttempt::Incorrect);
    assert(past_exclusion(after, n, e as nat));
    lemma_run_past_exclusion(after, n, e as nat, answers);
}

/// Law: discovery always ends.  From any well-formed state, once at most
/// `state_measure` further answers have been consumed — however the tool
/// chose them — the protocol sits in a final state.
pub proof fn lemma_discovery_terminates(s: DiscoveryState, n: nat, answers: Seq<PasswordAttempt>)
    requires
        1 <= n <= usize::MAX,
        state_wf(s, n),
        answers.len() >= state_measure(s, n),
    ensures
        is_final(run_spec(s, n, answers).last()),
    decreases answers.len(),
{
    if answers.len() == 0 {
        if !is_final(s) {
            assert(state_measure(s, n) >= 1) by {
                match s {
                    DiscoveryState::Probing { idx } => {
                        assert(idx < n);
                    },
                    DiscoveryState::Retrying { idx } => {
                        assert(idx < n);
                    },
                    DiscoveryState::RetryingExcluding { idx, .. } => {
                        assert(idx < n);
                    },
                    _ => {},
                }
            }
        }
        assert(run_spec(s, n, answers).last() == s);
    } else {
        let next = step_spec(s, n, answers[0]);
        lemma_step_preserves_wf(s, n, answers[0]);
        if !is_final(s) {
            lemma_step_decreases(s, n, answers[0]);
        } else {
            assert(next == s);
        }
        lemma_discovery_terminates(next, n, answers.skip(1));
        let rest = run_spec(next, n, answers.skip(1));
        assert(rest.len() >= 1);
        assert(run_spec(s, n, answers).last() == rest.last());
    }
}

/// How many states of a trace are waiting for the phase-1 confirming
/// extraction.
pub open spec fn count_confirming(tr: Seq<DiscoveryState>) -> nat
    decreases tr.len(),
{
    if tr.len() == 0 {
        0
    } else {
        (match tr[0] {
            DiscoveryState::Confirming { .. } => 1 as nat,
            _ => 0 as nat,
        }) + count_confirming(tr.skip(1))
    }
}

// Every state is in one of three stretches that discovery passes through in
// order: probing, confirming, and the rest (phase 2 and the final states).
proof fn lemma_confirmations_bounded(s: DiscoveryState, n: nat, answers: Seq<PasswordAttempt>)
    ensures
        !(s matches DiscoveryState::Probing { .. }) && !(s
            matches DiscoveryState::Confirming { .. }) ==> count_confirming(
            run_spec(s, n, answers),
        ) == 0,
        count_confirming(run_spec(s, n, answers)) <= 1,
    decreases answers.len(),
{
    let run = run_spec(s, n, answers);
    let here: nat = match s {
        DiscoveryState::Confirming { .. } => 1 as nat,
        _ => 0 as nat,
    };
    if answers.len() == 0 {
        assert(run == seq![s]);
        assert(run.skip(1) =~= Seq::<DiscoveryState>::empty());
        assert(count_confirming(run.skip(1)) == 0);
        assert(count_confirming(run) == here);
    } else {
        let next = step_spec(s, n, answers[0]);
        lemma_confirmations_bounded(next, n, answers.skip(1));
        let rest = run_spec(next, n, answers.skip(1));
        assert(run == seq![s] + rest);
        assert(run[0] == s);
        assert(run.skip(1) =~= rest);
        assert(run.len() >= 1);
        assert(count_confirming(run) == here + count_confirming(rest));
        match s {
            DiscoveryState::Probing { .. } => {
            },
            DiscoveryState::Confirming { .. } => {
                // the confirming state is left for good: its successors are
                // never probing or confirming again
                assert(!(next matches DiscoveryState::Probing { .. }));
                assert(!(next matches DiscoveryState::Confirming { .. }));
                assert(count_confirming(rest) == 0);
            },
            _ => {
                assert(!(next matches DiscoveryState::Probing { .. }));
                assert(!(next matches DiscoveryState::Confirming { .. }));
                assert(count_confirming(rest) == 0);
            },
        }
    }
}

/// Law: the cheap probing phase pays for at most one full extraction.
/// Whatever the tool answers, a discovery run passes through at most one
/// confirming state; every further extraction belongs to phase 2, which
/// only starts once probing is over.
pub proof fn lemma_at_most_one_confirmation(n: nat, answers: Seq<PasswordAttempt>)
    ensures
        count_confirming(run_spec(DiscoveryState::Probing { idx: 0 }, n, answers)) <= 1,
{
    lemma_confirmations_bounded(DiscoveryState::Probing { idx: 0 }, n, answers);
}

// The driver ------------------------------------------------------------------

/// Runs password discovery against one archive: phase-1 probing with
/// confirmation, then phase-2 exhaustive extraction, following the protocol
/// state machine step by step.  Success hands back a password out of the
/// database; failure names the reason.  An `Err` from the adapter (the tool
/// could not be run) is forwarded at once, never retried.
pub fn extract<A: ArchiveToolAdapter>(
    first_part: &String,
    to: &String,
    pdb: &PasswordDatabase,
    tool: &A,
) -> (r: Result<Extract, ExtractError>)
    requires
        pdb.wf(),
    ensures
        match r {
            Ok(e) => pdb@.contains(e.password@),
            Err(e) => !(e matches ExtractError::Encoding),
        },
{
    let n = pdb.passwords.len();
    let mut st = DiscoveryState::Probing { idx: 0 };
    loop
        invariant
            n == pdb@.len(),
            n >= 1,
            state_wf(st, n as nat),
        decreases state_measure(st, n as nat),
    {
        match st {
            DiscoveryState::Probing { idx } => {
                match tool.try_pwd_by_list(first_part, &pdb.passwords[idx]) {
                    Err(msg) => {
                        return Err(ExtractError::Forwarded(msg));
                    },
                    Ok(a) => {
                        proof {
                            lemma_step_decreases(st, n as nat, a);
                        }
                        st = discovery_step(st, n, a);
                    },
                }
            },
            DiscoveryState::Confirming { idx } => {
                match tool.try_extract(first_part, &pdb.passwords[idx], to) {
                    Err(msg) => {
                        return Err(ExtractError::Forwarded(msg));
                    },
                    Ok(a) => {
                        proof {
                            lemma_step_decreases(st, n as nat, a);
                        }
                        st = discovery_step(st, n, a);
                    },
                }
            },
            DiscoveryState::Retrying { idx } => {
                match tool.try_extract(first_part, &pdb.passwords[idx], to) {
                    Err(msg) => {
                        return Err(ExtractError::Forwarded(msg));
                    },
                    Ok(a) => {
                        proof {
                            lemma_step_decreases(st, n as nat, a);
                        }
                        st = discovery_step(st, n, a);
                    },
                }
            },
            DiscoveryState::RetryingExcluding { idx, .. } => {
                match tool.try_extract(first_part, &pdb.passwords[idx], to) {
                    Err(msg) => {
                        return Err(ExtractError::Forwarded(msg));
                    },
                    Ok(a) => {
                        proof {
                            lemma_step_decreases(st, n as nat, a);
                        }
                        st = discovery_step(st, n, a);
                    },
                }
            },
            DiscoveryState::Succeeded { idx } => {
                let password = pdb.passwords[idx].clone();
                proof {
                    assert(pdb@[idx as int] == password@);
                }
                return Ok(Extract { password });
            },
            DiscoveryState::FailedIncomplete => {
                return Err(ExtractError::Incomplete);
            },
            DiscoveryState::FailedNoPassword => {
                return Err(ExtractError::NoPassword);
            },
        }
    }
}

} // verus!
