use vstd::prelude::*;
use crate::org::Account;
use crate::resolve::resolved_view;

verus! {

#[verifier::external_type_specification]
#[verifier::external_body]
pub struct ExValue(serde_json::Value);

/// Whether serde_json accepts the bytes as one JSON value: well-formed JSON
/// text, nested no deeper than its limit.
pub uninterp spec fn json_accepts(b: Seq<u8>) -> bool;

/// Relies on serde_json::from_slice into a `serde_json::Value`: whether it
/// succeeds depends on the bytes alone.
#[verifier::external_body]
fn parse_json(b: &Vec<u8>) -> (r: Option<serde_json::Value>)
    ensures
        r is Some <==> json_accepts(b@),
{
    serde_json::from_slice::<serde_json::Value>(b.as_slice()).ok()
}

/// Why one account's operation failed.
#[derive(PartialEq, Eq, Structural, Clone, Copy, Debug)]
pub enum ErrorKind {
    CredentialDenied,
    NonzeroExit,
    MalformedOutput,
    Timeout,
}

/// What happened when the operation was tried in one account.
pub enum Attempt {
    /// No credentials could be had for the role in the account.
    CredentialDenied { message: String },
    /// The operation ran; `exit_code` is `None` when it was stopped by a signal.
    Completed { exit_code: Option<i32>, stdout: Vec<u8>, stderr: String },
    /// The operation did not finish in time.
    TimedOut,
}

/// The result for one account: the operation's parsed output, or a record of
/// why it failed.
pub enum ExecutionOutcome {
    Success { output: serde_json::Value },
    Failure { account_id: String, kind: ErrorKind, message: String },
}

/// One entry of the report.
pub struct AccountResult {
    pub account_id: String,
    pub outcome: ExecutionOutcome,
}

pub open spec fn malformed_message() -> Seq<char> {
    "output is not valid JSON"@
}

pub open spec fn timeout_message() -> Seq<char> {
    "operation timed out"@
}

pub open spec fn is_failure(out: ExecutionOutcome, id: Seq<char>, kind: ErrorKind, message: Seq<char>) -> bool {
    match out {
        ExecutionOutcome::Failure { account_id, kind: k, message: m } => account_id@ == id && k == kind
            && m@ == message,
        ExecutionOutcome::Success { .. } => false,
    }
}

/// The outcome that an attempt in account `id` comes to.
pub open spec fn outcome_fits(id: Seq<char>, attempt: Attempt, out: ExecutionOutcome) -> bool {
    match attempt {
        Attempt::CredentialDenied { message } => is_failure(
            out,
            id,
            ErrorKind::CredentialDenied,
            message@,
        ),
        Attempt::Completed { exit_code, stdout, stderr } => if exit_code != Some(0i32) {
            is_failure(out, id, ErrorKind::NonzeroExit, stderr@)
        } else if json_accepts(stdout@) {
            out is Success
        } else {
            is_failure(out, id, ErrorKind::MalformedOutput, malformed_message())
        },
        Attempt::TimedOut => is_failure(out, id, ErrorKind::Timeout, timeout_message()),
    }
}

/// Entry `i` of the report is for account `ids[i]` and records what its
/// attempt came to.
pub open spec fn report_fits(ids: Seq<String>, attempts: Seq<Attempt>, report: Seq<AccountResult>) -> bool {
    &&& report.len() == ids.len()
    &&& forall|i: int|
        0 <= i < report.len() ==> #[trigger] report[i].account_id@ == ids[i]@ && outcome_fits(
            ids[i]@,
            attempts[i],
            report[i].outcome,
        )
}

/// The role to assume in an account.
pub fn role_arn(account_id: &String, role_name: &String) -> (r: String)
    ensures
        r@ == "arn:aws:iam::"@ + account_id@ + ":role/"@ + role_name@,
{
    let mut r = String::new();
    r.append("arn:aws:iam::");
    r.append(account_id.as_str());
    r.append(":role/");
    r.append(role_name.as_str());
    r
}

/// Decides the outcome of one account's attempt.
pub fn outcome_of(account_id: &String, attempt: &Attempt) -> (r: ExecutionOutcome)
    ensures
        outcome_fits(account_id@, *attempt, r),
{
    match attempt {
        Attempt::CredentialDenied { message } => ExecutionOutcome::Failure {
            account_id: account_id.clone(),
            kind: ErrorKind::CredentialDenied,
            message: message.clone(),
        },
        Attempt::Completed { exit_code, stdout, stderr } => {
            let ok_exit = match exit_code {
                Some(c) => *c == 0,
                None => false,
            };
            if !ok_exit {
                return ExecutionOutcome::Failure {
                    account_id: account_id.clone(),
                    kind: ErrorKind::NonzeroExit,
                    message: stderr.clone(),
                };
            }
            match parse_json(stdout) {
                Some(v) => ExecutionOutcome::Success { output: v },
                None => ExecutionOutcome::Failure {
                    account_id: account_id.clone(),
                    kind: ErrorKind::MalformedOutput,
                    message: String::from_str("output is not valid JSON"),
                },
            }
        },
        Attempt::TimedOut => ExecutionOutcome::Failure {
            account_id: account_id.clone(),
            kind: ErrorKind::Timeout,
            message: String::from_str("operation timed out"),
        },
    }
}

/// Collects one entry per account, in the order of the accounts; a failed
/// account still has its entry.
pub fn list_resources(account_ids: &Vec<String>, attempts: &Vec<Attempt>) -> (report: Vec<AccountResult>)
    requires
        account_ids@.len() == attempts@.len(),
    ensures
        report_fits(account_ids@, attempts@, report@),
{
    let mut report: Vec<AccountResult> = Vec::new();
    let mut i: usize = 0;
    while i < account_ids.len()
        invariant
            i <= account_ids@.len(),
            account_ids@.len() == attempts@.len(),
            report_fits(account_ids@.take(i as int), attempts@, report@),
        decreases account_ids@.len() - i,
    {
        let outcome = outcome_of(&account_ids[i], &attempts[i]);
        report.push(AccountResult { account_id: account_ids[i].clone(), outcome });
        i = i + 1;
    }
    assert(account_ids@.take(i as int) =~= account_ids@);
    report
}

/// An account whose credentials are refused fails alone: every account
/// still has its entry, that account's entry is a credential failure, and
/// every account whose operation ran cleanly succeeds, wherever the refused
/// account stands.
pub proof fn lemma_credential_failure_is_isolated(
    ids: Seq<String>,
    attempts: Seq<Attempt>,
    report: Seq<AccountResult>,
    k: int,
)
    requires
        report_fits(ids, attempts, report),
        ids.len() == attempts.len(),
        0 <= k < ids.len(),
        attempts[k] is CredentialDenied,
        forall|i: int|
            0 <= i < attempts.len() && i != k ==> match #[trigger] attempts[i] {
                Attempt::Completed { exit_code, stdout, .. } => exit_code == Some(0i32) && json_accepts(
                    stdout@,
                ),
                _ => false,
            },
    ensures
        report.len() == ids.len(),
        report[k].outcome is Failure && report[k].outcome->Failure_kind == ErrorKind::CredentialDenied,
        forall|i: int| 0 <= i < report.len() && i != k ==> #[trigger] report[i].outcome is Success,
{
    assert(report[k].account_id@ == ids[k]@);
    assert forall|i: int| 0 <= i < report.len() && i != k implies #[trigger] report[i].outcome is Success by {
        assert(report[i].account_id@ == ids[i]@);
    }
}

/// The ids of the listed accounts whose path is not among `excluded`, in
/// listing order.
pub open spec fn kept_ids(listed: Seq<(Account, Seq<char>)>, excluded: Seq<Seq<char>>) -> Seq<Seq<char>>
    decreases listed.len(),
{
    if listed.len() == 0 {
        Seq::empty()
    } else {
        let rest = kept_ids(listed.drop_last(), excluded);
        if excluded.contains(listed.last().1) {
            rest
        } else {
            rest.push(listed.last().0.id@)
        }
    }
}

/// Picks the accounts to fan out to: those whose unit path is not excluded.
pub fn select_account_ids(listed: &Vec<(Account, String)>, excluded: &Vec<String>) -> (ids: Vec<String>)
    ensures
        ids@.map_values(|s: String| s@) == kept_ids(resolved_view(listed@), excluded@.map_values(|s: String| s@)),
{
    let ghost ex = excluded@.map_values(|s: String| s@);
    let mut ids: Vec<String> = Vec::new();
    let mut i: usize = 0;
    while i < listed.len()
        invariant
            i <= listed@.len(),
            ex == excluded@.map_values(|s: String| s@),
            ids@.map_values(|s: String| s@) == kept_ids(resolved_view(listed@).take(i as int), ex),
        decreases listed@.len() - i,
    {
        let mut found = false;
        let mut j: usize = 0;
        while j < excluded.len()
            invariant
                j <= excluded@.len(),
                i < listed@.len(),
                ex == excluded@.map_values(|s: String| s@),
                found <==> exists|m: int| 0 <= m < j && ex[m] == listed@[i as int].1@,
            decreases excluded@.len() - j,
        {
            if excluded[j] == listed[i].1 {
                found = true;
            }
            proof {
                assert(ex[j as int] == excluded@[j as int]@);
                if found {
                    if excluded@[j as int]@ != listed@[i as int].1@ {
                        let m = choose|m: int| 0 <= m < j && ex[m] == listed@[i as int].1@;
                        assert(0 <= m < j + 1 && ex[m] == listed@[i as int].1@);
                    }
                }
            }
            j = j + 1;
        }
        let ghost before = ids@.map_values(|s: String| s@);
        proof {
            let t = resolved_view(listed@).take(i + 1);
            assert(t.drop_last() =~= resolved_view(listed@).take(i as int));
            assert(t.last() == (listed@[i as int].0, listed@[i as int].1@));
            if found {
                let m = choose|m: int| 0 <= m < j && ex[m] == listed@[i as int].1@;
                assert(ex.contains(t.last().1));
            } else {
                assert(!ex.contains(t.last().1));
            }
        }
        if !found {
            ids.push(listed[i].0.id.clone());
            proof {
                assert(ids@.map_values(|s: String| s@) =~= before.push(listed@[i as int].0.id@));
            }
        }
        i = i + 1;
    }
    assert(resolved_view(listed@).take(i as int) =~= resolved_view(listed@));
    ids
}

} // verus!
