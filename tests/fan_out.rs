use aws_organization_utils::cli::split_on;
use aws_organization_utils::executor::{
    list_resources, outcome_of, role_arn, select_account_ids, Attempt, ErrorKind, ExecutionOutcome,
};
use aws_organization_utils::limiter::{backoff_ms, RateLimiter, MAX_RETRIES};
use aws_organization_utils::org::Account;

fn ok_attempt(json: &str) -> Attempt {
    Attempt::Completed { exit_code: Some(0), stdout: json.as_bytes().to_vec(), stderr: String::new() }
}

fn kind_of(o: &ExecutionOutcome) -> Option<ErrorKind> {
    match o {
        ExecutionOutcome::Success { .. } => None,
        ExecutionOutcome::Failure { kind, .. } => Some(*kind),
    }
}

fn account(id: &str) -> Account {
    Account { id: id.to_string(), name: id.to_string(), email: String::new(), status: String::new() }
}

#[test]
fn credential_failure_is_isolated() {
    for k in 0..4usize {
        let ids: Vec<String> = (0..4).map(|i| format!("11111111111{}", i)).collect();
        let attempts: Vec<Attempt> = (0..4)
            .map(|i| {
                if i == k {
                    Attempt::CredentialDenied { message: "access denied".to_string() }
                } else {
                    ok_attempt("{\"Buckets\": []}")
                }
            })
            .collect();
        let report = list_resources(&ids, &attempts);
        assert_eq!(report.len(), 4);
        for (i, entry) in report.iter().enumerate() {
            assert_eq!(entry.account_id, ids[i]);
            if i == k {
                assert_eq!(kind_of(&entry.outcome), Some(ErrorKind::CredentialDenied));
            } else {
                assert_eq!(kind_of(&entry.outcome), None);
            }
        }
    }
}

#[test]
fn success_keeps_parsed_output() {
    let out = outcome_of(&"1".to_string(), &ok_attempt("{\"a\": [1, 2]}"));
    match out {
        ExecutionOutcome::Success { output } => {
            assert_eq!(output["a"][1], serde_json::Value::from(2));
        }
        ExecutionOutcome::Failure { .. } => panic!("expected success"),
    }
}

#[test]
fn error_kinds_follow_attempts() {
    let id = "123".to_string();
    let nonzero = Attempt::Completed { exit_code: Some(255), stdout: vec![], stderr: "boom".to_string() };
    match outcome_of(&id, &nonzero) {
        ExecutionOutcome::Failure { account_id, kind, message } => {
            assert_eq!(account_id, "123");
            assert_eq!(kind, ErrorKind::NonzeroExit);
            assert_eq!(message, "boom");
        }
        _ => panic!("expected failure"),
    }
    let killed = Attempt::Completed { exit_code: None, stdout: b"{}".to_vec(), stderr: String::new() };
    assert_eq!(kind_of(&outcome_of(&id, &killed)), Some(ErrorKind::NonzeroExit));
    match outcome_of(&id, &ok_attempt("not json {")) {
        ExecutionOutcome::Failure { kind, message, .. } => {
            assert_eq!(kind, ErrorKind::MalformedOutput);
            assert_eq!(message, "output is not valid JSON");
        }
        _ => panic!("expected failure"),
    }
    match outcome_of(&id, &Attempt::TimedOut) {
        ExecutionOutcome::Failure { kind, message, .. } => {
            assert_eq!(kind, ErrorKind::Timeout);
            assert_eq!(message, "operation timed out");
        }
        _ => panic!("expected failure"),
    }
    match outcome_of(&id, &Attempt::CredentialDenied { message: "denied".to_string() }) {
        ExecutionOutcome::Failure { kind, message, .. } => {
            assert_eq!(kind, ErrorKind::CredentialDenied);
            assert_eq!(message, "denied");
        }
        _ => panic!("expected failure"),
    }
}

#[test]
fn empty_account_list_gives_empty_report() {
    assert!(list_resources(&vec![], &vec![]).is_empty());
}

#[test]
fn role_arn_is_exact() {
    assert_eq!(
        role_arn(&"123456789012".to_string(), &"Auditor".to_string()),
        "arn:aws:iam::123456789012:role/Auditor"
    );
}

#[test]
fn excluded_paths_are_dropped() {
    let listed = vec![
        (account("1"), String::new()),
        (account("2"), "Sandbox".to_string()),
        (account("3"), "Eng".to_string()),
        (account("4"), "Sandbox:Old".to_string()),
    ];
    let ids = select_account_ids(&listed, &vec!["Sandbox".to_string()]);
    assert_eq!(ids, vec!["1", "3", "4"]);
    let all = select_account_ids(&listed, &vec![]);
    assert_eq!(all, vec!["1", "2", "3", "4"]);
}

#[test]
fn limiter_spaces_calls() {
    let mut l = RateLimiter::new(200);
    assert_eq!(l.acquire(1000), Some(0));
    assert_eq!(l.acquire(1050), Some(150));
    assert_eq!(l.acquire(1100), Some(300));
    assert_eq!(l.acquire(5000), Some(0));
    assert_eq!(l.last_grant_ms, Some(5000));
}

#[test]
fn limiter_total_span() {
    let mut l = RateLimiter::new(100);
    let mut now: u64 = 0;
    let mut first = None;
    let mut last = 0;
    for _ in 0..10 {
        let wait = l.acquire(now).unwrap();
        let start = now + wait;
        if first.is_none() {
            first = Some(start);
        }
        last = start;
        now = start + 1;
    }
    assert!(last - first.unwrap() >= 9 * 100);
}

#[test]
fn limiter_refuses_past_clock_range() {
    let mut l = RateLimiter::new(10);
    assert_eq!(l.acquire(u64::MAX - 5), Some(0));
    assert_eq!(l.acquire(u64::MAX - 5), None);
    assert_eq!(l.last_grant_ms, Some(u64::MAX - 5));
}

#[test]
fn split_keeps_every_piece() {
    assert_eq!(split_on("111,222,333", ','), vec!["111", "222", "333"]);
    assert_eq!(split_on("", ','), vec![""]);
    assert_eq!(split_on("a,,b,", ','), vec!["a", "", "b", ""]);
    assert_eq!(split_on("s3api list-buckets", ' '), vec!["s3api", "list-buckets"]);
    assert_eq!(split_on("Eng:APAC", ','), vec!["Eng:APAC"]);
}

#[test]
fn backoff_doubles_until_retries_run_out() {
    assert_eq!(backoff_ms(500, 0), Some(500));
    assert_eq!(backoff_ms(500, 1), Some(1000));
    assert_eq!(backoff_ms(500, 4), Some(8000));
    assert_eq!(backoff_ms(500, MAX_RETRIES), None);
    assert_eq!(backoff_ms(u64::MAX / 2 + 1, 1), None);
    assert_eq!(backoff_ms(u64::MAX, 0), Some(u64::MAX));
}
