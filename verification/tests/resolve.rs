use bootstore::resolve::BackendOutcome;
use bootstore::resolve::BackendRegistration;
use bootstore::resolve::FinderRegistry;
use bootstore::resolve::RepoFinderResult;
use bootstore::resolve::ResolveError;
use bootstore::resolve::resolve;

fn bv(s: &str) -> Vec<u8> {
    s.as_bytes().to_vec()
}

fn candidate(uri: &str, keyring: &str, priority: i64, timestamp: u64, refs: &[&str]) -> RepoFinderResult {
    RepoFinderResult {
        uri: bv(uri),
        keyring: bv(keyring),
        priority,
        timestamp,
        refs: refs.iter().map(|r| bv(r)).collect(),
    }
}

fn registry_of(n: usize) -> FinderRegistry {
    let mut reg = FinderRegistry::new();
    let mut i = 0;
    while i < n {
        reg.register(BackendRegistration {
            id: bv("backend"),
            supports_static_config: true,
            supports_network_discovery: false,
        });
        i += 1;
    }
    reg
}

fn some_refs() -> Vec<Vec<u8>> {
    vec![bv("sha256:abc"), bv("sha256:def")]
}

#[test]
fn zero_backends_yield_empty_result() {
    let reg = registry_of(0);
    let out = resolve(&reg, &some_refs(), &Vec::new(), false).unwrap();
    assert_eq!(out.len(), 0);
}

#[test]
fn empty_reference_set_is_rejected() {
    let reg = registry_of(1);
    let outcomes = vec![BackendOutcome::Responded(Vec::new())];
    let r = resolve(&reg, &Vec::new(), &outcomes, false);
    assert_eq!(r.unwrap_err(), ResolveError::InvalidArgument);
}

#[test]
fn malformed_reference_is_rejected() {
    let reg = registry_of(1);
    let outcomes = vec![BackendOutcome::Responded(Vec::new())];
    let refs = vec![bv("bad ref")];
    let r = resolve(&reg, &refs, &outcomes, false);
    assert_eq!(r.unwrap_err(), ResolveError::InvalidArgument);
    let refs = vec![bv("")];
    let r = resolve(&reg, &refs, &outcomes, false);
    assert_eq!(r.unwrap_err(), ResolveError::InvalidArgument);
}

#[test]
fn cancellation_is_reported() {
    let reg = registry_of(1);
    let outcomes = vec![BackendOutcome::Responded(Vec::new())];
    let r = resolve(&reg, &some_refs(), &outcomes, true);
    assert_eq!(r.unwrap_err(), ResolveError::Cancelled);
}

#[test]
fn same_source_from_two_backends_is_merged_once() {
    let reg = registry_of(2);
    let outcomes = vec![
        BackendOutcome::Responded(vec![candidate("https://a.example", "ring1", 10, 100, &["sha256:abc"])]),
        BackendOutcome::Responded(vec![candidate("https://a.example", "ring2", 10, 100, &["sha256:def"])]),
    ];
    let out = resolve(&reg, &some_refs(), &outcomes, false).unwrap();
    assert_eq!(out.len(), 1);
    assert_eq!(out[0].uri, bv("https://a.example"));
    // timestamp tie: the record from the lower-ranked backend is retained
    assert_eq!(out[0].keyring, bv("ring1"));
    // claimed references are unioned
    assert_eq!(out[0].refs, vec![bv("sha256:abc"), bv("sha256:def")]);
}

#[test]
fn newer_timestamp_wins_on_merge() {
    let reg = registry_of(2);
    let outcomes = vec![
        BackendOutcome::Responded(vec![candidate("https://a.example", "old", 10, 100, &["sha256:abc"])]),
        BackendOutcome::Responded(vec![candidate("https://a.example", "new", 5, 200, &["sha256:abc"])]),
    ];
    let out = resolve(&reg, &some_refs(), &outcomes, false).unwrap();
    assert_eq!(out.len(), 1);
    assert_eq!(out[0].keyring, bv("new"));
    assert_eq!(out[0].priority, 5);
    assert_eq!(out[0].timestamp, 200);
    assert_eq!(out[0].refs, vec![bv("sha256:abc")]);
}

#[test]
fn failed_backend_degrades_gracefully() {
    let reg = registry_of(3);
    let good1 = candidate("https://a.example", "ring", 1, 50, &["sha256:abc"]);
    let good2 = candidate("https://b.example", "ring", 2, 60, &["sha256:def"]);
    let outcomes = vec![
        BackendOutcome::Responded(vec![good1]),
        BackendOutcome::Failed,
        BackendOutcome::Responded(vec![good2]),
    ];
    let out = resolve(&reg, &some_refs(), &outcomes, false).unwrap();
    assert_eq!(out.len(), 2);
    assert_eq!(out[0].uri, bv("https://a.example"));
    assert_eq!(out[1].uri, bv("https://b.example"));
}

#[test]
fn timed_out_backend_contributes_nothing() {
    let reg = registry_of(2);
    let outcomes = vec![
        BackendOutcome::TimedOut,
        BackendOutcome::Responded(vec![candidate("https://b.example", "ring", 2, 60, &["sha256:def"])]),
    ];
    let out = resolve(&reg, &some_refs(), &outcomes, false).unwrap();
    assert_eq!(out.len(), 1);
    assert_eq!(out[0].uri, bv("https://b.example"));
}

#[test]
fn ordering_is_priority_then_timestamp_then_rank() {
    let reg = registry_of(2);
    let outcomes = vec![
        BackendOutcome::Responded(vec![
            candidate("https://low-pri.example", "r", 20, 900, &["sha256:abc"]),
            candidate("https://old.example", "r", 5, 100, &["sha256:abc"]),
        ]),
        BackendOutcome::Responded(vec![
            candidate("https://new.example", "r", 5, 300, &["sha256:abc"]),
            candidate("https://tied.example", "r", 5, 100, &["sha256:abc"]),
        ]),
    ];
    let out = resolve(&reg, &some_refs(), &outcomes, false).unwrap();
    let uris: Vec<Vec<u8>> = out.iter().map(|c| c.uri.clone()).collect();
    assert_eq!(
        uris,
        vec![
            bv("https://new.example"),
            bv("https://old.example"),
            bv("https://tied.example"),
            bv("https://low-pri.example"),
        ]
    );
}

#[test]
fn resolution_is_deterministic() {
    let reg = registry_of(2);
    let outcomes = vec![
        BackendOutcome::Responded(vec![
            candidate("https://a.example", "r", 3, 10, &["sha256:abc"]),
            candidate("https://b.example", "r", 1, 20, &["sha256:def"]),
        ]),
        BackendOutcome::Responded(vec![candidate("https://a.example", "r", 3, 15, &["sha256:def"])]),
    ];
    let first = resolve(&reg, &some_refs(), &outcomes, false).unwrap();
    let second = resolve(&reg, &some_refs(), &outcomes, false).unwrap();
    assert_eq!(first.len(), second.len());
    for (a, b) in first.iter().zip(second.iter()) {
        assert_eq!(a.uri, b.uri);
        assert_eq!(a.keyring, b.keyring);
        assert_eq!(a.priority, b.priority);
        assert_eq!(a.timestamp, b.timestamp);
        assert_eq!(a.refs, b.refs);
    }
}

#[test]
fn all_backends_failing_still_succeeds_with_empty_result() {
    let reg = registry_of(2);
    let outcomes = vec![BackendOutcome::Failed, BackendOutcome::Failed];
    let out = resolve(&reg, &some_refs(), &outcomes, false).unwrap();
    assert_eq!(out.len(), 0);
}

#[test]
fn registry_counts_registrations() {
    let reg = registry_of(3);
    assert_eq!(reg.backend_count(), 3);
}
