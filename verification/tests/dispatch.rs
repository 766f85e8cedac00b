use nmlt::dispatch::{Phase, ProviderAttempt};

#[test]
fn only_an_authorized_attempt_dispatches() {
    let mut a = ProviderAttempt { phase: Phase::Authorized, armed: true, dispatched: false };
    assert!(a.dispatch());
    assert_eq!(a, ProviderAttempt { phase: Phase::Dispatched, armed: true, dispatched: true });
    assert!(!a.dispatch());
    assert_eq!(a.phase, Phase::Dispatched);

    let mut p = ProviderAttempt { phase: Phase::Proposed, armed: true, dispatched: false };
    assert!(!p.dispatch());
    assert_eq!(p, ProviderAttempt { phase: Phase::Proposed, armed: true, dispatched: false });
}

#[test]
fn an_unarmed_attempt_is_not_dispatched() {
    let mut a = ProviderAttempt { phase: Phase::Authorized, armed: false, dispatched: false };
    assert!(!a.dispatch());
    assert_eq!(a, ProviderAttempt { phase: Phase::Authorized, armed: false, dispatched: false });
}
