use escrow_intent::{CallContext, ContractError, EscrowIntentContract, IntentStatus};

const ONE_NEAR: u128 = 1_000_000_000_000_000_000_000_000;

fn account(i: usize) -> String {
    ["alice.near", "bob.near", "charlie.near", "danny.near"][i].to_string()
}

fn ctx(i: usize, t: u64) -> CallContext {
    CallContext { predecessor: account(i), block_timestamp: t }
}

fn with_one_intent() -> EscrowIntentContract {
    let mut contract = EscrowIntentContract::new(account(0));
    contract.create_intent(&ctx(1, 10), "intent1".to_string(), account(2), ONE_NEAR, 0, "Test intent".to_string());
    contract
}

fn submitted() -> EscrowIntentContract {
    let mut contract = with_one_intent();
    contract
        .submit_work(&ctx(2, 20), "intent1".to_string(), "https://proof.link".to_string(), Some("Work completed".to_string()))
        .unwrap();
    contract
}

fn disputed() -> EscrowIntentContract {
    let mut contract = submitted();
    contract.dispute_work(&ctx(1, 30), "intent1".to_string()).unwrap();
    contract
}

#[test]
fn test_create_intent() {
    let mut contract = EscrowIntentContract::new(account(0));
    let intent = contract.create_intent(
        &ctx(1, 0),
        "intent1".to_string(),
        account(2),
        1_000_000_000_000_000_000_000_000,
        0,
        "Test intent".to_string(),
    );
    assert_eq!(intent.intent_id, "intent1");
    assert_eq!(intent.client, account(1));
    assert_eq!(intent.freelancer, account(2));
    assert_eq!(intent.status, IntentStatus::Created);
    assert_eq!(contract.get_total_intents(), 1);
}

#[test]
fn test_submit_work() {
    let mut contract = EscrowIntentContract::new(account(0));
    contract.create_intent(&ctx(1, 0), "intent1".to_string(), account(2), ONE_NEAR, 0, "Test intent".to_string());
    let updated_intent = contract
        .submit_work(&ctx(2, 0), "intent1".to_string(), "https://proof.link".to_string(), Some("Work completed".to_string()))
        .unwrap();
    assert_eq!(updated_intent.status, IntentStatus::Approved);
    assert_eq!(updated_intent.proof_link, Some("https://proof.link".to_string()));
    assert_eq!(updated_intent.notes, Some("Work completed".to_string()));
}

#[test]
fn test_approve_work() {
    let mut contract = EscrowIntentContract::new(account(0));
    contract.create_intent(&ctx(1, 0), "intent1".to_string(), account(2), ONE_NEAR, 0, "Test intent".to_string());
    contract
        .submit_work(&ctx(2, 0), "intent1".to_string(), "https://proof.link".to_string(), Some("Work completed".to_string()))
        .unwrap();
    let updated_intent = contract.approve_work(&ctx(1, 0), "intent1".to_string()).unwrap();
    assert_eq!(updated_intent.status, IntentStatus::Completed);
}

#[test]
fn test_dispute_work() {
    let mut contract = EscrowIntentContract::new(account(0));
    contract.create_intent(&ctx(1, 0), "intent1".to_string(), account(2), ONE_NEAR, 0, "Test intent".to_string());
    contract
        .submit_work(&ctx(2, 0), "intent1".to_string(), "https://proof.link".to_string(), Some("Work completed".to_string()))
        .unwrap();
    let updated_intent = contract.dispute_work(&ctx(1, 0), "intent1".to_string()).unwrap();
    assert_eq!(updated_intent.status, IntentStatus::Disputed);
}

#[test]
fn create_records_every_field() {
    let mut contract = EscrowIntentContract::new(account(0));
    let intent = contract.create_intent(&ctx(1, 77), "i1".to_string(), account(2), 5, 99, "desc".to_string());
    assert_eq!(intent.amount, 5);
    assert_eq!(intent.deadline, 99);
    assert_eq!(intent.description, "desc");
    assert_eq!(intent.proof_link, None);
    assert_eq!(intent.notes, None);
    assert_eq!(intent.created_at, 77);
    assert_eq!(intent.updated_at, 77);
    let stored = contract.get_intent("i1".to_string()).unwrap();
    assert_eq!(stored.client, account(1));
    assert_eq!(stored.status, IntentStatus::Created);
}

#[test]
fn counter_counts_each_creation() {
    let mut contract = EscrowIntentContract::new(account(0));
    assert_eq!(contract.get_total_intents(), 0);
    contract.create_intent(&ctx(1, 1), "a".to_string(), account(2), 1, 0, "x".to_string());
    contract.create_intent(&ctx(1, 2), "b".to_string(), account(3), 1, 0, "y".to_string());
    contract.create_intent(&ctx(3, 3), "c".to_string(), account(2), 1, 0, "z".to_string());
    assert_eq!(contract.get_total_intents(), 3);
}

#[test]
fn initialize_once_only() {
    assert_eq!(
        EscrowIntentContract::initialize(true, account(0)).err(),
        Some(ContractError::AlreadyInitialized)
    );
    let contract = EscrowIntentContract::initialize(false, account(0)).unwrap();
    assert_eq!(contract.owner_id, account(0));
    assert_eq!(contract.get_total_intents(), 0);
}

#[test]
fn unknown_intent_is_not_found() {
    let mut contract = with_one_intent();
    assert!(contract.get_intent("nope".to_string()).is_none());
    let missing = "nope".to_string();
    assert_eq!(
        contract.submit_work(&ctx(2, 1), missing.clone(), "p".to_string(), None).unwrap_err(),
        ContractError::NotFound
    );
    assert_eq!(contract.approve_work(&ctx(1, 1), missing.clone()).unwrap_err(), ContractError::NotFound);
    assert_eq!(contract.dispute_work(&ctx(1, 1), missing.clone()).unwrap_err(), ContractError::NotFound);
    assert_eq!(contract.cancel_intent(&ctx(1, 1), missing.clone()).unwrap_err(), ContractError::NotFound);
    assert_eq!(contract.resolve_dispute(&ctx(0, 1), missing, true).unwrap_err(), ContractError::NotFound);
}

#[test]
fn submit_work_needs_the_freelancer() {
    let mut contract = with_one_intent();
    let err = contract
        .submit_work(&ctx(1, 20), "intent1".to_string(), "p".to_string(), None)
        .unwrap_err();
    assert_eq!(err, ContractError::Unauthorized);
    let stored = contract.get_intent("intent1".to_string()).unwrap();
    assert_eq!(stored.status, IntentStatus::Created);
    assert_eq!(stored.proof_link, None);
    assert_eq!(stored.updated_at, 10);
}

#[test]
fn submit_work_sets_proof_and_time() {
    let mut contract = with_one_intent();
    let r = contract
        .submit_work(&ctx(2, 20), "intent1".to_string(), "https://p".to_string(), None)
        .unwrap();
    assert_eq!(r.status, IntentStatus::Approved);
    assert_eq!(r.proof_link, Some("https://p".to_string()));
    assert_eq!(r.notes, None);
    assert_eq!(r.created_at, 10);
    assert_eq!(r.updated_at, 20);
    let stored = contract.get_intent("intent1".to_string()).unwrap();
    assert_eq!(stored.status, IntentStatus::Approved);
    assert_eq!(stored.updated_at, 20);
}

#[test]
fn approve_and_dispute_need_the_client() {
    let mut contract = submitted();
    assert_eq!(contract.approve_work(&ctx(2, 30), "intent1".to_string()).unwrap_err(), ContractError::Unauthorized);
    assert_eq!(contract.approve_work(&ctx(0, 30), "intent1".to_string()).unwrap_err(), ContractError::Unauthorized);
    assert_eq!(contract.dispute_work(&ctx(2, 30), "intent1".to_string()).unwrap_err(), ContractError::Unauthorized);
    assert_eq!(contract.get_intent("intent1".to_string()).unwrap().status, IntentStatus::Approved);
}

#[test]
fn approve_and_dispute_need_approved_status() {
    let mut contract = with_one_intent();
    assert_eq!(contract.approve_work(&ctx(1, 30), "intent1".to_string()).unwrap_err(), ContractError::InvalidState);
    assert_eq!(contract.dispute_work(&ctx(1, 30), "intent1".to_string()).unwrap_err(), ContractError::InvalidState);
    assert_eq!(contract.get_intent("intent1".to_string()).unwrap().status, IntentStatus::Created);
}

#[test]
fn cancel_by_client_or_owner() {
    let mut contract = with_one_intent();
    assert_eq!(contract.cancel_intent(&ctx(2, 15), "intent1".to_string()).unwrap_err(), ContractError::Unauthorized);
    let r = contract.cancel_intent(&ctx(1, 15), "intent1".to_string()).unwrap();
    assert_eq!(r.status, IntentStatus::Cancelled);
    assert_eq!(r.updated_at, 15);

    let mut contract = disputed();
    let r = contract.cancel_intent(&ctx(0, 40), "intent1".to_string()).unwrap();
    assert_eq!(r.status, IntentStatus::Cancelled);
}

#[test]
fn cancel_refused_once_approved() {
    let mut contract = submitted();
    assert_eq!(contract.cancel_intent(&ctx(1, 30), "intent1".to_string()).unwrap_err(), ContractError::InvalidState);
    assert_eq!(contract.cancel_intent(&ctx(0, 30), "intent1".to_string()).unwrap_err(), ContractError::InvalidState);
}

#[test]
fn resolve_dispute_needs_owner_and_dispute() {
    let mut contract = submitted();
    assert_eq!(contract.resolve_dispute(&ctx(0, 40), "intent1".to_string(), true).unwrap_err(), ContractError::InvalidState);
    let mut contract = disputed();
    assert_eq!(contract.resolve_dispute(&ctx(1, 40), "intent1".to_string(), true).unwrap_err(), ContractError::Unauthorized);
    let r = contract.resolve_dispute(&ctx(0, 40), "intent1".to_string(), true).unwrap();
    assert_eq!(r.status, IntentStatus::Completed);
    assert_eq!(r.updated_at, 40);
}

#[test]
fn repeated_transitions_are_invalid_state() {
    let mut contract = with_one_intent();
    contract.submit_work(&ctx(2, 20), "intent1".to_string(), "p".to_string(), None).unwrap();
    assert_eq!(
        contract.submit_work(&ctx(2, 21), "intent1".to_string(), "p".to_string(), None).unwrap_err(),
        ContractError::InvalidState
    );
    let mut other = submitted();
    other.approve_work(&ctx(1, 30), "intent1".to_string()).unwrap();
    assert_eq!(other.approve_work(&ctx(1, 31), "intent1".to_string()).unwrap_err(), ContractError::InvalidState);
    contract.dispute_work(&ctx(1, 30), "intent1".to_string()).unwrap();
    assert_eq!(contract.dispute_work(&ctx(1, 31), "intent1".to_string()).unwrap_err(), ContractError::InvalidState);
    contract.cancel_intent(&ctx(1, 32), "intent1".to_string()).unwrap();
    assert_eq!(contract.cancel_intent(&ctx(1, 33), "intent1".to_string()).unwrap_err(), ContractError::InvalidState);
}

#[test]
fn lifecycle_to_completion_then_dispute_refused() {
    let mut contract = EscrowIntentContract::new(account(0));
    let c = 1;
    let f = 2;
    let r = contract.create_intent(&ctx(c, 1), "i1".to_string(), account(f), ONE_NEAR, 0, "desc".to_string());
    assert_eq!(r.status, IntentStatus::Created);
    assert_eq!(contract.get_total_intents(), 1);
    let r = contract
        .submit_work(&ctx(f, 2), "i1".to_string(), "https://p".to_string(), Some("note".to_string()))
        .unwrap();
    assert_eq!(r.status, IntentStatus::Approved);
    let r = contract.approve_work(&ctx(c, 3), "i1".to_string()).unwrap();
    assert_eq!(r.status, IntentStatus::Completed);
    assert_eq!(contract.dispute_work(&ctx(c, 4), "i1".to_string()).unwrap_err(), ContractError::InvalidState);
}

#[test]
fn dispute_resolved_as_cancelled_then_final() {
    let mut contract = EscrowIntentContract::new(account(0));
    contract.create_intent(&ctx(1, 1), "i1".to_string(), account(2), ONE_NEAR, 0, "desc".to_string());
    contract
        .submit_work(&ctx(2, 2), "i1".to_string(), "https://p".to_string(), Some("note".to_string()))
        .unwrap();
    let r = contract.dispute_work(&ctx(1, 3), "i1".to_string()).unwrap();
    assert_eq!(r.status, IntentStatus::Disputed);
    let r = contract.resolve_dispute(&ctx(0, 4), "i1".to_string(), false).unwrap();
    assert_eq!(r.status, IntentStatus::Cancelled);
    assert_eq!(contract.resolve_dispute(&ctx(0, 5), "i1".to_string(), false).unwrap_err(), ContractError::InvalidState);
    assert_eq!(contract.resolve_dispute(&ctx(0, 5), "i1".to_string(), true).unwrap_err(), ContractError::InvalidState);
}

#[test]
fn user_intents_in_creation_order() {
    let mut contract = EscrowIntentContract::new(account(0));
    contract.create_intent(&ctx(1, 1), "a".to_string(), account(2), 1, 0, "x".to_string());
    contract.create_intent(&ctx(3, 2), "b".to_string(), account(1), 1, 0, "y".to_string());
    contract.create_intent(&ctx(3, 3), "c".to_string(), account(2), 1, 0, "z".to_string());
    let ids = |a: usize| -> Vec<String> {
        contract.get_user_intents(account(a)).into_iter().map(|i| i.intent_id).collect()
    };
    assert_eq!(ids(1), vec!["a".to_string(), "b".to_string()]);
    assert_eq!(ids(2), vec!["a".to_string(), "c".to_string()]);
    assert_eq!(ids(3), vec!["b".to_string(), "c".to_string()]);
    assert!(ids(0).is_empty());
}

#[test]
fn user_intents_show_current_records() {
    let mut contract = submitted();
    let mine = contract.get_user_intents(account(2));
    assert_eq!(mine.len(), 1);
    assert_eq!(mine[0].status, IntentStatus::Approved);
    contract.approve_work(&ctx(1, 30), "intent1".to_string()).unwrap();
    let mine = contract.get_user_intents(account(1));
    assert_eq!(mine[0].status, IntentStatus::Completed);
}

#[test]
fn reused_identifier_replaces_record() {
    let mut contract = with_one_intent();
    contract.create_intent(&ctx(3, 50), "intent1".to_string(), account(2), 7, 0, "again".to_string());
    assert_eq!(contract.get_total_intents(), 2);
    let stored = contract.get_intent("intent1".to_string()).unwrap();
    assert_eq!(stored.client, account(3));
    assert_eq!(stored.description, "again");
    let listed = contract.get_user_intents(account(2));
    assert_eq!(listed.len(), 2);
    assert_eq!(listed[0].description, "again");
    assert_eq!(contract.get_user_intents(account(1))[0].client, account(3));
}

#[test]
fn same_client_and_freelancer_listed_twice() {
    let mut contract = EscrowIntentContract::new(account(0));
    contract.create_intent(&ctx(1, 1), "self".to_string(), account(1), 1, 0, "x".to_string());
    assert_eq!(contract.get_user_intents(account(1)).len(), 2);
}

#[test]
fn terminal_statuses_refuse_every_operation() {
    let mut contract = submitted();
    contract.approve_work(&ctx(1, 30), "intent1".to_string()).unwrap();
    let id = "intent1".to_string();
    assert_eq!(contract.submit_work(&ctx(2, 31), id.clone(), "p".to_string(), None).unwrap_err(), ContractError::InvalidState);
    assert_eq!(contract.dispute_work(&ctx(1, 31), id.clone()).unwrap_err(), ContractError::InvalidState);
    assert_eq!(contract.cancel_intent(&ctx(0, 31), id.clone()).unwrap_err(), ContractError::InvalidState);
    assert_eq!(contract.resolve_dispute(&ctx(0, 31), id.clone(), false).unwrap_err(), ContractError::InvalidState);
    let stored = contract.get_intent(id).unwrap();
    assert_eq!(stored.status, IntentStatus::Completed);
    assert_eq!(stored.updated_at, 30);
}
