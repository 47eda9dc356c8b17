use crate::account_index::{ids_of, ids_view, AccountIndex};
use crate::intent::{opt_view, EscrowIntent, IntentModel};
use crate::registry::IntentRegistry;
use crate::status::IntentStatus;
use vstd::prelude::*;

verus! {

/// What the host tells each call: who is calling, and the time of the call.
pub struct CallContext {
    pub predecessor: String,
    pub block_timestamp: u64,
}

/// Why an operation was refused. A refused operation changes nothing.
#[derive(Clone, Copy, Debug, PartialEq, Eq, Structural)]
pub enum ContractError {
    /// The state was already set up.
    AlreadyInitialized,
    /// No intent is stored under the identifier.
    NotFound,
    /// The caller does not hold the role the operation needs.
    Unauthorized,
    /// The intent's status does not allow the operation.
    InvalidState,
}

/// The whole state: the owner, the registry, the account index and the
/// number of intents created so far.
pub struct EscrowIntentContract {
    pub owner_id: String,
    pub intents: IntentRegistry,
    pub user_intents: AccountIndex,
    pub total_intents: u64,
}

/// The mathematical value of the state.
pub ghost struct ContractModel {
    pub owner: Seq<char>,
    pub intents: Map<Seq<char>, IntentModel>,
    pub index: Map<Seq<char>, Seq<Seq<char>>>,
    pub total: u64,
}

/// The value of an operation's outcome.
pub open spec fn outcome_view(r: Result<EscrowIntent, ContractError>) -> Result<IntentModel, ContractError> {
    match r {
        Ok(x) => Ok(x@),
        Err(e) => Err(e),
    }
}

/// The records stored under `ids`, in the order of `ids`, skipping every
/// identifier that has no record.
pub open spec fn resolve(ids: Seq<Seq<char>>, intents: Map<Seq<char>, IntentModel>) -> Seq<IntentModel>
    decreases ids.len(),
{
    if ids.len() == 0 {
        Seq::empty()
    } else {
        let rest = resolve(ids.drop_last(), intents);
        if intents.contains_key(ids.last()) {
            rest.push(intents[ids.last()])
        } else {
            rest
        }
    }
}

/// `x` is the record stored under one of `ids`.
pub open spec fn named_in(ids: Seq<Seq<char>>, intents: Map<Seq<char>, IntentModel>, x: IntentModel) -> bool {
    exists|j: int| #![trigger ids[j]] 0 <= j < ids.len() && intents.contains_key(ids[j]) && intents[ids[j]] == x
}

/// Each record that `resolve` gives is stored under one of `ids`, and each
/// stored record named in `ids` is among them.
pub proof fn lemma_resolve_members(ids: Seq<Seq<char>>, intents: Map<Seq<char>, IntentModel>)
    ensures
        forall|k: int| 0 <= k < resolve(ids, intents).len()
            ==> named_in(ids, intents, #[trigger] resolve(ids, intents)[k]),
        forall|j: int| 0 <= j < ids.len() && intents.contains_key(#[trigger] ids[j])
            ==> resolve(ids, intents).contains(intents[ids[j]]),
    decreases ids.len(),
{
    if ids.len() > 0 {
        let init = ids.drop_last();
        lemma_resolve_members(init, intents);
        assert forall|k: int| 0 <= k < resolve(ids, intents).len()
            implies named_in(ids, intents, #[trigger] resolve(ids, intents)[k]) by {
            if k < resolve(init, intents).len() {
                let x = resolve(init, intents)[k];
                assert(named_in(init, intents, x));
                let j = choose|j: int| #![trigger init[j]] 0 <= j < init.len() && intents.contains_key(init[j]) && intents[init[j]] == x;
                assert(ids[j] == init[j]);
                assert(resolve(ids, intents)[k] == x);
            } else {
                let j = ids.len() - 1;
                assert(ids[j] == ids.last());
            }
        }
        assert forall|j: int| 0 <= j < ids.len() && intents.contains_key(#[trigger] ids[j])
            implies resolve(ids, intents).contains(intents[ids[j]]) by {
            if j < init.len() {
                assert(init[j] == ids[j]);
                let k = choose|k: int| 0 <= k < resolve(init, intents).len() && resolve(init, intents)[k] == intents[init[j]];
                assert(resolve(ids, intents)[k] == resolve(init, intents)[k]);
            } else {
                let all = resolve(ids, intents);
                assert(all[all.len() - 1] == intents[ids.last()]);
            }
        }
    }
}


/// Storing a record under an identifier that `ids` does not name leaves what
/// `resolve` gives unchanged.
pub proof fn lemma_resolve_unnamed(ids: Seq<Seq<char>>, intents: Map<Seq<char>, IntentModel>, k: Seq<char>, v: IntentModel)
    requires
        !ids.contains(k),
    ensures
        resolve(ids, intents.insert(k, v)) == resolve(ids, intents),
    decreases ids.len(),
{
    if ids.len() > 0 {
        let init = ids.drop_last();
        assert(!init.contains(k)) by {
            if init.contains(k) {
                let j = choose|j: int| 0 <= j < init.len() && init[j] == k;
                assert(ids[j] == k);
            }
        }
        assert(ids[ids.len() - 1] != k);
        lemma_resolve_unnamed(init, intents, k, v);
    }
}

impl ContractModel {
    /// Every record is stored under its own identifier.
    pub open spec fn keys_match(self) -> bool {
        forall|k: Seq<char>| #[trigger] self.intents.contains_key(k) ==> self.intents[k].intent_id == k
    }

    /// Every identifier in the index has a record.
    pub open spec fn index_registered(self) -> bool {
        forall|a: Seq<char>, j: int|
            self.index.contains_key(a) && 0 <= j < self.index[a].len()
                ==> self.intents.contains_key(#[trigger] self.index[a][j])
    }

    /// Every record is listed under its client and under its freelancer.
    pub open spec fn index_complete(self) -> bool {
        forall|k: Seq<char>| #[trigger] self.intents.contains_key(k)
            ==> ids_of(self.index, self.intents[k].client).contains(k)
                && ids_of(self.index, self.intents[k].freelancer).contains(k)
    }

    /// What holds of every reachable state.
    pub open spec fn well_formed(self) -> bool {
        self.keys_match() && self.index_registered() && self.index_complete()
    }

    /// Every identifier listed under an account names a record in which that
    /// account is the client or the freelancer. This lasts as long as no
    /// identifier is created twice.
    pub open spec fn parties_consistent(self) -> bool {
        forall|a: Seq<char>, j: int|
            self.index.contains_key(a) && 0 <= j < self.index[a].len()
                ==> (self.intents[#[trigger] self.index[a][j]].client == a
                    || self.intents[self.index[a][j]].freelancer == a)
    }

    /// The intents of `account`, in the order they were recorded.
    pub open spec fn user_intents(self, account: Seq<char>) -> Seq<IntentModel> {
        resolve(ids_of(self.index, account), self.intents)
    }

    /// The record that `create_intent` writes.
    pub open spec fn new_intent(
        caller: Seq<char>,
        now: u64,
        intent_id: Seq<char>,
        freelancer: Seq<char>,
        amount: u128,
        deadline: u64,
        description: Seq<char>,
    ) -> IntentModel {
        IntentModel {
            intent_id,
            client: caller,
            freelancer,
            amount,
            deadline,
            description,
            proof_link: None,
            notes: None,
            status: IntentStatus::Created,
            created_at: now,
            updated_at: now,
        }
    }

    /// The state after `record` is created: stored under its identifier,
    /// listed under its client then under its freelancer, and counted.
    pub open spec fn after_create(self, record: IntentModel) -> ContractModel {
        let id = record.intent_id;
        let index1 = self.index.insert(record.client, ids_of(self.index, record.client).push(id));
        let index2 = index1.insert(record.freelancer, ids_of(index1, record.freelancer).push(id));
        ContractModel {
            owner: self.owner,
            intents: self.intents.insert(id, record),
            index: index2,
            total: (self.total + 1) as u64,
        }
    }

    /// The state after an operation on `intent_id` with outcome `r`: the new
    /// record is written back on success, nothing changes on failure.
    pub open spec fn applied(self, intent_id: Seq<char>, r: Result<IntentModel, ContractError>) -> ContractModel {
        match r {
            Ok(x) => ContractModel { intents: self.intents.insert(intent_id, x), ..self },
            Err(_) => self,
        }
    }

    /// The freelancer submits work on a `Created` intent, which becomes `Approved`.
    pub open spec fn submit_work_outcome(
        self,
        caller: Seq<char>,
        now: u64,
        intent_id: Seq<char>,
        proof_link: Seq<char>,
        notes: Option<Seq<char>>,
    ) -> Result<IntentModel, ContractError> {
        if !self.intents.contains_key(intent_id) {
            Err(ContractError::NotFound)
        } else if self.intents[intent_id].freelancer != caller {
            Err(ContractError::Unauthorized)
        } else if self.intents[intent_id].status != IntentStatus::Created {
            Err(ContractError::InvalidState)
        } else {
            Ok(IntentModel {
                proof_link: Some(proof_link),
                notes,
                ..self.intents[intent_id].moved_to(IntentStatus::Approved, now)
            })
        }
    }

    /// The client accepts an `Approved` intent, which becomes `Completed`.
    pub open spec fn approve_work_outcome(self, caller: Seq<char>, now: u64, intent_id: Seq<char>) -> Result<IntentModel, ContractError> {
        if !self.intents.contains_key(intent_id) {
            Err(ContractError::NotFound)
        } else if self.intents[intent_id].client != caller {
            Err(ContractError::Unauthorized)
        } else if self.intents[intent_id].status != IntentStatus::Approved {
            Err(ContractError::InvalidState)
        } else {
            Ok(self.intents[intent_id].moved_to(IntentStatus::Completed, now))
        }
    }

    /// The client disputes an `Approved` intent, which becomes `Disputed`.
    pub open spec fn dispute_work_outcome(self, caller: Seq<char>, now: u64, intent_id: Seq<char>) -> Result<IntentModel, ContractError> {
        if !self.intents.contains_key(intent_id) {
            Err(ContractError::NotFound)
        } else if self.intents[intent_id].client != caller {
            Err(ContractError::Unauthorized)
        } else if self.intents[intent_id].status != IntentStatus::Approved {
            Err(ContractError::InvalidState)
        } else {
            Ok(self.intents[intent_id].moved_to(IntentStatus::Disputed, now))
        }
    }

    /// The client or the owner cancels a `Created` or `Disputed` intent.
    pub open spec fn cancel_intent_outcome(self, caller: Seq<char>, now: u64, intent_id: Seq<char>) -> Result<IntentModel, ContractError> {
        if !self.intents.contains_key(intent_id) {
            Err(ContractError::NotFound)
        } else if self.intents[intent_id].client != caller && self.owner != caller {
            Err(ContractError::Unauthorized)
        } else if self.intents[intent_id].status != IntentStatus::Created
            && self.intents[intent_id].status != IntentStatus::Disputed {
            Err(ContractError::InvalidState)
        } else {
            Ok(self.intents[intent_id].moved_to(IntentStatus::Cancelled, now))
        }
    }

    /// The owner settles a `Disputed` intent as `Completed` or `Cancelled`.
    pub open spec fn resolve_dispute_outcome(
        self,
        caller: Seq<char>,
        now: u64,
        intent_id: Seq<char>,
        complete: bool,
    ) -> Result<IntentModel, ContractError> {
        if !self.intents.contains_key(intent_id) {
            Err(ContractError::NotFound)
        } else if self.owner != caller {
            Err(ContractError::Unauthorized)
        } else if self.intents[intent_id].status != IntentStatus::Disputed {
            Err(ContractError::InvalidState)
        } else if complete {
            Ok(self.intents[intent_id].moved_to(IntentStatus::Completed, now))
        } else {
            Ok(self.intents[intent_id].moved_to(IntentStatus::Cancelled, now))
        }
    }

    /// How creating `record` changes the list of one account: identifiers
    /// already listed stay where they were, and the new one is appended to the
    /// lists of its client and of its freelancer only.
    pub proof fn lemma_ids_after_create(self, record: IntentModel, a: Seq<char>)
        ensures
            ({
                let before = ids_of(self.index, a);
                let after = ids_of(self.after_create(record).index, a);
                &&& before.len() <= after.len()
                &&& forall|j: int| 0 <= j < before.len() ==> after[j] == before[j]
                &&& forall|j: int| before.len() <= j < after.len() ==> after[j] == record.intent_id
                &&& (a == record.client || a == record.freelancer) ==> after.contains(record.intent_id)
                &&& (a != record.client && a != record.freelancer) ==> after == before
                &&& self.after_create(record).index.contains_key(a) == (self.index.contains_key(a)
                    || a == record.client || a == record.freelancer)
            }),
    {
        let before = ids_of(self.index, a);
        let after = ids_of(self.after_create(record).index, a);
        let index1 = self.index.insert(record.client, ids_of(self.index, record.client).push(record.intent_id));
        if a == record.freelancer {
            assert(after == ids_of(index1, a).push(record.intent_id));
            assert(after[after.len() - 1] == record.intent_id);
        }
        if a == record.client {
            assert(ids_of(index1, a) == before.push(record.intent_id));
            assert(ids_of(index1, a)[before.len() as int] == record.intent_id);
            assert(after[before.len() as int] == record.intent_id);
        }
    }

    /// Creating a record keeps the state well formed; where its identifier was
    /// not in use, the lists stay consistent with the records' parties.
    pub proof fn lemma_create_preserves(self, record: IntentModel)
        requires
            self.well_formed(),
            self.total < u64::MAX,
        ensures
            self.after_create(record).well_formed(),
            self.parties_consistent() && !self.intents.contains_key(record.intent_id)
                ==> self.after_create(record).parties_consistent(),
    {
        let n = self.after_create(record);
        let id = record.intent_id;
        assert forall|a: Seq<char>, j: int| n.index.contains_key(a) && 0 <= j < n.index[a].len()
            implies n.intents.contains_key(#[trigger] n.index[a][j]) by {
            self.lemma_ids_after_create(record, a);
            if j < ids_of(self.index, a).len() {
                assert(self.index.contains_key(a));
                assert(self.intents.contains_key(self.index[a][j]));
            }
        }
        assert forall|k: Seq<char>| #[trigger] n.intents.contains_key(k)
            implies ids_of(n.index, n.intents[k].client).contains(k)
                && ids_of(n.index, n.intents[k].freelancer).contains(k) by {
            self.lemma_ids_after_create(record, n.intents[k].client);
            self.lemma_ids_after_create(record, n.intents[k].freelancer);
            if k != id {
                let c = self.intents[k].client;
                let f = self.intents[k].freelancer;
                let ic = choose|i: int| 0 <= i < ids_of(self.index, c).len() && ids_of(self.index, c)[i] == k;
                assert(ids_of(n.index, c)[ic] == k);
                let jf = choose|i: int| 0 <= i < ids_of(self.index, f).len() && ids_of(self.index, f)[i] == k;
                assert(ids_of(n.index, f)[jf] == k);
            }
        }
        if self.parties_consistent() && !self.intents.contains_key(id) {
            assert forall|a: Seq<char>, j: int| n.index.contains_key(a) && 0 <= j < n.index[a].len()
                implies (n.intents[#[trigger] n.index[a][j]].client == a
                    || n.intents[n.index[a][j]].freelancer == a) by {
                self.lemma_ids_after_create(record, a);
                if j < ids_of(self.index, a).len() {
                    assert(self.index.contains_key(a));
                    assert(self.intents.contains_key(self.index[a][j]));
                    assert(self.index[a][j] != id);
                } else {
                    assert(a == record.client || a == record.freelancer);
                }
            }
        }
    }

    /// Each identifier in a state's lists gets at most the intents whose
    /// party it is, and every intent of a party is found in its list: the
    /// query for `account` returns exactly the stored intents in which
    /// `account` is the client or the freelancer. This needs the lists to be
    /// consistent with the records, which creating an identifier twice breaks.
    pub proof fn lemma_user_intents_exact(self, account: Seq<char>)
        requires
            self.well_formed(),
            self.parties_consistent(),
        ensures
            forall|k: int| 0 <= k < self.user_intents(account).len()
                ==> (#[trigger] self.user_intents(account)[k]).client == account
                    || self.user_intents(account)[k].freelancer == account,
            forall|id: Seq<char>| #[trigger] self.intents.contains_key(id)
                && (self.intents[id].client == account || self.intents[id].freelancer == account)
                ==> self.user_intents(account).contains(self.intents[id]),
    {
        let ids = ids_of(self.index, account);
        lemma_resolve_members(ids, self.intents);
        assert forall|k: int| 0 <= k < self.user_intents(account).len()
            implies (#[trigger] self.user_intents(account)[k]).client == account
                || self.user_intents(account)[k].freelancer == account by {
            assert(named_in(ids, self.intents, self.user_intents(account)[k]));
            let j = choose|j: int| #![trigger ids[j]] 0 <= j < ids.len() && self.intents.contains_key(ids[j])
                && self.intents[ids[j]] == self.user_intents(account)[k];
            assert(self.index.contains_key(account));
            assert(self.index[account][j] == ids[j]);
        }
        assert forall|id: Seq<char>| #[trigger] self.intents.contains_key(id)
            && (self.intents[id].client == account || self.intents[id].freelancer == account)
            implies self.user_intents(account).contains(self.intents[id]) by {
            let j = choose|j: int| 0 <= j < ids.len() && ids[j] == id;
            assert(self.intents.contains_key(ids[j]));
        }
    }

    /// An operation that has just succeeded on an intent, made again by the
    /// same caller on the same intent, is refused with `InvalidState`.
    pub proof fn lemma_repeat_is_invalid_state(
        self,
        caller: Seq<char>,
        first: u64,
        second: u64,
        intent_id: Seq<char>,
        proof_link: Seq<char>,
        notes: Option<Seq<char>>,
        complete: bool,
    )
        ensures
            ({
                let r = self.submit_work_outcome(caller, first, intent_id, proof_link, notes);
                r.is_ok() ==> self.applied(intent_id, r).submit_work_outcome(caller, second, intent_id, proof_link, notes)
                    == Err::<IntentModel, ContractError>(ContractError::InvalidState)
            }),
            ({
                let r = self.approve_work_outcome(caller, first, intent_id);
                r.is_ok() ==> self.applied(intent_id, r).approve_work_outcome(caller, second, intent_id)
                    == Err::<IntentModel, ContractError>(ContractError::InvalidState)
            }),
            ({
                let r = self.dispute_work_outcome(caller, first, intent_id);
                r.is_ok() ==> self.applied(intent_id, r).dispute_work_outcome(caller, second, intent_id)
                    == Err::<IntentModel, ContractError>(ContractError::InvalidState)
            }),
            ({
                let r = self.cancel_intent_outcome(caller, first, intent_id);
                r.is_ok() ==> self.applied(intent_id, r).cancel_intent_outcome(caller, second, intent_id)
                    == Err::<IntentModel, ContractError>(ContractError::InvalidState)
            }),
            ({
                let r = self.resolve_dispute_outcome(caller, first, intent_id, complete);
                r.is_ok() ==> self.applied(intent_id, r).resolve_dispute_outcome(caller, second, intent_id, complete)
                    == Err::<IntentModel, ContractError>(ContractError::InvalidState)
            }),
    {
    }

    /// Creating an intent under an identifier not in use appends it to the
    /// query results of its client and of its freelancer, and leaves those of
    /// every other account as they were: the query lists intents in the order
    /// they were created.
    pub proof fn lemma_create_appends(self, record: IntentModel, account: Seq<char>)
        requires
            self.well_formed(),
            !self.intents.contains_key(record.intent_id),
            record.client != record.freelancer,
        ensures
            (account == record.client || account == record.freelancer)
                ==> self.after_create(record).user_intents(account) == self.user_intents(account).push(record),
            (account != record.client && account != record.freelancer)
                ==> self.after_create(record).user_intents(account) == self.user_intents(account),
    {
        let n = self.after_create(record);
        let id = record.intent_id;
        let before = ids_of(self.index, account);
        self.lemma_ids_after_create(record, account);
        assert(!before.contains(id)) by {
            if before.contains(id) {
                let j = choose|j: int| 0 <= j < before.len() && before[j] == id;
                assert(self.index.contains_key(account));
                assert(self.intents.contains_key(self.index[account][j]));
            }
        }
        lemma_resolve_unnamed(before, self.intents, id, record);
        if account == record.client || account == record.freelancer {
            let after = ids_of(n.index, account);
            if account == record.client {
                let index1 = self.index.insert(record.client, before.push(id));
                assert(ids_of(index1, account) == before.push(id));
                assert(after == before.push(id));
            } else {
                assert(after == before.push(id));
            }
            assert(after.drop_last() =~= before);
            assert(n.intents.contains_key(after.last()));
        }
    }

    /// `Completed` and `Cancelled` are terminal: every operation on an intent
    /// in one of them is refused, whoever calls.
    pub proof fn lemma_terminal_is_final(
        self,
        caller: Seq<char>,
        now: u64,
        intent_id: Seq<char>,
        proof_link: Seq<char>,
        notes: Option<Seq<char>>,
        complete: bool,
    )
        requires
            self.intents.contains_key(intent_id),
            self.intents[intent_id].status == IntentStatus::Completed
                || self.intents[intent_id].status == IntentStatus::Cancelled,
        ensures
            self.submit_work_outcome(caller, now, intent_id, proof_link, notes).is_err(),
            self.approve_work_outcome(caller, now, intent_id).is_err(),
            self.dispute_work_outcome(caller, now, intent_id).is_err(),
            self.cancel_intent_outcome(caller, now, intent_id).is_err(),
            self.resolve_dispute_outcome(caller, now, intent_id, complete).is_err(),
    {
    }
}

impl View for EscrowIntentContract {
    type V = ContractModel;

    open spec fn view(&self) -> ContractModel {
        ContractModel {
            owner: self.owner_id@,
            intents: self.intents@,
            index: self.user_intents@,
            total: self.total_intents,
        }
    }
}

impl EscrowIntentContract {
    /// The registry and the index are each sound, and the state is well formed.
    pub open spec fn wf(&self) -> bool {
        self.intents.wf() && self.user_intents.wf() && self@.well_formed()
    }

    /// A fresh state owned by `owner_id`: no intents, an empty index, a zero count.
    pub fn new(owner_id: String) -> (r: EscrowIntentContract)
        ensures
            r.wf(),
            r@ == (ContractModel {
                owner: owner_id@,
                intents: Map::empty(),
                index: Map::empty(),
                total: 0,
            }),
            r@.parties_consistent(),
    {
        EscrowIntentContract {
            owner_id,
            intents: IntentRegistry::new(),
            user_intents: AccountIndex::new(),
            total_intents: 0,
        }
    }

    /// Sets the state up once: refused with `AlreadyInitialized` where the
    /// host already holds a state.
    pub fn initialize(state_exists: bool, owner_id: String) -> (r: Result<EscrowIntentContract, ContractError>)
        ensures
            state_exists ==> r == Err::<EscrowIntentContract, ContractError>(ContractError::AlreadyInitialized),
            !state_exists ==> r.is_ok() && r.unwrap().wf() && r.unwrap()@ == (ContractModel {
                owner: owner_id@,
                intents: Map::empty(),
                index: Map::empty(),
                total: 0,
            }),
    {
        if state_exists {
            Err(ContractError::AlreadyInitialized)
        } else {
            Ok(EscrowIntentContract::new(owner_id))
        }
    }

    /// Writes back an updated record whose parties are those of the stored
    /// one, and hands out a copy of it.
    fn store_update(&mut self, intent: EscrowIntent) -> (r: EscrowIntent)
        requires
            old(self).wf(),
            old(self)@.intents.contains_key(intent.intent_id@),
            old(self)@.intents[intent.intent_id@].intent_id == intent@.intent_id,
            old(self)@.intents[intent.intent_id@].client == intent@.client,
            old(self)@.intents[intent.intent_id@].freelancer == intent@.freelancer,
        ensures
            final(self).wf(),
            final(self)@ == old(self)@.applied(intent.intent_id@, Ok(intent@)),
            final(self)@.parties_consistent() == old(self)@.parties_consistent(),
            r@ == intent@,
    {
        let ghost before = self@;
        let r = intent.duplicate();
        self.intents.put(intent);
        proof {
            assert(self@.intents.dom() =~= before.intents.dom());
            assert forall|q: Seq<char>| #[trigger] self@.intents.contains_key(q) implies
                self@.intents[q].client == before.intents[q].client
                && self@.intents[q].freelancer == before.intents[q].freelancer
                && self@.intents[q].intent_id == before.intents[q].intent_id by {}
            assert(self@.keys_match());
            assert(self@.index_registered());
            assert(self@.index_complete());
            if before.parties_consistent() {
                assert forall|a: Seq<char>, j: int|
                    self@.index.contains_key(a) && 0 <= j < self@.index[a].len() implies
                    (self@.intents[#[trigger] self@.index[a][j]].client == a
                        || self@.intents[self@.index[a][j]].freelancer == a) by {
                    assert(before.intents.contains_key(before.index[a][j]));
                }
            }
            if self@.parties_consistent() {
                assert forall|a: Seq<char>, j: int|
                    before.index.contains_key(a) && 0 <= j < before.index[a].len() implies
                    (before.intents[#[trigger] before.index[a][j]].client == a
                        || before.intents[before.index[a][j]].freelancer == a) by {
                    assert(self@.index[a][j] == before.index[a][j]);
                    assert(before.intents.contains_key(before.index[a][j]));
                }
            }
        }
        r
    }

    /// The caller opens an intent with `freelancer`: the record is stored
    /// under `intent_id` with status `Created`, listed under the caller and
    /// under the freelancer, and counted. A record already stored under
    /// `intent_id` is replaced.
    pub fn create_intent(
        &mut self,
        ctx: &CallContext,
        intent_id: String,
        freelancer: String,
        amount: u128,
        deadline: u64,
        description: String,
    ) -> (r: EscrowIntent)
        requires
            old(self).wf(),
            old(self).total_intents < u64::MAX,
        ensures
            final(self).wf(),
            r@ == ContractModel::new_intent(ctx.predecessor@, ctx.block_timestamp, intent_id@, freelancer@, amount, deadline, description@),
            final(self)@ == old(self)@.after_create(r@),
            old(self)@.parties_consistent() && !old(self)@.intents.contains_key(intent_id@)
                ==> final(self)@.parties_consistent(),
    {
        let client = ctx.predecessor.clone();
        let now = ctx.block_timestamp;
        let intent = EscrowIntent {
            intent_id: intent_id.clone(),
            client: client.clone(),
            freelancer: freelancer.clone(),
            amount,
            deadline,
            description,
            proof_link: None,
            notes: None,
            status: IntentStatus::Created,
            created_at: now,
            updated_at: now,
        };
        let r = intent.duplicate();
        proof {
            self@.lemma_create_preserves(r@);
        }
        self.intents.put(intent);
        self.total_intents = self.total_intents + 1;
        self.user_intents.append(&client, intent_id.clone());
        self.user_intents.append(&freelancer, intent_id);
        r
    }

    /// The freelancer hands in `proof_link` and `notes`; a `Created` intent becomes `Approved`.
    pub fn submit_work(&mut self, ctx: &CallContext, intent_id: String, proof_link: String, notes: Option<String>) -> (r: Result<EscrowIntent, ContractError>)
        requires
            old(self).wf(),
        ensures
            final(self).wf(),
            outcome_view(r) == old(self)@.submit_work_outcome(ctx.predecessor@, ctx.block_timestamp, intent_id@, proof_link@, opt_view(notes)),
            final(self)@ == old(self)@.applied(intent_id@, outcome_view(r)),
            final(self)@.parties_consistent() == old(self)@.parties_consistent(),
    {
        let mut intent = match self.intents.get(&intent_id) {
            Some(x) => x,
            None => return Err(ContractError::NotFound),
        };
        if intent.freelancer != ctx.predecessor {
            return Err(ContractError::Unauthorized);
        }
        if intent.status != IntentStatus::Created {
            return Err(ContractError::InvalidState);
        }
        intent.proof_link = Some(proof_link);
        intent.notes = notes;
        intent.status = IntentStatus::Approved;
        intent.updated_at = ctx.block_timestamp;
        proof {
            self.intents.lemma_keys_match();
        }
        Ok(self.store_update(intent))
    }

    /// The client accepts the work; an `Approved` intent becomes `Completed`.
    pub fn approve_work(&mut self, ctx: &CallContext, intent_id: String) -> (r: Result<EscrowIntent, ContractError>)
        requires
            old(self).wf(),
        ensures
            final(self).wf(),
            outcome_view(r) == old(self)@.approve_work_outcome(ctx.predecessor@, ctx.block_timestamp, intent_id@),
            final(self)@ == old(self)@.applied(intent_id@, outcome_view(r)),
            final(self)@.parties_consistent() == old(self)@.parties_consistent(),
    {
        let mut intent = match self.intents.get(&intent_id) {
            Some(x) => x,
            None => return Err(ContractError::NotFound),
        };
        if intent.client != ctx.predecessor {
            return Err(ContractError::Unauthorized);
        }
        if intent.status != IntentStatus::Approved {
            return Err(ContractError::InvalidState);
        }
        intent.status = IntentStatus::Completed;
        intent.updated_at = ctx.block_timestamp;
        proof {
            self.intents.lemma_keys_match();
        }
        Ok(self.store_update(intent))
    }

    /// The client disputes the work; an `Approved` intent becomes `Disputed`.
    pub fn dispute_work(&mut self, ctx: &CallContext, intent_id: String) -> (r: Result<EscrowIntent, ContractError>)
        requires
            old(self).wf(),
        ensures
            final(self).wf(),
            outcome_view(r) == old(self)@.dispute_work_outcome(ctx.predecessor@, ctx.block_timestamp, intent_id@),
            final(self)@ == old(self)@.applied(intent_id@, outcome_view(r)),
            final(self)@.parties_consistent() == old(self)@.parties_consistent(),
    {
        let mut intent = match self.intents.get(&intent_id) {
            Some(x) => x,
            None => return Err(ContractError::NotFound),
        };
        if intent.client != ctx.predecessor {
            return Err(ContractError::Unauthorized);
        }
        if intent.status != IntentStatus::Approved {
            return Err(ContractError::InvalidState);
        }
        intent.status = IntentStatus::Disputed;
        intent.updated_at = ctx.block_timestamp;
        proof {
            self.intents.lemma_keys_match();
        }
        Ok(self.store_update(intent))
    }

    /// The client or the owner cancels a `Created` or `Disputed` intent.
    pub fn cancel_intent(&mut self, ctx: &CallContext, intent_id: String) -> (r: Result<EscrowIntent, ContractError>)
        requires
            old(self).wf(),
        ensures
            final(self).wf(),
            outcome_view(r) == old(self)@.cancel_intent_outcome(ctx.predecessor@, ctx.block_timestamp, intent_id@),
            final(self)@ == old(self)@.applied(intent_id@, outcome_view(r)),
            final(self)@.parties_consistent() == old(self)@.parties_consistent(),
    {
        let mut intent = match self.intents.get(&intent_id) {
            Some(x) => x,
            None => return Err(ContractError::NotFound),
        };
        if intent.client != ctx.predecessor && self.owner_id != ctx.predecessor {
            return Err(ContractError::Unauthorized);
        }
        if intent.status != IntentStatus::Created && intent.status != IntentStatus::Disputed {
            return Err(ContractError::InvalidState);
        }
        intent.status = IntentStatus::Cancelled;
        intent.updated_at = ctx.block_timestamp;
        proof {
            self.intents.lemma_keys_match();
        }
        Ok(self.store_update(intent))
    }

    /// The owner settles a `Disputed` intent: `Completed` if `complete`, else `Cancelled`.
    pub fn resolve_dispute(&mut self, ctx: &CallContext, intent_id: String, complete: bool) -> (r: Result<EscrowIntent, ContractError>)
        requires
            old(self).wf(),
        ensures
            final(self).wf(),
            outcome_view(r) == old(self)@.resolve_dispute_outcome(ctx.predecessor@, ctx.block_timestamp, intent_id@, complete),
            final(self)@ == old(self)@.applied(intent_id@, outcome_view(r)),
            final(self)@.parties_consistent() == old(self)@.parties_consistent(),
    {
        let mut intent = match self.intents.get(&intent_id) {
            Some(x) => x,
            None => return Err(ContractError::NotFound),
        };
        if self.owner_id != ctx.predecessor {
            return Err(ContractError::Unauthorized);
        }
        if intent.status != IntentStatus::Disputed {
            return Err(ContractError::InvalidState);
        }
        if complete {
            intent.status = IntentStatus::Completed;
        } else {
            intent.status = IntentStatus::Cancelled;
        }
        intent.updated_at = ctx.block_timestamp;
        proof {
            self.intents.lemma_keys_match();
        }
        Ok(self.store_update(intent))
    }

    /// The record stored under `intent_id`, if any.
    pub fn get_intent(&self, intent_id: String) -> (r: Option<EscrowIntent>)
        requires
            self.wf(),
        ensures
            r.is_some() == self@.intents.contains_key(intent_id@),
            r.is_some() ==> r.unwrap()@ == self@.intents[intent_id@],
    {
        self.intents.get(&intent_id)
    }

    /// The number of intents created so far.
    pub fn get_total_intents(&self) -> (r: u64)
        ensures
            r == self@.total,
    {
        self.total_intents
    }

    /// The records of the intents listed under `account_id`, in the order they
    /// were recorded, leaving out identifiers that have no record.
    pub fn get_user_intents(&self, account_id: String) -> (r: Vec<EscrowIntent>)
        requires
            self.wf(),
        ensures
            r@.map_values(|x: EscrowIntent| x@) == self@.user_intents(account_id@),
    {
        let ids = self.user_intents.list(&account_id);
        let ghost idv = ids_view(ids@);
        let mut out: Vec<EscrowIntent> = Vec::new();
        let mut j: usize = 0;
        while j < ids.len()
            invariant
                j <= ids@.len(),
                idv == ids_view(ids@),
                self.wf(),
                out@.map_values(|x: EscrowIntent| x@) == resolve(idv.take(j as int), self@.intents),
            decreases ids@.len() - j,
        {
            let ghost prev = out@;
            assert(idv.take(j as int + 1).drop_last() =~= idv.take(j as int));
            assert(idv.take(j as int + 1).last() == ids@[j as int]@);
            match self.intents.get(&ids[j]) {
                Some(x) => {
                    out.push(x);
                    assert(out@.map_values(|x: EscrowIntent| x@) =~= prev.map_values(|x: EscrowIntent| x@).push(
                        self@.intents[ids@[j as int]@]));
                },
                None => {},
            }
            j = j + 1;
        }
        assert(idv.take(j as int) =~= idv);
        out
    }
}

} // verus!
