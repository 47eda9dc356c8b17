use crate::status::IntentStatus;
use vstd::prelude::*;

verus! {

/// One work agreement between a client and a freelancer.
#[derive(Clone, Debug)]
pub struct EscrowIntent {
    pub intent_id: String,
    pub client: String,
    pub freelancer: String,
    pub amount: u128,
    pub deadline: u64,
    pub description: String,
    pub proof_link: Option<String>,
    pub notes: Option<String>,
    pub status: IntentStatus,
    pub created_at: u64,
    pub updated_at: u64,
}

/// The mathematical value of an intent: every text as its characters.
pub ghost struct IntentModel {
    pub intent_id: Seq<char>,
    pub client: Seq<char>,
    pub freelancer: Seq<char>,
    pub amount: u128,
    pub deadline: u64,
    pub description: Seq<char>,
    pub proof_link: Option<Seq<char>>,
    pub notes: Option<Seq<char>>,
    pub status: IntentStatus,
    pub created_at: u64,
    pub updated_at: u64,
}

/// The characters of an optional text.
pub open spec fn opt_view(o: Option<String>) -> Option<Seq<char>> {
    match o {
        Some(s) => Some(s@),
        None => None,
    }
}

impl IntentModel {
    /// This record moved to `status` at time `now`; every other field is kept.
    pub open spec fn moved_to(self, status: IntentStatus, now: u64) -> IntentModel {
        IntentModel { status, updated_at: now, ..self }
    }
}

impl View for EscrowIntent {
    type V = IntentModel;

    open spec fn view(&self) -> IntentModel {
        IntentModel {
            intent_id: self.intent_id@,
            client: self.client@,
            freelancer: self.freelancer@,
            amount: self.amount,
            deadline: self.deadline,
            description: self.description@,
            proof_link: opt_view(self.proof_link),
            notes: opt_view(self.notes),
            status: self.status,
            created_at: self.created_at,
            updated_at: self.updated_at,
        }
    }
}

/// A copy of an optional text.
pub(crate) fn copy_opt(o: &Option<String>) -> (r: Option<String>)
    ensures
        opt_view(r) == opt_view(*o),
{
    match o {
        Some(s) => Some(s.clone()),
        None => None,
    }
}

impl EscrowIntent {
    /// A copy of this record, field for field.
    pub fn duplicate(&self) -> (r: EscrowIntent)
        ensures
            r@ == self@,
    {
        EscrowIntent {
            intent_id: self.intent_id.clone(),
            client: self.client.clone(),
            freelancer: self.freelancer.clone(),
            amount: self.amount,
            deadline: self.deadline,
            description: self.description.clone(),
            proof_link: copy_opt(&self.proof_link),
            notes: copy_opt(&self.notes),
            status: self.status,
            created_at: self.created_at,
            updated_at: self.updated_at,
        }
    }
}

} // verus!
