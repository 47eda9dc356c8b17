use crate::intent::{EscrowIntent, IntentModel};
use vstd::prelude::*;

verus! {

/// The canonical store of intents, keyed by their identifiers. At most one
/// record is held per identifier.
pub struct IntentRegistry {
    entries: Vec<EscrowIntent>,
}

impl View for IntentRegistry {
    type V = Map<Seq<char>, IntentModel>;

    /// Each stored identifier maps to the record stored under it.
    closed spec fn view(&self) -> Map<Seq<char>, IntentModel> {
        Map::new(
            |k: Seq<char>| self.holds_at(k),
            |k: Seq<char>| self.entries@[self.position_of(k)]@,
        )
    }
}

impl IntentRegistry {
    closed spec fn holds_at(&self, k: Seq<char>) -> bool {
        exists|i: int| 0 <= i < self.entries@.len() && #[trigger] self.entries@[i].intent_id@ == k
    }

    closed spec fn position_of(&self, k: Seq<char>) -> int {
        choose|i: int| 0 <= i < self.entries@.len() && #[trigger] self.entries@[i].intent_id@ == k
    }

    /// No identifier is stored twice.
    pub closed spec fn wf(&self) -> bool {
        forall|i: int, j: int|
            0 <= i < self.entries@.len() && 0 <= j < self.entries@.len() && i != j
                ==> #[trigger] self.entries@[i].intent_id@ != #[trigger] self.entries@[j].intent_id@
    }

    /// Under `wf`, the record at position `i` is the one the view gives for its identifier.
    proof fn lemma_entry_in_view(&self, i: int)
        requires
            self.wf(),
            0 <= i < self.entries@.len(),
        ensures
            self@.contains_key(self.entries@[i].intent_id@),
            self@[self.entries@[i].intent_id@] == self.entries@[i]@,
    {
        let k = self.entries@[i].intent_id@;
        assert(self.holds_at(k));
        let j = self.position_of(k);
        assert(self.entries@[j].intent_id@ == k);
    }

    /// Every record is stored under its own identifier.
    pub proof fn lemma_keys_match(&self)
        requires
            self.wf(),
        ensures
            forall|k: Seq<char>| #[trigger] self@.contains_key(k) ==> self@[k].intent_id == k,
    {
        assert forall|k: Seq<char>| #[trigger] self@.contains_key(k) implies self@[k].intent_id == k by {
            assert(self.holds_at(k));
            let j = self.position_of(k);
            assert(self.entries@[j].intent_id@ == k);
        }
    }

    /// An empty registry.
    pub fn new() -> (r: IntentRegistry)
        ensures
            r.wf(),
            r@ == Map::<Seq<char>, IntentModel>::empty(),
    {
        let r = IntentRegistry { entries: Vec::new() };
        assert(r@ =~= Map::<Seq<char>, IntentModel>::empty());
        r
    }

    fn find(&self, intent_id: &String) -> (r: Option<usize>)
        requires
            self.wf(),
        ensures
            match r {
                Some(i) => i < self.entries@.len() && self.entries@[i as int].intent_id@ == intent_id@,
                None => !self@.contains_key(intent_id@),
            },
    {
        let mut i: usize = 0;
        while i < self.entries.len()
            invariant
                i <= self.entries@.len(),
                forall|j: int| 0 <= j < i ==> #[trigger] self.entries@[j].intent_id@ != intent_id@,
            decreases self.entries@.len() - i,
        {
            if self.entries[i].intent_id == *intent_id {
                return Some(i);
            }
            i = i + 1;
        }
        None
    }

    /// The record stored under `intent_id`, if any.
    pub fn get(&self, intent_id: &String) -> (r: Option<EscrowIntent>)
        requires
            self.wf(),
        ensures
            r.is_some() == self@.contains_key(intent_id@),
            r.is_some() ==> r.unwrap()@ == self@[intent_id@],
    {
        match self.find(intent_id) {
            Some(i) => {
                proof {
                    self.lemma_entry_in_view(i as int);
                }
                Some(self.entries[i].duplicate())
            },
            None => None,
        }
    }

    /// Stores `intent` under its identifier, replacing any record held there.
    pub fn put(&mut self, intent: EscrowIntent)
        requires
            old(self).wf(),
        ensures
            final(self).wf(),
            final(self)@ == old(self)@.insert(intent.intent_id@, intent@),
    {
        let ghost k = intent.intent_id@;
        let ghost v = intent@;
        match self.find(&intent.intent_id) {
            Some(i) => {
                let ghost before = *self;
                self.entries.set(i, intent);
                assert forall|a: int| 0 <= a < self.entries@.len() implies
                    #[trigger] self.entries@[a].intent_id@ == before.entries@[a].intent_id@ by {}
                proof {
                    self.lemma_entry_in_view(i as int);
                    assert forall|q: Seq<char>| #[trigger] self@.contains_key(q) && q != k implies
                        self@[q] == before@[q] by {
                        assert(self.holds_at(q));
                        let j = self.position_of(q);
                        assert(self.entries@[j].intent_id@ == q);
                        before.lemma_entry_in_view(j);
                    }
                    assert forall|q: Seq<char>| #[trigger] before@.contains_key(q) implies
                        self@.contains_key(q) by {
                        assert(before.holds_at(q));
                        let j = before.position_of(q);
                        assert(self.entries@[j].intent_id@ == q);
                    }
                }
                assert(self@ =~= before@.insert(k, v));
            },
            None => {
                let ghost before = *self;
                self.entries.push(intent);
                let ghost n = before.entries@.len() as int;
                assert(self.entries@[n]@ == v);
                assert forall|a: int| 0 <= a < n implies
                    #[trigger] self.entries@[a] == before.entries@[a] by {}
                proof {
                    assert forall|a: int| 0 <= a < n implies
                        before.entries@[a].intent_id@ != k by {
                        before.lemma_entry_in_view(a);
                    }
                    self.lemma_entry_in_view(n);
                    assert forall|q: Seq<char>| #[trigger] self@.contains_key(q) && q != k implies
                        before@.contains_key(q) && self@[q] == before@[q] by {
                        assert(self.holds_at(q));
                        let j = self.position_of(q);
                        assert(self.entries@[j].intent_id@ == q);
                        self.lemma_entry_in_view(j);
                        before.lemma_entry_in_view(j);
                    }
                    assert forall|q: Seq<char>| #[trigger] before@.contains_key(q) implies
                        self@.contains_key(q) by {
                        assert(before.holds_at(q));
                        let j = before.position_of(q);
                        assert(self.entries@[j].intent_id@ == q);
                    }
                }
                assert(self@ =~= before@.insert(k, v));
            },
        }
    }
}

} // verus!
