use vstd::prelude::*;

verus! {

/// The identifiers of one account's intents, oldest first.
struct AccountEntry {
    account: String,
    ids: Vec<String>,
}

/// The characters of each identifier in a list.
pub open spec fn ids_view(ids: Seq<String>) -> Seq<Seq<char>> {
    ids.map_values(|s: String| s@)
}

/// The list held for `account`; an account never seen has an empty one.
pub open spec fn ids_of(index: Map<Seq<char>, Seq<Seq<char>>>, account: Seq<char>) -> Seq<Seq<char>> {
    if index.contains_key(account) {
        index[account]
    } else {
        Seq::empty()
    }
}

/// For each account, the identifiers of the intents it takes part in, in the
/// order they were recorded. Entries are only ever appended.
pub struct AccountIndex {
    entries: Vec<AccountEntry>,
}

impl View for AccountIndex {
    type V = Map<Seq<char>, Seq<Seq<char>>>;

    closed spec fn view(&self) -> Map<Seq<char>, Seq<Seq<char>>> {
        Map::new(
            |k: Seq<char>| self.holds_at(k),
            |k: Seq<char>| ids_view(self.entries@[self.position_of(k)].ids@),
        )
    }
}

impl AccountIndex {
    closed spec fn holds_at(&self, k: Seq<char>) -> bool {
        exists|i: int| 0 <= i < self.entries@.len() && #[trigger] self.entries@[i].account@ == k
    }

    closed spec fn position_of(&self, k: Seq<char>) -> int {
        choose|i: int| 0 <= i < self.entries@.len() && #[trigger] self.entries@[i].account@ == k
    }

    /// No account has two entries.
    pub closed spec fn wf(&self) -> bool {
        forall|i: int, j: int|
            0 <= i < self.entries@.len() && 0 <= j < self.entries@.len() && i != j
                ==> #[trigger] self.entries@[i].account@ != #[trigger] self.entries@[j].account@
    }

    proof fn lemma_entry_in_view(&self, i: int)
        requires
            self.wf(),
            0 <= i < self.entries@.len(),
        ensures
            self@.contains_key(self.entries@[i].account@),
            self@[self.entries@[i].account@] == ids_view(self.entries@[i].ids@),
    {
        let k = self.entries@[i].account@;
        assert(self.holds_at(k));
        let j = self.position_of(k);
        assert(self.entries@[j].account@ == k);
    }

    /// An empty index.
    pub fn new() -> (r: AccountIndex)
        ensures
            r.wf(),
            r@ == Map::<Seq<char>, Seq<Seq<char>>>::empty(),
    {
        let r = AccountIndex { entries: Vec::new() };
        assert(r@ =~= Map::<Seq<char>, Seq<Seq<char>>>::empty());
        r
    }

    fn find(&self, account: &String) -> (r: Option<usize>)
        requires
            self.wf(),
        ensures
            match r {
                Some(i) => i < self.entries@.len() && self.entries@[i as int].account@ == account@,
                None => !self@.contains_key(account@),
            },
    {
        let mut i: usize = 0;
        while i < self.entries.len()
            invariant
                i <= self.entries@.len(),
                forall|j: int| 0 <= j < i ==> #[trigger] self.entries@[j].account@ != account@,
            decreases self.entries@.len() - i,
        {
            if self.entries[i].account == *account {
                return Some(i);
            }
            i = i + 1;
        }
        None
    }

    /// A copy of the identifiers recorded for `account`, oldest first; empty
    /// for an account never seen.
    pub fn list(&self, account: &String) -> (r: Vec<String>)
        requires
            self.wf(),
        ensures
            ids_view(r@) == ids_of(self@, account@),
    {
        let mut out: Vec<String> = Vec::new();
        match self.find(account) {
            Some(i) => {
                proof {
                    self.lemma_entry_in_view(i as int);
                }
                let ids = &self.entries[i].ids;
                let mut j: usize = 0;
                while j < ids.len()
                    invariant
                        j <= ids@.len(),
                        ids_view(out@) == ids_view(ids@).take(j as int),
                    decreases ids@.len() - j,
                {
                    let id = ids[j].clone();
                    assert(id@ == ids@[j as int]@);
                    let ghost prev = out@;
                    out.push(id);
                    assert(ids_view(out@) =~= ids_view(prev).push(ids_view(ids@)[j as int]));
                    j = j + 1;
                    assert(ids_view(out@) =~= ids_view(ids@).take(j as int));
                }
                assert(ids_view(ids@).take(j as int) =~= ids_view(ids@));
            },
            None => {
                assert(ids_view(out@) =~= Seq::<Seq<char>>::empty());
            },
        }
        out
    }

    /// Records `intent_id` at the end of `account`'s list, starting the list
    /// if the account is new.
    pub fn append(&mut self, account: &String, intent_id: String)
        requires
            old(self).wf(),
        ensures
            final(self).wf(),
            final(self)@ == old(self)@.insert(account@, ids_of(old(self)@, account@).push(intent_id@)),
    {
        let ghost k = account@;
        let ghost new_ids = ids_of(self@, account@).push(intent_id@);
        let ghost before = *self;
        match self.find(account) {
            Some(i) => {
                proof {
                    self.lemma_entry_in_view(i as int);
                }
                let mut entry = AccountEntry { account: String::new(), ids: Vec::new() };
                self.entries.set_and_swap(i, &mut entry);
                let ghost old_ids = entry.ids@;
                entry.ids.push(intent_id);
                assert(ids_view(entry.ids@) =~= ids_view(old_ids).push(intent_id@));
                self.entries.set(i, entry);
                assert forall|a: int| 0 <= a < self.entries@.len() implies
                    #[trigger] self.entries@[a].account@ == before.entries@[a].account@ by {}
                proof {
                    self.lemma_entry_in_view(i as int);
                    assert forall|q: Seq<char>| #[trigger] self@.contains_key(q) && q != k implies
                        self@[q] == before@[q] by {
                        assert(self.holds_at(q));
                        let j = self.position_of(q);
                        assert(self.entries@[j].account@ == q);
                        before.lemma_entry_in_view(j);
                    }
                    assert forall|q: Seq<char>| #[trigger] before@.contains_key(q) implies
                        self@.contains_key(q) by {
                        assert(before.holds_at(q));
                        let j = before.position_of(q);
                        assert(self.entries@[j].account@ == q);
                    }
                }
                assert(self@ =~= before@.insert(k, new_ids));
            },
            None => {
                let mut ids: Vec<String> = Vec::new();
                ids.push(intent_id);
                assert(ids_view(ids@) =~= new_ids);
                self.entries.push(AccountEntry { account: account.clone(), ids });
                let ghost n = before.entries@.len() as int;
                assert forall|a: int| 0 <= a < n implies
                    #[trigger] self.entries@[a] == before.entries@[a] by {}
                proof {
                    assert forall|a: int| 0 <= a < n implies
                        before.entries@[a].account@ != k by {
                        before.lemma_entry_in_view(a);
                    }
                    self.lemma_entry_in_view(n);
                    assert forall|q: Seq<char>| #[trigger] self@.contains_key(q) && q != k implies
                        before@.contains_key(q) && self@[q] == before@[q] by {
                        assert(self.holds_at(q));
                        let j = self.position_of(q);
                        assert(self.entries@[j].account@ == q);
                        self.lemma_entry_in_view(j);
                        before.lemma_entry_in_view(j);
                    }
                    assert forall|q: Seq<char>| #[trigger] before@.contains_key(q) implies
                        self@.contains_key(q) by {
                        assert(before.holds_at(q));
                        let j = before.position_of(q);
                        assert(self.entries@[j].account@ == q);
                    }
                }
                assert(self@ =~= before@.insert(k, new_ids));
            },
        }
    }
}

} // verus!
