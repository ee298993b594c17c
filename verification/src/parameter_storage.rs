//! In-memory cache of the latest observed execution state per
//! workload name.

use vstd::prelude::*;

use crate::execution_state::{ExecutionState, ExecutionStateView};

verus! {

struct StoredState {
    workload_name: String,
    state: ExecutionState,
}

/// The latest match from the back of the entry list, so that a later
/// record for the same name wins.
spec fn lookup(entries: Seq<StoredState>, name: Seq<char>) -> Option<ExecutionStateView>
    decreases entries.len(),
{
    if entries.len() == 0 {
        Option::None
    } else if entries.last().workload_name@ == name {
        Option::Some(entries.last().state@)
    } else {
        lookup(entries.drop_last(), name)
    }
}

proof fn lemma_lookup_push(entries: Seq<StoredState>, e: StoredState, name: Seq<char>)
    ensures
        lookup(entries.push(e), name) == if e.workload_name@ == name {
            Option::Some(e.state@)
        } else {
            lookup(entries, name)
        },
{
    assert(entries.push(e).drop_last() =~= entries);
}

proof fn lemma_lookup_update_last_match(
    entries: Seq<StoredState>,
    i: int,
    e: StoredState,
    name: Seq<char>,
)
    requires
        0 <= i < entries.len(),
        entries[i].workload_name@ == e.workload_name@,
        forall|j: int| i < j < entries.len() ==> entries[j].workload_name@ != e.workload_name@,
    ensures
        lookup(entries.update(i, e), name) == if e.workload_name@ == name {
            Option::Some(e.state@)
        } else {
            lookup(entries, name)
        },
    decreases entries.len(),
{
    let updated = entries.update(i, e);
    if i == entries.len() - 1 {
        assert(updated.drop_last() =~= entries.drop_last());
        if e.workload_name@ != name {
            assert(entries.last().workload_name@ == e.workload_name@);
        }
    } else {
        assert(updated.last() == entries.last());
        if entries.last().workload_name@ == name {
            assert(e.workload_name@ != name);
        } else {
            assert(updated.drop_last() =~= entries.drop_last().update(i, e));
            lemma_lookup_update_last_match(entries.drop_last(), i, e, name);
        }
    }
}

/// In-memory mapping from workload name to the last execution state
/// recorded for it; a new record for a name overwrites, nothing is
/// kept of the history.
pub struct ParameterStorage {
    entries: Vec<StoredState>,
}

impl View for ParameterStorage {
    type V = Map<Seq<char>, ExecutionStateView>;

    closed spec fn view(&self) -> Map<Seq<char>, ExecutionStateView> {
        Map::new(
            |name: Seq<char>| lookup(self.entries@, name) is Some,
            |name: Seq<char>| lookup(self.entries@, name)->Some_0,
        )
    }
}

impl ParameterStorage {
    /// A storage that has seen no state yet.
    pub fn new() -> (r: ParameterStorage)
        ensures
            r@ == Map::<Seq<char>, ExecutionStateView>::empty(),
    {
        let r = ParameterStorage { entries: Vec::new() };
        proof {
            assert(r@ =~= Map::<Seq<char>, ExecutionStateView>::empty());
        }
        r
    }

    /// Records the latest observed state of one workload, overwriting
    /// whatever was stored for that name.
    pub fn record(&mut self, workload_name: &String, state: ExecutionState)
        ensures
            final(self)@ == old(self)@.insert(workload_name@, state@),
    {
        let ghost old_entries = self.entries@;
        // Find the last entry for this name, so that it can be
        // overwritten in place.
        let mut found: Option<usize> = Option::None;
        let n = self.entries.len();
        let mut i: usize = 0;
        while i < n
            invariant
                n == self.entries.len(),
                i <= n,
                match found {
                    Option::Some(k) => {
                        &&& k < i
                        &&& self.entries@[k as int].workload_name@ == workload_name@
                        &&& forall|j: int|
                            k < j < i ==> self.entries@[j].workload_name@ != workload_name@
                    },
                    Option::None => forall|j: int|
                        0 <= j < i ==> self.entries@[j].workload_name@ != workload_name@,
                },
            decreases n - i,
        {
            if self.entries[i].workload_name == *workload_name {
                found = Option::Some(i);
            }
            i += 1;
        }
        match found {
            Option::Some(k) => {
                let e = StoredState { workload_name: workload_name.clone(), state };
                proof {
                    lemma_lookup_update_last_match_all(old_entries, k as int, e);
                }
                self.entries.remove(k);
                self.entries.insert(k, e);
                proof {
                    assert(self.entries@ =~= old_entries.update(k as int, e));
                }
            },
            Option::None => {
                let e = StoredState { workload_name: workload_name.clone(), state };
                proof {
                    lemma_lookup_push_all(old_entries, e);
                }
                self.entries.push(e);
            },
        }
        proof {
            assert(self@ =~= old(self)@.insert(workload_name@, state@));
        }
    }

    /// The latest state recorded for the name, if any was.
    pub fn state_of(&self, workload_name: &String) -> (r: Option<ExecutionState>)
        ensures
            r.deep_view() == if self@.dom().contains(workload_name@) {
                Option::Some(self@[workload_name@])
            } else {
                Option::<ExecutionStateView>::None
            },
    {
        let n = self.entries.len();
        proof {
            assert(self.entries@.subrange(0, n as int) =~= self.entries@);
        }
        let mut i: usize = n;
        while i > 0
            invariant
                n == self.entries.len(),
                i <= n,
                lookup(self.entries@, workload_name@) == lookup(
                    self.entries@.subrange(0, i as int),
                    workload_name@,
                ),
            decreases i,
        {
            let matched = self.entries[i - 1].workload_name == *workload_name;
            proof {
                let prefix = self.entries@.subrange(0, i as int);
                assert(matched == (self.entries@[i - 1].workload_name@ == workload_name@));
                assert(prefix.len() == i);
                assert(lookup(prefix, workload_name@) == if prefix.last().workload_name@
                    == workload_name@ {
                    Option::Some(prefix.last().state@)
                } else {
                    lookup(prefix.drop_last(), workload_name@)
                });
                assert(prefix.last() == self.entries@[i - 1]);
                assert(prefix.drop_last() =~= self.entries@.subrange(0, i as int - 1));
                if matched {
                    assert(lookup(prefix, workload_name@) == Option::Some(
                        self.entries@[i - 1].state@,
                    ));
                } else {
                    assert(lookup(prefix, workload_name@) == lookup(
                        self.entries@.subrange(0, i as int - 1),
                        workload_name@,
                    ));
                }
            }
            if matched {
                return Option::Some(self.entries[i - 1].state.duplicate());
            }
            i -= 1;
        }
        proof {
            assert(self.entries@.subrange(0, 0) =~= Seq::<StoredState>::empty());
        }
        Option::None
    }
}

/// `lemma_lookup_update_last_match`, quantified over every name.
proof fn lemma_lookup_update_last_match_all(entries: Seq<StoredState>, i: int, e: StoredState)
    requires
        0 <= i < entries.len(),
        entries[i].workload_name@ == e.workload_name@,
        forall|j: int| i < j < entries.len() ==> entries[j].workload_name@ != e.workload_name@,
    ensures
        forall|name: Seq<char>| #![auto]
            lookup(entries.update(i, e), name) == if e.workload_name@ == name {
                Option::Some(e.state@)
            } else {
                lookup(entries, name)
            },
{
    assert forall|name: Seq<char>| #![auto]
        lookup(entries.update(i, e), name) == if e.workload_name@ == name {
            Option::Some(e.state@)
        } else {
            lookup(entries, name)
        } by {
        lemma_lookup_update_last_match(entries, i, e, name);
    }
}

/// `lemma_lookup_push`, quantified over every name.
proof fn lemma_lookup_push_all(entries: Seq<StoredState>, e: StoredState)
    ensures
        forall|name: Seq<char>| #![auto]
            lookup(entries.push(e), name) == if e.workload_name@ == name {
                Option::Some(e.state@)
            } else {
                lookup(entries, name)
            },
{
    assert forall|name: Seq<char>| #![auto]
        lookup(entries.push(e), name) == if e.workload_name@ == name {
            Option::Some(e.state@)
        } else {
            lookup(entries, name)
        } by {
        lemma_lookup_push(entries, e, name);
    }
}

} // verus!
