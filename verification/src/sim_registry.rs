//! The table of running simulations, keyed by a simulation id.

use std::collections::HashMap;
use vstd::prelude::*;

verus! {

broadcast use vstd::std_specs::hash::group_hash_axioms;

/// Running simulations by id. An id is handed out when a simulation is
/// registered and stays valid until the simulation is dropped.
#[verifier::reject_recursive_types(V)]
pub struct SimRegistry<V> {
    procs: HashMap<usize, V>,
}

impl<V> View for SimRegistry<V> {
    type V = Map<usize, V>;

    closed spec fn view(&self) -> Map<usize, V> {
        self.procs@
    }
}

/// The ids below `n`.
pub open spec fn ids_below(n: nat) -> Set<usize> {
    Set::new(|k: usize| (k as nat) < n)
}

proof fn lemma_ids_below_len(n: nat)
    requires
        n <= usize::MAX + 1,
    ensures
        ids_below(n).finite(),
        ids_below(n).len() == n,
    decreases n,
{
    if n == 0 {
        assert(ids_below(n) =~= Set::<usize>::empty());
    } else {
        let top = (n - 1) as usize;
        lemma_ids_below_len((n - 1) as nat);
        assert(ids_below(n) =~= ids_below((n - 1) as nat).insert(top));
    }
}

/// A map with `m.len()` keys cannot hold every id from 0 to `m.len()`.
proof fn lemma_some_id_free<V>(m: Map<usize, V>)
    requires
        m.dom().finite(),
        m.len() <= usize::MAX,
    ensures
        exists|k: usize| (k as nat) <= m.len() && !m.contains_key(k),
{
    if forall|k: usize| (k as nat) <= m.len() ==> m.contains_key(k) {
        let all = ids_below(m.len() + 1);
        lemma_ids_below_len(m.len() + 1);
        assert(all.subset_of(m.dom()));
        vstd::set_lib::lemma_len_subset(all, m.dom());
    }
}

impl<V> SimRegistry<V> {
    /// An empty table.
    pub fn new() -> (reg: Self)
        ensures
            reg@ == Map::<usize, V>::empty(),
    {
        SimRegistry { procs: HashMap::new() }
    }

    /// The number of running simulations.
    pub fn len(&self) -> (n: usize)
        ensures
            n == self@.len(),
    {
        self.procs.len()
    }

    /// Registers a simulation and returns its id: the number of running
    /// simulations if that id is free, else the largest free id below it.
    pub fn register(&mut self, sim: V) -> (pid: usize)
        ensures
            !old(self)@.contains_key(pid),
            pid <= old(self)@.len(),
            forall|k: usize| pid < k <= old(self)@.len() ==> old(self)@.contains_key(k),
            final(self)@ == old(self)@.insert(pid, sim),
    {
        let mut pid: usize = self.procs.len();
        loop
            invariant
                self.procs@ == old(self).procs@,
                self.procs@.dom().finite(),
                self.procs@.len() <= usize::MAX,
                pid <= self.procs@.len(),
                forall|k: usize| pid < k <= self.procs@.len() ==> self.procs@.contains_key(k),
            ensures
                self.procs@ == old(self).procs@,
                !self.procs@.contains_key(pid),
                pid <= self.procs@.len(),
                forall|k: usize| pid < k <= self.procs@.len() ==> self.procs@.contains_key(k),
            decreases pid,
        {
            if !self.procs.contains_key(&pid) {
                break;
            }
            if pid == 0 {
                proof {
                    lemma_some_id_free(self.procs@);
                    let k = choose|k: usize| (k as nat) <= self.procs@.len() && !self.procs@.contains_key(k);
                    assert(self.procs@.contains_key(k));
                }
            }
            pid = pid - 1;
        }
        self.procs.insert(pid, sim);
        pid
    }

    /// The simulation registered under `pid`, if any.
    pub fn get(&self, pid: usize) -> (found: Option<&V>)
        ensures
            match found {
                Some(v) => self@.contains_key(pid) && *v == self@[pid],
                None => !self@.contains_key(pid),
            },
    {
        self.procs.get(&pid)
    }
}

/// Drops the simulation registered under `sim_pid`: true if dropped, false
/// if it did not exist.
pub fn sim_drop<V>(sim_procs: &mut SimRegistry<V>, sim_pid: usize) -> (dropped: bool)
    ensures
        dropped == old(sim_procs)@.contains_key(sim_pid),
        final(sim_procs)@ == old(sim_procs)@.remove(sim_pid),
{
    sim_procs.procs.remove(&sim_pid).is_some()
}

/// A registered simulation is found under the id it was given, the other
/// simulations keep their ids, and dropping it again leaves the table as it
/// was before.
pub proof fn lemma_register_get_drop<V>(before: Map<usize, V>, pid: usize, sim: V)
    requires
        !before.contains_key(pid),
    ensures
        before.insert(pid, sim).contains_key(pid),
        before.insert(pid, sim)[pid] == sim,
        forall|k: usize|
            k != pid ==> (before.insert(pid, sim).contains_key(k) == before.contains_key(k)),
        forall|k: usize| k != pid && before.contains_key(k) ==> before.insert(pid, sim)[k] == before[k],
        before.insert(pid, sim).remove(pid) == before,
{
    assert(before.insert(pid, sim).remove(pid) =~= before);
}

/// Dropping an id that is not registered changes nothing.
pub proof fn lemma_drop_absent<V>(before: Map<usize, V>, pid: usize)
    requires
        !before.contains_key(pid),
    ensures
        before.remove(pid) == before,
{
    assert(before.remove(pid) =~= before);
}

/// Registering never gives out an id that is in use, and while no id has been
/// dropped the ids handed out are 0, 1, 2, ... in turn.
pub proof fn lemma_register_fresh<V>(before: Map<usize, V>, pid: usize)
    requires
        before.dom().finite(),
        before.len() <= usize::MAX,
        forall|k: usize| (k as nat) < before.len() ==> before.contains_key(k),
        !before.contains_key(pid),
        pid <= before.len(),
    ensures
        pid == before.len(),
{
}

} // verus!
