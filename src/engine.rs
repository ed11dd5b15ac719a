//! The assignment engine: each run steps a private working copy of the
//! candidate pools as the model in `round` says, taking each draw either
//! from a list that the caller gives or from a random source.

use crate::registry::{Santa, SantaError};
use crate::round::{
    Round, assign_first, draw_at, leader_upto, lemma_assign_keeps, lemma_guided, lemma_leader,
    lemma_start_ok, lemma_waiting_all, lemma_waiting_some, lemma_waiting_update,
    lemma_waiting_zero, lemma_wave, names_match, other_than, outcome, priority_group, refreshed,
    round_ok, run_from, same_pool_count, start, stuck_at, taken, unassigned, valid_assignment,
    valid_pairs, waiting, wave_upto, without,
};
use vstd::prelude::*;

verus! {

/// With the same registry and the same draws, a run has the same outcome:
/// the same recipient for every member, or a stop at the same member.
pub proof fn lemma_same_draws_same_outcome(a: &SantaMatcher, b: &SantaMatcher, draws: Seq<usize>)
    requires
        a.registry() == b.registry(),
    ensures
        a.outcome(draws) == b.outcome(draws),
{
}

/// Where the registry admits a valid assignment, some sequence of draws
/// makes a run succeed.
pub proof fn lemma_valid_assignment_reachable(m: &SantaMatcher, sigma: Seq<usize>)
    requires
        m.wf(),
        valid_assignment(m.registry(), sigma),
    ensures
        exists|ds: Seq<usize>| (#[trigger] m.outcome(ds)) is Ok,
{
    let santa = m.registry();
    let st = start(santa.pools());
    lemma_start_ok(santa);
    lemma_guided(st, santa, sigma, Seq::empty(), santa.members().len());
    let tail = choose|tail: Seq<usize>|
        (#[trigger] run_from(st, Seq::<usize>::empty() + tail, 0, santa.members().len())) is Ok;
    assert(Seq::<usize>::empty() + tail =~= tail);
    assert(m.outcome(tail) is Ok);
}

/// Relies on rand::thread_rng and Rng::gen_range: a value drawn from
/// `0..bound`. gen_range panics on an empty range, which `requires` leaves
/// out; thread_rng panics only where the system's random source cannot be
/// read when it is first used.
#[verifier::external_body]
fn random_below(bound: usize) -> (r: usize)
    requires
        bound > 0,
    ensures
        r < bound,
{
    rand::Rng::gen_range(&mut rand::thread_rng(), 0..bound)
}

/// The working copy of the pools that one run mutates.
struct Run {
    pools: Vec<Vec<usize>>,
    assigned: Vec<Option<usize>>,
    wave: Vec<usize>,
    remaining: usize,
}

impl View for Run {
    type V = Round;

    closed spec fn view(&self) -> Round {
        Round {
            pools: self.pools@.map_values(|r: Vec<usize>| r@),
            assigned: self.assigned@,
            wave: self.wave@,
        }
    }
}

/// A copy of `row`.
fn copy_row(row: &Vec<usize>) -> (r: Vec<usize>)
    ensures
        r@ == row@,
{
    let mut r: Vec<usize> = Vec::new();
    let mut i: usize = 0;
    while i < row.len()
        invariant
            i <= row@.len(),
            r@ == row@.take(i as int),
        decreases row@.len() - i,
    {
        r.push(row[i]);
        i = i + 1;
        assert(r@ =~= row@.take(i as int));
    }
    assert(row@.take(i as int) =~= row@);
    r
}

/// `row` without the value `p`.
fn without_value(row: &Vec<usize>, p: usize) -> (r: Vec<usize>)
    ensures
        r@ == row@.filter(other_than(p)),
{
    let ghost f = other_than(p);
    let mut r: Vec<usize> = Vec::new();
    let mut i: usize = 0;
    while i < row.len()
        invariant
            i <= row@.len(),
            f == other_than(p),
            r@ == row@.take(i as int).filter(f),
        decreases row@.len() - i,
    {
        let ghost t = row@.take(i + 1);
        assert(t.drop_last() =~= row@.take(i as int));
        if row[i] != p {
            r.push(row[i]);
        }
        assert(r@ == t.filter(f)) by {
            reveal(Seq::filter);
        }
        i = i + 1;
    }
    assert(row@.take(i as int) =~= row@);
    r
}

/// Whether two pools hold the same members in the same order.
fn same_row(a: &Vec<usize>, b: &Vec<usize>) -> (r: bool)
    ensures
        r == (a@ == b@),
{
    if a.len() != b.len() {
        return false;
    }
    let mut i: usize = 0;
    while i < a.len()
        invariant
            i <= a@.len(),
            a@.len() == b@.len(),
            forall|k: int| 0 <= k < i ==> a@[k] == b@[k],
        decreases a@.len() - i,
    {
        if a[i] != b[i] {
            return false;
        }
        i = i + 1;
    }
    assert(a@ =~= b@);
    true
}

impl Run {
    /// One pool and one slot per member, and `remaining` counts the waiting ones.
    spec fn shaped(&self) -> bool {
        &&& self.pools@.len() == self.assigned@.len()
        &&& self.remaining == waiting(self.assigned@)
    }

    /// How many waiting members share the pool of member `i`.
    fn group_size(&self, i: usize) -> (r: usize)
        requires
            self.shaped(),
            i < self.assigned@.len(),
        ensures
            r == same_pool_count(self@, i as int, self.assigned@.len() as int),
    {
        let n = self.assigned.len();
        let mut c: usize = 0;
        let mut j: usize = 0;
        while j < n
            invariant
                self.shaped(),
                n == self.assigned@.len(),
                i < n,
                j <= n,
                c == same_pool_count(self@, i as int, j as int),
                c <= j,
            decreases n - j,
        {
            assert(self@.pools[j as int] == self.pools@[j as int]@);
            assert(self@.pools[i as int] == self.pools@[i as int]@);
            if self.assigned[j].is_none() && same_row(&self.pools[j], &self.pools[i]) {
                c = c + 1;
            }
            j = j + 1;
        }
        c
    }

    /// The most urgent waiting member.
    fn leader(&self) -> (r: Option<usize>)
        requires
            self.shaped(),
        ensures
            match r {
                Some(l) => leader_upto(self@, self.assigned@.len() as int) == Some(l as int),
                None => leader_upto(self@, self.assigned@.len() as int) is None,
            },
    {
        let n = self.assigned.len();
        let mut best: Option<usize> = None;
        let mut best_group: usize = 0;
        let mut c: usize = 0;
        while c < n
            invariant
                self.shaped(),
                n == self.assigned@.len(),
                c <= n,
                match best {
                    Some(b) => leader_upto(self@, c as int) == Some(b as int) && b < n && best_group
                        == same_pool_count(self@, b as int, n as int),
                    None => leader_upto(self@, c as int) is None,
                },
            decreases n - c,
        {
            if self.assigned[c].is_none() {
                match best {
                    None => {
                        best = Some(c);
                        best_group = self.group_size(c);
                    },
                    Some(b) => {
                        let sc = self.pools[c].len();
                        let sb = self.pools[b].len();
                        assert(self@.pools[c as int].len() == sc);
                        assert(self@.pools[b as int].len() == sb);
                        if sc < sb {
                            best = Some(c);
                            best_group = self.group_size(c);
                        } else if sc == sb {
                            let g = self.group_size(c);
                            if g > best_group {
                                best = Some(c);
                                best_group = g;
                            }
                        }
                    },
                }
            }
            c = c + 1;
        }
        best
    }

    /// The waiting members that share the pool of member `l`, in order.
    fn wave_for(&self, l: usize) -> (r: Vec<usize>)
        requires
            self.shaped(),
            l < self.assigned@.len(),
        ensures
            r@ == wave_upto(self@, l as int, self.assigned@.len() as int),
    {
        let n = self.assigned.len();
        let mut w: Vec<usize> = Vec::new();
        let mut j: usize = 0;
        while j < n
            invariant
                self.shaped(),
                n == self.assigned@.len(),
                l < n,
                j <= n,
                w@ == wave_upto(self@, l as int, j as int),
            decreases n - j,
        {
            assert(self@.pools[j as int] == self.pools@[j as int]@);
            assert(self@.pools[l as int] == self.pools@[l as int]@);
            if self.assigned[j].is_none() && same_row(&self.pools[j], &self.pools[l]) {
                w.push(j);
            }
            j = j + 1;
        }
        w
    }

    /// Starts a new wave from the priority group once the last one is done.
    fn refresh(&mut self, santa: &Santa)
        requires
            old(self).shaped(),
            round_ok(old(self)@, *santa),
            old(self).remaining > 0,
        ensures
            final(self).shaped(),
            final(self)@ == refreshed(old(self)@),
            final(self).remaining == old(self).remaining,
            round_ok(final(self)@, *santa),
            final(self)@.wave.len() > 0,
    {
        if self.wave.len() == 0 {
            let ghost st = self@;
            let n = self.assigned.len();
            proof {
                let j = lemma_waiting_some(self.assigned@);
                lemma_leader(st, n as int);
                assert(unassigned(st, j));
            }
            match self.leader() {
                Some(l) => {
                    let w = self.wave_for(l);
                    proof {
                        lemma_wave(st, l as int, n as int);
                    }
                    self.wave = w;
                    assert(self@ == refreshed(st));
                },
                None => {},
            }
        }
    }

    /// The size of the pool of the member that is next in the wave.
    fn first_pool_len(&self) -> (r: usize)
        requires
            self.shaped(),
            self@.wave.len() > 0,
            forall|a: int| 0 <= a < self@.wave.len() ==> #[trigger] self@.wave[a] < self@.pools.len(),
        ensures
            r == self@.pools[self@.wave[0] as int].len(),
    {
        let m = self.wave[0];
        assert(self@.pools[m as int] == self.pools@[m as int]@);
        self.pools[m].len()
    }

    /// Gives the member that is next in the wave the candidate that `draw` selects.
    fn assign(&mut self, santa: &Santa, draw: usize) -> (r: Result<(), usize>)
        requires
            old(self).shaped(),
            round_ok(old(self)@, *santa),
            old(self)@.wave.len() > 0,
        ensures
            match r {
                Ok(_) => {
                    &&& assign_first(old(self)@, draw) == Ok::<Round, usize>(final(self)@)
                    &&& final(self).shaped()
                    &&& round_ok(final(self)@, *santa)
                    &&& final(self).remaining + 1 == old(self).remaining
                },
                Err(m) => {
                    &&& assign_first(old(self)@, draw) == Err::<Round, usize>(m)
                    &&& stuck_at(*santa, old(self)@.assigned, m as int)
                },
            },
    {
        let ghost st = self@;
        let n = self.assigned.len();
        let m = self.wave[0];
        assert(st.pools[m as int] == self.pools@[m as int]@);
        let len = self.pools[m].len();
        if len == 0 {
            assert(stuck_at(*santa, st.assigned, m as int)) by {
                assert forall|j: int| #[trigger] santa.candidate(m as int, j) implies exists|k: int|
                    0 <= k < n && st.assigned[k] == Some(j as usize) by {
                    if !taken(st, j as usize) {
                        assert(st.pools[m as int].contains(j as usize));
                    }
                }
            }
            return Err(m);
        }
        let p = self.pools[m][draw % len];
        assert(st.pools[m as int].contains(p));
        let ghost f = other_than(p);
        let mut np: Vec<Vec<usize>> = Vec::new();
        let mut k: usize = 0;
        while k < n
            invariant
                k <= n,
                n == self.pools@.len(),
                st == self@,
                f == other_than(p),
                np@.len() == k,
                forall|q: int| 0 <= q < k ==> (#[trigger] np@[q])@ == st.pools[q].filter(f),
            decreases n - k,
        {
            assert(st.pools[k as int] == self.pools@[k as int]@);
            let row = without_value(&self.pools[k], p);
            np.push(row);
            k = k + 1;
        }
        let ghost npv = np@;
        self.pools = np;
        self.assigned.set(m, Some(p));
        self.wave.remove(0);
        proof {
            lemma_waiting_update(st.assigned, m as int, p);
        }
        self.remaining = self.remaining - 1;
        assert(self@.pools =~= without(st.pools, p)) by {
            assert forall|q: int| 0 <= q < n implies #[trigger] self@.pools[q] == without(st.pools, p)[q] by {
                assert(self@.pools[q] == npv[q]@);
                assert(npv[q]@ == st.pools[q].filter(f));
            }
        }
        assert(self@.wave =~= st.wave.drop_first());
        assert(self@.assigned == st.assigned.update(m as int, Some(p)));
        proof {
            lemma_assign_keeps(st, *santa, draw);
        }
        Ok(())
    }

    /// Every member's recipient, once none is waiting.
    fn recipients(&self) -> (r: Vec<usize>)
        requires
            self.shaped(),
            self.remaining == 0,
        ensures
            r@ == self@.assigned.map_values(|o: Option<usize>| o->Some_0),
    {
        proof {
            lemma_waiting_zero(self.assigned@);
        }
        let n = self.assigned.len();
        let mut r: Vec<usize> = Vec::new();
        let mut k: usize = 0;
        while k < n
            invariant
                k <= n,
                n == self.assigned@.len(),
                forall|i: int| 0 <= i < n ==> #[trigger] self.assigned@[i] is Some,
                r@ =~= self@.assigned.map_values(|o: Option<usize>| o->Some_0).take(k as int),
            decreases n - k,
        {
            let v = match self.assigned[k] {
                Some(v) => v,
                None => 0,
            };
            r.push(v);
            k = k + 1;
        }
        assert(self@.assigned.map_values(|o: Option<usize>| o->Some_0).take(n as int) =~= self@.assigned.map_values(
            |o: Option<usize>| o->Some_0,
        ));
        r
    }
}

/// Produces assignments for a registry whose every member has a candidate.
#[derive(Debug)]
pub struct SantaMatcher {
    santa: Santa,
    pools: Vec<Vec<usize>>,
}

impl SantaMatcher {
    /// The registry that the matcher was made from.
    pub closed spec fn registry(&self) -> Santa {
        self.santa
    }

    /// The candidate pools held are those of the registry, none of them empty.
    pub closed spec fn wf(&self) -> bool {
        &&& self.santa.wf()
        &&& self.santa.members().len() >= 2
        &&& self.santa.members().len() <= usize::MAX
        &&& self.pools@.len() == self.santa.members().len()
        &&& forall|i: int| 0 <= i < self.pools@.len() ==> (#[trigger] self.pools@[i])@ == self.santa.pool_of(i)
        &&& forall|i: int| 0 <= i < self.pools@.len() ==> #[trigger] self.santa.has_candidates(i)
    }

    /// The outcome of a run with the given draws: the pools of the registry
    /// walked as `run` says.
    pub open spec fn outcome(&self, draws: Seq<usize>) -> Result<Seq<usize>, usize> {
        outcome(self.registry().pools(), draws)
    }

    /// A fresh working copy of the pools, with no recipient given yet.
    fn start_run(&self) -> (r: Run)
        requires
            self.wf(),
        ensures
            r.shaped(),
            r@ == start(self.santa.pools()),
            round_ok(r@, self.santa),
            r.remaining == self.santa.members().len(),
    {
        let n = self.pools.len();
        let mut pools: Vec<Vec<usize>> = Vec::new();
        let mut assigned: Vec<Option<usize>> = Vec::new();
        let mut k: usize = 0;
        while k < n
            invariant
                self.wf(),
                n == self.pools@.len(),
                k <= n,
                pools@.len() == k,
                assigned@ =~= Seq::new(k as nat, |i: int| None::<usize>),
                forall|q: int| 0 <= q < k ==> (#[trigger] pools@[q])@ == self.santa.pool_of(q),
            decreases n - k,
        {
            pools.push(copy_row(&self.pools[k]));
            assigned.push(None);
            k = k + 1;
        }
        proof {
            lemma_waiting_all(n as nat);
        }
        let r = Run { pools, assigned, wave: Vec::new(), remaining: n };
        assert(r@.pools =~= self.santa.pools());
        assert(r@ == start(self.santa.pools()));
        proof {
            lemma_start_ok(self.santa);
        }
        r
    }

    /// Names each member with the member at its index in `res`.
    fn named(&self, res: &Vec<usize>) -> (r: Vec<(String, String)>)
        requires
            self.wf(),
            valid_assignment(self.santa, res@),
        ensures
            names_match(self.santa, res@, r@),
            valid_pairs(self.santa, r@),
    {
        let n = res.len();
        let mut r: Vec<(String, String)> = Vec::new();
        let mut k: usize = 0;
        while k < n
            invariant
                self.wf(),
                valid_assignment(self.santa, res@),
                n == res@.len(),
                k <= n,
                r@.len() == k,
                forall|i: int| 0 <= i < k ==> (#[trigger] r@[i]).0@ == self.santa.members()[i] && r@[i].1@
                    == self.santa.members()[res@[i] as int],
            decreases n - k,
        {
            assert(self.santa.candidate(k as int, res@[k as int] as int));
            let giver = self.santa.name_at(k).clone();
            let receiver = self.santa.name_at(res[k]).clone();
            r.push((giver, receiver));
            k = k + 1;
        }
        let ghost members = self.santa.members();
        proof {
            self.santa.lemma_members_distinct();
        }
        assert(valid_pairs(self.santa, r@)) by {
            assert forall|i: int| 0 <= i < n implies members.contains((#[trigger] r@[i]).1@) by {
                assert(self.santa.candidate(i, res@[i] as int));
            }
            assert forall|i: int| 0 <= i < n implies (#[trigger] r@[i]).1@ != r@[i].0@ by {
                assert(self.santa.candidate(i, res@[i] as int));
            }
            assert forall|i: int| 0 <= i < n implies !self.santa.excludes((#[trigger] r@[i]).0@, r@[i].1@) by {
                assert(self.santa.candidate(i, res@[i] as int));
            }
            assert forall|i: int, j: int| 0 <= i < n && 0 <= j < n && i != j implies (#[trigger] r@[i]).1@
                != (#[trigger] r@[j]).1@ by {
                assert(self.santa.candidate(i, res@[i] as int));
                assert(self.santa.candidate(j, res@[j] as int));
                assert(res@[i] != res@[j]);
            }
        }
        r
    }

    /// A finished run has given every member an allowed recipient, none twice.
    proof fn lemma_finished(&self, work: &Run)
        requires
            self.wf(),
            work.shaped(),
            round_ok(work@, self.santa),
            work.remaining == 0,
        ensures
            valid_assignment(self.santa, work@.assigned.map_values(|o: Option<usize>| o->Some_0)),
    {
        lemma_waiting_zero(work.assigned@);
        let res = work@.assigned.map_values(|o: Option<usize>| o->Some_0);
        assert forall|i: int| 0 <= i < res.len() implies #[trigger] self.santa.candidate(i, res[i] as int) by {
            assert(work@.assigned[i] is Some);
        }
        assert forall|i: int, j: int| 0 <= i < res.len() && 0 <= j < res.len() && i != j implies res[i]
            != res[j] by {
            assert(work@.assigned[i] is Some);
            assert(work@.assigned[j] is Some);
        }
    }

    /// The names of the given members, in the same order.
    fn names_of(&self, idx: &Vec<usize>) -> (r: Vec<String>)
        requires
            self.wf(),
            forall|k: int| 0 <= k < idx@.len() ==> #[trigger] idx@[k] < self.santa.members().len(),
        ensures
            r@.len() == idx@.len(),
            forall|k: int| 0 <= k < idx@.len() ==> (#[trigger] r@[k])@ == self.santa.members()[idx@[k] as int],
    {
        let mut r: Vec<String> = Vec::new();
        let mut k: usize = 0;
        while k < idx.len()
            invariant
                self.wf(),
                forall|k: int| 0 <= k < idx@.len() ==> #[trigger] idx@[k] < self.santa.members().len(),
                k <= idx@.len(),
                r@.len() == k,
                forall|q: int| 0 <= q < k ==> (#[trigger] r@[q])@ == self.santa.members()[idx@[q] as int],
            decreases idx@.len() - k,
        {
            r.push(self.santa.name_at(idx[k]).clone());
            k = k + 1;
        }
        r
    }

    /// The candidate pool of each member, by name, in member order.
    pub fn candidates(&self) -> (r: Vec<Vec<String>>)
        requires
            self.wf(),
        ensures
            r@.len() == self.registry().members().len(),
            forall|i: int|
                0 <= i < r@.len() ==> (#[trigger] r@[i])@.len() == self.registry().pool_of(i).len(),
            forall|i: int, k: int|
                0 <= i < r@.len() && 0 <= k < r@[i]@.len() ==> (#[trigger] r@[i]@[k])@
                    == self.registry().members()[self.registry().pool_of(i)[k] as int],
    {
        let n = self.pools.len();
        let mut r: Vec<Vec<String>> = Vec::new();
        let mut i: usize = 0;
        while i < n
            invariant
                self.wf(),
                n == self.santa.members().len(),
                i <= n,
                r@.len() == i,
                forall|q: int| 0 <= q < i ==> (#[trigger] r@[q])@.len() == self.santa.pool_of(q).len(),
                forall|q: int, k: int|
                    0 <= q < i && 0 <= k < r@[q]@.len() ==> (#[trigger] r@[q]@[k])@
                        == self.santa.members()[self.santa.pool_of(q)[k] as int],
            decreases n - i,
        {
            let ghost all = Seq::new(n as nat, |j: int| j as usize);
            let ghost pred = |j: usize| self.santa.candidate(i as int, j as int);
            assert forall|k: int| 0 <= k < self.pools@[i as int]@.len() implies #[trigger] self.pools@[i as int]@[k]
                < self.santa.members().len() by {
                assert(self.pools@[i as int]@ == all.filter(pred));
                all.lemma_filter_pred(pred, k);
            }
            let row = self.names_of(&self.pools[i]);
            r.push(row);
            i = i + 1;
        }
        r
    }

    /// The members that a run resolves first: those that share the smallest
    /// candidate pool, where several pools are that small the one shared by
    /// the most members, and on a further tie the one of the earliest member.
    pub fn priority_group(&self) -> (r: Vec<String>)
        requires
            self.wf(),
        ensures
            r@.len() == priority_group(start(self.registry().pools())).len(),
            forall|k: int|
                0 <= k < r@.len() ==> (#[trigger] r@[k])@ == self.registry().members()[priority_group(
                    start(self.registry().pools()),
                )[k] as int],
    {
        let mut work = self.start_run();
        work.refresh(&self.santa);
        assert(work@.wave == priority_group(start(self.santa.pools())));
        self.names_of(&work.wave)
    }

    /// Generates an assignment, taking the candidate of the member whose turn
    /// it is from its pool at position `d % size`, where `d` is the next of
    /// `draws` (zero once they run out).
    pub fn generate_with(&self, draws: &[usize]) -> (r: Result<Vec<(String, String)>, SantaError>)
        requires
            self.wf(),
        ensures
            match r {
                Ok(pairs) => {
                    &&& self.outcome(draws@) is Ok
                    &&& names_match(self.registry(), self.outcome(draws@)->Ok_0, pairs@)
                    &&& valid_assignment(self.registry(), self.outcome(draws@)->Ok_0)
                    &&& valid_pairs(self.registry(), pairs@)
                },
                Err(SantaError::Unsatisfiable(name)) => {
                    &&& self.outcome(draws@) is Err
                    &&& self.outcome(draws@)->Err_0 < self.registry().members().len()
                    &&& name@ == self.registry().members()[self.outcome(draws@)->Err_0 as int]
                    &&& exists|given: Seq<Option<usize>>|
                        #[trigger] stuck_at(self.registry(), given, self.outcome(draws@)->Err_0 as int)
                },
                Err(_) => false,
            },
    {
        let n = self.pools.len();
        let mut work = self.start_run();
        let mut i: usize = 0;
        while work.remaining > 0
            invariant
                self.wf(),
                n == self.santa.members().len(),
                work.shaped(),
                round_ok(work@, self.santa),
                i + work.remaining == n,
                self.outcome(draws@) == run_from(work@, draws@, i as nat, work.remaining as nat),
            decreases work.remaining,
        {
            work.refresh(&self.santa);
            let d = if i < draws.len() {
                draws[i]
            } else {
                0
            };
            let ghost given = work@.assigned;
            match work.assign(&self.santa, d) {
                Err(m) => {
                    let name = self.santa.name_at(m).clone();
                    assert(stuck_at(self.santa, given, m as int));
                    return Err(SantaError::Unsatisfiable(name));
                },
                Ok(_) => {},
            }
            i = i + 1;
        }
        proof {
            self.lemma_finished(&work);
        }
        let res = work.recipients();
        Ok(self.named(&res))
    }

    /// Generates an assignment, drawing each candidate uniformly at random
    /// from the pool of the member whose turn it is. The result is the outcome
    /// of some sequence of draws, as `generate_with` gives it; where the run
    /// stops, it stops at a member all of whose candidates were already given.
    pub fn generate(&self) -> (r: Result<Vec<(String, String)>, SantaError>)
        requires
            self.wf(),
        ensures
            exists|ds: Seq<usize>|
                #![trigger self.outcome(ds)]
                match r {
                    Ok(pairs) => {
                        &&& self.outcome(ds) is Ok
                        &&& names_match(self.registry(), self.outcome(ds)->Ok_0, pairs@)
                    },
                    Err(SantaError::Unsatisfiable(name)) => {
                        &&& self.outcome(ds) is Err
                        &&& self.outcome(ds)->Err_0 < self.registry().members().len()
                        &&& name@ == self.registry().members()[self.outcome(ds)->Err_0 as int]
                    },
                    Err(_) => false,
                },
            match r {
                Ok(pairs) => valid_pairs(self.registry(), pairs@),
                Err(SantaError::Unsatisfiable(name)) => exists|given: Seq<Option<usize>>, m: int|
                    #[trigger] stuck_at(self.registry(), given, m) && name@ == self.registry().members()[m],
                Err(_) => false,
            },
    {
        let n = self.pools.len();
        let mut work = self.start_run();
        let ghost mut ds: Seq<usize> = Seq::empty();
        while work.remaining > 0
            invariant
                self.wf(),
                n == self.santa.members().len(),
                work.shaped(),
                round_ok(work@, self.santa),
                ds.len() + work.remaining == n,
                forall|ext: Seq<usize>|
                    #[trigger] self.outcome(ds + ext) == run_from(
                        work@,
                        ds + ext,
                        ds.len(),
                        work.remaining as nat,
                    ),
            decreases work.remaining,
        {
            let ghost before = work@;
            let ghost rem = work.remaining as nat;
            work.refresh(&self.santa);
            let size = work.first_pool_len();
            let d = if size > 0 {
                random_below(size)
            } else {
                0
            };
            let ghost next = ds.push(d);
            proof {
                assert forall|ext: Seq<usize>|
                    #[trigger] self.outcome(next + ext) == run_from(before, next + ext, ds.len(), rem) by {
                    assert(next + ext =~= ds + (seq![d] + ext));
                    assert(draw_at(next + ext, ds.len() as int) == d);
                }
            }
            let ghost given = work@.assigned;
            match work.assign(&self.santa, d) {
                Err(m) => {
                    let name = self.santa.name_at(m).clone();
                    assert(self.santa.members()[m as int] == name@);
                    proof {
                        assert(next + Seq::<usize>::empty() =~= next);
                        assert(self.outcome(next) == Err::<Seq<usize>, usize>(m));
                        assert(stuck_at(self.santa, given, m as int));
                    }
                    return Err(SantaError::Unsatisfiable(name));
                },
                Ok(_) => {},
            }
            proof {
                assert forall|ext: Seq<usize>|
                    #[trigger] self.outcome(next + ext) == run_from(work@, next + ext, next.len(), work.remaining as nat) by {
                    assert(draw_at(next + ext, ds.len() as int) == d);
                }
                ds = next;
            }
        }
        proof {
            self.lemma_finished(&work);
            assert(ds + Seq::<usize>::empty() =~= ds);
            assert(self.outcome(ds) == run_from(work@, ds, ds.len(), 0));
        }
        let res = work.recipients();
        Ok(self.named(&res))
    }

    /// A matcher over `santa`, whose candidate pools `pools` are.
    pub(crate) fn new(santa: Santa, pools: Vec<Vec<usize>>) -> (r: SantaMatcher)
        requires
            santa.wf(),
            santa.members().len() >= 2,
            santa.members().len() <= usize::MAX,
            pools@.len() == santa.members().len(),
            forall|i: int| 0 <= i < pools@.len() ==> (#[trigger] pools@[i])@ == santa.pool_of(i),
            forall|i: int| 0 <= i < pools@.len() ==> #[trigger] santa.has_candidates(i),
        ensures
            r.wf(),
            r.registry() == santa,
    {
        SantaMatcher { santa, pools }
    }
}

} // verus!
