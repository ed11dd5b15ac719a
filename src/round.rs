//! The mathematical model of a generation run: its state, the priority
//! order among waiting members, one assignment step, and a whole run as a
//! function of the draws; with the facts about them that the engine uses.

use crate::registry::Santa;
use vstd::prelude::*;

verus! {

/// The state of one generation run: the current candidate pools, the
/// recipient given to each member so far, and the members of the current wave
/// that still wait for one.
pub struct Round {
    pub pools: Seq<Seq<usize>>,
    pub assigned: Seq<Option<usize>>,
    pub wave: Seq<usize>,
}

/// Member `j` has no recipient yet.
pub open spec fn unassigned(st: Round, j: int) -> bool {
    st.assigned[j] is None
}

/// How many members among the first `k` have no recipient yet and share the
/// candidate pool of member `i`. Pools keep member order, so pools with the
/// same members are equal sequences.
pub open spec fn same_pool_count(st: Round, i: int, k: int) -> nat
    decreases k,
{
    if k <= 0 {
        0
    } else {
        same_pool_count(st, i, k - 1) + if unassigned(st, k - 1) && st.pools[k - 1] == st.pools[i] {
            1nat
        } else {
            0nat
        }
    }
}

/// Member `a` is more urgent than member `b`: a smaller pool, or a pool of the
/// same size shared by more waiting members.
pub open spec fn more_urgent(st: Round, a: int, b: int) -> bool {
    let n = st.assigned.len() as int;
    ||| st.pools[a].len() < st.pools[b].len()
    ||| st.pools[a].len() == st.pools[b].len() && same_pool_count(st, a, n) > same_pool_count(
        st,
        b,
        n,
    )
}

/// The most urgent waiting member among the first `k`, the earliest one on a tie.
pub open spec fn leader_upto(st: Round, k: int) -> Option<int>
    decreases k,
{
    if k <= 0 {
        None
    } else {
        let best = leader_upto(st, k - 1);
        let c = k - 1;
        if unassigned(st, c) && (best is None || more_urgent(st, c, best->Some_0)) {
            Some(c)
        } else {
            best
        }
    }
}

/// The waiting members among the first `k` that share the pool of member `l`, in order.
pub open spec fn wave_upto(st: Round, l: int, k: int) -> Seq<usize>
    decreases k,
{
    if k <= 0 {
        Seq::empty()
    } else {
        let w = wave_upto(st, l, k - 1);
        if unassigned(st, k - 1) && st.pools[k - 1] == st.pools[l] {
            w.push((k - 1) as usize)
        } else {
            w
        }
    }
}

/// The priority group: the waiting members that share the pool of the most urgent one.
pub open spec fn priority_group(st: Round) -> Seq<usize> {
    let n = st.assigned.len() as int;
    match leader_upto(st, n) {
        Some(l) => wave_upto(st, l, n),
        None => Seq::empty(),
    }
}

/// The state with a new wave taken from the priority group once the last one is done.
pub open spec fn refreshed(st: Round) -> Round {
    if st.wave.len() == 0 {
        Round { pools: st.pools, assigned: st.assigned, wave: priority_group(st) }
    } else {
        st
    }
}

/// Holds of every recipient but `p`.
pub open spec fn other_than(p: usize) -> spec_fn(usize) -> bool {
    |x: usize| x != p
}

/// Every pool without recipient `p`.
pub open spec fn without(pools: Seq<Seq<usize>>, p: usize) -> Seq<Seq<usize>> {
    pools.map_values(|row: Seq<usize>| row.filter(other_than(p)))
}

/// The first member of the wave takes the candidate that `draw` selects, or
/// the run stops at that member when its pool is empty.
pub open spec fn assign_first(st: Round, draw: usize) -> Result<Round, usize> {
    let m = st.wave[0];
    let row = st.pools[m as int];
    if row.len() == 0 {
        Err(m)
    } else {
        let p = row[(draw as int) % (row.len() as int)];
        Ok(
            Round {
                pools: without(st.pools, p),
                assigned: st.assigned.update(m as int, Some(p)),
                wave: st.wave.drop_first(),
            },
        )
    }
}

/// The draw at position `i`, or zero past the end.
pub open spec fn draw_at(draws: Seq<usize>, i: int) -> usize {
    if 0 <= i < draws.len() {
        draws[i]
    } else {
        0
    }
}

/// The outcome of `fuel` further assignments from `st`, consuming draws from
/// position `i` on: every member's recipient, or the member that was left
/// without one.
pub open spec fn run_from(st: Round, draws: Seq<usize>, i: nat, fuel: nat) -> Result<Seq<usize>, usize>
    decreases fuel,
{
    if fuel == 0 {
        Ok(st.assigned.map_values(|o: Option<usize>| o->Some_0))
    } else {
        match assign_first(refreshed(st), draw_at(draws, i as int)) {
            Err(m) => Err(m),
            Ok(next) => run_from(next, draws, i + 1, (fuel - 1) as nat),
        }
    }
}

/// The state in which a run starts.
pub open spec fn start(pools: Seq<Seq<usize>>) -> Round {
    Round {
        pools,
        assigned: Seq::new(pools.len(), |i: int| None::<usize>),
        wave: Seq::empty(),
    }
}

/// The outcome of a whole run from `pools` with the given draws.
pub open spec fn outcome(pools: Seq<Seq<usize>>, draws: Seq<usize>) -> Result<Seq<usize>, usize> {
    run_from(start(pools), draws, 0, pools.len())
}

/// `result` gives each member of `santa` another member that its exclusions
/// allow, and no member is given twice.
pub open spec fn valid_assignment(santa: Santa, result: Seq<usize>) -> bool {
    &&& result.len() == santa.members().len()
    &&& forall|i: int| 0 <= i < result.len() ==> #[trigger] santa.candidate(i, result[i] as int)
    &&& forall|i: int, j: int|
        0 <= i < result.len() && 0 <= j < result.len() && i != j ==> result[i] != result[j]
}

/// `pairs` gives each member of `santa`, in member order, a recipient that is
/// another member and not on its exclusion list, and no recipient twice.
pub open spec fn valid_pairs(santa: Santa, pairs: Seq<(String, String)>) -> bool {
    let members = santa.members();
    &&& pairs.len() == members.len()
    &&& forall|i: int| 0 <= i < pairs.len() ==> (#[trigger] pairs[i]).0@ == members[i]
    &&& forall|i: int| 0 <= i < pairs.len() ==> members.contains((#[trigger] pairs[i]).1@)
    &&& forall|i: int| 0 <= i < pairs.len() ==> (#[trigger] pairs[i]).1@ != pairs[i].0@
    &&& forall|i: int| 0 <= i < pairs.len() ==> !santa.excludes((#[trigger] pairs[i]).0@, pairs[i].1@)
    &&& forall|i: int, j: int|
        0 <= i < pairs.len() && 0 <= j < pairs.len() && i != j ==> (#[trigger] pairs[i]).1@
            != (#[trigger] pairs[j]).1@
}

/// `pairs` names each member, in member order, with the member it is given in `result`.
pub open spec fn names_match(santa: Santa, result: Seq<usize>, pairs: Seq<(String, String)>) -> bool {
    &&& pairs.len() == result.len()
    &&& forall|i: int|
        0 <= i < pairs.len() ==> (#[trigger] pairs[i]).0@ == santa.members()[i] && pairs[i].1@
            == santa.members()[result[i] as int]
}

/// How many members have no recipient yet.
pub open spec fn waiting(assigned: Seq<Option<usize>>) -> nat
    decreases assigned.len(),
{
    if assigned.len() == 0 {
        0
    } else {
        waiting(assigned.drop_last()) + if assigned.last() is None {
            1nat
        } else {
            0nat
        }
    }
}

/// Recipient `x` is already given to some member.
pub open spec fn taken(st: Round, x: usize) -> bool {
    exists|j: int| 0 <= j < st.assigned.len() && st.assigned[j] == Some(x)
}

/// What holds of every state of a run for `santa`: the pools of waiting
/// members hold exactly the allowed recipients not yet given, every recipient given
/// is allowed and given once, and the wave lists waiting members in order.
pub open spec fn round_ok(st: Round, santa: Santa) -> bool {
    let n = santa.members().len();
    &&& st.pools.len() == n
    &&& st.assigned.len() == n
    &&& forall|i: int| 0 <= i < n ==> (#[trigger] st.pools[i]).len() <= n
    &&& forall|i: int, x: usize|
        0 <= i < n && unassigned(st, i) && #[trigger] st.pools[i].contains(x) ==> santa.candidate(i, x as int)
            && !taken(st, x)
    &&& forall|i: int, j: int|
        0 <= i < n && unassigned(st, i) && #[trigger] santa.candidate(i, j) && !taken(st, j as usize)
            ==> st.pools[i].contains(j as usize)
    &&& forall|j: int| 0 <= j < n && #[trigger] st.assigned[j] is Some ==> santa.candidate(
        j,
        st.assigned[j]->Some_0 as int,
    )
    &&& forall|a: int, b: int|
        0 <= a < n && 0 <= b < n && a != b && #[trigger] st.assigned[a] is Some && #[trigger] st.assigned[b] is Some
            ==> st.assigned[a] != st.assigned[b]
    &&& forall|a: int, b: int| 0 <= a < b < st.wave.len() ==> #[trigger] st.wave[a] < #[trigger] st.wave[b]
    &&& forall|a: int| 0 <= a < st.wave.len() ==> #[trigger] st.wave[a] < n && unassigned(st, st.wave[a] as int)
}

/// `given` gives some members of `santa` a recipient, each allowed and none
/// twice, leaves member `m` without one, and every member that `m` may be
/// given is already given to someone: the state in which a run stops at `m`.
pub open spec fn stuck_at(santa: Santa, given: Seq<Option<usize>>, m: int) -> bool {
    let n = santa.members().len();
    &&& given.len() == n
    &&& 0 <= m < n
    &&& given[m] is None
    &&& forall|j: int| 0 <= j < n && #[trigger] given[j] is Some ==> santa.candidate(j, given[j]->Some_0 as int)
    &&& forall|a: int, b: int|
        0 <= a < n && 0 <= b < n && a != b && #[trigger] given[a] is Some && #[trigger] given[b] is Some
            ==> given[a] != given[b]
    &&& forall|j: int|
        #[trigger] santa.candidate(m, j) ==> exists|k: int| 0 <= k < n && given[k] == Some(j as usize)
}

/// What a pool keeps after removing `p`: all it had but `p`.
pub(crate) proof fn lemma_filter_keeps(s: Seq<usize>, p: usize, x: usize)
    requires
        s.contains(x),
        x != p,
    ensures
        s.filter(other_than(p)).contains(x),
{
    let q = choose|q: int| 0 <= q < s.len() && s[q] == x;
    s.lemma_filter_contains(other_than(p), q);
}

/// An assignment step on a state that `round_ok` describes, from a non-empty
/// pool, leads to another such state with one fewer member waiting.
pub(crate) proof fn lemma_assign_keeps(st: Round, santa: Santa, draw: usize)
    requires
        round_ok(st, santa),
        st.wave.len() > 0,
        st.pools[st.wave[0] as int].len() > 0,
    ensures
        assign_first(st, draw) is Ok,
        round_ok(assign_first(st, draw)->Ok_0, santa),
        waiting(assign_first(st, draw)->Ok_0.assigned) + 1 == waiting(st.assigned),
{
    let n = santa.members().len();
    let m = st.wave[0];
    let row = st.pools[m as int];
    let p = row[(draw as int) % (row.len() as int)];
    assert(row.contains(p));
    let nst = assign_first(st, draw)->Ok_0;
    assert(nst.assigned == st.assigned.update(m as int, Some(p)));
    lemma_waiting_update(st.assigned, m as int, p);
    assert forall|i: int| 0 <= i < n implies (#[trigger] nst.pools[i]).len() <= n by {
        st.pools[i].lemma_filter_len(other_than(p));
    }
        assert forall|i: int, x: usize|
            0 <= i < n && unassigned(nst, i) && #[trigger] nst.pools[i].contains(x) implies santa.candidate(
            i,
            x as int,
        ) && !taken(nst, x) by {
            lemma_filter_has(st.pools[i], p, x);
            assert(st.pools[i].contains(x));
            if taken(nst, x) {
                let j = choose|j: int| 0 <= j < nst.assigned.len() && nst.assigned[j] == Some(x);
                assert(j != m);
                assert(taken(st, x));
            }
        }
        assert(!taken(st, p));
        assert forall|i: int, j: int|
            0 <= i < n && unassigned(nst, i) && #[trigger] santa.candidate(i, j) && !taken(nst, j as usize)
                implies nst.pools[i].contains(j as usize) by {
            assert(i != m);
            if taken(st, j as usize) {
                let k = choose|k: int| 0 <= k < st.assigned.len() && st.assigned[k] == Some(j as usize);
                assert(nst.assigned[k] == Some(j as usize));
            }
            assert(nst.assigned[m as int] == Some(p));
            assert(j as usize != p);
            lemma_filter_keeps(st.pools[i], p, j as usize);
            assert(nst.pools[i] == st.pools[i].filter(other_than(p)));
        }
        assert forall|a: int, b: int|
            0 <= a < n && 0 <= b < n && a != b && #[trigger] nst.assigned[a] is Some
                && #[trigger] nst.assigned[b] is Some implies nst.assigned[a] != nst.assigned[b] by {
            if a == m {
                assert(st.assigned[b] is Some);
            } else if b == m {
                assert(st.assigned[a] is Some);
            } else {
            }
        }
        assert forall|a: int| 0 <= a < nst.wave.len() implies #[trigger] nst.wave[a] < n && unassigned(
            nst,
            nst.wave[a] as int,
        ) by {
            assert(nst.wave[a] == st.wave[a + 1]);
            assert(st.wave[0] < st.wave[a + 1]);
        }
        assert forall|a: int, b: int| 0 <= a < b < nst.wave.len() implies #[trigger] nst.wave[a]
            < #[trigger] nst.wave[b] by {
            assert(nst.wave[a] == st.wave[a + 1]);
            assert(nst.wave[b] == st.wave[b + 1]);
        }
}

/// A run starts in a state that `round_ok` describes, with every member waiting.
pub(crate) proof fn lemma_start_ok(santa: Santa)
    requires
        santa.members().len() <= usize::MAX,
    ensures
        round_ok(start(santa.pools()), santa),
        waiting(start(santa.pools()).assigned) == santa.members().len(),
{
    let n = santa.members().len();
    let st = start(santa.pools());
    lemma_waiting_all(n);
    assert forall|i: int| 0 <= i < n implies (#[trigger] st.pools[i]).len() <= n by {
        let all = Seq::new(n as nat, |j: int| j as usize);
        all.lemma_filter_len(|j: usize| santa.candidate(i, j as int));
    }
        assert forall|i: int, x: usize|
            0 <= i < n && unassigned(st, i) && #[trigger] st.pools[i].contains(x) implies santa.candidate(
            i,
            x as int,
        ) && !taken(st, x) by {
            let all = Seq::new(n as nat, |j: int| j as usize);
            let pred = |j: usize| santa.candidate(i, j as int);
            assert(st.pools[i] == all.filter(pred));
            let q = choose|q: int| 0 <= q < all.filter(pred).len() && all.filter(pred)[q] == x;
            all.lemma_filter_pred(pred, q);
        }
        assert forall|i: int, j: int|
            0 <= i < n && unassigned(st, i) && #[trigger] santa.candidate(i, j) && !taken(st, j as usize)
                implies st.pools[i].contains(j as usize) by {
            let all = Seq::new(n as nat, |j: int| j as usize);
            let pred = |j: usize| santa.candidate(i, j as int);
            assert(st.pools[i] == all.filter(pred));
            assert(pred(all[j]));
            all.lemma_filter_contains(pred, j);
        }
}

/// Refreshing a state with members waiting keeps what `round_ok` says and
/// gives a wave with a member in it.
pub(crate) proof fn lemma_refresh_keeps(st: Round, santa: Santa)
    requires
        round_ok(st, santa),
        waiting(st.assigned) > 0,
        santa.members().len() <= usize::MAX,
    ensures
        round_ok(refreshed(st), santa),
        refreshed(st).wave.len() > 0,
        refreshed(st).pools == st.pools,
        refreshed(st).assigned == st.assigned,
{
    if st.wave.len() == 0 {
        let n = st.assigned.len() as int;
        let j = lemma_waiting_some(st.assigned);
        assert(unassigned(st, j));
        lemma_leader(st, n);
        let l = leader_upto(st, n)->Some_0;
        lemma_wave(st, l, n);
        let rs = refreshed(st);
        assert(forall|x: usize| taken(rs, x) == taken(st, x));
    }
}

/// From a state that `round_ok` describes, in which the partner under
/// `sigma` of every waiting member is still to be given, some further draws
/// finish the run: each member in turn draws its partner.
pub(crate) proof fn lemma_guided(st: Round, santa: Santa, sigma: Seq<usize>, pre: Seq<usize>, fuel: nat)
    requires
        round_ok(st, santa),
        waiting(st.assigned) == fuel,
        valid_assignment(santa, sigma),
        santa.members().len() <= usize::MAX,
        forall|k: int| 0 <= k < st.assigned.len() && unassigned(st, k) ==> !taken(st, #[trigger] sigma[k]),
    ensures
        exists|tail: Seq<usize>| (#[trigger] run_from(st, pre + tail, pre.len(), fuel)) is Ok,
    decreases fuel,
{
    let n = santa.members().len();
    if fuel == 0 {
        assert(run_from(st, pre + Seq::<usize>::empty(), pre.len(), 0) is Ok);
    } else {
        lemma_refresh_keeps(st, santa);
        let rs = refreshed(st);
        assert(forall|x: usize| taken(rs, x) == taken(st, x));
        let m = rs.wave[0];
        assert(unassigned(rs, m as int));
        let target = sigma[m as int];
        assert(santa.candidate(m as int, target as int));
        assert(!taken(st, target));
        assert(rs.pools[m as int].contains(target));
        let q = choose|q: int| 0 <= q < rs.pools[m as int].len() && rs.pools[m as int][q] == target;
        let d = q as usize;
        let len = rs.pools[m as int].len() as int;
        vstd::arithmetic::div_mod::lemma_small_mod(q as nat, len as nat);
        assert(len <= n);
        assert((d as int) % len == q);
        lemma_assign_keeps(rs, santa, d);
        let nst = assign_first(rs, d)->Ok_0;
        assert(nst.assigned == rs.assigned.update(m as int, Some(target)));
        assert forall|k: int| 0 <= k < nst.assigned.len() && unassigned(nst, k) implies !taken(
            nst,
            #[trigger] sigma[k],
        ) by {
            assert(k != m);
            if taken(nst, sigma[k]) {
                let j = choose|j: int| 0 <= j < nst.assigned.len() && nst.assigned[j] == Some(sigma[k]);
                if j == m {
                    assert(sigma[k] == sigma[m as int]);
                } else {
                    assert(st.assigned[j] == Some(sigma[k]));
                }
            }
        }
        let next = pre.push(d);
        lemma_guided(nst, santa, sigma, next, (fuel - 1) as nat);
        let tail2 = choose|tail: Seq<usize>| (#[trigger] run_from(nst, next + tail, next.len(), (fuel - 1) as nat)) is Ok;
        let tail = seq![d] + tail2;
        assert(pre + tail =~= next + tail2);
        assert(draw_at(pre + tail, pre.len() as int) == d);
        assert(run_from(st, pre + tail, pre.len(), fuel) is Ok);
    }
}

/// Giving a waiting member a recipient leaves one fewer waiting.
pub(crate) proof fn lemma_waiting_update(s: Seq<Option<usize>>, m: int, v: usize)
    requires
        0 <= m < s.len(),
        s[m] is None,
    ensures
        waiting(s.update(m, Some(v))) + 1 == waiting(s),
    decreases s.len(),
{
    let t = s.update(m, Some(v));
    if m < s.len() - 1 {
        assert(t.drop_last() =~= s.drop_last().update(m, Some(v)));
        lemma_waiting_update(s.drop_last(), m, v);
    } else {
        assert(t.drop_last() =~= s.drop_last());
    }
}

/// When none is waiting, every member has a recipient.
pub(crate) proof fn lemma_waiting_zero(s: Seq<Option<usize>>)
    requires
        waiting(s) == 0,
    ensures
        forall|i: int| 0 <= i < s.len() ==> #[trigger] s[i] is Some,
    decreases s.len(),
{
    if s.len() > 0 {
        lemma_waiting_zero(s.drop_last());
        assert forall|i: int| 0 <= i < s.len() implies #[trigger] s[i] is Some by {
            if i < s.len() - 1 {
                assert(s.drop_last()[i] == s[i]);
            }
        }
    }
}

/// When some are waiting, one of them can be named.
pub(crate) proof fn lemma_waiting_some(s: Seq<Option<usize>>) -> (i: int)
    requires
        waiting(s) > 0,
    ensures
        0 <= i < s.len(),
        s[i] is None,
    decreases s.len(),
{
    if s.last() is None {
        s.len() - 1
    } else {
        let i = lemma_waiting_some(s.drop_last());
        assert(s.drop_last()[i] == s[i]);
        i
    }
}

/// At the start every member is waiting.
pub(crate) proof fn lemma_waiting_all(n: nat)
    ensures
        waiting(Seq::new(n, |i: int| None::<usize>)) == n,
    decreases n,
{
    if n > 0 {
        let s = Seq::new(n, |i: int| None::<usize>);
        assert(s.drop_last() =~= Seq::new((n - 1) as nat, |i: int| None::<usize>));
        lemma_waiting_all((n - 1) as nat);
    }
}

/// The most urgent member, where there is one, is a waiting member.
pub(crate) proof fn lemma_leader(st: Round, k: int)
    requires
        0 <= k <= st.assigned.len(),
    ensures
        match leader_upto(st, k) {
            Some(l) => 0 <= l < k && unassigned(st, l),
            None => forall|j: int| 0 <= j < k ==> !unassigned(st, j),
        },
    decreases k,
{
    if k > 0 {
        lemma_leader(st, k - 1);
    }
}

/// A wave lists waiting members in increasing order, and holds the member
/// whose pool it was taken from.
pub(crate) proof fn lemma_wave(st: Round, l: int, k: int)
    requires
        0 <= k <= st.assigned.len(),
        st.assigned.len() <= usize::MAX,
    ensures
        forall|a: int, b: int|
            0 <= a < b < wave_upto(st, l, k).len() ==> #[trigger] wave_upto(st, l, k)[a]
                < #[trigger] wave_upto(st, l, k)[b],
        forall|a: int|
            0 <= a < wave_upto(st, l, k).len() ==> #[trigger] wave_upto(st, l, k)[a] < k && unassigned(
                st,
                wave_upto(st, l, k)[a] as int,
            ),
        0 <= l < k && unassigned(st, l) ==> wave_upto(st, l, k).len() > 0,
    decreases k,
{
    if k > 0 {
        lemma_wave(st, l, k - 1);
        let w = wave_upto(st, l, k - 1);
        let v = wave_upto(st, l, k);
        if unassigned(st, k - 1) && st.pools[k - 1] == st.pools[l] {
            assert(v == w.push((k - 1) as usize));
            assert forall|a: int| 0 <= a < w.len() implies #[trigger] v[a] == w[a] by {}
            assert forall|a: int, b: int| 0 <= a < b < v.len() implies #[trigger] v[a] < #[trigger] v[b] by {
                assert(v[a] == w[a]);
                if b < w.len() {
                    assert(v[b] == w[b]);
                }
            }
            assert forall|a: int| 0 <= a < v.len() implies #[trigger] v[a] < k && unassigned(st, v[a] as int) by {
                if a < w.len() {
                    assert(v[a] == w[a]);
                }
            }
        }
    }
}

/// What a pool keeps after removing `p` was in it before and is not `p`.
pub(crate) proof fn lemma_filter_has(s: Seq<usize>, p: usize, x: usize)
    requires
        s.filter(other_than(p)).contains(x),
    ensures
        s.contains(x),
        x != p,
{
    let f = other_than(p);
    s.lemma_filter_contains_rev(f, x);
    let q = choose|q: int| 0 <= q < s.filter(f).len() && s.filter(f)[q] == x;
    s.lemma_filter_pred(f, q);
}

} // verus!
