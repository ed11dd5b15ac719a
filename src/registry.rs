//! The constraint registry: the members, their exclusion lists, and the
//! candidate pool that follows for each member.

use crate::engine::SantaMatcher;
use vstd::prelude::*;

verus! {

/// Why a registry cannot be turned into a matcher, or why one run of the
/// matcher stopped before every member had a recipient.
#[derive(Debug, PartialEq, Eq)]
pub enum SantaError {
    /// Fewer than two members were given.
    InsufficientMembers,
    /// The member's exclusions, together with the member itself, cover every member.
    EmptyCandidatePool(String),
    /// A run reached the member when no recipient was left for it.
    Unsatisfiable(String),
}

impl SantaError {
    /// A sentence that describes the error.
    pub fn message(&self) -> (r: String)
        ensures
            match self {
                SantaError::InsufficientMembers => r@ == "at least two names are required"@,
                SantaError::EmptyCandidatePool(name) => r@ == "no selections for "@ + name@,
                SantaError::Unsatisfiable(name) => r@ == "no selection left for "@ + name@,
            },
    {
        match self {
            SantaError::InsufficientMembers => String::from_str("at least two names are required"),
            SantaError::EmptyCandidatePool(name) => String::from_str("no selections for ").concat(
                name.as_str(),
            ),
            SantaError::Unsatisfiable(name) => String::from_str("no selection left for ").concat(
                name.as_str(),
            ),
        }
    }
}

/// The character sequences of a sequence of owned strings.
pub open spec fn views_of(s: Seq<String>) -> Seq<Seq<char>> {
    s.map_values(|x: String| x@)
}

/// The character sequences of a sequence of borrowed strings.
pub open spec fn str_views(s: Seq<&str>) -> Seq<Seq<char>> {
    s.map_values(|x: &str| x@)
}

/// The first occurrence of each element of `s`, in the order of `s`.
pub open spec fn distinct_of(s: Seq<Seq<char>>) -> Seq<Seq<char>>
    decreases s.len(),
{
    if s.len() == 0 {
        Seq::empty()
    } else {
        let p = distinct_of(s.drop_last());
        if p.contains(s.last()) {
            p
        } else {
            p.push(s.last())
        }
    }
}

/// A member's candidate pool is empty exactly when its exclusions, together
/// with the member itself, cover every member.
pub proof fn lemma_empty_pool_iff_covered(santa: &Santa, i: int)
    requires
        0 <= i < santa.members().len(),
    ensures
        !santa.has_candidates(i) <==> forall|j: int|
            0 <= j < santa.members().len() ==> j == i || #[trigger] santa.excludes(
                santa.members()[i],
                santa.members()[j],
            ),
{
    if !santa.has_candidates(i) {
        assert forall|j: int| 0 <= j < santa.members().len() implies j == i || #[trigger] santa.excludes(
            santa.members()[i],
            santa.members()[j],
        ) by {
            assert(!santa.candidate(i, j));
        }
    }
}

/// Among the first `k` members, those that `pred` keeps are all but `i` and `e`.
proof fn lemma_count_all_but_two(n: nat, pred: spec_fn(usize) -> bool, i: int, e: int, k: int)
    requires
        0 <= k <= n,
        n <= usize::MAX,
        0 <= i < n,
        0 <= e < n,
        i != e,
        forall|j: int| 0 <= j < n ==> (#[trigger] pred(j as usize) <==> (j != i && j != e)),
    ensures
        Seq::new(n, |j: int| j as usize).take(k).filter(pred).len() == k - (if i < k {
            1int
        } else {
            0int
        }) - (if e < k {
            1int
        } else {
            0int
        }),
    decreases k,
{
    if k > 0 {
        lemma_count_all_but_two(n, pred, i, e, k - 1);
        let all = Seq::new(n, |j: int| j as usize);
        let t = all.take(k);
        assert(t.drop_last() =~= all.take(k - 1));
        assert(t.last() == (k - 1) as usize);
        assert(pred((k - 1) as usize) <==> (k - 1 != i && k - 1 != e));
        reveal(Seq::filter);
    }
}

/// A member whose exclusion list names exactly one other member has every
/// member but itself and that one in its candidate pool.
pub proof fn lemma_pool_without_one(santa: &Santa, i: int, e: int)
    requires
        santa.members().len() <= usize::MAX,
        0 <= i < santa.members().len(),
        0 <= e < santa.members().len(),
        i != e,
        santa.excludes(santa.members()[i], santa.members()[e]),
        forall|j: int|
            0 <= j < santa.members().len() && j != i && j != e ==> !#[trigger] santa.excludes(
                santa.members()[i],
                santa.members()[j],
            ),
    ensures
        santa.pool_of(i).len() == santa.members().len() - 2,
{
    let n = santa.members().len();
    let pred = |j: usize| santa.candidate(i, j as int);
    lemma_count_all_but_two(n, pred, i, e, n as int);
    assert(Seq::new(n, |j: int| j as usize).take(n as int) =~= Seq::new(n, |j: int| j as usize));
}

/// The members of a gift exchange and what each of them may not be given.
#[derive(Debug)]
pub struct Santa {
    names: Vec<String>,
    exception_keys: Vec<String>,
    exception_lists: Vec<Vec<String>>,
}

/// Where `s` stands in `v`, if it does.
fn position_of(v: &Vec<String>, s: &String) -> (r: Option<usize>)
    ensures
        match r {
            Some(k) => k < v@.len() && v@[k as int]@ == s@,
            None => !views_of(v@).contains(s@),
        },
{
    let mut k: usize = 0;
    while k < v.len()
        invariant
            k <= v@.len(),
            forall|i: int| 0 <= i < k ==> v@[i]@ != s@,
        decreases v@.len() - k,
    {
        if v[k] == *s {
            return Some(k);
        }
        k = k + 1;
    }
    assert(!views_of(v@).contains(s@)) by {
        if views_of(v@).contains(s@) {
            let i = choose|i: int| 0 <= i < views_of(v@).len() && views_of(v@)[i] == s@;
            assert(v@[i]@ == s@);
        }
    }
    None
}

/// Owned copies of borrowed strings, in the same order.
fn owned_all(s: &[&str]) -> (r: Vec<String>)
    ensures
        views_of(r@) == str_views(s@),
{
    let mut r: Vec<String> = Vec::new();
    let mut i: usize = 0;
    while i < s.len()
        invariant
            i <= s@.len(),
            r@.len() == i,
            forall|k: int| 0 <= k < i ==> #[trigger] r@[k]@ == s@[k]@,
        decreases s@.len() - i,
    {
        let x: String = s[i].to_owned();
        r.push(x);
        i = i + 1;
    }
    assert(views_of(r@) =~= str_views(s@));
    r
}

impl Santa {
    /// The members, in the order in which they were first added.
    pub closed spec fn members(&self) -> Seq<Seq<char>> {
        views_of(self.names@)
    }

    /// Whether member `a` may not be given `b`, as its exclusion list says.
    pub closed spec fn excludes(&self, a: Seq<char>, b: Seq<char>) -> bool {
        exists|k: int|
            0 <= k < self.exception_keys@.len() && #[trigger] self.exception_keys@[k]@ == a
                && views_of(self.exception_lists@[k]@).contains(b)
    }

    /// The members are distinct, and each name has at most one exclusion list.
    pub closed spec fn wf(&self) -> bool {
        &&& self.members().no_duplicates()
        &&& self.exception_keys@.len() == self.exception_lists@.len()
        &&& views_of(self.exception_keys@).no_duplicates()
    }

    /// Member `j` is in the candidate pool of member `i`.
    pub open spec fn candidate(&self, i: int, j: int) -> bool {
        &&& 0 <= i < self.members().len()
        &&& 0 <= j < self.members().len()
        &&& i != j
        &&& !self.excludes(self.members()[i], self.members()[j])
    }

    /// The candidate pool of member `i` is not empty.
    pub open spec fn has_candidates(&self, i: int) -> bool {
        exists|j: int| self.candidate(i, j)
    }

    /// The members, in the order in which they were first added.
    pub fn names(&self) -> (r: &Vec<String>)
        ensures
            views_of(r@) == self.members(),
    {
        &self.names
    }

    /// Creates a registry with no members and no exclusions.
    pub fn new() -> (r: Santa)
        ensures
            r.wf(),
            r.members() == Seq::<Seq<char>>::empty(),
            forall|a: Seq<char>, b: Seq<char>| !r.excludes(a, b),
    {
        Santa { names: Vec::new(), exception_keys: Vec::new(), exception_lists: Vec::new() }
    }

    /// The candidate pool of member `i`, in member order.
    pub open spec fn pool_of(&self, i: int) -> Seq<usize> {
        Seq::new(self.members().len(), |j: int| j as usize).filter(
            |j: usize| self.candidate(i, j as int),
        )
    }

    /// No member is listed twice.
    pub proof fn lemma_members_distinct(&self)
        requires
            self.wf(),
        ensures
            self.members().no_duplicates(),
    {
    }

    /// The candidate pool of every member, in member order.
    pub open spec fn pools(&self) -> Seq<Seq<usize>> {
        Seq::new(self.members().len(), |i: int| self.pool_of(i))
    }

    /// The name of member `i`.
    pub(crate) fn name_at(&self, i: usize) -> (r: &String)
        requires
            i < self.members().len(),
        ensures
            r@ == self.members()[i as int],
    {
        &self.names[i]
    }

    /// Whether member `i` is the first member whose candidate pool is empty.
    pub open spec fn first_without_candidates(&self, i: int) -> bool {
        &&& 0 <= i < self.members().len()
        &&& !self.has_candidates(i)
        &&& forall|k: int| 0 <= k < i ==> #[trigger] self.has_candidates(k)
    }

    /// Whether `a` may not be given `b`.
    fn is_excluded(&self, a: &String, b: &String) -> (r: bool)
        requires
            self.wf(),
        ensures
            r == self.excludes(a@, b@),
    {
        match position_of(&self.exception_keys, a) {
            None => {
                assert(!self.excludes(a@, b@)) by {
                    if self.excludes(a@, b@) {
                        let j = choose|j: int|
                            0 <= j < self.exception_keys@.len() && #[trigger] self.exception_keys@[j]@ == a@
                                && views_of(self.exception_lists@[j]@).contains(b@);
                        assert(views_of(self.exception_keys@)[j] == a@);
                    }
                }
                false
            },
            Some(k) => {
                let found = position_of(&self.exception_lists[k], b).is_some();
                proof {
                    if found {
                        let q = choose|q: int| 0 <= q < self.exception_lists@[k as int]@.len()
                            && #[trigger] self.exception_lists@[k as int]@[q]@ == b@;
                        assert(views_of(self.exception_lists@[k as int]@)[q] == b@);
                    }
                    if self.excludes(a@, b@) {
                        let j = choose|j: int|
                            0 <= j < self.exception_keys@.len() && #[trigger] self.exception_keys@[j]@ == a@
                                && views_of(self.exception_lists@[j]@).contains(b@);
                        assert(views_of(self.exception_keys@)[j] == views_of(self.exception_keys@)[k as int]);
                    }
                }
                found
            },
        }
    }

    /// The candidate pool of member `i`.
    fn candidates_for(&self, i: usize) -> (r: Vec<usize>)
        requires
            self.wf(),
            i < self.members().len(),
        ensures
            r@ == self.pool_of(i as int),
    {
        let n = self.names.len();
        let ghost all = Seq::new(n as nat, |j: int| j as usize);
        let ghost pred = |j: usize| self.candidate(i as int, j as int);
        let mut row: Vec<usize> = Vec::new();
        let mut j: usize = 0;
        while j < n
            invariant
                n == self.members().len(),
                self.wf(),
                i < n,
                j <= n,
                all == Seq::new(n as nat, |j: int| j as usize),
                pred == (|j: usize| self.candidate(i as int, j as int)),
                row@ == all.take(j as int).filter(pred),
            decreases n - j,
        {
            let ghost t = all.take(j + 1);
            assert(t.drop_last() =~= all.take(j as int));
            assert(t.last() == j);
            if i != j && !self.is_excluded(&self.names[i], &self.names[j]) {
                row.push(j);
            }
            assert(row@ == t.filter(pred)) by {
                reveal(Seq::filter);
            }
            j = j + 1;
        }
        assert(all.take(n as int) =~= all);
        row
    }

    /// Checks the registry and prepares it for generating assignments.
    pub fn matcher(self) -> (r: Result<SantaMatcher, SantaError>)
        requires
            self.wf(),
        ensures
            match r {
                Ok(m) => {
                    &&& m.wf()
                    &&& m.registry() == self
                    &&& self.members().len() >= 2
                    &&& forall|i: int| 0 <= i < self.members().len() ==> #[trigger] self.has_candidates(i)
                },
                Err(SantaError::InsufficientMembers) => self.members().len() < 2,
                Err(SantaError::EmptyCandidatePool(name)) => {
                    &&& self.members().len() >= 2
                    &&& exists|i: int| #[trigger] self.first_without_candidates(i) && name@ == self.members()[i]
                },
                Err(SantaError::Unsatisfiable(_)) => false,
            },
    {
        let n = self.names.len();
        if n < 2 {
            return Err(SantaError::InsufficientMembers);
        }
        let mut pools: Vec<Vec<usize>> = Vec::new();
        let mut i: usize = 0;
        while i < n
            invariant
                n == self.members().len(),
                n >= 2,
                self.wf(),
                i <= n,
                pools@.len() == i,
                forall|k: int| 0 <= k < i ==> (#[trigger] pools@[k])@ == self.pool_of(k),
                forall|k: int| 0 <= k < i ==> #[trigger] self.has_candidates(k),
            decreases n - i,
        {
            let row = self.candidates_for(i);
            let ghost pred = |j: usize| self.candidate(i as int, j as int);
            let ghost all = Seq::new(n as nat, |j: int| j as usize);
            if row.len() == 0 {
                assert(!self.has_candidates(i as int)) by {
                    if self.has_candidates(i as int) {
                        let j = choose|j: int| self.candidate(i as int, j);
                        all.lemma_filter_contains(pred, j);
                    }
                }
                let name = self.names[i].clone();
                assert(self.members()[i as int] == name@);
                assert(self.first_without_candidates(i as int));
                return Err(SantaError::EmptyCandidatePool(name));
            }
            proof {
                all.lemma_filter_pred(pred, 0);
                assert(pred(row@[0]));
                assert(self.candidate(i as int, row@[0] as int));
            }
            pools.push(row);
            i = i + 1;
        }
        Ok(SantaMatcher::new(self, pools))
    }

    /// Adds `name` to the members, where it is not one of them yet.
    fn insert_name(&mut self, name: String)
        requires
            old(self).wf(),
        ensures
            final(self).wf(),
            final(self).members() == (if old(self).members().contains(name@) {
                old(self).members()
            } else {
                old(self).members().push(name@)
            }),
            final(self).exception_keys == old(self).exception_keys,
            final(self).exception_lists == old(self).exception_lists,
    {
        match position_of(&self.names, &name) {
            None => {
                self.names.push(name);
                assert(self.members() =~= old(self).members().push(name@));
            },
            Some(k) => {
                assert(self.members()[k as int] == name@);
            },
        }
    }

    /// Makes `list` the exclusion list of `key`, in place of any earlier one.
    fn put_exceptions(&mut self, key: String, list: Vec<String>)
        requires
            old(self).wf(),
        ensures
            final(self).wf(),
            final(self).names == old(self).names,
            forall|a: Seq<char>, b: Seq<char>|
                #[trigger] final(self).excludes(a, b) == if a == key@ {
                    views_of(list@).contains(b)
                } else {
                    old(self).excludes(a, b)
                },
    {
        let ghost keys = self.exception_keys@;
        let ghost lists = self.exception_lists@;
        let ghost new_list = list@;
        match position_of(&self.exception_keys, &key) {
            Some(k) => {
                self.exception_lists[k] = list;
                assert forall|a: Seq<char>, b: Seq<char>|
                    #[trigger] self.excludes(a, b) == if a == key@ {
                        views_of(new_list).contains(b)
                    } else {
                        old(self).excludes(a, b)
                    } by {
                    if self.excludes(a, b) {
                        let j = choose|j: int|
                            0 <= j < self.exception_keys@.len() && #[trigger] self.exception_keys@[j]@ == a
                                && views_of(self.exception_lists@[j]@).contains(b);
                        if a == key@ {
                            assert(views_of(keys)[j] == views_of(keys)[k as int]);
                        } else {
                            assert(j != k);
                        }
                    }
                    if a == key@ && views_of(new_list).contains(b) {
                        assert(self.exception_keys@[k as int]@ == a);
                    }
                    if a != key@ && old(self).excludes(a, b) {
                        let j = choose|j: int|
                            0 <= j < keys.len() && #[trigger] keys[j]@ == a
                                && views_of(lists[j]@).contains(b);
                        assert(j != k);
                        assert(self.exception_keys@[j]@ == a);
                    }
                }
            },
            None => {
                self.exception_keys.push(key);
                self.exception_lists.push(list);
                assert(views_of(self.exception_keys@) =~= views_of(keys).push(key@));
                let ghost n = keys.len() as int;
                assert forall|a: Seq<char>, b: Seq<char>|
                    #[trigger] self.excludes(a, b) == if a == key@ {
                        views_of(new_list).contains(b)
                    } else {
                        old(self).excludes(a, b)
                    } by {
                    if self.excludes(a, b) {
                        let j = choose|j: int|
                            0 <= j < self.exception_keys@.len() && #[trigger] self.exception_keys@[j]@ == a
                                && views_of(self.exception_lists@[j]@).contains(b);
                        if j < n {
                            assert(keys[j]@ == a);
                            assert(views_of(keys)[j] == a);
                            assert(a != key@);
                        }
                    }
                    if a == key@ && views_of(new_list).contains(b) {
                        assert(self.exception_keys@[n]@ == a);
                    }
                    if a != key@ && old(self).excludes(a, b) {
                        let j = choose|j: int|
                            0 <= j < keys.len() && #[trigger] keys[j]@ == a
                                && views_of(lists[j]@).contains(b);
                        assert(self.exception_keys@[j]@ == a);
                    }
                }
            },
        }
    }

    /// Sets the members to `names`, each taken once, in order of first occurrence.
    pub fn set_names(&mut self, names: &[&str]) -> (r: &mut Self)
        requires
            old(self).wf(),
        ensures
            r.wf(),
            r.members() == distinct_of(str_views(names@)),
            forall|a: Seq<char>, b: Seq<char>| #[trigger] r.excludes(a, b) == old(self).excludes(a, b),
            *final(self) == *final(r),
    {
        let mut v: Vec<String> = Vec::new();
        let mut i: usize = 0;
        while i < names.len()
            invariant
                i <= names@.len(),
                views_of(v@) == distinct_of(str_views(names@).take(i as int)),
                views_of(v@).no_duplicates(),
            decreases names@.len() - i,
        {
            let x: String = names[i].to_owned();
            let ghost before = views_of(v@);
            let ghost t = str_views(names@).take(i + 1);
            assert(t.drop_last() =~= str_views(names@).take(i as int));
            assert(t.last() == x@);
            match position_of(&v, &x) {
                None => {
                    v.push(x);
                    assert(views_of(v@) =~= before.push(x@));
                },
                Some(k) => {
                    assert(before[k as int] == x@);
                },
            }
            i = i + 1;
        }
        assert(str_views(names@).take(i as int) =~= str_views(names@));
        self.names = v;
        assert forall|a: Seq<char>, b: Seq<char>| #[trigger] self.excludes(a, b) == old(self).excludes(a, b) by {
            assert(self.exception_keys == old(self).exception_keys);
            assert(self.exception_lists == old(self).exception_lists);
        }
        self
    }

    /// Sets the exclusion list of `name`, in place of any earlier one.
    pub fn set_exceptions_for_name(&mut self, name: &str, exceptions: &[&str]) -> (r: &mut Self)
        requires
            old(self).wf(),
        ensures
            r.wf(),
            r.members() == old(self).members(),
            forall|a: Seq<char>, b: Seq<char>|
                #[trigger] r.excludes(a, b) == if a == name@ {
                    str_views(exceptions@).contains(b)
                } else {
                    old(self).excludes(a, b)
                },
            *final(self) == *final(r),
    {
        let list = owned_all(exceptions);
        self.put_exceptions(name.to_owned(), list);
        self
    }

    /// Adds `name` to the members, where it is not one of them yet.
    pub fn add_name(&mut self, name: &str) -> (r: &mut Self)
        requires
            old(self).wf(),
        ensures
            r.wf(),
            r.members() == (if old(self).members().contains(name@) {
                old(self).members()
            } else {
                old(self).members().push(name@)
            }),
            forall|a: Seq<char>, b: Seq<char>| #[trigger] r.excludes(a, b) == old(self).excludes(a, b),
            *final(self) == *final(r),
    {
        self.insert_name(name.to_owned());
        self
    }

    /// Adds `name` to the members, where it is not one of them yet, and sets
    /// its exclusion list.
    pub fn add_name_with_exceptions(&mut self, name: &str, exceptions: &[&str]) -> (r: &mut Self)
        requires
            old(self).wf(),
        ensures
            r.wf(),
            r.members() == (if old(self).members().contains(name@) {
                old(self).members()
            } else {
                old(self).members().push(name@)
            }),
            forall|a: Seq<char>, b: Seq<char>|
                #[trigger] r.excludes(a, b) == if a == name@ {
                    str_views(exceptions@).contains(b)
                } else {
                    old(self).excludes(a, b)
                },
            *final(self) == *final(r),
    {
        self.insert_name(name.to_owned());
        let list = owned_all(exceptions);
        self.put_exceptions(name.to_owned(), list);
        self
    }
}

} // verus!
