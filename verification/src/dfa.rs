use vstd::prelude::*;

use std::collections::VecDeque;

use crate::automata::{AutomataComponent, AutomataLabel, AutomataState};
use crate::graph::{EdgeIndex, Graph, NodeIndex};
use crate::nfa::{labels_wf, nfa_triples};
use crate::postfixer::no_dup_chars;

verus! {

// ---------------------------------------------------------------------------
// DFA state keys: canonical sorted sets of NFA node indices.
// ---------------------------------------------------------------------------
/// The set of integers a sorted index sequence holds.
pub open spec fn set_of_indices(s: Seq<usize>) -> Set<int> {
    Set::new(|x: int| exists|k: int| 0 <= k < s.len() && (#[trigger] s[k]) as int == x)
}

/// A strictly ascending sequence: each element exceeds its predecessor.
pub open spec fn strictly_sorted(s: Seq<usize>) -> bool {
    forall|k: int| 0 <= k && k + 1 < s.len() ==> (#[trigger] s[k]) < s[k + 1]
}

/// A set of NFA states, kept as a strictly sorted vector of indices so
/// that equal sets have equal representations and can serve as keys.
pub struct DfaStateKey {
    pub items: Vec<NodeIndex>,
}

proof fn lemma_sorted_pair(s: Seq<usize>, i: int, j: int)
    requires
        strictly_sorted(s),
        0 <= i < j < s.len(),
    ensures
        s[i] < s[j],
    decreases j - i,
{
    if j == i + 1 {
    } else {
        lemma_sorted_pair(s, i, j - 1);
    }
}

/// Two strictly sorted sequences holding the same set are equal.
#[verifier::rlimit(100)]
proof fn lemma_sorted_canonical(x: Seq<usize>, y: Seq<usize>)
    requires
        strictly_sorted(x),
        strictly_sorted(y),
        set_of_indices(x) == set_of_indices(y),
    ensures
        x == y,
    decreases x.len(),
{
    if x.len() == 0 {
        if y.len() > 0 {
            assert(set_of_indices(y).contains(y[0] as int));
            assert(false);
        }
        assert(x =~= y);
    } else {
        assert(set_of_indices(x).contains(x[0] as int));
        assert(set_of_indices(y).contains(x[0] as int));
        if y.len() == 0 {
            assert(false);
        }
        let ky = choose|k: int| 0 <= k < y.len() && (#[trigger] y[k]) as int == x[0] as int;
        if ky > 0 {
            lemma_sorted_pair(y, 0, ky);
        }
        assert(set_of_indices(y).contains(y[0] as int));
        assert(set_of_indices(x).contains(y[0] as int));
        let kx = choose|k: int| 0 <= k < x.len() && (#[trigger] x[k]) as int == y[0] as int;
        if kx > 0 {
            lemma_sorted_pair(x, 0, kx);
        }
        assert(x[0] == y[0]);
        let xt = x.drop_first();
        let yt = y.drop_first();
        assert(strictly_sorted(xt)) by {
            assert(forall|k: int|
                0 <= k && k + 1 < xt.len() ==> (#[trigger] xt[k]) == x[k + 1] && xt[k + 1] == x[k
                    + 2]);
        }
        assert(strictly_sorted(yt)) by {
            assert(forall|k: int|
                0 <= k && k + 1 < yt.len() ==> (#[trigger] yt[k]) == y[k + 1] && yt[k + 1] == y[k
                    + 2]);
        }
        assert(set_of_indices(xt) =~= set_of_indices(yt)) by {
            assert forall|v: int| set_of_indices(xt).contains(v) implies set_of_indices(
                yt,
            ).contains(v) by {
                let k = choose|k: int| 0 <= k < xt.len() && (#[trigger] xt[k]) as int == v;
                assert(x[k + 1] as int == v);
                lemma_sorted_pair(x, 0, k + 1);
                assert(set_of_indices(x).contains(v));
                let j = choose|j: int| 0 <= j < y.len() && (#[trigger] y[j]) as int == v;
                assert(j != 0);
                assert(yt[j - 1] as int == v);
            }
            assert forall|v: int| set_of_indices(yt).contains(v) implies set_of_indices(
                xt,
            ).contains(v) by {
                let k = choose|k: int| 0 <= k < yt.len() && (#[trigger] yt[k]) as int == v;
                assert(y[k + 1] as int == v);
                lemma_sorted_pair(y, 0, k + 1);
                assert(set_of_indices(y).contains(v));
                let j = choose|j: int| 0 <= j < x.len() && (#[trigger] x[j]) as int == v;
                assert(j != 0);
                assert(xt[j - 1] as int == v);
            }
        }
        lemma_sorted_canonical(xt, yt);
        assert(x =~= y) by {
            assert(forall|k: int| 1 <= k < x.len() ==> #[trigger] x[k] == xt[k - 1]);
            assert(forall|k: int| 1 <= k < y.len() ==> #[trigger] y[k] == yt[k - 1]);
        }
    }
}

impl DfaStateKey {
    pub open spec fn wf(self) -> bool {
        strictly_sorted(self.items@)
    }

    pub open spec fn key_set(self) -> Set<int> {
        set_of_indices(self.items@)
    }

    /// All held indices lie below the bound.
    pub open spec fn in_range(self, bound: nat) -> bool {
        forall|k: int| 0 <= k < self.items@.len() ==> (#[trigger] self.items@[k]) < bound
    }

    pub fn new() -> (r: DfaStateKey)
        ensures
            r.wf(),
            r.key_set() == Set::<int>::empty(),
            r.items@.len() == 0,
    {
        let r = DfaStateKey { items: Vec::new() };
        proof {
            assert(r.key_set() =~= Set::<int>::empty());
        }
        r
    }

    pub fn singleton(n: NodeIndex) -> (r: DfaStateKey)
        ensures
            r.wf(),
            r.key_set() == Set::<int>::empty().insert(n as int),
            r.in_range(n as nat + 1),
    {
        let mut items: Vec<NodeIndex> = Vec::new();
        items.push(n);
        let r = DfaStateKey { items };
        proof {
            assert(r.items@[0] == n);
            assert(r.key_set() =~= Set::<int>::empty().insert(n as int));
        }
        r
    }

    pub fn is_empty(&self) -> (r: bool)
        ensures
            r == (self.items@.len() == 0),
            r == (self.key_set() == Set::<int>::empty()),
    {
        let e = self.items.len() == 0;
        proof {
            if e {
                assert(self.key_set() =~= Set::<int>::empty());
            } else {
                assert(self.key_set().contains(self.items@[0] as int));
                assert(self.key_set() != Set::<int>::empty());
            }
        }
        e
    }

    pub fn contains(&self, n: NodeIndex) -> (r: bool)
        ensures
            r == self.key_set().contains(n as int),
    {
        let mut k: usize = 0;
        while k < self.items.len()
            invariant
                k <= self.items@.len(),
                forall|j: int| 0 <= j < k ==> (#[trigger] self.items@[j]) != n,
            decreases self.items@.len() - k,
        {
            if self.items[k] == n {
                return true;
            }
            k = k + 1;
        }
        proof {
            assert(!self.key_set().contains(n as int));
        }
        false
    }

    /// Puts an index into the set, keeping the representation sorted.
    pub fn insert(&mut self, n: NodeIndex)
        requires
            old(self).wf(),
        ensures
            final(self).wf(),
            final(self).key_set() == old(self).key_set().insert(n as int),
            forall|b: nat| old(self).in_range(b) && n < b ==> final(self).in_range(b),
            !old(self).key_set().contains(n as int) ==> final(self).items@.len() == old(
                self,
            ).items@.len() + 1,
            old(self).key_set().contains(n as int) ==> final(self).items@.len() == old(
                self,
            ).items@.len(),
    {
        let mut pos: usize = 0;
        while pos < self.items.len() && self.items[pos] < n
            invariant
                old(self) == self,
                pos <= self.items@.len(),
                forall|j: int| 0 <= j < pos ==> (#[trigger] self.items@[j]) < n,
            decreases self.items@.len() - pos,
        {
            pos = pos + 1;
        }
        if pos < self.items.len() && self.items[pos] == n {
            proof {
                assert(self.key_set().contains(n as int));
                assert(final(self).key_set() =~= old(self).key_set().insert(n as int));
            }
            return ;
        }
        proof {
            if pos < self.items@.len() {
                assert(self.items@[pos as int] > n);
            }
            assert(!self.key_set().contains(n as int)) by {
                if self.key_set().contains(n as int) {
                    let k = choose|k: int|
                        0 <= k < self.items@.len() && (#[trigger] self.items@[k]) as int
                            == n as int;
                    if k < pos {
                        assert(self.items@[k] < n);
                    } else if k > pos {
                        lemma_sorted_pair(self.items@, pos as int, k);
                    }
                    assert(false);
                }
            }
        }
        self.items.insert(pos, n);
        proof {
            let s0 = old(self).items@;
            let s1 = self.items@;
            assert(s1 == s0.insert(pos as int, n));
            assert(strictly_sorted(s1)) by {
                assert(forall|j: int| 0 <= j < pos ==> #[trigger] s1[j] == s0[j]);
                assert(s1[pos as int] == n);
                assert(forall|j: int| pos < j < s1.len() ==> #[trigger] s1[j] == s0[j - 1]);
                assert forall|k: int| 0 <= k && k + 1 < s1.len() implies (#[trigger] s1[k]) < s1[k
                    + 1] by {
                    if k + 1 < pos {
                    } else if k + 1 == pos {
                    } else if k == pos {
                        assert(s1[k + 1] == s0[k]);
                        if k < s0.len() {
                            assert(s0[k] > n);
                        }
                    } else {
                    }
                }
            }
            assert(final(self).key_set() =~= old(self).key_set().insert(n as int)) by {
                assert(forall|j: int| 0 <= j < pos ==> #[trigger] s1[j] == s0[j]);
                assert(forall|j: int| pos < j < s1.len() ==> #[trigger] s1[j] == s0[j - 1]);
                assert forall|v: int| set_of_indices(s1).contains(v) implies old(
                    self,
                ).key_set().insert(n as int).contains(v) by {
                    let k = choose|k: int| 0 <= k < s1.len() && (#[trigger] s1[k]) as int == v;
                    if k < pos {
                        assert(s0[k] as int == v);
                    } else if k == pos {
                    } else {
                        assert(s0[k - 1] as int == v);
                    }
                }
                assert forall|v: int|
                    old(self).key_set().insert(n as int).contains(v) implies set_of_indices(
                    s1,
                ).contains(v) by {
                    if v == n as int {
                        assert(s1[pos as int] as int == v);
                    } else {
                        let k = choose|k: int| 0 <= k < s0.len() && (#[trigger] s0[k]) as int == v;
                        if k < pos {
                            assert(s1[k] as int == v);
                        } else {
                            assert(s1[k + 1] as int == v);
                        }
                    }
                }
            }
        }
    }

    /// Whether two keys denote the same set; representations are
    /// canonical, so this is representation equality.
    pub fn same_key(&self, other: &DfaStateKey) -> (r: bool)
        requires
            self.wf(),
            other.wf(),
        ensures
            r == (self.key_set() == other.key_set()),
    {
        if self.items.len() != other.items.len() {
            proof {
                if self.key_set() == other.key_set() {
                    lemma_sorted_canonical(self.items@, other.items@);
                }
            }
            return false;
        }
        let mut k: usize = 0;
        while k < self.items.len()
            invariant
                self.items@.len() == other.items@.len(),
                k <= self.items@.len(),
                forall|j: int| 0 <= j < k ==> (#[trigger] self.items@[j]) == other.items@[j],
                self.wf(),
                other.wf(),
            decreases self.items@.len() - k,
        {
            if self.items[k] != other.items[k] {
                proof {
                    if self.key_set() == other.key_set() {
                        lemma_sorted_canonical(self.items@, other.items@);
                    }
                }
                return false;
            }
            k = k + 1;
        }
        proof {
            assert(self.items@ =~= other.items@);
        }
        true
    }
}

impl Clone for DfaStateKey {
    fn clone(&self) -> (r: Self)
        ensures
            r.items@ == self.items@,
    {
        DfaStateKey { items: self.items.clone() }
    }
}

// ---------------------------------------------------------------------------
// Set-level semantics of the NFA: empty-transition closure and moves.
// ---------------------------------------------------------------------------
/// The consecutive entries of `p` are all empty transitions of `tr`.
pub open spec fn eps_path_ok(tr: Set<(int, Option<char>, int)>, p: Seq<int>) -> bool {
    forall|k: int|
        0 <= k < p.len() - 1 ==> tr.contains((#[trigger] p[k], None::<char>, p[k + 1]))
}

/// `b` is reachable from `a` through zero or more empty transitions.
pub open spec fn eps_reach(tr: Set<(int, Option<char>, int)>, a: int, b: int) -> bool {
    exists|p: Seq<int>| #[trigger]
        eps_path_ok(tr, p) && p.len() >= 1 && p[0] == a && p.last() == b
}

/// The empty-transition closure of a set of states.
#[verifier::opaque]
pub open spec fn closure(tr: Set<(int, Option<char>, int)>, s: Set<int>) -> Set<int> {
    Set::new(|b: int| exists|a: int| #[trigger] s.contains(a) && eps_reach(tr, a, b))
}

/// The states reached from `s` by one transition on the character `c`.
pub open spec fn move_set(tr: Set<(int, Option<char>, int)>, s: Set<int>, c: char) -> Set<int> {
    Set::new(|b: int| exists|a: int| #[trigger] s.contains(a) && tr.contains((a, Some(c), b)))
}

pub proof fn lemma_eps_reach_refl(tr: Set<(int, Option<char>, int)>, a: int)
    ensures
        eps_reach(tr, a, a),
{
    let p = seq![a];
    assert(eps_path_ok(tr, p) && p.len() >= 1 && p[0] == a && p.last() == a);
}

#[verifier::rlimit(100)]
#[verifier::spinoff_prover]
pub proof fn lemma_eps_reach_trans(tr: Set<(int, Option<char>, int)>, a: int, b: int, c: int)
    requires
        eps_reach(tr, a, b),
        eps_reach(tr, b, c),
    ensures
        eps_reach(tr, a, c),
{
    let p1 = choose|p: Seq<int>| #[trigger]
        eps_path_ok(tr, p) && p.len() >= 1 && p[0] == a && p.last() == b;
    let p2 = choose|p: Seq<int>| #[trigger]
        eps_path_ok(tr, p) && p.len() >= 1 && p[0] == b && p.last() == c;
    if p2.len() == 1 {
        assert(b == c);
        assert(eps_path_ok(tr, p1) && p1.len() >= 1 && p1[0] == a && p1.last() == c);
    } else {
        let p = p1 + p2.drop_first();
        assert(p.len() >= 1);
        assert(p[0] == a);
        assert(eps_path_ok(tr, p)) by {
            assert forall|k: int| 0 <= k < p.len() - 1 implies tr.contains(
                (#[trigger] p[k], None::<char>, p[k + 1]),
            ) by {
                if k < p1.len() - 1 {
                    assert(p[k] == p1[k] && p[k + 1] == p1[k + 1]);
                } else if k == p1.len() - 1 {
                    assert(p[k] == p1.last() && p[k + 1] == p2.drop_first()[0]);
                    assert(p2.drop_first()[0] == p2[1]);
                    assert(tr.contains((p2[0], None::<char>, p2[1])));
                } else {
                    assert(p[k] == p2.drop_first()[k - p1.len()]);
                    assert(p2.drop_first()[k - p1.len()] == p2[k - p1.len() + 1]);
                    assert(p[k + 1] == p2.drop_first()[k + 1 - p1.len()]);
                    assert(p2.drop_first()[k + 1 - p1.len()] == p2[k - p1.len() + 2]);
                }
            }
        }
        assert(p.last() == p2.drop_first().last());
        assert(p2.drop_first().last() == p2.last());
        assert(eps_path_ok(tr, p) && p.len() >= 1 && p[0] == a && p.last() == c);
    }
}

/// The empty closure grows its argument.
pub proof fn lemma_closure_grows(tr: Set<(int, Option<char>, int)>, s: Set<int>)
    ensures
        s.subset_of(closure(tr, s)),
{
    reveal(closure);
    assert forall|x: int| s.contains(x) implies closure(tr, s).contains(x) by {
        lemma_eps_reach_refl(tr, x);
    }
}

/// The empty closure is idempotent: closing a closed set adds nothing.
#[verifier::rlimit(100)]
pub proof fn lemma_closure_idempotent(tr: Set<(int, Option<char>, int)>, s: Set<int>)
    ensures
        closure(tr, closure(tr, s)) == closure(tr, s),
{
    reveal(closure);
    assert forall|x: int| closure(tr, s).contains(x) implies closure(tr, closure(tr, s)).contains(
        x,
    ) by {
        lemma_eps_reach_refl(tr, x);
        assert(closure(tr, s).contains(x) && eps_reach(tr, x, x));
    }
    assert forall|x: int| closure(tr, closure(tr, s)).contains(x) implies closure(tr, s).contains(
        x,
    ) by {
        let b = choose|b: int| #[trigger] closure(tr, s).contains(b) && eps_reach(tr, b, x);
        let a = choose|a: int| #[trigger] s.contains(a) && eps_reach(tr, a, b);
        lemma_eps_reach_trans(tr, a, b, x);
        assert(s.contains(a) && eps_reach(tr, a, x));
    }
    assert(closure(tr, closure(tr, s)) =~= closure(tr, s));
}

/// The closure of the empty set is empty.
pub proof fn lemma_closure_empty(tr: Set<(int, Option<char>, int)>)
    ensures
        closure(tr, Set::<int>::empty()) == Set::<int>::empty(),
{
    reveal(closure);
    assert(closure(tr, Set::<int>::empty()) =~= Set::<int>::empty());
}

/// A set that contains `s` and is closed under single empty steps
/// contains the whole closure of `s`.
#[verifier::rlimit(100)]
proof fn lemma_path_stays_in_closed(
    tr: Set<(int, Option<char>, int)>,
    r: Set<int>,
    p: Seq<int>,
)
    requires
        forall|x: int, b: int|
            r.contains(x) && #[trigger] tr.contains((x, None::<char>, b)) ==> r.contains(b),
        eps_path_ok(tr, p),
        p.len() >= 1,
        r.contains(p[0]),
    ensures
        r.contains(p.last()),
    decreases p.len(),
{
    if p.len() == 1 {
    } else {
        assert(tr.contains((p[0], None::<char>, p[1])));
        let p2 = p.drop_first();
        assert(eps_path_ok(tr, p2)) by {
            assert(forall|k: int|
                0 <= k < p2.len() - 1 ==> #[trigger] p2[k] == p[k + 1] && p2[k + 1] == p[k + 2]);
        }
        lemma_path_stays_in_closed(tr, r, p2);
    }
}

/// A strictly ascending sequence of indices below `bound` cannot be
/// longer than `bound`.
proof fn lemma_sorted_index_floor(s: Seq<usize>, k: int)
    requires
        strictly_sorted(s),
        0 <= k < s.len(),
    ensures
        s[k] as int >= k,
    decreases k,
{
    if k > 0 {
        lemma_sorted_index_floor(s, k - 1);
    }
}

proof fn lemma_sorted_len_bound(s: Seq<usize>, bound: nat)
    requires
        strictly_sorted(s),
        forall|k: int| 0 <= k < s.len() ==> (#[trigger] s[k]) < bound,
    ensures
        s.len() <= bound,
{
    if s.len() > 0 {
        lemma_sorted_index_floor(s, s.len() - 1);
    }
}

fn vec_contains_index(v: &Vec<NodeIndex>, n: NodeIndex) -> (r: bool)
    ensures
        r == set_of_indices(v@).contains(n as int),
{
    let mut k: usize = 0;
    while k < v.len()
        invariant
            k <= v@.len(),
            forall|j: int| 0 <= j < k ==> (#[trigger] v@[j]) != n,
        decreases v@.len() - k,
    {
        if v[k] == n {
            proof {
                assert(v@[k as int] as int == n as int);
            }
            return true;
        }
        k = k + 1;
    }
    proof {
        assert(!set_of_indices(v@).contains(n as int));
    }
    false
}

proof fn lemma_stack_set_after_pop(stack0: Seq<usize>, stack1: Seq<usize>, rset: Set<int>, cur: usize)
    requires
        stack0.len() > 0,
        stack1 == stack0.drop_last(),
        stack0[stack0.len() - 1] == cur,
    ensures
        forall|x: int|
            set_of_indices(stack0).contains(x) ==> rset.insert(cur as int).contains(x)
                || set_of_indices(stack1).contains(x),
{
    assert forall|x: int|
        set_of_indices(stack0).contains(x) implies rset.insert(cur as int).contains(x)
        || set_of_indices(stack1).contains(x) by {
        let k = choose|k: int| 0 <= k < stack0.len() && (#[trigger] stack0[k]) as int == x;
        if k < stack0.len() - 1 {
            assert(stack1[k] as int == x);
        }
    }
}

proof fn lemma_stack_set_extends(s0: Seq<usize>, s1: Seq<usize>)
    requires
        s1.len() >= s0.len(),
        forall|k: int| 0 <= k < s0.len() ==> #[trigger] s1[k] == s0[k],
    ensures
        forall|x: int| set_of_indices(s0).contains(x) ==> set_of_indices(s1).contains(x),
{
    assert forall|x: int|
        set_of_indices(s0).contains(x) implies set_of_indices(s1).contains(x) by {
        let k = choose|k: int| 0 <= k < s0.len() && (#[trigger] s0[k]) as int == x;
        assert(s1[k] as int == x);
    }
}

/// New entries on the visit stack stay inside the closure: each is one
/// empty step from a state already known to be in it.
proof fn lemma_new_entries_in_closure(
    tr: Set<(int, Option<char>, int)>,
    fset: Set<int>,
    cur: usize,
    s0: Seq<usize>,
    s1: Seq<usize>,
)
    requires
        closure(tr, fset).contains(cur as int),
        s1.len() >= s0.len(),
        forall|k: int| 0 <= k < s0.len() ==> #[trigger] s1[k] == s0[k],
        forall|k: int|
            0 <= k < s0.len() ==> closure(tr, fset).contains((#[trigger] s0[k]) as int),
        forall|k: int|
            s0.len() <= k < s1.len() ==> tr.contains(
                (cur as int, None::<char>, (#[trigger] s1[k]) as int),
            ),
    ensures
        forall|k: int|
            0 <= k < s1.len() ==> closure(tr, fset).contains((#[trigger] s1[k]) as int),
{
    reveal(closure);
    assert forall|k: int|
        0 <= k < s1.len() implies closure(tr, fset).contains((#[trigger] s1[k]) as int) by {
        if k >= s0.len() {
            let b = s1[k] as int;
            assert(tr.contains((cur as int, None::<char>, b)));
            let a = choose|a: int| #[trigger] fset.contains(a) && eps_reach(tr, a, cur as int);
            let step_path = seq![cur as int, b];
            assert(eps_path_ok(tr, step_path) && step_path.len() >= 1 && step_path[0]
                == cur as int && step_path.last() == b);
            lemma_eps_reach_trans(tr, a, cur as int, b);
            assert(fset.contains(a) && eps_reach(tr, a, b));
        } else {
            assert(s1[k] == s0[k]);
        }
    }
}

proof fn lemma_sorted_distinct(s: Seq<usize>)
    requires
        strictly_sorted(s),
    ensures
        forall|k1: int, k2: int| 0 <= k1 < k2 < s.len() ==> s[k1] != s[k2],
{
    assert forall|k1: int, k2: int| 0 <= k1 < k2 < s.len() implies s[k1] != s[k2] by {
        lemma_sorted_pair(s, k1, k2);
    }
}

proof fn lemma_seq_elems_in_own_set(s: Seq<usize>)
    ensures
        forall|k: int| 0 <= k < s.len() ==> set_of_indices(s).contains((#[trigger] s[k]) as int),
{
    assert forall|k: int|
        0 <= k < s.len() implies set_of_indices(s).contains((#[trigger] s[k]) as int) by {
        assert(s[k] as int == s[k] as int);
    }
}

proof fn lemma_empty_stack_set(s: Seq<usize>)
    requires
        s.len() == 0,
    ensures
        forall|x: int| !set_of_indices(s).contains(x),
{
    assert forall|x: int| !set_of_indices(s).contains(x) by {
        if set_of_indices(s).contains(x) {
            let k = choose|k: int| 0 <= k < s.len() && (#[trigger] s[k]) as int == x;
        }
    }
}

/// A settled set that contains the sources and is closed under single
/// empty steps contains the whole closure of the sources.
proof fn lemma_closure_within_settled(
    tr: Set<(int, Option<char>, int)>,
    fset: Set<int>,
    rset: Set<int>,
)
    requires
        forall|x: int| fset.contains(x) ==> rset.contains(x),
        forall|x: int, b: int|
            rset.contains(x) && #[trigger] tr.contains((x, None::<char>, b)) ==> rset.contains(b),
    ensures
        forall|x: int| closure(tr, fset).contains(x) ==> rset.contains(x),
{
    reveal(closure);
    assert forall|x: int| closure(tr, fset).contains(x) implies rset.contains(x) by {
        let a = choose|a: int| #[trigger] fset.contains(a) && eps_reach(tr, a, x);
        let p = choose|p: Seq<int>| #[trigger]
            eps_path_ok(tr, p) && p.len() >= 1 && p[0] == a && p.last() == x;
        lemma_path_stays_in_closed(tr, rset, p);
    }
}

/// Pushes onto the visit stack every target of an empty transition
/// out of `current` that is neither settled nor already waiting.
fn collect_empty_targets(
    nfa: &Graph<AutomataState, AutomataLabel>,
    current: NodeIndex,
    result: &DfaStateKey,
    visit_stack: &mut Vec<NodeIndex>,
)
    requires
        nfa.wf(),
        labels_wf(*nfa),
        current < nfa.node_cnt(),
        forall|k: int| 0 <= k < old(visit_stack)@.len() ==> (#[trigger] old(visit_stack)@[k]) < nfa.node_cnt(),
        forall|k1: int, k2: int|
            0 <= k1 < k2 < old(visit_stack)@.len() ==> old(visit_stack)@[k1] != old(visit_stack)@[k2],
        forall|k: int|
            0 <= k < old(visit_stack)@.len() ==> !result.key_set().contains(
                (#[trigger] old(visit_stack)@[k]) as int,
            ),
    ensures
        final(visit_stack)@.len() >= old(visit_stack)@.len(),
        forall|k: int|
            0 <= k < old(visit_stack)@.len() ==> #[trigger] final(visit_stack)@[k]
                == old(visit_stack)@[k],
        forall|k: int|
            old(visit_stack)@.len() <= k < final(visit_stack)@.len() ==> nfa_triples(
                *nfa,
            ).contains((current as int, None::<char>, (#[trigger] final(visit_stack)@[k]) as int)),
        forall|k: int| 0 <= k < final(visit_stack)@.len() ==> (#[trigger] final(visit_stack)@[k]) < nfa.node_cnt(),
        forall|k1: int, k2: int|
            0 <= k1 < k2 < final(visit_stack)@.len() ==> final(visit_stack)@[k1]
                != final(visit_stack)@[k2],
        forall|k: int|
            0 <= k < final(visit_stack)@.len() ==> !result.key_set().contains(
                (#[trigger] final(visit_stack)@[k]) as int,
            ),
        forall|b: int|
            #[trigger] nfa_triples(*nfa).contains((current as int, None::<char>, b))
                ==> result.key_set().contains(b) || set_of_indices(final(visit_stack)@).contains(b),
{
    let ghost tr = nfa_triples(*nfa);
    let outgoing_edges = match nfa.outgoing_edges(current) {
        Ok(v) => v,
        Err(_) => {
            proof {
                assert(false);
            }
            Vec::new()
        },
    };
    let ghost chain = nfa.out_chain(current as int);
    let mut j: usize = 0;
    while j < outgoing_edges.len()
        invariant
            nfa.wf(),
            labels_wf(*nfa),
            tr == nfa_triples(*nfa),
            current < nfa.node_cnt(),
            chain == nfa.out_chain(current as int),
            outgoing_edges@ == chain,
            forall|k: int| 0 <= k < chain.len() ==> (#[trigger] chain[k]) < nfa.edge_cnt(),
            j <= chain.len(),
            visit_stack@.len() >= old(visit_stack)@.len(),
            forall|k: int|
                0 <= k < old(visit_stack)@.len() ==> #[trigger] visit_stack@[k]
                    == old(visit_stack)@[k],
            forall|k: int|
                old(visit_stack)@.len() <= k < visit_stack@.len() ==> tr.contains(
                    (current as int, None::<char>, (#[trigger] visit_stack@[k]) as int),
                ),
            forall|k: int| 0 <= k < visit_stack@.len() ==> (#[trigger] visit_stack@[k]) < nfa.node_cnt(),
            forall|k1: int, k2: int|
                0 <= k1 < k2 < visit_stack@.len() ==> visit_stack@[k1] != visit_stack@[k2],
            forall|k: int|
                0 <= k < visit_stack@.len() ==> !result.key_set().contains(
                    (#[trigger] visit_stack@[k]) as int,
                ),
            forall|k: int|
                0 <= k < j && (#[trigger] nfa.edges@[chain[k] as int].data).label is None
                    ==> result.key_set().contains(nfa.edges@[chain[k] as int].target as int)
                    || set_of_indices(visit_stack@).contains(
                    nfa.edges@[chain[k] as int].target as int,
                ),
        decreases chain.len() - j,
    {
        let edge = outgoing_edges[j];
        let data = *nfa.get_edge_data(edge);
        if data.is_empty() {
            let next = match nfa.traverse(edge) {
                Ok(t) => t,
                Err(_) => {
                    proof {
                        assert(false);
                    }
                    0
                },
            };
            proof {
                reveal(nfa_triples);
                assert(data.label is None);
                assert(nfa.has_labeled_edge(current as int, data, next as int)) by {
                    assert(nfa.out_chain(current as int)[j as int] == edge);
                }
                assert(tr.contains((current as int, None::<char>, next as int)));
            }
            let in_result = result.contains(next);
            let in_stack = vec_contains_index(&visit_stack, next);
            if !in_result && !in_stack {
                let ghost stack_mid = visit_stack@;
                visit_stack.push(next);
                proof {
                    assert forall|x: int|
                        set_of_indices(stack_mid).contains(x) implies set_of_indices(
                        visit_stack@,
                    ).contains(x) by {
                        let k = choose|k: int|
                            0 <= k < stack_mid.len() && (#[trigger] stack_mid[k]) as int == x;
                        assert(visit_stack@[k] as int == x);
                    }
                    assert(set_of_indices(visit_stack@).contains(next as int)) by {
                        assert(visit_stack@[visit_stack@.len() - 1] as int == next as int);
                    }
                }
            } else {
                proof {
                    if in_stack {
                        assert(set_of_indices(visit_stack@).contains(next as int));
                    }
                }
            }
        }
        j = j + 1;
    }
    proof {
        reveal(nfa_triples);
        assert forall|b: int|
            #[trigger] tr.contains((current as int, None::<char>, b)) implies result.key_set().contains(
            b,
        ) || set_of_indices(visit_stack@).contains(b) by {
            let lab = choose|lab: AutomataLabel| #[trigger]
                nfa.has_labeled_edge(current as int, lab, b) && lab.label == None::<char>;
            let k = choose|k: int|
                0 <= k < nfa.out_chain(current as int).len() && (#[trigger] nfa.out_chain(
                    current as int,
                )[k]) < nfa.edge_cnt() && nfa.edges@[nfa.out_chain(current as int)[k] as int].data
                    == lab && nfa.edges@[nfa.out_chain(current as int)[k] as int].target == b;
            assert(chain[k] == nfa.out_chain(current as int)[k]);
            assert(nfa.edges@[chain[k] as int].data.label is None);
        }
    }
}

/// The set of NFA states reachable from `from` through empty
/// transitions alone, computed by a depth-first search.
#[verifier::rlimit(100)]
#[verifier::spinoff_prover]
pub fn empty_closure(nfa: &Graph<AutomataState, AutomataLabel>, from: &DfaStateKey) -> (r:
    DfaStateKey)
    requires
        nfa.wf(),
        labels_wf(*nfa),
        from.wf(),
        from.in_range(nfa.node_cnt()),
    ensures
        r.wf(),
        r.key_set() == closure(nfa_triples(*nfa), from.key_set()),
        r.in_range(nfa.node_cnt()),
{
    let ghost tr = nfa_triples(*nfa);
    let ghost fset = from.key_set();
    let mut result = DfaStateKey::new();
    let mut visit_stack: Vec<NodeIndex> = Vec::new();
    let mut i: usize = 0;
    while i < from.items.len()
        invariant
            i <= from.items@.len(),
            visit_stack@ == from.items@.take(i as int),
        decreases from.items@.len() - i,
    {
        visit_stack.push(from.items[i]);
        i = i + 1;
    }
    proof {
        assert(visit_stack@ == from.items@);
        lemma_sorted_distinct(from.items@);
        lemma_seq_elems_in_own_set(from.items@);
        lemma_closure_grows(tr, fset);
    }
    while visit_stack.len() > 0
        invariant
            nfa.wf(),
            labels_wf(*nfa),
            tr == nfa_triples(*nfa),
            fset == from.key_set(),
            result.wf(),
            result.in_range(nfa.node_cnt()),
            forall|k: int|
                0 <= k < visit_stack@.len() ==> (#[trigger] visit_stack@[k]) < nfa.node_cnt(),
            // nothing on the stack is already settled, and nothing repeats
            forall|k: int|
                0 <= k < visit_stack@.len() ==> !result.key_set().contains(
                    (#[trigger] visit_stack@[k]) as int,
                ),
            forall|k1: int, k2: int|
                0 <= k1 < k2 < visit_stack@.len() ==> visit_stack@[k1] != visit_stack@[k2],
            // everything seen so far really is in the closure
            forall|x: int| result.key_set().contains(x) ==> closure(tr, fset).contains(x),
            forall|k: int|
                0 <= k < visit_stack@.len() ==> closure(tr, fset).contains(
                    (#[trigger] visit_stack@[k]) as int,
                ),
            // the sources are all seen
            forall|x: int|
                fset.contains(x) ==> result.key_set().contains(x) || set_of_indices(
                    visit_stack@,
                ).contains(x),
            // settled states have their empty successors seen
            forall|x: int, b: int|
                result.key_set().contains(x) && #[trigger] tr.contains((x, None::<char>, b))
                    ==> result.key_set().contains(b) || set_of_indices(visit_stack@).contains(b),
        decreases nfa.node_cnt() - result.items@.len(), visit_stack@.len(),
    {
        let ghost stack_before = visit_stack@;
        let current = visit_stack.pop().unwrap();
        proof {
            lemma_sorted_len_bound(result.items@, nfa.node_cnt());
            assert(!result.key_set().contains(current as int));
            lemma_stack_set_after_pop(stack_before, visit_stack@, result.key_set(), current);
        }
        result.insert(current);
        let ghost stack_in = visit_stack@;
        collect_empty_targets(nfa, current, &result, &mut visit_stack);
        proof {
            lemma_stack_set_extends(stack_in, visit_stack@);
            lemma_new_entries_in_closure(tr, fset, current, stack_in, visit_stack@);
            lemma_sorted_len_bound(result.items@, nfa.node_cnt());
        }
    }
    proof {
        lemma_empty_stack_set(visit_stack@);
        lemma_closure_within_settled(tr, fset, result.key_set());
        assert(result.key_set() =~= closure(tr, fset));
    }
    result
}

/// The NFA states reached from `from` by one transition labeled `c`.
#[verifier::rlimit(100)]
pub fn delta(nfa: &Graph<AutomataState, AutomataLabel>, from: &DfaStateKey, c: char) -> (r:
    DfaStateKey)
    requires
        nfa.wf(),
        labels_wf(*nfa),
        from.wf(),
        from.in_range(nfa.node_cnt()),
    ensures
        r.wf(),
        r.key_set() == move_set(nfa_triples(*nfa), from.key_set(), c),
        r.in_range(nfa.node_cnt()),
{
    let ghost tr = nfa_triples(*nfa);
    let ghost fset = from.key_set();
    let mut result = DfaStateKey::new();
    let mut i: usize = 0;
    while i < from.items.len()
        invariant
            nfa.wf(),
            labels_wf(*nfa),
            tr == nfa_triples(*nfa),
            fset == from.key_set(),
            from.wf(),
            from.in_range(nfa.node_cnt()),
            i <= from.items@.len(),
            result.wf(),
            result.in_range(nfa.node_cnt()),
            forall|x: int| result.key_set().contains(x) ==> move_set(tr, fset, c).contains(x),
            forall|ai: int, b: int|
                0 <= ai < i && #[trigger] tr.contains(
                    ((#[trigger] from.items@[ai]) as int, Some(c), b),
                ) ==> result.key_set().contains(b),
        decreases from.items@.len() - i,
    {
        let state = from.items[i];
        let outgoing_edges = match nfa.outgoing_edges(state) {
            Ok(v) => v,
            Err(_) => {
                proof {
                    assert(false);
                }
                Vec::new()
            },
        };
        let ghost chain = nfa.out_chain(state as int);
        let mut j: usize = 0;
        while j < outgoing_edges.len()
            invariant
                nfa.wf(),
                labels_wf(*nfa),
                tr == nfa_triples(*nfa),
                fset == from.key_set(),
                from.wf(),
                from.in_range(nfa.node_cnt()),
                i < from.items@.len(),
                state == from.items@[i as int],
                state < nfa.node_cnt(),
                chain == nfa.out_chain(state as int),
                outgoing_edges@ == chain,
                forall|k: int| 0 <= k < chain.len() ==> (#[trigger] chain[k]) < nfa.edge_cnt(),
                j <= chain.len(),
                result.wf(),
                result.in_range(nfa.node_cnt()),
                forall|x: int| result.key_set().contains(x) ==> move_set(tr, fset, c).contains(x),
                forall|ai: int, b: int|
                    0 <= ai < i && #[trigger] tr.contains(
                        ((#[trigger] from.items@[ai]) as int, Some(c), b),
                    ) ==> result.key_set().contains(b),
                forall|k: int|
                    0 <= k < j && (#[trigger] nfa.edges@[chain[k] as int].data).label == Some(c)
                        ==> result.key_set().contains(nfa.edges@[chain[k] as int].target as int),
            decreases chain.len() - j,
        {
            let edge = outgoing_edges[j];
            let data = *nfa.get_edge_data(edge);
            match data.get_label() {
                Ok(label) if label == c => {
                    let target = match nfa.traverse(edge) {
                        Ok(t) => t,
                        Err(_) => {
                            proof {
                                assert(false);
                            }
                            0
                        },
                    };
                    proof {
                        reveal(nfa_triples);
                        assert(nfa.has_labeled_edge(state as int, data, target as int)) by {
                            assert(nfa.out_chain(state as int)[j as int] == edge);
                        }
                        assert(tr.contains((state as int, Some(c), target as int)));
                        assert(move_set(tr, fset, c).contains(target as int)) by {
                            assert(fset.contains(state as int) && tr.contains(
                                (state as int, Some(c), target as int),
                            ));
                        }
                    }
                    result.insert(target);
                },
                _ => {
                    proof {
                        assert(data.label != Some(c));
                    }
                },
            }
            j = j + 1;
        }
        proof {
            reveal(nfa_triples);
            assert forall|ai: int, b: int|
                0 <= ai < i + 1 && #[trigger] tr.contains(
                    ((#[trigger] from.items@[ai]) as int, Some(c), b),
                ) implies result.key_set().contains(b) by {
                if ai == i {
                    let x = from.items@[ai] as int;
                    let lab = choose|lab: AutomataLabel| #[trigger]
                        nfa.has_labeled_edge(x, lab, b) && lab.label == Some(c);
                    let k = choose|k: int|
                        0 <= k < nfa.out_chain(x).len() && (#[trigger] nfa.out_chain(x)[k])
                            < nfa.edge_cnt() && nfa.edges@[nfa.out_chain(x)[k] as int].data == lab
                            && nfa.edges@[nfa.out_chain(x)[k] as int].target == b;
                    assert(chain[k] == nfa.out_chain(x)[k]);
                    assert(nfa.edges@[chain[k] as int].data.label == Some(c));
                }
            }
        }
        i = i + 1;
    }
    proof {
        assert forall|x: int| move_set(tr, fset, c).contains(x) implies result.key_set().contains(
            x,
        ) by {
            let a = choose|a: int| #[trigger] fset.contains(a) && tr.contains((a, Some(c), x));
            let ai = choose|k: int|
                0 <= k < from.items@.len() && (#[trigger] from.items@[k]) as int == a;
            assert(tr.contains((from.items@[ai] as int, Some(c), x)));
        }
        assert(result.key_set() =~= move_set(tr, fset, c));
    }
    result
}

// ---------------------------------------------------------------------------
// How many distinct state keys can exist: at most 2^n over n NFA nodes.
// This bounds the subset construction's work.
// ---------------------------------------------------------------------------
pub open spec fn two_pow(e: nat) -> nat
    decreases e,
{
    if e == 0 {
        1
    } else {
        2 * two_pow((e - 1) as nat)
    }
}

proof fn lemma_two_pow_pos(e: nat)
    ensures
        two_pow(e) >= 1,
    decreases e,
{
    if e > 0 {
        lemma_two_pow_pos((e - 1) as nat);
    }
}

proof fn lemma_two_pow_mono(a: nat, b: nat)
    requires
        a <= b,
    ensures
        two_pow(a) <= two_pow(b),
    decreases b,
{
    if a < b {
        lemma_two_pow_mono(a, (b - 1) as nat);
        lemma_two_pow_pos((b - 1) as nat);
    }
}

/// The characteristic number of a sorted key: the sum of one power of
/// two per held index.
pub open spec fn key_mask(s: Seq<usize>) -> nat
    decreases s.len(),
{
    if s.len() == 0 {
        0
    } else {
        two_pow(s[0] as nat) + key_mask(s.drop_first())
    }
}

proof fn lemma_mask_upper(s: Seq<usize>, lo: nat, n: nat)
    requires
        strictly_sorted(s),
        forall|k: int| 0 <= k < s.len() ==> lo <= (#[trigger] s[k]) < n,
        lo <= n,
    ensures
        key_mask(s) <= two_pow(n) - two_pow(lo),
    decreases s.len(),
{
    if s.len() == 0 {
        lemma_two_pow_mono(lo, n);
    } else {
        let s0 = s[0] as nat;
        let tail = s.drop_first();
        assert(strictly_sorted(tail)) by {
            assert(forall|k: int|
                0 <= k && k + 1 < tail.len() ==> (#[trigger] tail[k]) == s[k + 1] && tail[k + 1]
                    == s[k + 2]);
        }
        assert forall|k: int| 0 <= k < tail.len() implies s0 + 1 <= (#[trigger] tail[k]) < n by {
            assert(tail[k] == s[k + 1]);
            lemma_sorted_pair(s, 0, k + 1);
        }
        lemma_mask_upper(tail, s0 + 1, n);
        lemma_two_pow_mono(lo, s0);
        assert(two_pow(s0 + 1) == 2 * two_pow(s0));
    }
}

proof fn lemma_mask_lt(s: Seq<usize>, n: nat)
    requires
        strictly_sorted(s),
        forall|k: int| 0 <= k < s.len() ==> (#[trigger] s[k]) < n,
    ensures
        key_mask(s) < two_pow(n),
{
    lemma_two_pow_pos(n);
    if s.len() > 0 {
        lemma_mask_upper(s, 0, n);
        assert(two_pow(0) == 1);
    }
}

proof fn lemma_mask_last(s: Seq<usize>)
    requires
        s.len() > 0,
    ensures
        key_mask(s) == key_mask(s.drop_last()) + two_pow(s.last() as nat),
    decreases s.len(),
{
    if s.len() == 1 {
        assert(s.drop_last() =~= Seq::<usize>::empty());
        assert(s.drop_first() =~= Seq::<usize>::empty());
    } else {
        let tail = s.drop_first();
        lemma_mask_last(tail);
        assert(tail.last() == s.last());
        assert(tail.drop_last() =~= s.drop_last().drop_first());
        assert(s.drop_last().len() > 0);
        assert(s.drop_last()[0] == s[0]);
        assert(key_mask(s.drop_last()) == two_pow(s[0] as nat) + key_mask(
            s.drop_last().drop_first(),
        ));
    }
}

#[verifier::rlimit(100)]
#[verifier::spinoff_prover]
proof fn lemma_mask_injective(x: Seq<usize>, y: Seq<usize>, n: nat)
    requires
        strictly_sorted(x),
        strictly_sorted(y),
        forall|k: int| 0 <= k < x.len() ==> (#[trigger] x[k]) < n,
        forall|k: int| 0 <= k < y.len() ==> (#[trigger] y[k]) < n,
        key_mask(x) == key_mask(y),
    ensures
        x == y,
    decreases x.len(),
{
    if x.len() == 0 && y.len() == 0 {
        assert(x =~= y);
    } else if x.len() == 0 {
        lemma_two_pow_pos(y[0] as nat);
        assert(key_mask(y) >= 1);
        assert(false);
    } else if y.len() == 0 {
        lemma_two_pow_pos(x[0] as nat);
        assert(key_mask(x) >= 1);
        assert(false);
    } else {
        let lx = x.last();
        let ly = y.last();
        lemma_mask_last(x);
        lemma_mask_last(y);
        if lx < ly {
            assert forall|k: int| 0 <= k < x.len() implies (#[trigger] x[k]) < lx as nat + 1 by {
                if k < x.len() - 1 {
                    lemma_sorted_pair(x, k, x.len() - 1);
                }
            }
            lemma_mask_lt(x, lx as nat + 1);
            lemma_two_pow_mono(lx as nat + 1, ly as nat);
            assert(false);
        } else if ly < lx {
            assert forall|k: int| 0 <= k < y.len() implies (#[trigger] y[k]) < ly as nat + 1 by {
                if k < y.len() - 1 {
                    lemma_sorted_pair(y, k, y.len() - 1);
                }
            }
            lemma_mask_lt(y, ly as nat + 1);
            lemma_two_pow_mono(ly as nat + 1, lx as nat);
            assert(false);
        } else {
            let xp = x.drop_last();
            let yp = y.drop_last();
            assert(strictly_sorted(xp)) by {
                assert(forall|k: int|
                    0 <= k && k + 1 < xp.len() ==> (#[trigger] xp[k]) == x[k] && xp[k + 1] == x[k
                        + 1]);
            }
            assert(strictly_sorted(yp)) by {
                assert(forall|k: int|
                    0 <= k && k + 1 < yp.len() ==> (#[trigger] yp[k]) == y[k] && yp[k + 1] == y[k
                        + 1]);
            }
            assert(forall|k: int| 0 <= k < xp.len() ==> (#[trigger] xp[k]) == x[k]);
            assert(forall|k: int| 0 <= k < yp.len() ==> (#[trigger] yp[k]) == y[k]);
            lemma_mask_injective(xp, yp, n);
            assert(x =~= y) by {
                assert(x.len() == y.len());
                assert(forall|k: int| 0 <= k < x.len() - 1 ==> #[trigger] x[k] == xp[k]);
                assert(forall|k: int| 0 <= k < y.len() - 1 ==> #[trigger] y[k] == yp[k]);
                assert(x[x.len() - 1] == y[y.len() - 1]);
            }
        }
    }
}

/// A family of pairwise distinct state keys over `n` NFA nodes has at
/// most 2^n members.
proof fn lemma_states_bound(states: Seq<DfaStateKey>, n: nat)
    requires
        forall|k: int| 0 <= k < states.len() ==> (#[trigger] states[k]).wf(),
        forall|k: int| 0 <= k < states.len() ==> (#[trigger] states[k]).in_range(n),
        forall|k1: int, k2: int|
            0 <= k1 < k2 < states.len() ==> states[k1].key_set() != states[k2].key_set(),
    ensures
        states.len() <= two_pow(n),
{
    let masks = Seq::<int>::new(states.len(), |i: int| key_mask(states[i].items@) as int);
    assert(masks.no_duplicates()) by {
        assert forall|k1: int, k2: int|
            0 <= k1 < masks.len() && 0 <= k2 < masks.len() && k1 != k2 implies masks[k1]
            != masks[k2] by {
            if masks[k1] == masks[k2] {
                lemma_mask_injective(states[k1].items@, states[k2].items@, n);
                assert(states[k1].key_set() == states[k2].key_set());
            }
        }
    }
    masks.unique_seq_to_set();
    assert(masks.to_set().subset_of(vstd::set_lib::set_int_range(0, two_pow(n) as int))) by {
        assert forall|v: int| masks.to_set().contains(v) implies vstd::set_lib::set_int_range(
            0,
            two_pow(n) as int,
        ).contains(v) by {
            let k = choose|k: int| 0 <= k < masks.len() && masks[k] == v;
            lemma_mask_lt(states[k].items@, n);
        }
    }
    vstd::set_lib::lemma_int_range(0, two_pow(n) as int);
    vstd::set_lib::lemma_len_subset(
        masks.to_set(),
        vstd::set_lib::set_int_range(0, two_pow(n) as int),
    );
}

// ---------------------------------------------------------------------------
// Subset construction.
// ---------------------------------------------------------------------------
/// The characters of `alphabet`, in order, on which the state set `s`
/// can make a step: those whose move has a non-empty closure.
pub open spec fn avail_chars(
    tr: Set<(int, Option<char>, int)>,
    s: Set<int>,
    alphabet: Seq<char>,
) -> Seq<char>
    decreases alphabet.len(),
{
    if alphabet.len() == 0 {
        Seq::empty()
    } else {
        let rest = avail_chars(tr, s, alphabet.drop_first());
        if closure(tr, move_set(tr, s, alphabet[0])) != Set::<int>::empty() {
            seq![alphabet[0]] + rest
        } else {
            rest
        }
    }
}

proof fn lemma_avail_push(
    tr: Set<(int, Option<char>, int)>,
    s: Set<int>,
    p: Seq<char>,
    c: char,
)
    ensures
        avail_chars(tr, s, p.push(c)) == avail_chars(tr, s, p) + (if closure(
            tr,
            move_set(tr, s, c),
        ) != Set::<int>::empty() {
            seq![c]
        } else {
            Seq::<char>::empty()
        }),
    decreases p.len(),
{
    let q = p.push(c);
    if p.len() == 0 {
        assert(q[0] == c);
        assert(q.drop_first() =~= Seq::<char>::empty());
        assert(avail_chars(tr, s, q.drop_first()) == Seq::<char>::empty());
        assert(p =~= Seq::<char>::empty());
        assert(avail_chars(tr, s, p) == Seq::<char>::empty());
        if closure(tr, move_set(tr, s, c)) != Set::<int>::empty() {
            assert(avail_chars(tr, s, q) == seq![c] + avail_chars(tr, s, q.drop_first()));
            assert(avail_chars(tr, s, q) =~= avail_chars(tr, s, p) + seq![c]);
        } else {
            assert(avail_chars(tr, s, q) == avail_chars(tr, s, q.drop_first()));
            assert(avail_chars(tr, s, q) =~= avail_chars(tr, s, p) + Seq::<char>::empty());
        }
    } else {
        assert(q[0] == p[0]);
        assert(q.drop_first() =~= p.drop_first().push(c));
        lemma_avail_push(tr, s, p.drop_first(), c);
        if closure(tr, move_set(tr, s, p[0])) != Set::<int>::empty() {
            assert(avail_chars(tr, s, q) =~= avail_chars(tr, s, p) + (if closure(
                tr,
                move_set(tr, s, c),
            ) != Set::<int>::empty() {
                seq![c]
            } else {
                Seq::<char>::empty()
            }));
        } else {
            assert(avail_chars(tr, s, q) =~= avail_chars(tr, s, p) + (if closure(
                tr,
                move_set(tr, s, c),
            ) != Set::<int>::empty() {
                seq![c]
            } else {
                Seq::<char>::empty()
            }));
        }
    }
}

proof fn lemma_avail_take_step(
    tr: Set<(int, Option<char>, int)>,
    s: Set<int>,
    alphabet: Seq<char>,
    ci: int,
)
    requires
        0 <= ci < alphabet.len(),
    ensures
        avail_chars(tr, s, alphabet.take(ci + 1)) == avail_chars(tr, s, alphabet.take(ci)) + (
        if closure(tr, move_set(tr, s, alphabet[ci])) != Set::<int>::empty() {
            seq![alphabet[ci]]
        } else {
            Seq::<char>::empty()
        }),
{
    assert(alphabet.take(ci + 1) =~= alphabet.take(ci).push(alphabet[ci]));
    lemma_avail_push(tr, s, alphabet.take(ci), alphabet[ci]);
}

proof fn lemma_avail_elems(
    tr: Set<(int, Option<char>, int)>,
    s: Set<int>,
    alphabet: Seq<char>,
)
    ensures
        forall|j: int|
            0 <= j < avail_chars(tr, s, alphabet).len() ==> alphabet.contains(
                #[trigger] avail_chars(tr, s, alphabet)[j],
            ),
    decreases alphabet.len(),
{
    if alphabet.len() > 0 {
        let tail = alphabet.drop_first();
        lemma_avail_elems(tr, s, tail);
        let f = avail_chars(tr, s, alphabet);
        assert forall|j: int| 0 <= j < f.len() implies alphabet.contains(#[trigger] f[j]) by {
            let rest = avail_chars(tr, s, tail);
            if closure(tr, move_set(tr, s, alphabet[0])) != Set::<int>::empty() {
                if j == 0 {
                    assert(alphabet[0] == f[0]);
                } else {
                    assert(f[j] == rest[j - 1]);
                    let i = choose|i: int| 0 <= i < tail.len() && tail[i] == rest[j - 1];
                    assert(alphabet[i + 1] == f[j]);
                }
            } else {
                assert(f[j] == rest[j]);
                let i = choose|i: int| 0 <= i < tail.len() && tail[i] == rest[j];
                assert(alphabet[i + 1] == f[j]);
            }
        }
    }
}

proof fn lemma_avail_nodup(
    tr: Set<(int, Option<char>, int)>,
    s: Set<int>,
    alphabet: Seq<char>,
)
    requires
        no_dup_chars(alphabet),
    ensures
        no_dup_chars(avail_chars(tr, s, alphabet)),
    decreases alphabet.len(),
{
    if alphabet.len() > 0 {
        let tail = alphabet.drop_first();
        assert(no_dup_chars(tail)) by {
            assert(forall|k: int| 0 <= k < tail.len() ==> #[trigger] tail[k] == alphabet[k + 1]);
        }
        lemma_avail_nodup(tr, s, tail);
        lemma_avail_elems(tr, s, tail);
        let f = avail_chars(tr, s, alphabet);
        let rest = avail_chars(tr, s, tail);
        if closure(tr, move_set(tr, s, alphabet[0])) != Set::<int>::empty() {
            assert forall|j1: int, j2: int| 0 <= j1 < j2 < f.len() implies f[j1] != f[j2] by {
                if j1 == 0 {
                    assert(f[j2] == rest[j2 - 1]);
                    assert(tail.contains(rest[j2 - 1]));
                    let i = choose|i: int| 0 <= i < tail.len() && tail[i] == rest[j2 - 1];
                    assert(alphabet[i + 1] == rest[j2 - 1]);
                    assert(alphabet[0] != alphabet[i + 1]);
                } else {
                    assert(f[j1] == rest[j1 - 1] && f[j2] == rest[j2 - 1]);
                }
            }
        } else {
            assert(forall|j: int| 0 <= j < f.len() ==> #[trigger] f[j] == rest[j]);
        }
    }
}

/// The outgoing edges of DFA node `k` realise, newest first, exactly
/// the available characters of its state set over `alphabet`, each
/// targeting the node of the stepped state set.
pub open spec fn node_expanded(
    d: Graph<AutomataState, char>,
    reps: Seq<Set<int>>,
    tr: Set<(int, Option<char>, int)>,
    alphabet: Seq<char>,
    k: int,
) -> bool {
    let f = avail_chars(tr, reps[k], alphabet);
    let ch = d.out_chain(k);
    &&& ch.len() == f.len()
    &&& forall|j: int|
        0 <= j < ch.len() ==> {
            &&& (#[trigger] ch[j]) < d.edge_cnt()
            &&& d.edges@[ch[j] as int].data == f[f.len() - 1 - j]
            &&& d.edges@[ch[j] as int].target < reps.len()
            &&& reps[d.edges@[ch[j] as int].target as int] == closure(
                tr,
                move_set(tr, reps[k], f[f.len() - 1 - j]),
            )
        }
}

/// The state sets a DFA realises: one non-empty closed set per node,
/// the start node carrying the closure of the NFA start state, the
/// accepting flags mirroring membership of the NFA accepting state, and
/// every node's edges realising exactly its available characters.
pub open spec fn dfa_realizes(
    d: Graph<AutomataState, char>,
    d0: int,
    tr: Set<(int, Option<char>, int)>,
    n0: int,
    acc: int,
    alphabet: Seq<char>,
    reps: Seq<Set<int>>,
) -> bool {
    &&& d.wf()
    &&& reps.len() == d.node_cnt()
    &&& 0 <= d0 < d.node_cnt()
    &&& reps[d0] == closure(tr, Set::<int>::empty().insert(n0))
    &&& forall|k: int| 0 <= k < reps.len() ==> (#[trigger] reps[k]) != Set::<int>::empty()
    &&& forall|k: int| 0 <= k < reps.len() ==> closure(tr, #[trigger] reps[k]) == reps[k]
    &&& forall|k: int|
        0 <= k < reps.len() ==> ((#[trigger] d.nodes@[k]).data.accepting <==> reps[k].contains(
            acc,
        ))
    &&& forall|k: int| 0 <= k < reps.len() ==> node_expanded(d, reps, tr, alphabet, k)
}

/// The DFA is a subset construction of the NFA: some family of state
/// sets realises it.
pub open spec fn dfa_matches_nfa(
    d: Graph<AutomataState, char>,
    d0: int,
    tr: Set<(int, Option<char>, int)>,
    n0: int,
    acc: int,
    alphabet: Seq<char>,
) -> bool {
    exists|reps: Seq<Set<int>>| dfa_realizes(d, d0, tr, n0, acc, alphabet, reps)
}

/// No character labels two outgoing edges of one node: the transition
/// relation of the DFA is a partial function.
pub open spec fn dfa_deterministic(d: Graph<AutomataState, char>) -> bool {
    forall|k: int, j1: int, j2: int|
        0 <= k < d.node_cnt() && 0 <= j1 < j2 < d.out_chain(k).len() ==> d.edges@[(
        #[trigger] d.out_chain(k)[j1]) as int].data != d.edges@[(#[trigger] d.out_chain(
            k,
        )[j2]) as int].data
}

/// Determinism follows from the construction: a node's edge labels are
/// its available characters, which repeat no character of the alphabet.
pub proof fn lemma_realized_dfa_deterministic(
    d: Graph<AutomataState, char>,
    d0: int,
    tr: Set<(int, Option<char>, int)>,
    n0: int,
    acc: int,
    alphabet: Seq<char>,
)
    requires
        no_dup_chars(alphabet),
        dfa_matches_nfa(d, d0, tr, n0, acc, alphabet),
    ensures
        dfa_deterministic(d),
{
    let reps = choose|reps: Seq<Set<int>>| dfa_realizes(d, d0, tr, n0, acc, alphabet, reps);
    assert forall|k: int, j1: int, j2: int|
        0 <= k < d.node_cnt() && 0 <= j1 < j2 < d.out_chain(k).len() implies d.edges@[(
    #[trigger] d.out_chain(k)[j1]) as int].data != d.edges@[(#[trigger] d.out_chain(
        k,
    )[j2]) as int].data by {
        assert(node_expanded(d, reps, tr, alphabet, k));
        lemma_avail_nodup(tr, reps[k], alphabet);
        let f = avail_chars(tr, reps[k], alphabet);
        assert(d.edges@[d.out_chain(k)[j1] as int].data == f[f.len() - 1 - j1]);
        assert(d.edges@[d.out_chain(k)[j2] as int].data == f[f.len() - 1 - j2]);
    }
}

fn find_state(states: &Vec<DfaStateKey>, target: &DfaStateKey) -> (r: Option<usize>)
    requires
        forall|k: int| 0 <= k < states@.len() ==> (#[trigger] states@[k]).wf(),
        target.wf(),
    ensures
        match r {
            Some(k) => k < states@.len() && states@[k as int].key_set() == target.key_set(),
            None => forall|k: int|
                0 <= k < states@.len() ==> (#[trigger] states@[k]).key_set() != target.key_set(),
        },
{
    let mut k: usize = 0;
    while k < states.len()
        invariant
            k <= states@.len(),
            forall|j: int| 0 <= j < states@.len() ==> (#[trigger] states@[j]).wf(),
            target.wf(),
            forall|j: int| 0 <= j < k ==> (#[trigger] states@[j]).key_set() != target.key_set(),
        decreases states@.len() - k,
    {
        if states[k].same_key(target) {
            return Some(k);
        }
        k = k + 1;
    }
    None
}

fn mirror_contains(
    edges: &Vec<(NodeIndex, NodeIndex, char)>,
    source: NodeIndex,
    target: NodeIndex,
    c: char,
) -> (r: bool)
    ensures
        r == edges@.contains((source, target, c)),
{
    let mut k: usize = 0;
    while k < edges.len()
        invariant
            k <= edges@.len(),
            forall|j: int| 0 <= j < k ==> (#[trigger] edges@[j]) != (source, target, c),
        decreases edges@.len() - k,
    {
        let e = edges[k];
        if e.0 == source && e.1 == target && e.2 == c {
            proof {
                assert(edges@[k as int] == (source, target, c));
            }
            return true;
        }
        k = k + 1;
    }
    proof {
        if edges@.contains((source, target, c)) {
            let j = choose|j: int| 0 <= j < edges@.len() && edges@[j] == (source, target, c);
            assert(false);
        }
    }
    false
}

/// An identity on integers, used as a quantifier trigger where no
/// natural term exists.
pub open spec fn mentions(k: int) -> int {
    k
}

/// The state sets the construction has discovered, keyed by node index.
pub open spec fn reps_of(states: Seq<DfaStateKey>) -> Seq<Set<int>> {
    Seq::new(states.len(), |k: int| states[k].key_set())
}

/// What holds of the discovered states throughout the construction:
/// one well-formed, non-empty, closed, pairwise distinct state set per
/// DFA node, with the accepting flag mirroring the NFA accepting state.
pub open spec fn states_ok(
    d: Graph<AutomataState, char>,
    states: Seq<DfaStateKey>,
    tr: Set<(int, Option<char>, int)>,
    acc: int,
    total: nat,
) -> bool {
    &&& d.wf()
    &&& d.node_cnt() == states.len()
    &&& forall|k: int| 0 <= k < states.len() ==> (#[trigger] states[k]).wf()
    &&& forall|k: int| 0 <= k < states.len() ==> (#[trigger] states[k]).in_range(total)
    &&& forall|k: int|
        0 <= k < states.len() ==> (#[trigger] states[k]).key_set() != Set::<int>::empty()
    &&& forall|k: int|
        0 <= k < states.len() ==> closure(tr, (#[trigger] states[k]).key_set())
            == states[k].key_set()
    &&& forall|k: int|
        0 <= k < states.len() ==> ((#[trigger] d.nodes@[k]).data.accepting
            <==> states[k].key_set().contains(acc))
    &&& forall|k1: int, k2: int|
        0 <= k1 < k2 < states.len() ==> states[k1].key_set() != states[k2].key_set()
}

/// The edge mirror lists exactly the labeled edges of the DFA.
pub open spec fn mirror_ok(
    d: Graph<AutomataState, char>,
    es: Seq<(NodeIndex, NodeIndex, char)>,
) -> bool {
    forall|i2: NodeIndex, t2: NodeIndex, c2: char|
        #![trigger es.contains((i2, t2, c2))]
        #![trigger d.has_labeled_edge(i2 as int, c2, t2 as int)]
        es.contains((i2, t2, c2)) <==> d.has_labeled_edge(i2 as int, c2, t2 as int)
}

/// Worklist entries address discovered nodes, repeat nothing, and have
/// no outgoing edges yet.
pub open spec fn worklist_ok(
    d: Graph<AutomataState, char>,
    states: Seq<DfaStateKey>,
    w: Seq<NodeIndex>,
) -> bool {
    &&& forall|j: int| 0 <= j < w.len() ==> (#[trigger] w[j]) < states.len()
    &&& forall|j1: int, j2: int| 0 <= j1 < j2 < w.len() ==> w[j1] != w[j2]
    &&& forall|j: int| 0 <= j < w.len() ==> d.out_chain((#[trigger] w[j]) as int).len() == 0
}

/// Every discovered node except `skip` either waits on the worklist or
/// is fully expanded.
pub open spec fn coverage_ok(
    d: Graph<AutomataState, char>,
    states: Seq<DfaStateKey>,
    tr: Set<(int, Option<char>, int)>,
    alphabet: Seq<char>,
    w: Seq<NodeIndex>,
    skip: int,
) -> bool {
    forall|k: int|
        0 <= k < states.len() && k != skip ==> set_of_indices(w).contains(k) || node_expanded(d, reps_of(states), tr, alphabet, #[trigger] mentions(k))
}

/// An expanded node stays expanded when edges and nodes are only
/// appended elsewhere and its own outgoing list is untouched.
proof fn lemma_node_expanded_frame(
    d1: Graph<AutomataState, char>,
    d2: Graph<AutomataState, char>,
    states1: Seq<DfaStateKey>,
    states2: Seq<DfaStateKey>,
    tr: Set<(int, Option<char>, int)>,
    alphabet: Seq<char>,
    k: int,
)
    requires
        0 <= k < states1.len(),
        node_expanded(d1, reps_of(states1), tr, alphabet, k),
        d2.out_chain(k) == d1.out_chain(k),
        d2.edges@.len() >= d1.edges@.len(),
        forall|i: int| 0 <= i < d1.edges@.len() ==> #[trigger] d2.edges@[i] == d1.edges@[i],
        states2.len() >= states1.len(),
        forall|i: int| 0 <= i < states1.len() ==> #[trigger] states2[i] == states1[i],
    ensures
        node_expanded(d2, reps_of(states2), tr, alphabet, k),
{
    let f = avail_chars(tr, reps_of(states1)[k], alphabet);
    assert(reps_of(states2)[k] == reps_of(states1)[k]);
    let ch = d2.out_chain(k);
    assert forall|j: int| 0 <= j < ch.len() implies {
        &&& (#[trigger] ch[j]) < d2.edge_cnt()
        &&& d2.edges@[ch[j] as int].data == f[f.len() - 1 - j]
        &&& d2.edges@[ch[j] as int].target < reps_of(states2).len()
        &&& reps_of(states2)[d2.edges@[ch[j] as int].target as int] == closure(
            tr,
            move_set(tr, reps_of(states2)[k], f[f.len() - 1 - j]),
        )
    } by {
        assert(ch[j] == d1.out_chain(k)[j]);
        assert(ch[j] < d1.edge_cnt());
        assert(d2.edges@[ch[j] as int] == d1.edges@[ch[j] as int]);
        assert(d1.edges@[ch[j] as int].target < states1.len());
        assert(reps_of(states2)[d1.edges@[ch[j] as int].target as int] == reps_of(states1)[
            d1.edges@[ch[j] as int].target as int]);
    }
}

/// One character of the alphabet, for the node under expansion: compute
/// the stepped state set, discover it if it is new, and lay the edge.
#[verifier::rlimit(100)]
#[verifier::spinoff_prover]
fn extend_with_char(
    nfa: &Graph<AutomataState, AutomataLabel>,
    dfa: &mut Graph<AutomataState, char>,
    states: &mut Vec<DfaStateKey>,
    edge_mirror: &mut Vec<(NodeIndex, NodeIndex, char)>,
    worklist: &mut VecDeque<NodeIndex>,
    accept: NodeIndex,
    index: NodeIndex,
    current: &DfaStateKey,
    alphabet: &Vec<char>,
    ci: usize,
)
    requires
        nfa.wf(),
        labels_wf(*nfa),
        accept < nfa.node_cnt(),
        no_dup_chars(alphabet@),
        ci < alphabet@.len(),
        states_ok(
            *old(dfa),
            old(states)@,
            nfa_triples(*nfa),
            accept as int,
            nfa.node_cnt(),
        ),
        mirror_ok(*old(dfa), old(edge_mirror)@),
        worklist_ok(*old(dfa), old(states)@, old(worklist)@),
        coverage_ok(
            *old(dfa),
            old(states)@,
            nfa_triples(*nfa),
            alphabet@,
            old(worklist)@,
            index as int,
        ),
        index < old(states)@.len(),
        !set_of_indices(old(worklist)@).contains(index as int),
        current.wf(),
        current.in_range(nfa.node_cnt()),
        current.key_set() == old(states)@[index as int].key_set(),
        node_expanded(
            *old(dfa),
            reps_of(old(states)@),
            nfa_triples(*nfa),
            alphabet@.take(ci as int),
            index as int,
        ),
    ensures
        states_ok(*final(dfa), final(states)@, nfa_triples(*nfa), accept as int, nfa.node_cnt()),
        mirror_ok(*final(dfa), final(edge_mirror)@),
        worklist_ok(*final(dfa), final(states)@, final(worklist)@),
        coverage_ok(
            *final(dfa),
            final(states)@,
            nfa_triples(*nfa),
            alphabet@,
            final(worklist)@,
            index as int,
        ),
        !set_of_indices(final(worklist)@).contains(index as int),
        node_expanded(
            *final(dfa),
            reps_of(final(states)@),
            nfa_triples(*nfa),
            alphabet@.take(ci as int + 1),
            index as int,
        ),
        final(states)@.len() >= old(states)@.len(),
        forall|i: int|
            0 <= i < old(states)@.len() ==> #[trigger] final(states)@[i] == old(states)@[i],
        final(worklist)@.len() - old(worklist)@.len() == final(states)@.len() - old(
            states,
        )@.len(),
        forall|i: int|
            0 <= i < old(worklist)@.len() ==> #[trigger] final(worklist)@[i] == old(worklist)@[i],
{
    let ghost tr = nfa_triples(*nfa);
    let ghost s_set = current.key_set();
    let c = alphabet[ci];
    let available_neighbours = delta(nfa, current, c);
    let next = empty_closure(nfa, &available_neighbours);
    proof {
        lemma_closure_idempotent(tr, move_set(tr, s_set, c));
        lemma_avail_take_step(tr, s_set, alphabet@, ci as int);
    }
    if next.is_empty() {
        proof {
            lemma_closure_empty(tr);
            assert(closure(tr, move_set(tr, s_set, c)) == Set::<int>::empty());
            assert(avail_chars(tr, s_set, alphabet@.take(ci as int + 1)) =~= avail_chars(
                tr,
                s_set,
                alphabet@.take(ci as int),
            ));
            assert(reps_of(states@)[index as int] == s_set);
        }
        return ;
    }
    proof {
        assert(next.key_set() != Set::<int>::empty());
        assert(avail_chars(tr, s_set, alphabet@.take(ci as int + 1)) == avail_chars(
            tr,
            s_set,
            alphabet@.take(ci as int),
        ) + seq![c]);
    }
    let next_index: NodeIndex;
    let ghost dfa_before = *dfa;
    let ghost states_before = states@;
    let ghost worklist_before = worklist@;
    match find_state(states, &next) {
        Some(k) => {
            next_index = k;
        },
        None => {
            let is_next_accepting = next.contains(accept);
            next_index = dfa.add_node(AutomataState::new(is_next_accepting));
            states.push(next);
            worklist.push_back(next_index);
            proof {
                assert(forall|n: int| #[trigger]
                    dfa.out_chain(n) == dfa_before.out_chain(n) || n == next_index as int);
                assert(dfa_before.out_chain(next_index as int) =~= Seq::<EdgeIndex>::empty());
                assert(dfa.out_chain(next_index as int) =~= Seq::<EdgeIndex>::empty());
                // the mirror still matches: no edges changed anywhere
                assert forall|i2: NodeIndex, t2: NodeIndex, c2: char|
                    edge_mirror@.contains((i2, t2, c2)) <==> #[trigger] dfa.has_labeled_edge(
                        i2 as int,
                        c2,
                        t2 as int,
                    ) by {
                    dfa_before.lemma_has_labeled_edge_stable(*dfa, i2 as int);
                }
                // expanded nodes stay expanded
                assert forall|k: int|
                    0 <= k < states@.len() && k != index as int implies set_of_indices(
                    worklist@,
                ).contains(k) || node_expanded(*dfa, reps_of(states@), tr, alphabet@, #[trigger] mentions(k)) by {
                    assert(mentions(k) == k);
                    if k < states_before.len() {
                        if set_of_indices(worklist_before).contains(k) {
                            let j = choose|j: int|
                                0 <= j < worklist_before.len() && (#[trigger] worklist_before[j])
                                    as int == k;
                            assert(worklist@[j] as int == k);
                            assert(set_of_indices(worklist@).contains(k));
                        } else {
                            assert(dfa.out_chain(k) == dfa_before.out_chain(k));
                            lemma_node_expanded_frame(
                                dfa_before,
                                *dfa,
                                states_before,
                                states@,
                                tr,
                                alphabet@,
                                k,
                            );
                        }
                    } else {
                        assert(worklist@[worklist@.len() - 1] as int == k);
                        assert(set_of_indices(worklist@).contains(k));
                    }
                }
                assert(dfa.out_chain(index as int) == dfa_before.out_chain(index as int));
                lemma_node_expanded_frame(
                    dfa_before,
                    *dfa,
                    states_before,
                    states@,
                    tr,
                    alphabet@.take(ci as int),
                    index as int,
                );
            }
        },
    }
    let ghost dfa_mid = *dfa;
    let ghost states_mid = states@;
    let ghost worklist_mid = worklist@;
    proof {
        assert(states_mid[next_index as int].key_set() == closure(tr, move_set(tr, s_set, c)));
        assert(reps_of(states_mid)[index as int] == s_set);
    }
    // Guard against adding duplicate edges: a DFA state and character
    // pair must be functional. With a duplicate-free alphabet the guard
    // never fires, which the proof below confirms.
    if !mirror_contains(edge_mirror, index, next_index, c) {
        edge_mirror.push((index, next_index, c));
        dfa.add_edge(index, next_index, c);
        proof {
            let f_old = avail_chars(tr, s_set, alphabet@.take(ci as int));
            let f_new = avail_chars(tr, s_set, alphabet@.take(ci as int + 1));
            let newe = dfa_mid.edge_cnt() as EdgeIndex;
            assert(dfa.out_chain(index as int) == seq![newe] + dfa_mid.out_chain(index as int));
            // the node under expansion now realises one more character
            assert(node_expanded(
                *dfa,
                reps_of(states@),
                tr,
                alphabet@.take(ci as int + 1),
                index as int,
            )) by {
                let ch = dfa.out_chain(index as int);
                assert(ch.len() == f_new.len());
                assert forall|j: int| 0 <= j < ch.len() implies {
                    &&& (#[trigger] ch[j]) < dfa.edge_cnt()
                    &&& dfa.edges@[ch[j] as int].data == f_new[f_new.len() - 1 - j]
                    &&& dfa.edges@[ch[j] as int].target < reps_of(states@).len()
                    &&& reps_of(states@)[dfa.edges@[ch[j] as int].target as int] == closure(
                        tr,
                        move_set(tr, reps_of(states@)[index as int], f_new[f_new.len() - 1 - j]),
                    )
                } by {
                    if j == 0 {
                        assert(ch[0] == newe);
                        assert(dfa.edges@[newe as int].data == c);
                        assert(f_new[f_new.len() - 1] == c);
                    } else {
                        assert(ch[j] == dfa_mid.out_chain(index as int)[j - 1]);
                        assert(ch[j] < dfa_mid.edge_cnt());
                        assert(dfa.edges@[ch[j] as int] == dfa_mid.edges@[ch[j] as int]);
                        assert(f_new[f_new.len() - 1 - j] == f_old[f_old.len() - 1 - (j - 1)]);
                    }
                }
            }
            // the mirror matches again
            assert forall|i2: NodeIndex, t2: NodeIndex, c2: char|
                edge_mirror@.contains((i2, t2, c2)) <==> #[trigger] dfa.has_labeled_edge(
                    i2 as int,
                    c2,
                    t2 as int,
                ) by {
                if i2 as int == index as int {
                    dfa_mid.lemma_has_labeled_edge_after_add(*dfa, index as int, c, next_index as int);
                    if edge_mirror@.contains((i2, t2, c2)) {
                        let j = choose|j: int|
                            0 <= j < edge_mirror@.len() && edge_mirror@[j] == (i2, t2, c2);
                        if j < edge_mirror@.len() - 1 {
                            assert(old(edge_mirror)@.contains((i2, t2, c2)));
                        }
                    }
                    if dfa.has_labeled_edge(i2 as int, c2, t2 as int) {
                        if c2 == c && t2 as int == next_index as int && i2 == index {
                            assert(edge_mirror@[edge_mirror@.len() - 1] == (i2, t2, c2));
                        } else {
                            assert(dfa_mid.has_labeled_edge(i2 as int, c2, t2 as int));
                            assert(old(edge_mirror)@.contains((i2, t2, c2)));
                            let j = choose|j: int|
                                0 <= j < old(edge_mirror)@.len() && old(edge_mirror)@[j] == (
                                i2,
                                t2,
                                c2,
                                );
                            assert(edge_mirror@[j] == (i2, t2, c2));
                        }
                    } else {
                        if edge_mirror@.contains((i2, t2, c2)) {
                            let j = choose|j: int|
                                0 <= j < edge_mirror@.len() && edge_mirror@[j] == (i2, t2, c2);
                            if j < edge_mirror@.len() - 1 {
                                assert(dfa_mid.has_labeled_edge(i2 as int, c2, t2 as int));
                            }
                            assert(false);
                        }
                    }
                } else {
                    dfa_mid.lemma_has_labeled_edge_stable(*dfa, i2 as int);
                    if edge_mirror@.contains((i2, t2, c2)) {
                        let j = choose|j: int|
                            0 <= j < edge_mirror@.len() && edge_mirror@[j] == (i2, t2, c2);
                        assert(old(edge_mirror)@.contains((i2, t2, c2)));
                    }
                    if old(edge_mirror)@.contains((i2, t2, c2)) {
                        let j = choose|j: int|
                            0 <= j < old(edge_mirror)@.len() && old(edge_mirror)@[j] == (
                            i2,
                            t2,
                            c2,
                            );
                        assert(edge_mirror@[j] == (i2, t2, c2));
                    }
                }
            }
            // other nodes keep their expansion and the worklist its
            // emptiness of edges
            assert forall|k: int|
                0 <= k < states@.len() && k != index as int implies set_of_indices(
                worklist@,
            ).contains(k) || node_expanded(*dfa, reps_of(states@), tr, alphabet@, #[trigger] mentions(k)) by {
                assert(mentions(k) == k);
                if !set_of_indices(worklist@).contains(k) {
                    assert(node_expanded(dfa_mid, reps_of(states_mid), tr, alphabet@, k));
                    assert(dfa.out_chain(k) == dfa_mid.out_chain(k));
                    lemma_node_expanded_frame(dfa_mid, *dfa, states_mid, states@, tr, alphabet@, k);
                }
            }
        }
    } else {
        proof {
            // the guard cannot fire: no edge labeled `c` leaves `index`
            // yet, because `c` is not among the already processed
            // characters
            assert(dfa_mid.has_labeled_edge(index as int, c, next_index as int));
            let f_old = avail_chars(tr, s_set, alphabet@.take(ci as int));
            let ch = dfa_mid.out_chain(index as int);
            let j = choose|j: int|
                0 <= j < ch.len() && (#[trigger] ch[j]) < dfa_mid.edge_cnt()
                    && dfa_mid.edges@[ch[j] as int].data == c && dfa_mid.edges@[ch[j] as int].target
                    == next_index as int;
            assert(f_old[f_old.len() - 1 - j] == c);
            lemma_avail_elems(tr, s_set, alphabet@.take(ci as int));
            assert(alphabet@.take(ci as int).contains(c));
            let i0 = choose|i0: int|
                0 <= i0 < alphabet@.take(ci as int).len() && alphabet@.take(ci as int)[i0] == c;
            assert(alphabet@[i0] == alphabet@[ci as int]);
            assert(false);
        }
    }
}

/// Subset (powerset) construction: builds a DFA whose states stand for
/// sets of NFA states, starting from the closure of the NFA start
/// state and stepping each discovered set on every alphabet character.
/// The result is deterministic, and some family of non-empty closed
/// state sets realises it over the NFA's transitions.
#[verifier::rlimit(100)]
#[verifier::spinoff_prover]
pub fn build_dfa(
    handle: AutomataComponent,
    nfa: Graph<AutomataState, AutomataLabel>,
    alphabet: Vec<char>,
) -> (r: (NodeIndex, Graph<AutomataState, char>))
    requires
        nfa.wf(),
        labels_wf(nfa),
        handle.start_state < nfa.node_cnt(),
        handle.accept_state < nfa.node_cnt(),
        no_dup_chars(alphabet@),
    ensures
        r.1.wf(),
        dfa_matches_nfa(
            r.1,
            r.0 as int,
            nfa_triples(nfa),
            handle.start_state as int,
            handle.accept_state as int,
            alphabet@,
        ),
        dfa_deterministic(r.1),
{
    let ghost tr = nfa_triples(nfa);
    let mut dfa: Graph<AutomataState, char> = Graph::new();
    let start = handle.get_start_state();
    let accept = handle.get_accept_state();
    let start_key = DfaStateKey::singleton(start);
    let start_of_dfa = empty_closure(&nfa, &start_key);
    let is_start_accepting = start_of_dfa.contains(accept);
    let start_index = dfa.add_node(AutomataState::new(is_start_accepting));
    let mut final_dfa_edges: Vec<(NodeIndex, NodeIndex, char)> = Vec::new();
    let mut final_dfa_states: Vec<DfaStateKey> = Vec::new();
    final_dfa_states.push(start_of_dfa);
    let mut worklist: VecDeque<NodeIndex> = VecDeque::new();
    worklist.push_back(start_index);
    proof {
        lemma_closure_idempotent(tr, Set::<int>::empty().insert(start as int));
        lemma_closure_grows(tr, Set::<int>::empty().insert(start as int));
        lemma_two_pow_pos(nfa.node_cnt());
        assert(final_dfa_states@[0].key_set().contains(start as int));
        assert forall|a: int| dfa.out_chain(a).len() == 0 by {
            if 0 <= a < dfa.node_cnt() {
            } else {
                assert(dfa.out_chain(a) =~= Seq::<EdgeIndex>::empty());
            }
        }
        assert forall|i2: NodeIndex, t2: NodeIndex, c2: char|
            final_dfa_edges@.contains((i2, t2, c2)) <==> #[trigger] dfa.has_labeled_edge(
                i2 as int,
                c2,
                t2 as int,
            ) by {
            assert(!final_dfa_edges@.contains((i2, t2, c2)));
            assert(dfa.out_chain(i2 as int).len() == 0);
            assert(!dfa.has_labeled_edge(i2 as int, c2, t2 as int));
        }
        assert(set_of_indices(worklist@).contains(0)) by {
            assert(worklist@[0] as int == 0);
        }
    }
    while worklist.len() > 0
        invariant
            nfa.wf(),
            labels_wf(nfa),
            tr == nfa_triples(nfa),
            accept == handle.accept_state,
            start == handle.start_state,
            accept < nfa.node_cnt(),
            start < nfa.node_cnt(),
            no_dup_chars(alphabet@),
            start_index == 0,
            final_dfa_states@.len() >= 1,
            final_dfa_states@.len() <= two_pow(nfa.node_cnt()),
            final_dfa_states@[0].key_set() == closure(
                tr,
                Set::<int>::empty().insert(start as int),
            ),
            states_ok(dfa, final_dfa_states@, tr, accept as int, nfa.node_cnt()),
            mirror_ok(dfa, final_dfa_edges@),
            worklist_ok(dfa, final_dfa_states@, worklist@),
            coverage_ok(dfa, final_dfa_states@, tr, alphabet@, worklist@, -1),
        decreases
                two_pow(nfa.node_cnt()) + 1 - final_dfa_states@.len(),
                worklist@.len(),
    {
        let ghost states_at_pop = final_dfa_states@;
        let ghost w_before = worklist@;
        let index = worklist.pop_front().unwrap();
        let current = final_dfa_states[index].clone();
        proof {
            assert(index == w_before[0]);
            assert(worklist@ =~= w_before.drop_first());
            assert(!set_of_indices(worklist@).contains(index as int)) by {
                if set_of_indices(worklist@).contains(index as int) {
                    let j = choose|j: int|
                        0 <= j < worklist@.len() && (#[trigger] worklist@[j]) as int
                            == index as int;
                    assert(w_before[j + 1] == worklist@[j]);
                    assert(false);
                }
            }
            assert forall|k: int|
                0 <= k < final_dfa_states@.len() && k != index as int implies set_of_indices(
                worklist@,
            ).contains(k) || node_expanded(dfa, reps_of(final_dfa_states@), tr, alphabet@, #[trigger] mentions(
                k,
            )) by {
                if set_of_indices(w_before).contains(k) {
                    let j = choose|j: int|
                        0 <= j < w_before.len() && (#[trigger] w_before[j]) as int == k;
                    assert(j != 0);
                    assert(worklist@[j - 1] as int == k);
                    assert(set_of_indices(worklist@).contains(k));
                }
            }
            assert(node_expanded(
                dfa,
                reps_of(final_dfa_states@),
                tr,
                alphabet@.take(0),
                index as int,
            )) by {
                assert(dfa.out_chain(index as int).len() == 0);
                assert(alphabet@.take(0) =~= Seq::<char>::empty());
                assert(avail_chars(tr, reps_of(final_dfa_states@)[index as int], alphabet@.take(0))
                    == Seq::<char>::empty());
            }
            assert(current.key_set() == final_dfa_states@[index as int].key_set());
        }
        let mut ci: usize = 0;
        while ci < alphabet.len()
            invariant
                nfa.wf(),
                labels_wf(nfa),
                tr == nfa_triples(nfa),
                accept < nfa.node_cnt(),
                start < nfa.node_cnt(),
                no_dup_chars(alphabet@),
                ci <= alphabet@.len(),
                final_dfa_states@.len() >= 1,
                final_dfa_states@[0].key_set() == closure(
                    tr,
                    Set::<int>::empty().insert(start as int),
                ),
                index < final_dfa_states@.len(),
                states_ok(dfa, final_dfa_states@, tr, accept as int, nfa.node_cnt()),
                mirror_ok(dfa, final_dfa_edges@),
                worklist_ok(dfa, final_dfa_states@, worklist@),
                coverage_ok(dfa, final_dfa_states@, tr, alphabet@, worklist@, index as int),
                !set_of_indices(worklist@).contains(index as int),
                current.wf(),
                current.in_range(nfa.node_cnt()),
                current.key_set() == final_dfa_states@[index as int].key_set(),
                node_expanded(
                    dfa,
                    reps_of(final_dfa_states@),
                    tr,
                    alphabet@.take(ci as int),
                    index as int,
                ),
                final_dfa_states@.len() >= states_at_pop.len(),
                worklist@.len() == w_before.len() - 1 + final_dfa_states@.len()
                    - states_at_pop.len(),
            decreases alphabet@.len() - ci,
        {
            extend_with_char(
                &nfa,
                &mut dfa,
                &mut final_dfa_states,
                &mut final_dfa_edges,
                &mut worklist,
                accept,
                index,
                &current,
                &alphabet,
                ci,
            );
            ci = ci + 1;
        }
        proof {
            assert(alphabet@.take(alphabet@.len() as int) =~= alphabet@);
            assert forall|k: int|
                0 <= k < final_dfa_states@.len() && k != -1 implies set_of_indices(
                worklist@,
            ).contains(k) || node_expanded(dfa, reps_of(final_dfa_states@), tr, alphabet@, #[trigger] mentions(
                k,
            )) by {
                if k != index as int {
                    assert(mentions(k) == k);
                }
            }
            lemma_states_bound(final_dfa_states@, nfa.node_cnt());
        }
    }
    proof {
        let reps = reps_of(final_dfa_states@);
        assert forall|k: int|
            0 <= k < reps.len() implies node_expanded(dfa, reps, tr, alphabet@, k) by {
            assert(mentions(k) == k);
            if set_of_indices(worklist@).contains(k) {
                let j = choose|j: int|
                    0 <= j < worklist@.len() && (#[trigger] worklist@[j]) as int == k;
                assert(false);
            }
        }
        assert(dfa_realizes(
            dfa,
            start_index as int,
            tr,
            start as int,
            accept as int,
            alphabet@,
            reps,
        ));
        lemma_realized_dfa_deterministic(
            dfa,
            start_index as int,
            tr,
            start as int,
            accept as int,
            alphabet@,
        );
    }
    (start_index, dfa)
}

// ---------------------------------------------------------------------------
// Language equivalence of the construction.
// ---------------------------------------------------------------------------
/// The DFA accepts the string from state `q`: it can consume every
/// character along labeled edges and end in an accepting state.
pub open spec fn dfa_accepts(d: Graph<AutomataState, char>, q: int, input: Seq<char>) -> bool
    decreases input.len(),
{
    if input.len() == 0 {
        0 <= q < d.node_cnt() && d.nodes@[q].data.accepting
    } else {
        exists|t: int|
            #[trigger] d.has_labeled_edge(q, input[0], t) && dfa_accepts(d, t, input.drop_first())
    }
}

/// The set of NFA states reachable after consuming the input, stepping
/// by move and closure from an already closed set.
pub open spec fn nfa_reach(
    tr: Set<(int, Option<char>, int)>,
    s: Set<int>,
    input: Seq<char>,
) -> Set<int>
    decreases input.len(),
{
    if input.len() == 0 {
        s
    } else {
        nfa_reach(tr, closure(tr, move_set(tr, s, input[0])), input.drop_first())
    }
}

/// The NFA accepts the string: its accepting state is reachable from
/// the closure of its start state under the input.
pub open spec fn nfa_accepts(
    tr: Set<(int, Option<char>, int)>,
    n0: int,
    acc: int,
    input: Seq<char>,
) -> bool {
    nfa_reach(tr, closure(tr, Set::<int>::empty().insert(n0)), input).contains(acc)
}

proof fn lemma_reach_of_empty(tr: Set<(int, Option<char>, int)>, input: Seq<char>)
    ensures
        nfa_reach(tr, Set::<int>::empty(), input) == Set::<int>::empty(),
    decreases input.len(),
{
    if input.len() > 0 {
        assert(move_set(tr, Set::<int>::empty(), input[0]) =~= Set::<int>::empty());
        lemma_closure_empty(tr);
        lemma_reach_of_empty(tr, input.drop_first());
    }
}

/// A character is available exactly when it is in the alphabet and its
/// move has a non-empty closure.
proof fn lemma_avail_membership(
    tr: Set<(int, Option<char>, int)>,
    s: Set<int>,
    alphabet: Seq<char>,
    c: char,
)
    ensures
        avail_chars(tr, s, alphabet).contains(c) <==> (alphabet.contains(c) && closure(
            tr,
            move_set(tr, s, c),
        ) != Set::<int>::empty()),
    decreases alphabet.len(),
{
    if alphabet.len() == 0 {
        if alphabet.contains(c) {
            let i = choose|i: int| 0 <= i < alphabet.len() && alphabet[i] == c;
        }
        if avail_chars(tr, s, alphabet).contains(c) {
            let i = choose|i: int|
                0 <= i < avail_chars(tr, s, alphabet).len() && avail_chars(tr, s, alphabet)[i]
                    == c;
        }
    } else {
        let tail = alphabet.drop_first();
        lemma_avail_membership(tr, s, tail, c);
        let f = avail_chars(tr, s, alphabet);
        let rest = avail_chars(tr, s, tail);
        assert(alphabet.contains(c) <==> (alphabet[0] == c || tail.contains(c))) by {
            if alphabet.contains(c) {
                let i = choose|i: int| 0 <= i < alphabet.len() && alphabet[i] == c;
                if i > 0 {
                    assert(tail[i - 1] == c);
                }
            }
            if tail.contains(c) {
                let i = choose|i: int| 0 <= i < tail.len() && tail[i] == c;
                assert(alphabet[i + 1] == c);
            }
        }
        if closure(tr, move_set(tr, s, alphabet[0])) != Set::<int>::empty() {
            assert(f == seq![alphabet[0]] + rest);
            assert(f.contains(c) <==> (alphabet[0] == c || rest.contains(c))) by {
                if alphabet[0] == c {
                    assert(f[0] == c);
                }
                if f.contains(c) {
                    let i = choose|i: int| 0 <= i < f.len() && f[i] == c;
                    if i > 0 {
                        assert(rest[i - 1] == c);
                    }
                }
                if rest.contains(c) {
                    let i = choose|i: int| 0 <= i < rest.len() && rest[i] == c;
                    assert(f[i + 1] == c);
                }
            }
        } else {
            assert(f == rest);
        }
    }
}

#[verifier::rlimit(100)]
#[verifier::spinoff_prover]
proof fn lemma_accepts_by_reps(
    d: Graph<AutomataState, char>,
    reps: Seq<Set<int>>,
    tr: Set<(int, Option<char>, int)>,
    d0: int,
    n0: int,
    acc: int,
    alphabet: Seq<char>,
    k: int,
    input: Seq<char>,
)
    requires
        dfa_realizes(d, d0, tr, n0, acc, alphabet, reps),
        no_dup_chars(alphabet),
        forall|a: int, x: char, b: int|
            #[trigger] tr.contains((a, Some(x), b)) ==> alphabet.contains(x),
        0 <= k < reps.len(),
    ensures
        dfa_accepts(d, k, input) <==> nfa_reach(tr, reps[k], input).contains(acc),
    decreases input.len(),
{
    if input.len() == 0 {
    } else {
        let c = input[0];
        let rest = input.drop_first();
        let s = reps[k];
        let t_set = closure(tr, move_set(tr, s, c));
        let f = avail_chars(tr, s, alphabet);
        let ch = d.out_chain(k);
        assert(node_expanded(d, reps, tr, alphabet, k));
        lemma_avail_membership(tr, s, alphabet, c);
        lemma_avail_nodup(tr, s, alphabet);
        if alphabet.contains(c) && t_set != Set::<int>::empty() {
            let fi = choose|fi: int| 0 <= fi < f.len() && f[fi] == c;
            let j = f.len() - 1 - fi;
            let e = ch[j] as int;
            assert(d.edges@[e].data == c);
            let tgt = d.edges@[e].target as int;
            assert(reps[tgt] == t_set);
            assert(d.has_labeled_edge(k, c, tgt)) by {
                assert(0 <= j < ch.len() && ch[j] < d.edge_cnt());
            }
            lemma_accepts_by_reps(d, reps, tr, d0, n0, acc, alphabet, tgt, rest);
            // the edge is the only one labeled `c`
            assert forall|t2: int| #[trigger]
                d.has_labeled_edge(k, c, t2) implies t2 == tgt by {
                let j2 = choose|j2: int|
                    0 <= j2 < d.out_chain(k).len() && (#[trigger] d.out_chain(k)[j2])
                        < d.edge_cnt() && d.edges@[d.out_chain(k)[j2] as int].data == c
                        && d.edges@[d.out_chain(k)[j2] as int].target == t2;
                assert(f[f.len() - 1 - j2] == c);
                assert(f.len() - 1 - j2 == fi);
            }
            if dfa_accepts(d, k, input) {
                let t2 = choose|t2: int|
                    #[trigger] d.has_labeled_edge(k, c, t2) && dfa_accepts(d, t2, rest);
                assert(t2 == tgt);
            }
            if nfa_reach(tr, s, input).contains(acc) {
                assert(dfa_accepts(d, tgt, rest));
                assert(d.has_labeled_edge(k, c, tgt) && dfa_accepts(d, tgt, rest));
            }
        } else {
            // no step exists on `c`, on either side
            assert(!f.contains(c));
            assert forall|t2: int| !(#[trigger] d.has_labeled_edge(k, c, t2)) by {
                if d.has_labeled_edge(k, c, t2) {
                    let j2 = choose|j2: int|
                        0 <= j2 < d.out_chain(k).len() && (#[trigger] d.out_chain(k)[j2])
                            < d.edge_cnt() && d.edges@[d.out_chain(k)[j2] as int].data == c
                            && d.edges@[d.out_chain(k)[j2] as int].target == t2;
                    assert(f[f.len() - 1 - j2] == c);
                    assert(f.contains(c)) by {
                        assert(0 <= f.len() - 1 - j2 < f.len());
                    }
                }
            }
            assert(!dfa_accepts(d, k, input));
            assert(t_set == Set::<int>::empty()) by {
                if t_set != Set::<int>::empty() {
                    assert(!alphabet.contains(c));
                    assert(move_set(tr, s, c) =~= Set::<int>::empty()) by {
                        assert forall|b: int| !(#[trigger] move_set(tr, s, c).contains(b)) by {
                            if move_set(tr, s, c).contains(b) {
                                let a = choose|a: int| #[trigger]
                                    s.contains(a) && tr.contains((a, Some(c), b));
                                assert(alphabet.contains(c));
                            }
                        }
                    }
                    lemma_closure_empty(tr);
                }
            }
            lemma_reach_of_empty(tr, rest);
            assert(!nfa_reach(tr, s, input).contains(acc));
        }
    }
}

/// Equivalence of the subset construction: the DFA accepts exactly the
/// strings the source NFA accepts, over any input.
pub proof fn lemma_dfa_nfa_equivalence(
    d: Graph<AutomataState, char>,
    d0: int,
    tr: Set<(int, Option<char>, int)>,
    n0: int,
    acc: int,
    alphabet: Seq<char>,
    input: Seq<char>,
)
    requires
        dfa_matches_nfa(d, d0, tr, n0, acc, alphabet),
        no_dup_chars(alphabet),
        forall|a: int, x: char, b: int|
            #[trigger] tr.contains((a, Some(x), b)) ==> alphabet.contains(x),
    ensures
        dfa_accepts(d, d0, input) <==> nfa_accepts(tr, n0, acc, input),
{
    let reps = choose|reps: Seq<Set<int>>| dfa_realizes(d, d0, tr, n0, acc, alphabet, reps);
    lemma_accepts_by_reps(d, reps, tr, d0, n0, acc, alphabet, d0, input);
}

} // verus!
