//! The transition table of the machine: rules keyed by (state, symbol),
//! the set of final states, a reverse adjacency over states, and a
//! per-state distance to the nearest final state computed by reverse
//! breadth-first search. The distance is the scheduler's admissible
//! heuristic: a state is assigned one exactly when it can reach a final
//! state, and the value is the length of the shortest such run.

use crate::tape::Movement;
use vstd::prelude::*;
use vstd::seq_lib::seq_to_set_is_finite;
use vstd::set_lib::lemma_len_subset;

verus! {

/// The key of the rule table: the machine's state and the symbol read.
#[derive(Copy, Clone, PartialEq, Eq, Structural, Debug)]
pub struct Input {
    pub state: usize,
    pub symb: u8,
}

/// How the machine changes on one transition: the next state, the symbol
/// written over the one read, and the cursor movement that follows.
#[derive(Copy, Clone, PartialEq, Eq, Structural, Debug)]
pub struct Transition {
    /// The output state.
    pub state: usize,
    /// The symbol to overwrite the input symbol with.
    pub symb: u8,
    /// The movement of the tape following the write.
    pub dir: Movement,
}

/// What the table holds for a key: no rule, exactly one, or a
/// non-deterministic choice of two or more, in insertion order.
#[derive(Debug)]
pub enum Output {
    NoRule,
    Simple(Transition),
    Multi(Vec<Transition>),
}

impl Output {
    /// The transitions the output offers, in order.
    pub open spec fn seq_of(self) -> Seq<Transition> {
        match self {
            Output::NoRule => Seq::empty(),
            Output::Simple(t) => seq![t],
            Output::Multi(v) => v@,
        }
    }
}

/// Some entry of the association list bears the key.
pub open spec fn assoc_has<K, V>(s: Seq<(K, V)>, k: K) -> bool {
    exists|i: int| 0 <= i < s.len() && (#[trigger] s[i]).0 == k
}

/// The value beside the key; meaningful when the keys are unique.
pub open spec fn assoc_get<K, V>(s: Seq<(K, V)>, k: K) -> V {
    s[choose|i: int| 0 <= i < s.len() && (#[trigger] s[i]).0 == k].1
}

/// No key appears beside two entries.
pub open spec fn assoc_unique<K, V>(s: Seq<(K, V)>) -> bool {
    forall|i: int, j: int|
        0 <= i < j < s.len() ==> (#[trigger] s[i]).0 != (#[trigger] s[j]).0
}

/// With unique keys, the entry at `i` is what lookup finds.
proof fn lemma_assoc_at<K, V>(s: Seq<(K, V)>, i: int)
    requires
        assoc_unique(s),
        0 <= i < s.len(),
    ensures
        assoc_has(s, s[i].0),
        assoc_get(s, s[i].0) == s[i].1,
{
    let k = s[i].0;
    assert(assoc_has(s, k));
    let j = choose|j: int| 0 <= j < s.len() && (#[trigger] s[j]).0 == k;
    if i != j {
        assert(false);
    }
}

/// Replacing the value beside a key, by removing its entry and pushing
/// the pair at the end, leaves every other binding as it was.
proof fn lemma_assoc_replace<K, V>(s1: Seq<(K, V)>, i: int, v2: V)
    requires
        assoc_unique(s1),
        0 <= i < s1.len(),
    ensures
        assoc_unique(s1.remove(i).push((s1[i].0, v2))),
        forall|k: K| #[trigger]
            assoc_has(s1.remove(i).push((s1[i].0, v2)), k) == assoc_has(s1, k),
        forall|k: K|
            assoc_has(s1, k) && k != s1[i].0 ==> #[trigger] assoc_get(
                s1.remove(i).push((s1[i].0, v2)),
                k,
            ) == assoc_get(s1, k),
        assoc_get(s1.remove(i).push((s1[i].0, v2)), s1[i].0) == v2,
{
    s1.remove_ensures(i);
    let s2 = s1.remove(i).push((s1[i].0, v2));
    assert(s2.len() == s1.len());
    assert forall|j: int| 0 <= j < s1.len() - 1 implies s2[j] == (if j < i {
        s1[j]
    } else {
        s1[j + 1]
    }) by {}
    assert(s2[s1.len() - 1] == (s1[i].0, v2));
    assert(assoc_unique(s2));
    assert forall|k: K| #[trigger]
        assoc_has(s2, k) == assoc_has(s1, k) by {
        if assoc_has(s1, k) {
            let j = choose|j: int| 0 <= j < s1.len() && (#[trigger] s1[j]).0 == k;
            if j == i {
                assert(s2[s1.len() - 1].0 == k);
            } else if j < i {
                assert(s2[j].0 == k);
            } else {
                assert(s2[j - 1].0 == k);
            }
            assert(assoc_has(s2, k));
        }
        if assoc_has(s2, k) {
            let j = choose|j: int| 0 <= j < s2.len() && (#[trigger] s2[j]).0 == k;
            if j == s1.len() - 1 {
                assert(s1[i].0 == k);
            } else if j < i {
                assert(s1[j].0 == k);
            } else {
                assert(s1[j + 1].0 == k);
            }
            assert(assoc_has(s1, k));
        }
    }
    assert forall|k: K|
        assoc_has(s1, k) && k != s1[i].0 implies #[trigger] assoc_get(s2, k) == assoc_get(
        s1,
        k,
    ) by {
        let j = choose|j: int| 0 <= j < s1.len() && (#[trigger] s1[j]).0 == k;
        lemma_assoc_at(s1, j);
        if j < i {
            lemma_assoc_at(s2, j);
        } else {
            assert(j != i);
            lemma_assoc_at(s2, j - 1);
        }
    }
    lemma_assoc_at(s2, s1.len() - 1);
}

/// Pushing a fresh key binds it and leaves every other binding as it was.
proof fn lemma_assoc_push<K, V>(s1: Seq<(K, V)>, k0: K, v: V)
    requires
        assoc_unique(s1),
        !assoc_has(s1, k0),
    ensures
        assoc_unique(s1.push((k0, v))),
        forall|k: K| #[trigger]
            assoc_has(s1.push((k0, v)), k) == (assoc_has(s1, k) || k == k0),
        forall|k: K|
            assoc_has(s1, k) ==> #[trigger] assoc_get(s1.push((k0, v)), k) == assoc_get(s1, k),
        assoc_get(s1.push((k0, v)), k0) == v,
{
    let s2 = s1.push((k0, v));
    assert forall|i: int, j: int|
        0 <= i < j < s2.len() implies (#[trigger] s2[i]).0 != (#[trigger] s2[j]).0 by {
        if j == s1.len() {
            assert(s2[i] == s1[i]);
            if s1[i].0 == k0 {
                assert(assoc_has(s1, k0));
            }
        }
    }
    assert forall|k: K| #[trigger]
        assoc_has(s2, k) == (assoc_has(s1, k) || k == k0) by {
        if assoc_has(s1, k) {
            let j = choose|j: int| 0 <= j < s1.len() && (#[trigger] s1[j]).0 == k;
            assert(s2[j].0 == k);
        }
        if k == k0 {
            assert(s2[s1.len() as int].0 == k);
        }
        if assoc_has(s2, k) && k != k0 {
            let j = choose|j: int| 0 <= j < s2.len() && (#[trigger] s2[j]).0 == k;
            assert(j < s1.len());
            assert(s1[j].0 == k);
        }
    }
    assert forall|k: K|
        assoc_has(s1, k) implies #[trigger] assoc_get(s2, k) == assoc_get(s1, k) by {
        let j = choose|j: int| 0 <= j < s1.len() && (#[trigger] s1[j]).0 == k;
        lemma_assoc_at(s1, j);
        lemma_assoc_at(s2, j);
    }
    lemma_assoc_at(s2, s1.len() as int);
}

/// A pushed element joins the sequence without hiding the others.
proof fn lemma_contains_push<A>(s: Seq<A>, x: A, y: A)
    requires
        s.contains(y) || x == y,
    ensures
        s.push(x).contains(y),
{
    if s.contains(y) {
        let w = choose|w: int| 0 <= w < s.len() && s[w] == y;
        assert(s.push(x)[w] == y);
    } else {
        assert(s.push(x)[s.len() as int] == y);
    }
}

/// Some rule at state `p` offers a transition into state `q`.
pub open spec fn edge(m: Map<Input, Seq<Transition>>, p: usize, q: usize) -> bool {
    exists|k: Input, i: int|
        #![auto]
        m.dom().contains(k) && k.state == p && 0 <= i < m[k].len() && m[k][i].state == q
}

/// From state `s`, some sequence of at most `k` transitions of the table
/// ends in a final state.
pub open spec fn reaches(m: Map<Input, Seq<Transition>>, fins: Set<usize>, s: usize, k: nat) -> bool
    decreases k,
{
    fins.contains(s) || (k > 0 && exists|t: usize|
        #[trigger] edge(m, s, t) && reaches(m, fins, t, (k - 1) as nat))
}

/// The second table offers every transition the first does, and possibly
/// more: each key keeps its transitions as a prefix.
pub open spec fn table_extends(
    m2: Map<Input, Seq<Transition>>,
    m1: Map<Input, Seq<Transition>>,
) -> bool {
    forall|k: Input|
        m1.dom().contains(k) ==> #[trigger] m2.dom().contains(k) && m1[k].is_prefix_of(m2[k])
}

/// An edge survives growing the table.
proof fn lemma_edge_monotone(
    m1: Map<Input, Seq<Transition>>,
    m2: Map<Input, Seq<Transition>>,
    p: usize,
    q: usize,
)
    requires
        edge(m1, p, q),
        table_extends(m2, m1),
    ensures
        edge(m2, p, q),
{
    let (key, i): (Input, int) = choose|key: Input, i: int|
        #![auto]
        m1.dom().contains(key) && key.state == p && 0 <= i < m1[key].len() && m1[key][i].state
            == q;
    assert(m2.dom().contains(key) && m1[key].is_prefix_of(m2[key]));
    assert(m2[key][i].state == q);
}

/// Reachability survives growing the table and the final set.
proof fn lemma_reaches_monotone(
    m1: Map<Input, Seq<Transition>>,
    m2: Map<Input, Seq<Transition>>,
    f1: Set<usize>,
    f2: Set<usize>,
    s: usize,
    k: nat,
)
    requires
        reaches(m1, f1, s, k),
        table_extends(m2, m1),
        f1.subset_of(f2),
    ensures
        reaches(m2, f2, s, k),
    decreases k,
{
    if f1.contains(s) {
    } else {
        let t = choose|t: usize| #[trigger] edge(m1, s, t) && reaches(m1, f1, t, (k - 1) as nat);
        assert(edge(m2, s, t)) by {
            let (key, i): (Input, int) = choose|key: Input, i: int|
                #![auto]
                m1.dom().contains(key) && key.state == s && 0 <= i < m1[key].len()
                    && m1[key][i].state == t;
            assert(m2.dom().contains(key) && m1[key].is_prefix_of(m2[key]));
            assert(m2[key][i].state == t);
        }
        lemma_reaches_monotone(m1, m2, f1, f2, t, (k - 1) as nat);
    }
}

/// Soundness of the scheduler's heuristic: whenever a state carries a
/// finite distance `k`, some sequence of at most `k` transitions leads
/// from it to a final state. The distance is therefore a lower bound on
/// the steps any accepting run still needs.
pub proof fn lemma_distance_reaches(rs: &RuleStore, s: usize)
    requires
        rs.wf(),
        rs.dist_map().dom().contains(s),
    ensures
        reaches(rs.rule_map(), rs.fin_set(), s, rs.dist_map()[s] as nat),
{
    let j = choose|j: int|
        0 <= j < rs.states_dist@.len() && (#[trigger] rs.states_dist@[j]).0 == s;
    lemma_assoc_at(rs.states_dist@, j);
}

/// Every state a reverse-adjacency row holds.
spec fn back_values(bt: Seq<(usize, Vec<usize>)>) -> Set<usize>
    decreases bt.len(),
{
    if bt.len() == 0 {
        Set::empty()
    } else {
        back_values(bt.drop_last()).union(bt.last().1@.to_set())
    }
}

/// `back_values` is finite and holds exactly the rows' states.
proof fn lemma_back_values(bt: Seq<(usize, Vec<usize>)>)
    ensures
        back_values(bt).finite(),
        forall|i: int, j: int|
            0 <= i < bt.len() && 0 <= j < bt[i].1@.len() ==> back_values(bt).contains(
                #[trigger] bt[i].1@[j],
            ),
    decreases bt.len(),
{
    broadcast use seq_to_set_is_finite;

    if bt.len() == 0 {
    } else {
        lemma_back_values(bt.drop_last());
        assert forall|i: int, j: int|
            0 <= i < bt.len() && 0 <= j < bt[i].1@.len() implies back_values(bt).contains(
            #[trigger] bt[i].1@[j],
        ) by {
            if i < bt.len() - 1 {
                assert(bt.drop_last()[i] == bt[i]);
            } else {
                assert(bt.last().1@.to_set().contains(bt[i].1@[j]));
            }
        }
    }
}

/// The rule store: the transitions, the final states, the reverse
/// adjacency filled as rules come in, and the distances that
/// `compute_dist` derives from them.
pub struct RuleStore {
    rules: Vec<(Input, Output)>,
    states_backtrace: Vec<(usize, Vec<usize>)>,
    states_dist: Vec<(usize, usize)>,
    fin_s: Vec<usize>,
}

impl RuleStore {
    /// The table: each stored key beside its transitions, in insertion
    /// order.
    pub closed spec fn rule_map(self) -> Map<Input, Seq<Transition>> {
        Map::new(
            |k: Input| assoc_has(self.rules@, k),
            |k: Input| assoc_get(self.rules@, k).seq_of(),
        )
    }

    /// The accepting states.
    pub closed spec fn fin_set(self) -> Set<usize> {
        Set::new(|s: usize| self.fin_s@.contains(s))
    }

    /// The distances assigned so far: from each covered state, the length
    /// of some transition sequence into a final state.
    pub closed spec fn dist_map(self) -> Map<usize, usize> {
        Map::new(
            |s: usize| assoc_has(self.states_dist@, s),
            |s: usize| assoc_get(self.states_dist@, s),
        )
    }

    /// Internal invariant: unique keys everywhere, no stored `NoRule`, a
    /// `Multi` of at least two, a reverse adjacency that names exactly the
    /// edges of the table (only real ones, and all of them), and distances
    /// that are sound reachability bounds.
    pub closed spec fn wf(self) -> bool {
        &&& assoc_unique(self.rules@)
        &&& assoc_unique(self.states_backtrace@)
        &&& assoc_unique(self.states_dist@)
        &&& (forall|i: int|
            0 <= i < self.rules@.len() ==> match (#[trigger] self.rules@[i]).1 {
                Output::NoRule => false,
                Output::Simple(_) => true,
                Output::Multi(v) => v@.len() >= 2,
            })
        &&& (forall|q: usize, j: int|
            assoc_has(self.states_backtrace@, q) && 0 <= j < assoc_get(
                self.states_backtrace@,
                q,
            )@.len() ==> edge(
                self.rule_map(),
                #[trigger] assoc_get(self.states_backtrace@, q)@[j],
                q,
            ))
        &&& (forall|p: usize, q: usize|
            #[trigger] edge(self.rule_map(), p, q) ==> assoc_has(self.states_backtrace@, q)
                && assoc_get(self.states_backtrace@, q)@.contains(p))
        &&& (forall|i: int|
            0 <= i < self.states_dist@.len() ==> reaches(
                self.rule_map(),
                self.fin_set(),
                (#[trigger] self.states_dist@[i]).0,
                self.states_dist@[i].1 as nat,
            ))
    }

    /// An empty store: no rules, no finals, no distances.
    pub fn new() -> (rs: RuleStore)
        ensures
            rs.wf(),
            rs.rule_map() == Map::<Input, Seq<Transition>>::empty(),
            rs.fin_set() == Set::<usize>::empty(),
            rs.dist_map() == Map::<usize, usize>::empty(),
    {
        let rs = RuleStore {
            rules: Vec::new(),
            states_backtrace: Vec::new(),
            states_dist: Vec::new(),
            fin_s: Vec::new(),
        };
        proof {
            assert(rs.rule_map() =~= Map::<Input, Seq<Transition>>::empty());
            assert(rs.fin_set() =~= Set::<usize>::empty());
            assert(rs.dist_map() =~= Map::<usize, usize>::empty());
        }
        rs
    }

    /// The index of the entry bearing the key, if any.
    fn find_rule_idx(&self, state_in: usize, symb_in: u8) -> (r: Option<usize>)
        ensures
            r matches Some(i) ==> i < self.rules@.len() && self.rules@[i as int].0 == (Input {
                state: state_in,
                symb: symb_in,
            }),
            r is None ==> !assoc_has(self.rules@, Input { state: state_in, symb: symb_in }),
    {
        let mut i: usize = 0;
        while i < self.rules.len()
            invariant
                i <= self.rules@.len(),
                forall|j: int|
                    0 <= j < i ==> (#[trigger] self.rules@[j]).0 != (Input {
                        state: state_in,
                        symb: symb_in,
                    }),
            decreases self.rules@.len() - i,
        {
            if self.rules[i].0.state == state_in && self.rules[i].0.symb == symb_in {
                return Some(i);
            }
            i = i + 1;
        }
        None
    }

    /// The index of the reverse-adjacency row for the state, if any.
    fn find_back_idx(&self, state: usize) -> (r: Option<usize>)
        ensures
            r matches Some(i) ==> i < self.states_backtrace@.len()
                && self.states_backtrace@[i as int].0 == state,
            r is None ==> !assoc_has(self.states_backtrace@, state),
    {
        let mut i: usize = 0;
        while i < self.states_backtrace.len()
            invariant
                i <= self.states_backtrace@.len(),
                forall|j: int| 0 <= j < i ==> (#[trigger] self.states_backtrace@[j]).0 != state,
            decreases self.states_backtrace@.len() - i,
        {
            if self.states_backtrace[i].0 == state {
                return Some(i);
            }
            i = i + 1;
        }
        None
    }

    /// The index of the distance entry for the state, if any.
    fn find_dist_idx(&self, state: usize) -> (r: Option<usize>)
        ensures
            r matches Some(i) ==> i < self.states_dist@.len()
                && self.states_dist@[i as int].0 == state,
            r is None ==> !assoc_has(self.states_dist@, state),
    {
        let mut i: usize = 0;
        while i < self.states_dist.len()
            invariant
                i <= self.states_dist@.len(),
                forall|j: int| 0 <= j < i ==> (#[trigger] self.states_dist@[j]).0 != state,
            decreases self.states_dist@.len() - i,
        {
            if self.states_dist[i].0 == state {
                return Some(i);
            }
            i = i + 1;
        }
        None
    }

    /// Insert the rule `(state_in, symb_in) -> (state_out, symb_out, dir)`.
    /// A key's first rule is Simple; a second turns it Multi, and further
    /// ones append, all in insertion order. `state_in` is recorded as a
    /// predecessor of `state_out`.
    pub fn add_rule(
        &mut self,
        state_in: usize,
        symb_in: u8,
        symb_out: u8,
        state_out: usize,
        dir: Movement,
    )
        requires
            old(self).wf(),
        ensures
            final(self).wf(),
            final(self).rule_map() == old(self).rule_map().insert(
                Input { state: state_in, symb: symb_in },
                (if old(self).rule_map().dom().contains(
                    Input { state: state_in, symb: symb_in },
                ) {
                    old(self).rule_map()[Input { state: state_in, symb: symb_in }]
                } else {
                    Seq::empty()
                }).push(Transition { state: state_out, symb: symb_out, dir }),
            ),
            final(self).fin_set() == old(self).fin_set(),
            final(self).dist_map() == old(self).dist_map(),
    {
        let key = Input { state: state_in, symb: symb_in };
        let new_t = Transition { state: state_out, symb: symb_out, dir };
        let ghost m1 = self.rule_map();
        let ghost old_seq: Seq<Transition> = if m1.dom().contains(key) {
            m1[key]
        } else {
            Seq::empty()
        };
        let ghost m2 = m1.insert(key, old_seq.push(new_t));
        match self.find_rule_idx(state_in, symb_in) {
            Some(i) => {
                proof {
                    lemma_assoc_at(old(self).rules@, i as int);
                }
                let (k0, out) = self.rules.remove(i);
                let out2 = match out {
                    Output::NoRule => Output::Simple(new_t),
                    Output::Simple(tr) => {
                        let mut v: Vec<Transition> = Vec::new();
                        v.push(tr);
                        v.push(new_t);
                        Output::Multi(v)
                    }
                    Output::Multi(mut v) => {
                        v.push(new_t);
                        Output::Multi(v)
                    }
                };
                proof {
                    assert(out2.seq_of() =~= old_seq.push(new_t));
                }
                self.rules.push((k0, out2));
                proof {
                    lemma_assoc_replace(old(self).rules@, i as int, out2);
                    assert(self.rules@ == old(self).rules@.remove(i as int).push((key, out2)));
                    assert(self.rule_map() =~= m2);
                }
            }
            None => {
                self.rules.push((key, Output::Simple(new_t)));
                proof {
                    lemma_assoc_push(old(self).rules@, key, Output::Simple(new_t));
                    assert(Output::Simple(new_t).seq_of() =~= old_seq.push(new_t));
                    assert(self.rule_map() =~= m2);
                }
            }
        }
        let ghost bt1 = self.states_backtrace@;
        match self.find_back_idx(state_out) {
            Some(i) => {
                proof {
                    lemma_assoc_at(bt1, i as int);
                }
                let (s0, mut v) = self.states_backtrace.remove(i);
                let ghost v1 = v@;
                v.push(state_in);
                proof {
                    lemma_assoc_replace(bt1, i as int, v);
                }
                self.states_backtrace.push((s0, v));
            }
            None => {
                let mut v: Vec<usize> = Vec::new();
                v.push(state_in);
                proof {
                    lemma_assoc_push(bt1, state_out, v);
                }
                self.states_backtrace.push((state_out, v));
            }
        }
        proof {
            assert(table_extends(m2, m1)) by {
                assert forall|k: Input| m1.dom().contains(k) implies #[trigger] m2.dom().contains(
                    k,
                ) && m1[k].is_prefix_of(m2[k]) by {
                    if k == key {
                        assert(m1[k].is_prefix_of(m1[k].push(new_t)));
                    } else {
                        assert(m1[k].is_prefix_of(m1[k]));
                    }
                }
            }
            assert(edge(m2, state_in, state_out)) by {
                assert(m2.dom().contains(key));
                assert(m2[key][old_seq.len() as int].state == state_out);
            }
            assert forall|q: usize, j: int|
                assoc_has(self.states_backtrace@, q) && 0 <= j < assoc_get(
                    self.states_backtrace@,
                    q,
                )@.len() implies edge(
                self.rule_map(),
                #[trigger] assoc_get(self.states_backtrace@, q)@[j],
                q,
            ) by {
                let row = assoc_get(self.states_backtrace@, q)@;
                if q == state_out {
                    let old_row: Seq<usize> = if assoc_has(bt1, state_out) {
                        assoc_get(bt1, state_out)@
                    } else {
                        Seq::empty()
                    };
                    assert(row == old_row.push(state_in));
                    if j < old_row.len() {
                        assert(edge(m1, old_row[j], q));
                        lemma_edge_monotone(m1, m2, old_row[j], q);
                    } else {
                        assert(row[j] == state_in);
                    }
                } else {
                    assert(assoc_has(bt1, q));
                    assert(assoc_get(self.states_backtrace@, q) == assoc_get(bt1, q));
                    assert(edge(m1, row[j], q));
                    lemma_edge_monotone(m1, m2, row[j], q);
                }
            }
            assert forall|p: usize, q: usize| #[trigger]
                edge(self.rule_map(), p, q) implies assoc_has(self.states_backtrace@, q)
                && assoc_get(self.states_backtrace@, q)@.contains(p) by {
                let bt2 = self.states_backtrace@;
                let old_row: Seq<usize> = if assoc_has(bt1, state_out) {
                    assoc_get(bt1, state_out)@
                } else {
                    Seq::empty()
                };
                let (key2, i2): (Input, int) = choose|key2: Input, i2: int|
                    #![auto]
                    m2.dom().contains(key2) && key2.state == p && 0 <= i2 < m2[key2].len()
                        && m2[key2][i2].state == q;
                if key2 == key && i2 == old_seq.len() {
                    assert(p == state_in && q == state_out);
                    assert(assoc_get(bt2, state_out)@ == old_row.push(state_in));
                    lemma_contains_push(old_row, state_in, state_in);
                } else {
                    assert(edge(m1, p, q)) by {
                        if key2 == key {
                            assert(m2[key] == old_seq.push(new_t));
                            assert(i2 < old_seq.len());
                            assert(m1.dom().contains(key));
                            assert(m1[key][i2] == m2[key][i2]);
                        } else {
                            assert(m2[key2] == m1[key2]);
                        }
                    }
                    assert(assoc_has(bt1, q) && assoc_get(bt1, q)@.contains(p));
                    if q == state_out {
                        assert(assoc_get(bt2, q)@ == old_row.push(state_in));
                        lemma_contains_push(old_row, state_in, p);
                    } else {
                        assert(assoc_has(bt2, q));
                        assert(assoc_get(bt2, q) == assoc_get(bt1, q));
                    }
                }
            }
            assert(self.fin_set() =~= old(self).fin_set());
            assert(self.dist_map() =~= old(self).dist_map());
            assert forall|i: int|
                0 <= i < self.states_dist@.len() implies reaches(
                self.rule_map(),
                self.fin_set(),
                (#[trigger] self.states_dist@[i]).0,
                self.states_dist@[i].1 as nat,
            ) by {
                lemma_reaches_monotone(
                    m1,
                    m2,
                    old(self).fin_set(),
                    self.fin_set(),
                    self.states_dist@[i].0,
                    self.states_dist@[i].1 as nat,
                );
            }
        }
    }

    /// Mark a state accepting.
    pub fn add_final(&mut self, final_state: usize)
        requires
            old(self).wf(),
        ensures
            final(self).wf(),
            final(self).fin_set() == old(self).fin_set().insert(final_state),
            final(self).rule_map() == old(self).rule_map(),
            final(self).dist_map() == old(self).dist_map(),
    {
        let mut i: usize = 0;
        let mut present: bool = false;
        while i < self.fin_s.len()
            invariant
                i <= self.fin_s@.len(),
                present == exists|j: int| 0 <= j < i && self.fin_s@[j] == final_state,
            decreases self.fin_s@.len() - i,
        {
            if self.fin_s[i] == final_state {
                present = true;
            }
            i = i + 1;
        }
        if !present {
            self.fin_s.push(final_state);
        }
        proof {
            assert forall|x: usize|
                self.fin_s@.contains(x) == (old(self).fin_s@.contains(x) || x
                    == final_state) by {
                if old(self).fin_s@.contains(x) {
                    let j = choose|j: int|
                        0 <= j < old(self).fin_s@.len() && old(self).fin_s@[j] == x;
                    assert(self.fin_s@[j] == x);
                }
                if x == final_state {
                    if present {
                        assert(old(self).fin_s@.contains(final_state));
                    } else {
                        assert(self.fin_s@[old(self).fin_s@.len() as int] == final_state);
                    }
                }
                if self.fin_s@.contains(x) && x != final_state {
                    let j = choose|j: int| 0 <= j < self.fin_s@.len() && self.fin_s@[j] == x;
                    assert(j < old(self).fin_s@.len());
                    assert(old(self).fin_s@[j] == x);
                }
            }
            assert(self.fin_set() =~= old(self).fin_set().insert(final_state));
            assert(self.rule_map() =~= old(self).rule_map());
            assert forall|i: int|
                0 <= i < self.states_dist@.len() implies reaches(
                self.rule_map(),
                self.fin_set(),
                (#[trigger] self.states_dist@[i]).0,
                self.states_dist@[i].1 as nat,
            ) by {
                lemma_reaches_monotone(
                    self.rule_map(),
                    self.rule_map(),
                    old(self).fin_set(),
                    self.fin_set(),
                    self.states_dist@[i].0,
                    self.states_dist@[i].1 as nat,
                );
            }
        }
    }

    /// Is the state accepting?
    pub fn is_final(&self, state: usize) -> (r: bool)
        ensures
            r == self.fin_set().contains(state),
    {
        let mut i: usize = 0;
        while i < self.fin_s.len()
            invariant
                i <= self.fin_s@.len(),
                forall|j: int| 0 <= j < i ==> self.fin_s@[j] != state,
            decreases self.fin_s@.len() - i,
        {
            if self.fin_s[i] == state {
                return true;
            }
            i = i + 1;
        }
        false
    }

    /// A copy of what the table holds for `(state_in, symb_in)`: `NoRule`
    /// exactly when no rule was added for the key, `Simple` for one rule,
    /// `Multi` for the non-deterministic choice of two or more.
    pub fn get(&self, state_in: usize, symb_in: u8) -> (r: Output)
        requires
            self.wf(),
        ensures
            (r is NoRule) == !self.rule_map().dom().contains(
                Input { state: state_in, symb: symb_in },
            ),
            r.seq_of() == (if self.rule_map().dom().contains(
                Input { state: state_in, symb: symb_in },
            ) {
                self.rule_map()[Input { state: state_in, symb: symb_in }]
            } else {
                Seq::<Transition>::empty()
            }),
            r matches Output::Multi(v) ==> v@.len() >= 2,
            r matches Output::Simple(t) ==> self.rule_map()[Input { state: state_in, symb: symb_in }]
                == seq![t],
    {
        match self.find_rule_idx(state_in, symb_in) {
            Some(i) => {
                proof {
                    lemma_assoc_at(self.rules@, i as int);
                }
                match &self.rules[i].1 {
                    Output::NoRule => vstd::pervasive::unreached(),
                    Output::Simple(t) => Output::Simple(*t),
                    Output::Multi(v) => {
                        let mut c: Vec<Transition> = Vec::new();
                        let mut j: usize = 0;
                        while j < v.len()
                            invariant
                                j <= v@.len(),
                                c@ == v@.subrange(0, j as int),
                            decreases v@.len() - j,
                        {
                            c.push(v[j]);
                            assert(c@ == v@.subrange(0, j + 1 as int));
                            j = j + 1;
                        }
                        proof {
                            assert(c@ == v@.subrange(0, v@.len() as int));
                            assert(v@.subrange(0, v@.len() as int) == v@);
                        }
                        Output::Multi(c)
                    }
                }
            }
            None => Output::NoRule,
        }
    }

    /// Every state the search could ever assign a distance to: the final
    /// states and the states the reverse adjacency names.
    spec fn relevant(self) -> Set<usize> {
        self.fin_s@.to_set().union(back_values(self.states_backtrace@))
    }

    /// Distance entries with unique keys drawn from `rel` number at most
    /// `rel`'s size.
    proof fn lemma_dist_card(s: Seq<(usize, usize)>, rel: Set<usize>)
        requires
            assoc_unique(s),
            rel.finite(),
            forall|i: int| 0 <= i < s.len() ==> rel.contains((#[trigger] s[i]).0),
        ensures
            s.len() <= rel.len(),
    {
        let keys = s.map_values(|e: (usize, usize)| e.0);
        assert forall|i: int, j: int|
            0 <= i < keys.len() && 0 <= j < keys.len() && i != j implies keys[i] != keys[j] by {
            assert(keys[i] == s[i].0);
            assert(keys[j] == s[j].0);
        }
        assert(keys.no_duplicates());
        keys.unique_seq_to_set();
        assert forall|x: usize| keys.to_set().contains(x) implies rel.contains(x) by {
            let i = choose|i: int| 0 <= i < keys.len() && keys[i] == x;
            assert(s[i].0 == x);
        }
        lemma_len_subset(keys.to_set(), rel);
    }

    /// Search closure during the breadth-first layers: each predecessor of
    /// an assigned state is itself assigned at most one layer further out,
    /// or waits in the frontier for the current layer `d`.
    spec fn bfs_closed(
        dist: Seq<(usize, usize)>,
        m: Map<Input, Seq<Transition>>,
        frontier: Seq<usize>,
        d: int,
    ) -> bool {
        forall|t: usize, p: usize|
            assoc_has(dist, t) && #[trigger] edge(m, p, t) ==> (assoc_has(dist, p)
                && assoc_get(dist, p) <= assoc_get(dist, t) + 1) || (frontier.contains(p) && d
                <= assoc_get(dist, t) + 1)
    }

    /// The same closure, except that states assigned in the layer being
    /// built (`newly`, at distance `d`) may still owe their predecessors.
    spec fn bfs_closed_except(
        dist: Seq<(usize, usize)>,
        m: Map<Input, Seq<Transition>>,
        frontier: Seq<usize>,
        d: int,
        newly: Seq<usize>,
    ) -> bool {
        forall|t: usize, p: usize|
            assoc_has(dist, t) && #[trigger] edge(m, p, t) ==> (assoc_has(dist, p)
                && assoc_get(dist, p) <= assoc_get(dist, t) + 1) || (frontier.contains(p) && d
                <= assoc_get(dist, t) + 1) || (assoc_get(dist, t) == d && newly.contains(t))
    }

    /// In a table whose finals are assigned 0 and whose assignment is
    /// closed under predecessors with unit cost, every state that reaches
    /// a final within `k` transitions is assigned at most `k`.
    proof fn lemma_bfs_complete(
        m: Map<Input, Seq<Transition>>,
        fins: Set<usize>,
        dm: Seq<(usize, usize)>,
        s: usize,
        k: nat,
    )
        requires
            forall|f: usize| fins.contains(f) ==> assoc_has(dm, f) && assoc_get(dm, f) == 0,
            forall|t: usize, p: usize|
                assoc_has(dm, t) && #[trigger] edge(m, p, t) ==> assoc_has(dm, p)
                    && assoc_get(dm, p) <= assoc_get(dm, t) + 1,
            reaches(m, fins, s, k),
        ensures
            assoc_has(dm, s),
            assoc_get(dm, s) <= k,
        decreases k,
    {
        if fins.contains(s) {
        } else {
            let t = choose|t: usize|
                #[trigger] edge(m, s, t) && reaches(m, fins, t, (k - 1) as nat);
            Self::lemma_bfs_complete(m, fins, dm, t, (k - 1) as nat);
        }
    }

    /// Assign each state its distance to a final state by reverse
    /// breadth-first search: finals get 0, their predecessors 1, and so
    /// on, each state keeping the first layer that reaches it. The map
    /// ends up exact: a state has an entry exactly when it can reach a
    /// final state (soundness lives in `wf`, completeness with minimality
    /// in the ensures), and a state with no path gets none.
    pub fn compute_dist(&mut self)
        requires
            old(self).wf(),
        ensures
            final(self).wf(),
            final(self).rule_map() == old(self).rule_map(),
            final(self).fin_set() == old(self).fin_set(),
            forall|f: usize|
                final(self).fin_set().contains(f) ==> final(self).dist_map().dom().contains(f)
                    && final(self).dist_map()[f] == 0,
            forall|s: usize, k: nat|
                reaches(final(self).rule_map(), final(self).fin_set(), s, k) ==> final(self).dist_map().dom().contains(s) && final(self).dist_map()[s] <= k,
    {
        self.states_dist = Vec::new();
        proof {
            broadcast use vstd::set::group_set_axioms;
            broadcast use seq_to_set_is_finite;

            lemma_back_values(self.states_backtrace@);
            assert(self.rule_map() =~= old(self).rule_map());
            assert(self.fin_set() =~= old(self).fin_set());
            assert(self.wf());
        }
        let mut frontier: Vec<usize> = Vec::new();
        let mut fi: usize = 0;
        while fi < self.fin_s.len()
            invariant
                fi <= self.fin_s@.len(),
                frontier@ == self.fin_s@.subrange(0, fi as int),
            decreases self.fin_s@.len() - fi,
        {
            let f = self.fin_s[fi];
            frontier.push(f);
            assert(frontier@ == self.fin_s@.subrange(0, fi + 1 as int));
            fi = fi + 1;
        }
        proof {
            assert(frontier@ == self.fin_s@);
        }
        let mut d: usize = 0;
        loop
            invariant_except_break
                self.rules@ == old(self).rules@,
                self.states_backtrace@ == old(self).states_backtrace@,
                self.fin_s@ == old(self).fin_s@,
                self.wf(),
                self.relevant().finite(),
                d <= self.states_dist@.len(),
                forall|j: int|
                    0 <= j < frontier@.len() ==> reaches(
                        self.rule_map(),
                        self.fin_set(),
                        #[trigger] frontier@[j],
                        d as nat,
                    ),
                forall|j: int|
                    0 <= j < frontier@.len() ==> self.relevant().contains(
                        #[trigger] frontier@[j],
                    ),
                forall|i: int|
                    0 <= i < self.states_dist@.len() ==> self.relevant().contains(
                        (#[trigger] self.states_dist@[i]).0,
                    ),
                d == 0 ==> frontier@ == self.fin_s@,
                d > 0 ==> forall|f: int|
                    0 <= f < self.fin_s@.len() ==> assoc_has(
                        self.states_dist@,
                        #[trigger] self.fin_s@[f],
                    ) && assoc_get(self.states_dist@, self.fin_s@[f]) == 0,
                forall|t: usize| #[trigger]
                    assoc_has(self.states_dist@, t) ==> assoc_get(self.states_dist@, t) < d,
                Self::bfs_closed(self.states_dist@, self.rule_map(), frontier@, d as int),
            ensures
                self.rules@ == old(self).rules@,
                self.states_backtrace@ == old(self).states_backtrace@,
                self.fin_s@ == old(self).fin_s@,
                self.wf(),
                forall|f: int|
                    0 <= f < self.fin_s@.len() ==> assoc_has(
                        self.states_dist@,
                        #[trigger] self.fin_s@[f],
                    ) && assoc_get(self.states_dist@, self.fin_s@[f]) == 0,
                forall|t: usize, p: usize|
                    assoc_has(self.states_dist@, t) && #[trigger] edge(self.rule_map(), p, t)
                        ==> assoc_has(self.states_dist@, p) && assoc_get(self.states_dist@, p)
                        <= assoc_get(self.states_dist@, t) + 1,
            decreases self.relevant().len() - self.states_dist@.len(),
        {
            proof {
                Self::lemma_dist_card(self.states_dist@, self.relevant());
            }
            let ghost dist0 = self.states_dist@;
            let mut newly: Vec<usize> = Vec::new();
            let mut i: usize = 0;
            while i < frontier.len()
                invariant
                    i <= frontier@.len(),
                    self.rules@ == old(self).rules@,
                    self.states_backtrace@ == old(self).states_backtrace@,
                    self.fin_s@ == old(self).fin_s@,
                    self.wf(),
                    dist0.is_prefix_of(self.states_dist@),
                    self.states_dist@.len() == dist0.len() + newly@.len(),
                    forall|j: int|
                        0 <= j < frontier@.len() ==> reaches(
                            self.rule_map(),
                            self.fin_set(),
                            #[trigger] frontier@[j],
                            d as nat,
                        ),
                    forall|j: int|
                        0 <= j < frontier@.len() ==> self.relevant().contains(
                            #[trigger] frontier@[j],
                        ),
                    forall|i2: int|
                        0 <= i2 < self.states_dist@.len() ==> self.relevant().contains(
                            (#[trigger] self.states_dist@[i2]).0,
                        ),
                    forall|j: int|
                        0 <= j < newly@.len() ==> reaches(
                            self.rule_map(),
                            self.fin_set(),
                            #[trigger] newly@[j],
                            d as nat,
                        ),
                    d == 0 ==> frontier@ == self.fin_s@,
                    forall|j: int|
                        0 <= j < i ==> assoc_has(self.states_dist@, #[trigger] frontier@[j])
                            && assoc_get(self.states_dist@, frontier@[j]) <= d,
                    forall|t: usize| #[trigger]
                        assoc_has(self.states_dist@, t) ==> assoc_get(self.states_dist@, t)
                            <= d,
                    forall|x: int|
                        0 <= x < newly@.len() ==> assoc_has(
                            self.states_dist@,
                            #[trigger] newly@[x],
                        ) && assoc_get(self.states_dist@, newly@[x]) == d,
                    forall|t: usize|
                        #[trigger] assoc_has(self.states_dist@, t) && assoc_get(
                            self.states_dist@,
                            t,
                        ) == d ==> newly@.contains(t),
                    d > 0 ==> forall|f: int|
                        0 <= f < self.fin_s@.len() ==> assoc_has(
                            self.states_dist@,
                            #[trigger] self.fin_s@[f],
                        ) && assoc_get(self.states_dist@, self.fin_s@[f]) == 0,
                    Self::bfs_closed_except(
                        self.states_dist@,
                        self.rule_map(),
                        frontier@,
                        d as int,
                        newly@,
                    ),
                decreases frontier@.len() - i,
            {
                let st = frontier[i];
                match self.find_dist_idx(st) {
                    Some(_) => {
                        proof {
                            assert(assoc_has(self.states_dist@, st));
                        }
                    }
                    None => {
                        let ghost pre = self.states_dist@;
                        let ghost newly0 = newly@;
                        self.states_dist.push((st, d));
                        newly.push(st);
                        proof {
                            lemma_assoc_push(pre, st, d);
                            assert(newly@ == newly0.push(st));
                            assert forall|j: int|
                                0 <= j <= i implies assoc_has(
                                self.states_dist@,
                                #[trigger] frontier@[j],
                            ) && assoc_get(self.states_dist@, frontier@[j]) <= d by {
                                if j < i {
                                    let x = choose|x: int|
                                        0 <= x < pre.len() && (#[trigger] pre[x]).0
                                            == frontier@[j];
                                    assert(self.states_dist@[x].0 == frontier@[j]);
                                    assert(assoc_has(pre, frontier@[j]));
                                    assert(assoc_get(self.states_dist@, frontier@[j])
                                        == assoc_get(pre, frontier@[j]));
                                } else {
                                    assert(self.states_dist@[pre.len() as int].0 == st);
                                    assert(assoc_get(self.states_dist@, st) == d);
                                }
                            }
                            assert forall|t: usize|
                                #[trigger] assoc_has(self.states_dist@, t) && assoc_get(
                                self.states_dist@,
                                t,
                            ) == d implies newly@.contains(t) by {
                                if t == st {
                                    lemma_contains_push(newly0, st, st);
                                } else {
                                    assert(assoc_has(pre, t));
                                    assert(assoc_get(pre, t) == d);
                                    assert(newly0.contains(t));
                                    lemma_contains_push(newly0, st, t);
                                }
                            }
                            assert forall|t: usize, p: usize|
                                assoc_has(self.states_dist@, t) && #[trigger] edge(
                                self.rule_map(),
                                p,
                                t,
                            ) implies (assoc_has(self.states_dist@, p) && assoc_get(
                                self.states_dist@,
                                p,
                            ) <= assoc_get(self.states_dist@, t) + 1) || (frontier@.contains(
                                p,
                            ) && d <= assoc_get(self.states_dist@, t) + 1) || (assoc_get(
                                self.states_dist@,
                                t,
                            ) == d && newly@.contains(t)) by {
                                if t == st {
                                    lemma_contains_push(newly0, st, st);
                                } else {
                                    assert(assoc_has(pre, t));
                                    if assoc_has(pre, p) && assoc_get(pre, p) <= assoc_get(
                                        pre,
                                        t,
                                    ) + 1 {
                                    } else if frontier@.contains(p) && d <= assoc_get(pre, t)
                                        + 1 {
                                    } else {
                                        assert(newly0.contains(t));
                                        lemma_contains_push(newly0, st, t);
                                    }
                                }
                            }
                        }
                    }
                }
                i = i + 1;
            }
            if newly.is_empty() {
                proof {
                    assert forall|t: usize, p: usize|
                        assoc_has(self.states_dist@, t) && #[trigger] edge(
                        self.rule_map(),
                        p,
                        t,
                    ) implies assoc_has(self.states_dist@, p) && assoc_get(
                        self.states_dist@,
                        p,
                    ) <= assoc_get(self.states_dist@, t) + 1 by {
                        if !(assoc_has(self.states_dist@, p) && assoc_get(
                            self.states_dist@,
                            p,
                        ) <= assoc_get(self.states_dist@, t) + 1) {
                            if frontier@.contains(p) && d <= assoc_get(self.states_dist@, t)
                                + 1 {
                                let j = choose|j: int|
                                    0 <= j < frontier@.len() && frontier@[j] == p;
                                assert(assoc_has(self.states_dist@, frontier@[j]));
                                assert(false);
                            } else {
                                assert(newly@.contains(t));
                                assert(false);
                            }
                        }
                    }
                    assert forall|f: int|
                        0 <= f < self.fin_s@.len() implies assoc_has(
                        self.states_dist@,
                        #[trigger] self.fin_s@[f],
                    ) && assoc_get(self.states_dist@, self.fin_s@[f]) == 0 by {
                        if d == 0 {
                            assert(frontier@[f] == self.fin_s@[f]);
                        }
                    }
                }
                break;
            }
            let dlen = self.states_dist.len();
            proof {
                assert(d < dlen);
                assert forall|f: int|
                    0 <= f < self.fin_s@.len() implies assoc_has(
                    self.states_dist@,
                    #[trigger] self.fin_s@[f],
                ) && assoc_get(self.states_dist@, self.fin_s@[f]) == 0 by {
                    if d == 0 {
                        assert(frontier@[f] == self.fin_s@[f]);
                    }
                }
            }
            let mut next: Vec<usize> = Vec::new();
            let mut ni: usize = 0;
            while ni < newly.len()
                invariant
                    ni <= newly@.len(),
                    d < usize::MAX,
                    self.rules@ == old(self).rules@,
                    self.states_backtrace@ == old(self).states_backtrace@,
                    self.fin_s@ == old(self).fin_s@,
                    self.wf(),
                    forall|j: int|
                        0 <= j < newly@.len() ==> reaches(
                            self.rule_map(),
                            self.fin_set(),
                            #[trigger] newly@[j],
                            d as nat,
                        ),
                    forall|j: int|
                        0 <= j < next@.len() ==> reaches(
                            self.rule_map(),
                            self.fin_set(),
                            #[trigger] next@[j],
                            (d + 1) as nat,
                        ),
                    forall|j: int|
                        0 <= j < next@.len() ==> self.relevant().contains(#[trigger] next@[j]),
                    forall|j: int|
                        0 <= j < frontier@.len() ==> assoc_has(
                            self.states_dist@,
                            #[trigger] frontier@[j],
                        ) && assoc_get(self.states_dist@, frontier@[j]) <= d,
                    forall|t: usize| #[trigger]
                        assoc_has(self.states_dist@, t) ==> assoc_get(self.states_dist@, t)
                            <= d,
                    forall|x: int|
                        0 <= x < newly@.len() ==> assoc_has(
                            self.states_dist@,
                            #[trigger] newly@[x],
                        ) && assoc_get(self.states_dist@, newly@[x]) == d,
                    forall|f: int|
                        0 <= f < self.fin_s@.len() ==> assoc_has(
                            self.states_dist@,
                            #[trigger] self.fin_s@[f],
                        ) && assoc_get(self.states_dist@, self.fin_s@[f]) == 0,
                    Self::bfs_closed_except(
                        self.states_dist@,
                        self.rule_map(),
                        frontier@,
                        d as int,
                        newly@,
                    ),
                    forall|x: int, p2: usize|
                        0 <= x < ni && #[trigger] edge(self.rule_map(), p2, newly@[x])
                            ==> next@.contains(p2),
                decreases newly@.len() - ni,
            {
                let st = newly[ni];
                let ghost rm = self.rule_map();
                match self.find_back_idx(st) {
                    Some(bi) => {
                        proof {
                            lemma_assoc_at(self.states_backtrace@, bi as int);
                            lemma_back_values(self.states_backtrace@);
                        }
                        let row_len = self.states_backtrace[bi].1.len();
                        let mut pj: usize = 0;
                        while pj < row_len
                            invariant
                                pj <= row_len,
                                bi < self.states_backtrace@.len(),
                                self.states_backtrace@[bi as int].0 == st,
                                row_len == self.states_backtrace@[bi as int].1@.len(),
                                ni < newly@.len(),
                                d < usize::MAX,
                                self.rules@ == old(self).rules@,
                                self.states_backtrace@ == old(self).states_backtrace@,
                                self.fin_s@ == old(self).fin_s@,
                                self.wf(),
                                reaches(self.rule_map(), self.fin_set(), st, d as nat),
                                forall|j: int|
                                    0 <= j < next@.len() ==> reaches(
                                        self.rule_map(),
                                        self.fin_set(),
                                        #[trigger] next@[j],
                                        (d + 1) as nat,
                                    ),
                                forall|j: int|
                                    0 <= j < next@.len() ==> self.relevant().contains(
                                        #[trigger] next@[j],
                                    ),
                                forall|z: int|
                                    0 <= z < pj ==> next@.contains(
                                        #[trigger] self.states_backtrace@[bi as int].1@[z],
                                    ),
                                forall|x: int, p2: usize|
                                    0 <= x < ni && #[trigger] edge(
                                        self.rule_map(),
                                        p2,
                                        newly@[x],
                                    ) ==> next@.contains(p2),
                            decreases row_len - pj,
                        {
                            let p = self.states_backtrace[bi].1[pj];
                            proof {
                                lemma_assoc_at(self.states_backtrace@, bi as int);
                                lemma_back_values(self.states_backtrace@);
                                assert(assoc_get(self.states_backtrace@, st)@[pj as int] == p);
                                assert(edge(self.rule_map(), p, st));
                                assert(reaches(self.rule_map(), self.fin_set(), st, d as nat));
                                assert(((d + 1) as nat - 1) as nat == d as nat);
                                assert(exists|t: usize|
                                    #[trigger] edge(self.rule_map(), p, t) && reaches(
                                        self.rule_map(),
                                        self.fin_set(),
                                        t,
                                        ((d + 1) as nat - 1) as nat,
                                    ));
                                assert(reaches(
                                    self.rule_map(),
                                    self.fin_set(),
                                    p,
                                    (d + 1) as nat,
                                ));
                                assert(back_values(self.states_backtrace@).contains(p));
                            }
                            let ghost next0 = next@;
                            next.push(p);
                            proof {
                                assert forall|y: usize| next0.contains(y) implies next@.contains(
                                    y,
                                ) by {
                                    lemma_contains_push(next0, p, y);
                                }
                                lemma_contains_push(next0, p, p);
                            }
                            pj = pj + 1;
                        }
                        proof {
                            assert forall|p2: usize| #[trigger]
                                edge(rm, p2, st) implies next@.contains(p2) by {
                                assert(assoc_has(self.states_backtrace@, st));
                                let row = assoc_get(self.states_backtrace@, st)@;
                                assert(row.contains(p2));
                                let z = choose|z: int| 0 <= z < row.len() && row[z] == p2;
                                lemma_assoc_at(self.states_backtrace@, bi as int);
                                assert(next@.contains(
                                    self.states_backtrace@[bi as int].1@[z],
                                ));
                            }
                        }
                    }
                    None => {
                        proof {
                            assert forall|p2: usize| #[trigger]
                                edge(rm, p2, st) implies next@.contains(p2) by {
                                assert(assoc_has(self.states_backtrace@, st));
                            }
                        }
                    }
                }
                proof {
                    assert(newly@[ni as int] == st);
                }
                ni = ni + 1;
            }
            proof {
                assert forall|t: usize, p: usize|
                    assoc_has(self.states_dist@, t) && #[trigger] edge(
                    self.rule_map(),
                    p,
                    t,
                ) implies (assoc_has(self.states_dist@, p) && assoc_get(self.states_dist@, p)
                    <= assoc_get(self.states_dist@, t) + 1) || (next@.contains(p) && d + 1
                    <= assoc_get(self.states_dist@, t) + 1) by {
                    if !(assoc_has(self.states_dist@, p) && assoc_get(self.states_dist@, p)
                        <= assoc_get(self.states_dist@, t) + 1) {
                        if frontier@.contains(p) && d <= assoc_get(self.states_dist@, t) + 1 {
                            let j = choose|j: int|
                                0 <= j < frontier@.len() && frontier@[j] == p;
                            assert(assoc_has(self.states_dist@, frontier@[j]));
                            assert(false);
                        } else {
                            assert(assoc_get(self.states_dist@, t) == d && newly@.contains(
                                t,
                            ));
                            let x = choose|x: int|
                                0 <= x < newly@.len() && newly@[x] == t;
                            assert(edge(self.rule_map(), p, newly@[x]));
                            assert(next@.contains(p));
                        }
                    }
                }
            }
            frontier = next;
            d = d + 1;
            proof {
                Self::lemma_dist_card(self.states_dist@, self.relevant());
            }
        }
        proof {
            assert(self.rule_map() =~= old(self).rule_map());
            assert(self.fin_set() =~= old(self).fin_set());
            assert forall|f: usize|
                self.fin_set().contains(f) implies self.dist_map().dom().contains(f)
                && self.dist_map()[f] == 0 by {
                let j = choose|j: int| 0 <= j < self.fin_s@.len() && self.fin_s@[j] == f;
                assert(assoc_has(self.states_dist@, self.fin_s@[j]));
                assert(assoc_get(self.states_dist@, self.fin_s@[j]) == 0);
            }
            assert forall|s: usize, k: nat|
                reaches(self.rule_map(), self.fin_set(), s, k) implies self.dist_map(
            ).dom().contains(s) && self.dist_map()[s] <= k by {
                assert forall|f2: usize|
                    self.fin_set().contains(f2) implies assoc_has(self.states_dist@, f2)
                    && assoc_get(self.states_dist@, f2) == 0 by {
                    let j = choose|j: int|
                        0 <= j < self.fin_s@.len() && self.fin_s@[j] == f2;
                    assert(assoc_has(self.states_dist@, self.fin_s@[j]));
                    assert(assoc_get(self.states_dist@, self.fin_s@[j]) == 0);
                }
                Self::lemma_bfs_complete(
                    self.rule_map(),
                    self.fin_set(),
                    self.states_dist@,
                    s,
                    k,
                );
            }
        }
    }

    /// The distance from the state to a final state, as assigned by
    /// `compute_dist`; a state with no path to a final state has no entry
    /// and reads as the largest value, the least promising.
    pub fn distance(&self, state: usize) -> (r: usize)
        requires
            self.wf(),
        ensures
            self.dist_map().dom().contains(state) ==> r == self.dist_map()[state],
            !self.dist_map().dom().contains(state) ==> r == usize::MAX,
    {
        match self.find_dist_idx(state) {
            Some(i) => {
                proof {
                    lemma_assoc_at(self.states_dist@, i as int);
                }
                self.states_dist[i].1
            }
            None => usize::MAX,
        }
    }
}

} // verus!
