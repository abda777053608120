//! Finite automata over single-character states and labels. The graph is an
//! arena: nodes live in one vector and edges name their destination by index,
//! so cycles and self-loops are harmless. After construction the automaton is
//! never mutated.

use vstd::prelude::*;
use vstd::string::StrSliceExecFns;
use crate::hash_table::{first_slot, lemma_first_slot};

verus! {

/// One outgoing edge: its label and the index of the destination node.
#[derive(Debug)]
pub struct Edge {
    pub transition: char,
    pub destination: usize,
}

/// One state: its single-character id, whether it is accepting, and its
/// outgoing edges.
#[derive(Debug)]
pub struct Node {
    pub id: char,
    pub transitions: Vec<Edge>,
    pub is_final_state: bool,
}

/// Returned by `check_match` when the walk meets more than one edge with the
/// current input character.
#[derive(Debug, Clone, Copy, PartialEq, Eq, Structural)]
pub struct NotDFAError;

/// Why a textual description or a flat description failed to become an
/// automaton.
#[derive(Debug, Clone, Copy, PartialEq, Eq, Structural)]
pub enum FaError {
    /// Two states carry the same id.
    DuplicateState,
    /// The start state, a final state, or a transition endpoint is not a state.
    UnknownState,
    /// A transition label is outside the alphabet.
    AlphabetViolation,
    /// The textual description has too few lines or an empty field.
    MalformedDescription,
}

#[derive(Debug)]
pub struct FiniteAutomaton {
    pub nodes: Vec<Node>,
    pub start: usize,
    pub alphabet: Vec<char>,
}

/// How many edges of `es` carry the label `c`.
pub open spec fn count_matching(es: Seq<Edge>, c: char) -> nat
    decreases es.len(),
{
    if es.len() == 0 {
        0
    } else {
        count_matching(es.drop_last(), c) + if es.last().transition == c {
            1nat
        } else {
            0nat
        }
    }
}

/// The destination of the last edge of `es` labelled `c` (0 when there is none).
pub open spec fn match_dest(es: Seq<Edge>, c: char) -> int
    decreases es.len(),
{
    if es.len() == 0 {
        0
    } else if es.last().transition == c {
        es.last().destination as int
    } else {
        match_dest(es.drop_last(), c)
    }
}

/// No two entries of `s` are equal.
pub open spec fn distinct_chars(s: Seq<char>) -> bool {
    forall|i: int, j: int| 0 <= i < j < s.len() ==> s[i] != s[j]
}

impl FiniteAutomaton {
    pub open spec fn well_formed(&self) -> bool {
        &&& self.start < self.nodes@.len()
        &&& forall|i: int, j: int|
            0 <= i < self.nodes@.len() && 0 <= j < self.nodes@[i].transitions@.len()
                ==> (#[trigger] self.nodes@[i].transitions@[j]).destination < self.nodes@.len()
        &&& forall|i: int, j: int|
            0 <= i < self.nodes@.len() && 0 <= j < self.nodes@[i].transitions@.len()
                ==> self.alphabet@.contains(
                (#[trigger] self.nodes@[i].transitions@[j]).transition,
            )
        &&& forall|i: int, j: int|
            0 <= i < j < self.nodes@.len() ==> (#[trigger] self.nodes@[i].id) != (
            #[trigger] self.nodes@[j].id)
    }

    /// Walking the automaton from node `n` over the characters of `s`:
    /// no matching edge rejects, several matching edges is an error, one
    /// matching edge is followed; an exhausted input answers whether the
    /// current node is accepting.
    pub open spec fn spec_run_from(&self, n: int, s: Seq<char>) -> Result<bool, NotDFAError>
        decreases s.len(),
    {
        if s.len() == 0 {
            Ok(self.nodes@[n].is_final_state)
        } else {
            let es = self.nodes@[n].transitions@;
            let m = count_matching(es, s[0]);
            if m == 0 {
                Ok(false)
            } else if m > 1 {
                Err(NotDFAError)
            } else {
                self.spec_run_from(match_dest(es, s[0]), s.drop_first())
            }
        }
    }

    /// What `check_match` must answer for input `s`.
    pub open spec fn spec_accepts(&self, s: Seq<char>) -> Result<bool, NotDFAError> {
        self.spec_run_from(self.start as int, s)
    }

    /// Deterministic: no node has two outgoing edges with equal labels.
    pub open spec fn spec_is_dfa(&self) -> bool {
        forall|i: int, j: int, k: int|
            #![trigger self.nodes@[i].transitions@[j], self.nodes@[i].transitions@[k]]
            0 <= i < self.nodes@.len() && 0 <= j < k < self.nodes@[i].transitions@.len()
                ==> self.nodes@[i].transitions@[j].transition
                != self.nodes@[i].transitions@[k].transition
    }

    pub fn is_dfa(&self) -> (r: bool)
        ensures
            r == self.spec_is_dfa(),
    {
        let mut i: usize = 0;
        while i < self.nodes.len()
            invariant
                i <= self.nodes@.len(),
                forall|i0: int, j: int, k: int|
                    #![trigger self.nodes@[i0].transitions@[j], self.nodes@[i0].transitions@[k]]
                    0 <= i0 < i as int && 0 <= j < k < self.nodes@[i0].transitions@.len()
                        ==> self.nodes@[i0].transitions@[j].transition
                        != self.nodes@[i0].transitions@[k].transition,
            decreases self.nodes@.len() - i,
        {
            let edges: &Vec<Edge> = &self.nodes[i].transitions;
            let mut k: usize = 0;
            while k < edges.len()
                invariant
                    i < self.nodes@.len(),
                    edges@ == self.nodes@[i as int].transitions@,
                    k <= edges@.len(),
                    forall|j0: int, k0: int|
                        #![trigger edges@[j0], edges@[k0]]
                        0 <= j0 < k0 < k as int ==> edges@[j0].transition != edges@[k0].transition,
                decreases edges@.len() - k,
            {
                let mut j: usize = 0;
                while j < k
                    invariant
                        i < self.nodes@.len(),
                        edges@ == self.nodes@[i as int].transitions@,
                        j <= k,
                        k < edges@.len(),
                        forall|j0: int|
                            0 <= j0 < j as int ==> (#[trigger] edges@[j0]).transition
                                != edges@[k as int].transition,
                    decreases k - j,
                {
                    if edges[j].transition == edges[k].transition {
                        return false;
                    }
                    j += 1;
                }
                k += 1;
            }
            i += 1;
        }
        true
    }

    pub fn check_match(&self, label: &str) -> (r: Result<bool, NotDFAError>)
        requires
            self.well_formed(),
        ensures
            r == self.spec_accepts(label@),
    {
        let mut node: usize = self.start;
        let n = label.unicode_len();
        let mut i: usize = 0;
        proof {
            assert(label@.skip(0) =~= label@);
        }
        while i < n
            invariant
                self.well_formed(),
                i <= n,
                n == label@.len(),
                node < self.nodes@.len(),
                self.spec_accepts(label@) == self.spec_run_from(node as int, label@.skip(i as int)),
            decreases n - i,
        {
            let ch = label.get_char(i);
            let ghost rest = label@.skip(i as int);
            proof {
                assert(rest.len() > 0);
                assert(rest[0] == label@[i as int]);
            }
            let edges: &Vec<Edge> = &self.nodes[node].transitions;
            let mut matching: usize = 0;
            let mut next_node: usize = 0;
            let mut j: usize = 0;
            while j < edges.len()
                invariant
                    self.well_formed(),
                    node < self.nodes@.len(),
                    edges@ == self.nodes@[node as int].transitions@,
                    j <= edges@.len(),
                    matching <= j,
                    matching as int == count_matching(edges@.take(j as int), ch),
                    matching >= 1 ==> next_node as int == match_dest(edges@.take(j as int), ch),
                    matching >= 1 ==> next_node < self.nodes@.len(),
                decreases edges@.len() - j,
            {
                proof {
                    assert(edges@.take(j as int + 1).drop_last() =~= edges@.take(j as int));
                    assert(edges@.take(j as int + 1).last() == edges@[j as int]);
                }
                if edges[j].transition == ch {
                    matching += 1;
                    next_node = edges[j].destination;
                }
                j += 1;
            }
            proof {
                assert(edges@.take(edges@.len() as int) =~= edges@);
            }
            if matching == 0 {
                return Ok(false);
            }
            if matching > 1 {
                return Err(NotDFAError);
            }
            node = next_node;
            i += 1;
            proof {
                assert(label@.skip(i - 1).drop_first() =~= label@.skip(i as int));
            }
        }
        proof {
            assert(label@.skip(n as int) =~= Seq::<char>::empty());
        }
        Ok(self.nodes[node].is_final_state)
    }
}

/// The character of `v` at index `i`.
fn char_at(v: &Vec<char>, i: usize) -> (c: char)
    requires
        i < v@.len(),
    ensures
        c == v@[i as int],
{
    v[i]
}

/// The source state of the transition triple of `v` at index `i`.
fn transition_src(v: &Vec<(char, char, char)>, i: usize) -> (c: char)
    requires
        i < v@.len(),
    ensures
        c == v@[i as int].0,
{
    v[i].0
}

/// The destination state of the transition triple of `v` at index `i`.
fn transition_dst(v: &Vec<(char, char, char)>, i: usize) -> (c: char)
    requires
        i < v@.len(),
    ensures
        c == v@[i as int].1,
{
    v[i].1
}

/// The label of the transition triple of `v` at index `i`.
fn transition_label(v: &Vec<(char, char, char)>, i: usize) -> (c: char)
    requires
        i < v@.len(),
    ensures
        c == v@[i as int].2,
{
    v[i].2
}

/// Whether `v` holds `c`.
fn char_vec_contains(v: &Vec<char>, c: char) -> (r: bool)
    ensures
        r == v@.contains(c),
{
    let mut i: usize = 0;
    while i < v.len()
        invariant
            i <= v@.len(),
            forall|j: int| 0 <= j < i as int ==> v@[j] != c,
        decreases v@.len() - i,
    {
        if v[i] == c {
            proof {
                assert(v@[i as int] == c);
            }
            return true;
        }
        i += 1;
    }
    false
}

/// The index of the first occurrence of `c` in `v`, if any.
fn find_char_index(v: &Vec<char>, c: char) -> (r: Option<usize>)
    ensures
        r is Some <==> v@.contains(c),
        match r {
            Some(idx) => idx as int == first_slot(v@, c) && (idx as int) < v@.len()
                && v@[idx as int] == c,
            None => true,
        },
{
    proof {
        lemma_first_slot(v@, c);
    }
    let mut i: usize = 0;
    while i < v.len()
        invariant
            i <= v@.len(),
            forall|j: int| 0 <= j < i as int ==> v@[j] != c,
        decreases v@.len() - i,
    {
        if v[i] == c {
            proof {
                assert(v@[i as int] == c);
                lemma_first_slot(v@, c);
            }
            return Some(i);
        }
        i += 1;
    }
    None
}

/// Whether all entries of `v` are pairwise distinct.
fn all_distinct(v: &Vec<char>) -> (r: bool)
    ensures
        r == distinct_chars(v@),
{
    let mut k: usize = 0;
    while k < v.len()
        invariant
            k <= v@.len(),
            forall|j0: int, k0: int| 0 <= j0 < k0 < k as int ==> v@[j0] != v@[k0],
        decreases v@.len() - k,
    {
        let mut j: usize = 0;
        while j < k
            invariant
                j <= k,
                k < v@.len(),
                forall|j0: int| 0 <= j0 < j as int ==> v@[j0] != v@[k as int],
            decreases k - j,
        {
            if v[j] == v[k] {
                return false;
            }
            j += 1;
        }
        k += 1;
    }
    true
}

/// Whether every listed final state is a state.
pub open spec fn finals_ok(states: Seq<char>, finals: Seq<char>) -> bool {
    forall|i: int| 0 <= i < finals.len() ==> states.contains(#[trigger] finals[i])
}

/// The error, if any, that the first offending transition causes: an unknown
/// endpoint before a label outside the alphabet.
pub open spec fn transitions_error(
    states: Seq<char>,
    alphabet: Seq<char>,
    ts: Seq<(char, char, char)>,
) -> Option<FaError>
    decreases ts.len(),
{
    if ts.len() == 0 {
        None
    } else {
        let t = ts[0];
        if !states.contains(t.0) || !states.contains(t.1) {
            Some(FaError::UnknownState)
        } else if !alphabet.contains(t.2) {
            Some(FaError::AlphabetViolation)
        } else {
            transitions_error(states, alphabet, ts.drop_first())
        }
    }
}

/// The error, if any, that constructing from this flat description causes;
/// `None` exactly when construction succeeds.
pub open spec fn construction_error(
    states: Seq<char>,
    start: char,
    finals: Seq<char>,
    alphabet: Seq<char>,
    ts: Seq<(char, char, char)>,
) -> Option<FaError> {
    if !distinct_chars(states) {
        Some(FaError::DuplicateState)
    } else if !states.contains(start) {
        Some(FaError::UnknownState)
    } else if !finals_ok(states, finals) {
        Some(FaError::UnknownState)
    } else {
        transitions_error(states, alphabet, ts)
    }
}

/// The nodes built so far mirror the description: state ids in order, finality
/// from membership in the final-state list, and no edges yet.
pub open spec fn nodes_mirror_states(nodes: Seq<Node>, states: Seq<char>, finals: Seq<char>) -> bool {
    &&& nodes.len() <= states.len()
    &&& forall|n: int| 0 <= n < nodes.len() ==> (#[trigger] nodes[n]).id == states[n]
    &&& forall|n: int|
        0 <= n < nodes.len() ==> (#[trigger] nodes[n]).is_final_state == finals.contains(
            states[n],
        )
    &&& forall|n: int| 0 <= n < nodes.len() ==> (#[trigger] nodes[n]).transitions@.len() == 0
}

/// The outgoing edges of state `i` that the first `ts` transitions produce,
/// in order.
pub open spec fn edges_for(states: Seq<char>, ts: Seq<(char, char, char)>, i: int) -> Seq<Edge>
    decreases ts.len(),
{
    if ts.len() == 0 {
        Seq::empty()
    } else {
        let rest = edges_for(states, ts.drop_last(), i);
        let t = ts.last();
        if first_slot(states, t.0) == i {
            rest.push(
                Edge { transition: t.2, destination: first_slot(states, t.1) as usize },
            )
        } else {
            rest
        }
    }
}

/// What a successfully constructed automaton looks like: one node per state
/// in order, finality by membership in the final-state list, the edges each
/// transition contributes in order, the start index, and the alphabet as
/// given.
pub open spec fn constructed_from(
    fa: FiniteAutomaton,
    states: Seq<char>,
    start: char,
    finals: Seq<char>,
    alphabet: Seq<char>,
    transitions: Seq<(char, char, char)>,
) -> bool {
    &&& fa.well_formed()
    &&& fa.nodes@.len() == states.len()
    &&& forall|i: int| 0 <= i < states.len() ==> (#[trigger] fa.nodes@[i]).id == states[i]
    &&& forall|i: int|
        0 <= i < states.len() ==> (#[trigger] fa.nodes@[i]).is_final_state == finals.contains(
            states[i],
        )
    &&& forall|i: int|
        0 <= i < states.len() ==> (#[trigger] fa.nodes@[i]).transitions@ == edges_for(
            states,
            transitions,
            i,
        )
    &&& fa.start as int == first_slot(states, start)
    &&& fa.alphabet@ == alphabet
}

impl FiniteAutomaton {
    pub fn new(
        states: Vec<char>,
        start_state: char,
        final_states: Vec<char>,
        alphabet: Vec<char>,
        transitions: Vec<(char, char, char)>,
    ) -> (r: Result<Self, FaError>)
        ensures
            r is Ok <==> construction_error(
                states@,
                start_state,
                final_states@,
                alphabet@,
                transitions@,
            ) is None,
            match r {
                Ok(fa) => constructed_from(
                    fa,
                    states@,
                    start_state,
                    final_states@,
                    alphabet@,
                    transitions@,
                ),
                Err(e) => Some(e) == construction_error(
                    states@,
                    start_state,
                    final_states@,
                    alphabet@,
                    transitions@,
                ),
            },
    {
        if !all_distinct(&states) {
            return Err(FaError::DuplicateState);
        }
        let start = match find_char_index(&states, start_state) {
            Some(i) => i,
            None => {
                return Err(FaError::UnknownState);
            },
        };
        let mut f: usize = 0;
        while f < final_states.len()
            invariant
                f <= final_states@.len(),
                distinct_chars(states@),
                states@.contains(start_state),
                forall|i: int| 0 <= i < f as int ==> states@.contains(#[trigger] final_states@[i]),
            decreases final_states@.len() - f,
        {
            if !char_vec_contains(&states, final_states[f]) {
                proof {
                    assert(!states@.contains(final_states@[f as int]));
                    assert(!finals_ok(states@, final_states@));
                }
                return Err(FaError::UnknownState);
            }
            f += 1;
        }
        let mut nodes: Vec<Node> = Vec::new();
        let mut i: usize = 0;
        while i < states.len()
            invariant
                i <= states@.len(),
                nodes@.len() == i as int,
                nodes_mirror_states(nodes@, states@, final_states@),
            decreases states@.len() - i,
        {
            let id = char_at(&states, i);
            let is_final = char_vec_contains(&final_states, id);
            let ghost prev = nodes@;
            nodes.push(Node { id, transitions: Vec::new(), is_final_state: is_final });
            proof {
                assert forall|n: int| 0 <= n < nodes@.len() implies (#[trigger] nodes@[n]).id
                    == states@[n] && nodes@[n].is_final_state == final_states@.contains(states@[n])
                    && nodes@[n].transitions@.len() == 0 by {
                    if n < i as int {
                        assert(nodes@[n] == prev[n]);
                    }
                }
            }
            i += 1;
        }
        proof {
            assert(forall|n: int|
                0 <= n < nodes@.len() ==> (#[trigger] nodes@[n]).transitions@ =~= edges_for(
                    states@,
                    transitions@.take(0),
                    n,
                ));
            assert(transitions@.skip(0) =~= transitions@);
        }
        let mut k: usize = 0;
        while k < transitions.len()
            invariant
                k <= transitions@.len(),
                nodes@.len() == states@.len(),
                distinct_chars(states@),
                states@.contains(start_state),
                finals_ok(states@, final_states@),
                transitions_error(states@, alphabet@, transitions@) == transitions_error(
                    states@,
                    alphabet@,
                    transitions@.skip(k as int),
                ),
                forall|n: int| 0 <= n < nodes@.len() ==> (#[trigger] nodes@[n]).id == states@[n],
                forall|n: int|
                    0 <= n < nodes@.len() ==> (#[trigger] nodes@[n]).is_final_state
                        == final_states@.contains(states@[n]),
                forall|n: int|
                    0 <= n < nodes@.len() ==> (#[trigger] nodes@[n]).transitions@ == edges_for(
                        states@,
                        transitions@.take(k as int),
                        n,
                    ),
                forall|n: int, j: int|
                    0 <= n < nodes@.len() && 0 <= j < nodes@[n].transitions@.len() ==> (
                    #[trigger] nodes@[n].transitions@[j]).destination < nodes@.len(),
                forall|n: int, j: int|
                    0 <= n < nodes@.len() && 0 <= j < nodes@[n].transitions@.len()
                        ==> alphabet@.contains(
                        (#[trigger] nodes@[n].transitions@[j]).transition,
                    ),
            decreases transitions@.len() - k,
        {
            let src_id = transition_src(&transitions, k);
            let dst_id = transition_dst(&transitions, k);
            let label = transition_label(&transitions, k);
            proof {
                assert(transitions@.skip(k as int)[0] == transitions@[k as int]);
            }
            let src = match find_char_index(&states, src_id) {
                Some(s) => s,
                None => {
                    return Err(FaError::UnknownState);
                },
            };
            let dst = match find_char_index(&states, dst_id) {
                Some(d) => d,
                None => {
                    return Err(FaError::UnknownState);
                },
            };
            if !char_vec_contains(&alphabet, label) {
                return Err(FaError::AlphabetViolation);
            }
            let ghost old_nodes = nodes@;
            let mut node = nodes.remove(src);
            node.transitions.push(Edge { transition: label, destination: dst });
            nodes.insert(src, node);
            proof {
                let e = Edge { transition: label, destination: dst };
                assert(nodes@ =~= old_nodes.update(src as int, nodes@[src as int]));
                assert(transitions@.take(k + 1).drop_last() =~= transitions@.take(k as int));
                assert(transitions@.take(k + 1).last() == transitions@[k as int]);
                assert(nodes@[src as int].transitions@ =~= old_nodes[src as int].transitions@.push(
                    e,
                ));
                assert forall|n: int|
                    0 <= n < nodes@.len() implies (#[trigger] nodes@[n]).transitions@ == edges_for(
                    states@,
                    transitions@.take(k + 1),
                    n,
                ) by {
                    if n == src as int {
                        assert(first_slot(states@, transitions@[k as int].0) == n);
                    } else {
                        assert(nodes@[n] == old_nodes[n]);
                        assert(first_slot(states@, transitions@[k as int].0) != n);
                    }
                }
                assert forall|n: int, j: int|
                    0 <= n < nodes@.len() && 0 <= j < nodes@[n].transitions@.len() implies (
                #[trigger] nodes@[n].transitions@[j]).destination < nodes@.len()
                    && alphabet@.contains(nodes@[n].transitions@[j].transition) by {
                    if n == src as int {
                        assert(nodes@[n].transitions@ == old_nodes[n].transitions@.push(e));
                        if j < nodes@[n].transitions@.len() - 1 {
                            assert(nodes@[n].transitions@[j] == old_nodes[n].transitions@[j]);
                        } else {
                            assert(nodes@[n].transitions@[j] == e);
                        }
                    } else {
                        assert(nodes@[n] == old_nodes[n]);
                        assert(nodes@[n].transitions@[j] == old_nodes[n].transitions@[j]);
                    }
                }
                assert(transitions@.skip(k as int).drop_first() =~= transitions@.skip(k + 1));
            }
            k += 1;
        }
        proof {
            assert(transitions@.take(transitions@.len() as int) =~= transitions@);
            assert(transitions@.skip(transitions@.len() as int) =~= Seq::<(char, char, char)>::empty());
        }
        Ok(FiniteAutomaton { nodes, start, alphabet })
    }
}

/// An input whose first character matches several edges out of the start node
/// is answered with `NotDFAError`.
pub proof fn lemma_nondeterminism_detected(fa: FiniteAutomaton, s: Seq<char>)
    requires
        s.len() > 0,
        count_matching(fa.nodes@[fa.start as int].transitions@, s[0]) > 1,
    ensures
        fa.spec_accepts(s) == Err::<bool, NotDFAError>(NotDFAError),
{
}

/// Edges with pairwise distinct labels match any character at most once.
pub proof fn lemma_distinct_labels_match_at_most_once(es: Seq<Edge>, c: char)
    requires
        forall|j: int, k: int|
            #![trigger es[j], es[k]]
            0 <= j < k < es.len() ==> es[j].transition != es[k].transition,
    ensures
        count_matching(es, c) <= 1,
    decreases es.len(),
{
    if es.len() > 0 {
        let body = es.drop_last();
        assert(forall|j: int| 0 <= j < body.len() ==> body[j] == es[j]);
        lemma_distinct_labels_match_at_most_once(body, c);
        if es.last().transition == c {
            assert forall|j: int| 0 <= j < body.len() implies (#[trigger] body[j]).transition
                != c by {
                assert(es[j].transition != es[es.len() - 1].transition);
            }
            lemma_no_label_no_match(body, c);
        }
    }
}

/// No edge labelled `c` means no match.
pub proof fn lemma_no_label_no_match(es: Seq<Edge>, c: char)
    requires
        forall|j: int| 0 <= j < es.len() ==> (#[trigger] es[j]).transition != c,
    ensures
        count_matching(es, c) == 0,
    decreases es.len(),
{
    if es.len() > 0 {
        let body = es.drop_last();
        assert(forall|j: int| 0 <= j < body.len() ==> body[j] == es[j]);
        lemma_no_label_no_match(body, c);
    }
}

/// A matched edge's destination is a node of the automaton.
pub proof fn lemma_match_dest_in_range(es: Seq<Edge>, c: char, bound: int)
    requires
        count_matching(es, c) >= 1,
        forall|j: int| 0 <= j < es.len() ==> (#[trigger] es[j]).destination < bound,
    ensures
        0 <= match_dest(es, c) < bound,
    decreases es.len(),
{
    if es.len() > 0 && es.last().transition != c {
        let body = es.drop_last();
        assert(forall|j: int| 0 <= j < body.len() ==> body[j] == es[j]);
        lemma_match_dest_in_range(body, c, bound);
    }
}

/// A deterministic automaton never reports nondeterminism: on a DFA, the walk
/// from any node answers accept or reject, never `NotDFAError`.
pub proof fn lemma_dfa_run_never_errs(fa: FiniteAutomaton, n: int, s: Seq<char>)
    requires
        fa.well_formed(),
        fa.spec_is_dfa(),
        0 <= n < fa.nodes@.len(),
    ensures
        !(fa.spec_run_from(n, s) is Err),
    decreases s.len(),
{
    if s.len() > 0 {
        let es = fa.nodes@[n].transitions@;
        assert forall|j: int, k: int|
            #![trigger es[j], es[k]]
            0 <= j < k < es.len() implies es[j].transition != es[k].transition by {
            assert(fa.nodes@[n].transitions@[j].transition
                != fa.nodes@[n].transitions@[k].transition);
        }
        lemma_distinct_labels_match_at_most_once(es, s[0]);
        if count_matching(es, s[0]) == 1 {
            lemma_match_dest_in_range(es, s[0], fa.nodes@.len() as int);
            lemma_dfa_run_never_errs(fa, match_dest(es, s[0]), s.drop_first());
        }
    }
}

} // verus!
