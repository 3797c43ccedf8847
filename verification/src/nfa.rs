use vstd::prelude::*;

use std::collections::VecDeque;

use crate::automata::{AutomataComponent, AutomataLabel, AutomataState};
use crate::graph::{EdgeIndex, Graph};
use crate::regex::RegexSymbol;

verus! {

/// The semantic content of an NFA: how many nodes exist and which
/// labeled transitions run between them, as triples
/// (source, label, target) where a `None` label is the empty
/// transition.
pub ghost struct NfaModel {
    pub node_total: nat,
    pub triples: Set<(int, Option<char>, int)>,
}

pub open spec fn empty_model() -> NfaModel {
    NfaModel { node_total: 0, triples: Set::empty() }
}

/// One step of Thompson construction on the fragment stack: what one
/// postfix symbol adds to the automaton, and how it reshapes the stack
/// of (entry, exit) fragments. `None` is a malformed stream: a
/// parenthesis, or too few fragments for the operator.
pub open spec fn thompson_step(m: NfaModel, st: Seq<(int, int)>, sym: RegexSymbol) -> Option<
    (NfaModel, Seq<(int, int)>),
> {
    let s = m.node_total as int;
    let a = m.node_total as int + 1;
    match sym {
        RegexSymbol::Char(c) => Some(
            (
                NfaModel {
                    node_total: m.node_total + 2,
                    triples: m.triples.insert((s, Some(c), a)),
                },
                st.push((s, a)),
            ),
        ),
        RegexSymbol::Optional => if st.len() >= 1 {
            let t = st.last();
            Some(
                (
                    NfaModel {
                        node_total: m.node_total + 2,
                        triples: m.triples.insert((s, None, t.0)).insert((t.1, None, a)).insert(
                            (s, None, a),
                        ),
                    },
                    st.drop_last().push((s, a)),
                ),
            )
        } else {
            None
        },
        RegexSymbol::Plus => if st.len() >= 1 {
            let t = st.last();
            Some(
                (
                    NfaModel {
                        node_total: m.node_total + 2,
                        triples: m.triples.insert((s, None, t.0)).insert((t.1, None, a)).insert(
                            (t.1, None, t.0),
                        ),
                    },
                    st.drop_last().push((s, a)),
                ),
            )
        } else {
            None
        },
        RegexSymbol::Star => if st.len() >= 1 {
            let t = st.last();
            Some(
                (
                    NfaModel {
                        node_total: m.node_total + 2,
                        triples: m.triples.insert((s, None, t.0)).insert((t.1, None, a)).insert(
                            (t.1, None, t.0),
                        ).insert((s, None, a)),
                    },
                    st.drop_last().push((s, a)),
                ),
            )
        } else {
            None
        },
        RegexSymbol::Concat => if st.len() >= 2 {
            let r = st.last();
            let l = st[st.len() - 2];
            Some(
                (
                    NfaModel { node_total: m.node_total, triples: m.triples.insert((l.1, None, r.0)) },
                    st.drop_last().drop_last().push((l.0, r.1)),
                ),
            )
        } else {
            None
        },
        RegexSymbol::Alternation => if st.len() >= 2 {
            let r = st.last();
            let l = st[st.len() - 2];
            Some(
                (
                    NfaModel {
                        node_total: m.node_total + 2,
                        triples: m.triples.insert((s, None, l.0)).insert((s, None, r.0)).insert(
                            (l.1, None, a),
                        ).insert((r.1, None, a)),
                    },
                    st.drop_last().drop_last().push((s, a)),
                ),
            )
        } else {
            None
        },
        RegexSymbol::Open => None,
        RegexSymbol::Close => None,
    }
}

/// Thompson construction folded over a postfix stream from position `i`.
pub open spec fn thompson_from(
    q: Seq<RegexSymbol>,
    i: int,
    m: NfaModel,
    st: Seq<(int, int)>,
) -> Option<(NfaModel, Seq<(int, int)>)>
    decreases q.len() - i,
{
    if i < 0 || i >= q.len() {
        Some((m, st))
    } else {
        match thompson_step(m, st, q[i]) {
            None => None,
            Some((m2, st2)) => thompson_from(q, i + 1, m2, st2),
        }
    }
}

/// The NFA denoted by a whole postfix stream, with its final fragment
/// stack.
pub open spec fn spec_thompson(q: Seq<RegexSymbol>) -> Option<(NfaModel, Seq<(int, int)>)> {
    thompson_from(q, 0, empty_model(), Seq::empty())
}

/// A postfix stream that Thompson construction accepts: every operator
/// finds its operands and exactly one fragment remains.
pub open spec fn nfa_input_wf(q: Seq<RegexSymbol>) -> bool {
    match spec_thompson(q) {
        Some((m, st)) => st.len() == 1,
        None => false,
    }
}

/// Some outgoing edge of `a` in the NFA graph carries label `l` (with
/// `None` the empty transition) and targets `b`.
pub open spec fn nfa_has_edge(
    g: Graph<AutomataState, AutomataLabel>,
    a: int,
    l: Option<char>,
    b: int,
) -> bool {
    exists|lab: AutomataLabel| #[trigger] g.has_labeled_edge(a, lab, b) && lab.label == l
}

/// All labeled transitions of the NFA graph, as triples.
#[verifier::opaque]
pub open spec fn nfa_triples(g: Graph<AutomataState, AutomataLabel>) -> Set<
    (int, Option<char>, int),
> {
    Set::new(|t: (int, Option<char>, int)| nfa_has_edge(g, t.0, t.1, t.2))
}

/// The graph carries exactly the transitions of the model, over exactly
/// its nodes.
pub open spec fn nfa_corresponds(g: Graph<AutomataState, AutomataLabel>, m: NfaModel) -> bool {
    &&& g.wf()
    &&& g.node_cnt() == m.node_total
    &&& forall|a: int, l: Option<char>, b: int|
        #![trigger nfa_has_edge(g, a, l, b)]
        #![trigger m.triples.contains((a, l, b))]
        nfa_has_edge(g, a, l, b) <==> m.triples.contains((a, l, b))
}

/// Every edge label separates the empty transition from the labeled one.
pub open spec fn labels_wf(g: Graph<AutomataState, AutomataLabel>) -> bool {
    forall|e: int| 0 <= e < g.edge_cnt() ==> (#[trigger] g.edges@[e]).data.wf()
}

/// No node of the graph accepts yet.
pub open spec fn all_nonaccepting(g: Graph<AutomataState, AutomataLabel>) -> bool {
    forall|n: int| 0 <= n < g.node_cnt() ==> !(#[trigger] g.nodes@[n]).data.accepting
}

/// `n` is the exit of some fragment on the stack.
pub open spec fn is_stack_exit(st: Seq<(int, int)>, n: int) -> bool {
    exists|j: int| 0 <= j < st.len() && (#[trigger] st[j]).1 == n
}

/// Fragment entries and exits address real nodes.
pub open spec fn stack_in_range(st: Seq<(int, int)>, total: nat) -> bool {
    forall|j: int|
        0 <= j < st.len() ==> 0 <= (#[trigger] st[j]).0 < total && 0 <= st[j].1 < total
}

/// The executable stack mirrors the ghost fragment stack.
pub open spec fn stack_matches(stack: Seq<AutomataComponent>, st: Seq<(int, int)>) -> bool {
    &&& stack.len() == st.len()
    &&& forall|j: int|
        0 <= j < st.len() ==> ((#[trigger] stack[j]).start_state as int == st[j].0
            && stack[j].accept_state as int == st[j].1)
}

/// When two graphs share their edge array and all their outgoing lists,
/// they share their labeled edges.
proof fn lemma_nfa_edges_unchanged(
    g1: Graph<AutomataState, AutomataLabel>,
    g2: Graph<AutomataState, AutomataLabel>,
)
    requires
        g1.wf(),
        g1.edges@ == g2.edges@,
        forall|n: int|
            #[trigger] g2.out_chain(n) == g1.out_chain(n) || (g2.out_chain(n).len() == 0
                && g1.out_chain(n).len() == 0),
    ensures
        forall|a: int, l: Option<char>, b: int|
            #![trigger nfa_has_edge(g2, a, l, b)]
            #![trigger nfa_has_edge(g1, a, l, b)]
            nfa_has_edge(g2, a, l, b) == nfa_has_edge(g1, a, l, b),
{
    assert forall|a: int, l: Option<char>, b: int|
        #![trigger nfa_has_edge(g2, a, l, b)]
        #![trigger nfa_has_edge(g1, a, l, b)]
        nfa_has_edge(g2, a, l, b) == nfa_has_edge(g1, a, l, b) by {
        if g2.out_chain(a) == g1.out_chain(a) {
            g1.lemma_has_labeled_edge_stable(g2, a);
            if nfa_has_edge(g2, a, l, b) {
                let w = choose|w: AutomataLabel| #[trigger]
                    g2.has_labeled_edge(a, w, b) && w.label == l;
                assert(g1.has_labeled_edge(a, w, b));
            }
            if nfa_has_edge(g1, a, l, b) {
                let w = choose|w: AutomataLabel| #[trigger]
                    g1.has_labeled_edge(a, w, b) && w.label == l;
                assert(g2.has_labeled_edge(a, w, b));
            }
        } else {
            assert(g2.out_chain(a).len() == 0 && g1.out_chain(a).len() == 0);
            assert(!nfa_has_edge(g1, a, l, b)) by {
                assert(forall|lab: AutomataLabel| !g1.has_labeled_edge(a, lab, b));
            }
            assert(!nfa_has_edge(g2, a, l, b)) by {
                assert(forall|lab: AutomataLabel| !g2.has_labeled_edge(a, lab, b));
            }
        }
    }
}

/// After one edge is added, the labeled edges are the old ones plus the
/// new triple.
proof fn lemma_nfa_edge_added(
    g1: Graph<AutomataState, AutomataLabel>,
    g2: Graph<AutomataState, AutomataLabel>,
    src: EdgeIndex,
    tgt: EdgeIndex,
    lab: AutomataLabel,
)
    requires
        g1.wf(),
        g1.edge_cnt() < usize::MAX,
        g2.edges@.len() == g1.edges@.len() + 1,
        forall|i: int| 0 <= i < g1.edges@.len() ==> g2.edges@[i] == #[trigger] g1.edges@[i],
        g2.edges@[g1.edges@.len() as int].data == lab,
        g2.edges@[g1.edges@.len() as int].target == tgt,
        g2.out_chain(src as int) == seq![(g1.edge_cnt() as EdgeIndex)] + g1.out_chain(src as int),
        forall|n: int| n != src as int ==> #[trigger] g2.out_chain(n) == g1.out_chain(n),
    ensures
        forall|a: int, l: Option<char>, b: int|
            #![trigger nfa_has_edge(g2, a, l, b)]
            #![trigger nfa_has_edge(g1, a, l, b)]
            nfa_has_edge(g2, a, l, b) <==> (nfa_has_edge(g1, a, l, b) || (a == src as int && l
                == lab.label && b == tgt as int)),
{
    g1.lemma_has_labeled_edge_after_add(g2, src as int, lab, tgt as int);
    assert forall|a: int, l: Option<char>, b: int|
        #![trigger nfa_has_edge(g2, a, l, b)]
        #![trigger nfa_has_edge(g1, a, l, b)]
        nfa_has_edge(g2, a, l, b) <==> (nfa_has_edge(g1, a, l, b) || (a == src as int && l
            == lab.label && b == tgt as int)) by {
        if a == src as int {
            if nfa_has_edge(g2, a, l, b) {
                let w = choose|w: AutomataLabel| #[trigger]
                    g2.has_labeled_edge(a, w, b) && w.label == l;
                if w == lab && b == tgt as int {
                } else {
                    assert(g1.has_labeled_edge(a, w, b));
                }
            }
            if nfa_has_edge(g1, a, l, b) {
                let w = choose|w: AutomataLabel| #[trigger]
                    g1.has_labeled_edge(a, w, b) && w.label == l;
                assert(g2.has_labeled_edge(a, w, b));
            }
            if l == lab.label && b == tgt as int {
                assert(g2.has_labeled_edge(a, lab, b));
            }
        } else {
            g1.lemma_has_labeled_edge_stable(g2, a);
            if nfa_has_edge(g2, a, l, b) {
                let w = choose|w: AutomataLabel| #[trigger]
                    g2.has_labeled_edge(a, w, b) && w.label == l;
                assert(g1.has_labeled_edge(a, w, b));
            }
            if nfa_has_edge(g1, a, l, b) {
                let w = choose|w: AutomataLabel| #[trigger]
                    g1.has_labeled_edge(a, w, b) && w.label == l;
                assert(g2.has_labeled_edge(a, w, b));
            }
        }
    }
}

/// All labeled edges of the old graph, plus exactly the given new
/// triples, and nothing else.
pub open spec fn edges_extended(
    g1: Graph<AutomataState, AutomataLabel>,
    g2: Graph<AutomataState, AutomataLabel>,
    ts: Set<(int, Option<char>, int)>,
) -> bool {
    forall|a: int, l: Option<char>, b: int|
        #![trigger nfa_has_edge(g2, a, l, b)]
        #![trigger nfa_has_edge(g1, a, l, b)]
        nfa_has_edge(g2, a, l, b) <==> (nfa_has_edge(g1, a, l, b) || ts.contains((a, l, b)))
}

/// What every Thompson compile step preserves: node payloads and the
/// presence of outgoing edges, label well-formedness, and absence of
/// accepting nodes; fresh nodes start without the accepting flag.
pub open spec fn compile_preserves(
    g1: Graph<AutomataState, AutomataLabel>,
    g2: Graph<AutomataState, AutomataLabel>,
) -> bool {
    &&& g2.wf()
    &&& forall|n: int|
        0 <= n < g1.node_cnt() ==> (#[trigger] g2.nodes@[n]).data == g1.nodes@[n].data
    &&& forall|n: int|
        g1.node_cnt() <= n < g2.node_cnt() ==> !(#[trigger] g2.nodes@[n]).data.accepting
    &&& forall|n: int|
        0 <= n < g1.node_cnt() ==> (#[trigger] g2.out_chain(n)).len() >= g1.out_chain(n).len()
    &&& (labels_wf(g1) ==> labels_wf(g2))
}

/// A labeled transition of the model carries a literal character of
/// the remaining stream, or was already present; the returned index
/// locates that character when it is new.
proof fn lemma_thompson_from_labels(
    q: Seq<RegexSymbol>,
    i: int,
    m: NfaModel,
    st: Seq<(int, int)>,
    a: int,
    x: char,
    b: int,
) -> (w: int)
    requires
        thompson_from(q, i, m, st) is Some,
        thompson_from(q, i, m, st)->Some_0.0.triples.contains((a, Some(x), b)),
    ensures
        m.triples.contains((a, Some(x), b)) || (i <= w < q.len() && q[w] == RegexSymbol::Char(x)),
    decreases q.len() - i,
{
    if i < 0 || i >= q.len() {
        0
    } else {
        let stepped = thompson_step(m, st, q[i])->Some_0;
        let w2 = lemma_thompson_from_labels(q, i + 1, stepped.0, stepped.1, a, x, b);
        if stepped.0.triples.contains((a, Some(x), b)) {
            if m.triples.contains((a, Some(x), b)) {
                0
            } else {
                match q[i] {
                    RegexSymbol::Char(c) => {
                        assert(c == x);
                        i
                    },
                    _ => {
                        assert(false);
                        0
                    },
                }
            }
        } else {
            w2
        }
    }
}

/// Every labeled transition of the whole model carries a literal
/// character that occurs in the stream; the returned index locates it.
pub proof fn lemma_thompson_labels(q: Seq<RegexSymbol>, a: int, x: char, b: int) -> (w: int)
    requires
        spec_thompson(q) is Some,
        spec_thompson(q)->Some_0.0.triples.contains((a, Some(x), b)),
    ensures
        0 <= w < q.len() && q[w] == RegexSymbol::Char(x),
{
    lemma_thompson_from_labels(q, 0, empty_model(), Seq::empty(), a, x, b)
}

/// Whether Thompson construction accepts this postfix stream: every
/// operator finds its operands, no parenthesis remains, and exactly one
/// fragment is left at the end.
pub fn is_compilable(postfix_regex: &VecDeque<RegexSymbol>) -> (r: bool)
    ensures
        r == nfa_input_wf(postfix_regex@),
{
    let ghost q = postfix_regex@;
    let ghost mut m = empty_model();
    let ghost mut st = Seq::<(int, int)>::empty();
    let mut height: usize = 0;
    let mut i: usize = 0;
    while i < postfix_regex.len()
        invariant
            q == postfix_regex@,
            i <= q.len(),
            height == st.len(),
            height <= i,
            spec_thompson(q) == thompson_from(q, i as int, m, st),
        decreases q.len() - i,
    {
        let symbol = postfix_regex[i];
        match symbol {
            RegexSymbol::Char(_) => {
                proof {
                    let stepped = thompson_step(m, st, q[i as int])->Some_0;
                    m = stepped.0;
                    st = stepped.1;
                }
                height = height + 1;
            },
            RegexSymbol::Optional | RegexSymbol::Plus | RegexSymbol::Star => {
                if height < 1 {
                    proof {
                        assert(thompson_step(m, st, q[i as int]) is None);
                    }
                    return false;
                }
                proof {
                    let stepped = thompson_step(m, st, q[i as int])->Some_0;
                    m = stepped.0;
                    st = stepped.1;
                }
            },
            RegexSymbol::Concat | RegexSymbol::Alternation => {
                if height < 2 {
                    proof {
                        assert(thompson_step(m, st, q[i as int]) is None);
                    }
                    return false;
                }
                proof {
                    let stepped = thompson_step(m, st, q[i as int])->Some_0;
                    m = stepped.0;
                    st = stepped.1;
                }
                height = height - 1;
            },
            RegexSymbol::Open | RegexSymbol::Close => {
                proof {
                    assert(thompson_step(m, st, q[i as int]) is None);
                }
                return false;
            },
        }
        i = i + 1;
    }
    height == 1
}

fn compile_character(nfa: &mut Graph<AutomataState, AutomataLabel>, c: char) -> (comp:
    AutomataComponent)
    requires
        old(nfa).wf(),
    ensures
        compile_preserves(*old(nfa), *final(nfa)),
        final(nfa).node_cnt() == old(nfa).node_cnt() + 2,
        comp.start_state as int == old(nfa).node_cnt(),
        comp.accept_state as int == old(nfa).node_cnt() + 1,
        edges_extended(
            *old(nfa),
            *final(nfa),
            Set::empty().insert(
                (old(nfa).node_cnt() as int, Some(c), old(nfa).node_cnt() as int + 1),
            ),
        ),
        final(nfa).out_chain(comp.start_state as int).len() > 0,
        final(nfa).out_chain(comp.accept_state as int).len() == 0,
{
    let ghost g0 = *nfa;
    let start = nfa.add_node(AutomataState::new(false));
    let ghost g1 = *nfa;
    let accept = nfa.add_node(AutomataState::new(false));
    let ghost g2 = *nfa;
    nfa.add_edge(start, accept, AutomataLabel::new(Some(c), false));
    proof {
        assert(g0.out_chain(start as int) =~= Seq::empty());
        assert(g1.out_chain(accept as int) =~= Seq::empty());
        lemma_nfa_edges_unchanged(g0, g1);
        lemma_nfa_edges_unchanged(g1, g2);
        lemma_nfa_edge_added(g2, *nfa, start, accept, AutomataLabel { label: Some(c), empty: false });
    }
    AutomataComponent::new(start, accept)
}

fn compile_optional(
    nfa: &mut Graph<AutomataState, AutomataLabel>,
    component_stack: &mut Vec<AutomataComponent>,
) -> (comp: AutomataComponent)
    requires
        old(nfa).wf(),
        old(component_stack)@.len() >= 1,
        old(component_stack)@.last().start_state < old(nfa).node_cnt(),
        old(component_stack)@.last().accept_state < old(nfa).node_cnt(),
    ensures
        compile_preserves(*old(nfa), *final(nfa)),
        final(nfa).node_cnt() == old(nfa).node_cnt() + 2,
        final(component_stack)@ == old(component_stack)@.drop_last(),
        comp.start_state as int == old(nfa).node_cnt(),
        comp.accept_state as int == old(nfa).node_cnt() + 1,
        ({
            let t = old(component_stack)@.last();
            let s = old(nfa).node_cnt() as int;
            let a = old(nfa).node_cnt() as int + 1;
            edges_extended(
                *old(nfa),
                *final(nfa),
                Set::empty().insert((s, None, t.start_state as int)).insert(
                    (t.accept_state as int, None, a),
                ).insert((s, None, a)),
            )
        }),
        final(nfa).out_chain(comp.start_state as int).len() > 0,
        final(nfa).out_chain(comp.accept_state as int).len() == 0,
        final(nfa).out_chain(old(component_stack)@.last().accept_state as int).len() > 0,
{
    let top = component_stack.pop().unwrap();
    let ghost g0 = *nfa;
    let start = nfa.add_node(AutomataState::new(false));
    let ghost g1 = *nfa;
    let accept = nfa.add_node(AutomataState::new(false));
    let ghost g2 = *nfa;
    nfa.add_edge(start, top.get_start_state(), AutomataLabel::new(None, true));
    let ghost g3 = *nfa;
    nfa.add_edge(top.get_accept_state(), accept, AutomataLabel::new(None, true));
    let ghost g4 = *nfa;
    nfa.add_edge(start, accept, AutomataLabel::new(None, true));
    proof {
        assert(g0.out_chain(start as int) =~= Seq::empty());
        assert(g1.out_chain(accept as int) =~= Seq::empty());
        lemma_nfa_edges_unchanged(g0, g1);
        lemma_nfa_edges_unchanged(g1, g2);
        lemma_nfa_edge_added(
            g2,
            g3,
            start,
            top.start_state,
            AutomataLabel { label: None, empty: true },
        );
        lemma_nfa_edge_added(
            g3,
            g4,
            top.accept_state,
            accept,
            AutomataLabel { label: None, empty: true },
        );
        lemma_nfa_edge_added(g4, *nfa, start, accept, AutomataLabel { label: None, empty: true });
    }
    AutomataComponent::new(start, accept)
}

fn compile_plus(
    nfa: &mut Graph<AutomataState, AutomataLabel>,
    component_stack: &mut Vec<AutomataComponent>,
) -> (comp: AutomataComponent)
    requires
        old(nfa).wf(),
        old(component_stack)@.len() >= 1,
        old(component_stack)@.last().start_state < old(nfa).node_cnt(),
        old(component_stack)@.last().accept_state < old(nfa).node_cnt(),
    ensures
        compile_preserves(*old(nfa), *final(nfa)),
        final(nfa).node_cnt() == old(nfa).node_cnt() + 2,
        final(component_stack)@ == old(component_stack)@.drop_last(),
        comp.start_state as int == old(nfa).node_cnt(),
        comp.accept_state as int == old(nfa).node_cnt() + 1,
        ({
            let t = old(component_stack)@.last();
            let s = old(nfa).node_cnt() as int;
            let a = old(nfa).node_cnt() as int + 1;
            edges_extended(
                *old(nfa),
                *final(nfa),
                Set::empty().insert((s, None, t.start_state as int)).insert(
                    (t.accept_state as int, None, a),
                ).insert((t.accept_state as int, None, t.start_state as int)),
            )
        }),
        final(nfa).out_chain(comp.start_state as int).len() > 0,
        final(nfa).out_chain(comp.accept_state as int).len() == 0,
        final(nfa).out_chain(old(component_stack)@.last().accept_state as int).len() > 0,
{
    let top = component_stack.pop().unwrap();
    let ghost g0 = *nfa;
    let start = nfa.add_node(AutomataState::new(false));
    let ghost g1 = *nfa;
    let accept = nfa.add_node(AutomataState::new(false));
    let ghost g2 = *nfa;
    nfa.add_edge(start, top.get_start_state(), AutomataLabel::new(None, true));
    let ghost g3 = *nfa;
    nfa.add_edge(top.get_accept_state(), accept, AutomataLabel::new(None, true));
    let ghost g4 = *nfa;
    nfa.add_edge(top.get_accept_state(), top.get_start_state(), AutomataLabel::new(None, true));
    proof {
        assert(g0.out_chain(start as int) =~= Seq::empty());
        assert(g1.out_chain(accept as int) =~= Seq::empty());
        lemma_nfa_edges_unchanged(g0, g1);
        lemma_nfa_edges_unchanged(g1, g2);
        lemma_nfa_edge_added(
            g2,
            g3,
            start,
            top.start_state,
            AutomataLabel { label: None, empty: true },
        );
        lemma_nfa_edge_added(
            g3,
            g4,
            top.accept_state,
            accept,
            AutomataLabel { label: None, empty: true },
        );
        lemma_nfa_edge_added(
            g4,
            *nfa,
            top.accept_state,
            top.start_state,
            AutomataLabel { label: None, empty: true },
        );
    }
    AutomataComponent::new(start, accept)
}

fn compile_star(
    nfa: &mut Graph<AutomataState, AutomataLabel>,
    component_stack: &mut Vec<AutomataComponent>,
) -> (comp: AutomataComponent)
    requires
        old(nfa).wf(),
        old(component_stack)@.len() >= 1,
        old(component_stack)@.last().start_state < old(nfa).node_cnt(),
        old(component_stack)@.last().accept_state < old(nfa).node_cnt(),
    ensures
        compile_preserves(*old(nfa), *final(nfa)),
        final(nfa).node_cnt() == old(nfa).node_cnt() + 2,
        final(component_stack)@ == old(component_stack)@.drop_last(),
        comp.start_state as int == old(nfa).node_cnt(),
        comp.accept_state as int == old(nfa).node_cnt() + 1,
        ({
            let t = old(component_stack)@.last();
            let s = old(nfa).node_cnt() as int;
            let a = old(nfa).node_cnt() as int + 1;
            edges_extended(
                *old(nfa),
                *final(nfa),
                Set::empty().insert((s, None, t.start_state as int)).insert(
                    (t.accept_state as int, None, a),
                ).insert((t.accept_state as int, None, t.start_state as int)).insert((s, None, a)),
            )
        }),
        final(nfa).out_chain(comp.start_state as int).len() > 0,
        final(nfa).out_chain(comp.accept_state as int).len() == 0,
        final(nfa).out_chain(old(component_stack)@.last().accept_state as int).len() > 0,
{
    let top = component_stack.pop().unwrap();
    let ghost g0 = *nfa;
    let start = nfa.add_node(AutomataState::new(false));
    let ghost g1 = *nfa;
    let accept = nfa.add_node(AutomataState::new(false));
    let ghost g2 = *nfa;
    nfa.add_edge(start, top.get_start_state(), AutomataLabel::new(None, true));
    let ghost g3 = *nfa;
    nfa.add_edge(top.get_accept_state(), accept, AutomataLabel::new(None, true));
    let ghost g4 = *nfa;
    nfa.add_edge(top.get_accept_state(), top.get_start_state(), AutomataLabel::new(None, true));
    let ghost g5 = *nfa;
    nfa.add_edge(start, accept, AutomataLabel::new(None, true));
    proof {
        assert(g0.out_chain(start as int) =~= Seq::empty());
        assert(g1.out_chain(accept as int) =~= Seq::empty());
        lemma_nfa_edges_unchanged(g0, g1);
        lemma_nfa_edges_unchanged(g1, g2);
        lemma_nfa_edge_added(
            g2,
            g3,
            start,
            top.start_state,
            AutomataLabel { label: None, empty: true },
        );
        lemma_nfa_edge_added(
            g3,
            g4,
            top.accept_state,
            accept,
            AutomataLabel { label: None, empty: true },
        );
        lemma_nfa_edge_added(
            g4,
            g5,
            top.accept_state,
            top.start_state,
            AutomataLabel { label: None, empty: true },
        );
        lemma_nfa_edge_added(g5, *nfa, start, accept, AutomataLabel { label: None, empty: true });
    }
    AutomataComponent::new(start, accept)
}

fn compile_concat(
    nfa: &mut Graph<AutomataState, AutomataLabel>,
    component_stack: &mut Vec<AutomataComponent>,
) -> (comp: AutomataComponent)
    requires
        old(nfa).wf(),
        old(component_stack)@.len() >= 2,
        forall|j: int|
            0 <= j < old(component_stack)@.len() ==> (#[trigger] old(
                component_stack,
            )@[j]).start_state < old(nfa).node_cnt() && old(component_stack)@[j].accept_state < old(
                nfa,
            ).node_cnt(),
    ensures
        compile_preserves(*old(nfa), *final(nfa)),
        final(nfa).node_cnt() == old(nfa).node_cnt(),
        final(component_stack)@ == old(component_stack)@.drop_last().drop_last(),
        ({
            let r = old(component_stack)@.last();
            let l = old(component_stack)@[old(component_stack)@.len() - 2];
            &&& comp.start_state == l.start_state
            &&& comp.accept_state == r.accept_state
            &&& edges_extended(
                *old(nfa),
                *final(nfa),
                Set::empty().insert((l.accept_state as int, None, r.start_state as int)),
            )
            &&& final(nfa).out_chain(l.accept_state as int).len() > 0
        }),
{
    let right = component_stack.pop().unwrap();
    let left = component_stack.pop().unwrap();
    let ghost g0 = *nfa;
    nfa.add_edge(left.get_accept_state(), right.get_start_state(), AutomataLabel::new(None, true));
    proof {
        lemma_nfa_edge_added(
            g0,
            *nfa,
            left.accept_state,
            right.start_state,
            AutomataLabel { label: None, empty: true },
        );
    }
    AutomataComponent::new(left.get_start_state(), right.get_accept_state())
}

fn compile_alternation(
    nfa: &mut Graph<AutomataState, AutomataLabel>,
    component_stack: &mut Vec<AutomataComponent>,
) -> (comp: AutomataComponent)
    requires
        old(nfa).wf(),
        old(component_stack)@.len() >= 2,
        forall|j: int|
            0 <= j < old(component_stack)@.len() ==> (#[trigger] old(
                component_stack,
            )@[j]).start_state < old(nfa).node_cnt() && old(component_stack)@[j].accept_state < old(
                nfa,
            ).node_cnt(),
    ensures
        compile_preserves(*old(nfa), *final(nfa)),
        final(nfa).node_cnt() == old(nfa).node_cnt() + 2,
        final(component_stack)@ == old(component_stack)@.drop_last().drop_last(),
        comp.start_state as int == old(nfa).node_cnt(),
        comp.accept_state as int == old(nfa).node_cnt() + 1,
        ({
            let r = old(component_stack)@.last();
            let l = old(component_stack)@[old(component_stack)@.len() - 2];
            let s = old(nfa).node_cnt() as int;
            let a = old(nfa).node_cnt() as int + 1;
            &&& edges_extended(
                *old(nfa),
                *final(nfa),
                Set::empty().insert((s, None, l.start_state as int)).insert(
                    (s, None, r.start_state as int),
                ).insert((l.accept_state as int, None, a)).insert((r.accept_state as int, None, a)),
            )
            &&& final(nfa).out_chain(l.accept_state as int).len() > 0
            &&& final(nfa).out_chain(r.accept_state as int).len() > 0
        }),
        final(nfa).out_chain(comp.start_state as int).len() > 0,
        final(nfa).out_chain(comp.accept_state as int).len() == 0,
{
    let right = component_stack.pop().unwrap();
    let left = component_stack.pop().unwrap();
    let ghost g0 = *nfa;
    let start = nfa.add_node(AutomataState::new(false));
    let ghost g1 = *nfa;
    let accept = nfa.add_node(AutomataState::new(false));
    let ghost g2 = *nfa;
    nfa.add_edge(start, left.get_start_state(), AutomataLabel::new(None, true));
    let ghost g3 = *nfa;
    nfa.add_edge(start, right.get_start_state(), AutomataLabel::new(None, true));
    let ghost g4 = *nfa;
    nfa.add_edge(left.get_accept_state(), accept, AutomataLabel::new(None, true));
    let ghost g5 = *nfa;
    nfa.add_edge(right.get_accept_state(), accept, AutomataLabel::new(None, true));
    proof {
        assert(g0.out_chain(start as int) =~= Seq::empty());
        assert(g1.out_chain(accept as int) =~= Seq::empty());
        lemma_nfa_edges_unchanged(g0, g1);
        lemma_nfa_edges_unchanged(g1, g2);
        lemma_nfa_edge_added(
            g2,
            g3,
            start,
            left.start_state,
            AutomataLabel { label: None, empty: true },
        );
        lemma_nfa_edge_added(
            g3,
            g4,
            start,
            right.start_state,
            AutomataLabel { label: None, empty: true },
        );
        lemma_nfa_edge_added(
            g4,
            g5,
            left.accept_state,
            accept,
            AutomataLabel { label: None, empty: true },
        );
        lemma_nfa_edge_added(
            g5,
            *nfa,
            right.accept_state,
            accept,
            AutomataLabel { label: None, empty: true },
        );
    }
    AutomataComponent::new(start, accept)
}

/// One Thompson step on the executable graph and fragment stack,
/// driven by one postfix symbol. Parentheses never reach this point:
/// the postfixer has removed them.
fn compile(
    nfa: &mut Graph<AutomataState, AutomataLabel>,
    component_stack: &mut Vec<AutomataComponent>,
    symbol: RegexSymbol,
) -> (comp: AutomataComponent)
    requires
        old(nfa).wf(),
        forall|j: int|
            0 <= j < old(component_stack)@.len() ==> (#[trigger] old(
                component_stack,
            )@[j]).start_state < old(nfa).node_cnt() && old(component_stack)@[j].accept_state < old(
                nfa,
            ).node_cnt(),
        match symbol {
            RegexSymbol::Char(_) => true,
            RegexSymbol::Optional | RegexSymbol::Plus | RegexSymbol::Star => old(
                component_stack,
            )@.len() >= 1,
            RegexSymbol::Concat | RegexSymbol::Alternation => old(component_stack)@.len() >= 2,
            RegexSymbol::Open | RegexSymbol::Close => false,
        },
    ensures
        compile_preserves(*old(nfa), *final(nfa)),
        ({
            let st1 = old(component_stack)@;
            let s = old(nfa).node_cnt() as int;
            let a = old(nfa).node_cnt() as int + 1;
            match symbol {
                RegexSymbol::Char(c) => {
                    &&& final(nfa).node_cnt() == old(nfa).node_cnt() + 2
                    &&& final(component_stack)@ == st1
                    &&& comp.start_state as int == s
                    &&& comp.accept_state as int == a
                    &&& edges_extended(
                        *old(nfa),
                        *final(nfa),
                        Set::empty().insert((s, Some(c), a)),
                    )
                    &&& final(nfa).out_chain(s).len() > 0
                    &&& final(nfa).out_chain(a).len() == 0
                },
                RegexSymbol::Optional => {
                    let t = st1.last();
                    &&& final(nfa).node_cnt() == old(nfa).node_cnt() + 2
                    &&& final(component_stack)@ == st1.drop_last()
                    &&& comp.start_state as int == s
                    &&& comp.accept_state as int == a
                    &&& edges_extended(
                        *old(nfa),
                        *final(nfa),
                        Set::empty().insert((s, None, t.start_state as int)).insert(
                            (t.accept_state as int, None, a),
                        ).insert((s, None, a)),
                    )
                    &&& final(nfa).out_chain(s).len() > 0
                    &&& final(nfa).out_chain(a).len() == 0
                    &&& final(nfa).out_chain(t.accept_state as int).len() > 0
                },
                RegexSymbol::Plus => {
                    let t = st1.last();
                    &&& final(nfa).node_cnt() == old(nfa).node_cnt() + 2
                    &&& final(component_stack)@ == st1.drop_last()
                    &&& comp.start_state as int == s
                    &&& comp.accept_state as int == a
                    &&& edges_extended(
                        *old(nfa),
                        *final(nfa),
                        Set::empty().insert((s, None, t.start_state as int)).insert(
                            (t.accept_state as int, None, a),
                        ).insert((t.accept_state as int, None, t.start_state as int)),
                    )
                    &&& final(nfa).out_chain(s).len() > 0
                    &&& final(nfa).out_chain(a).len() == 0
                    &&& final(nfa).out_chain(t.accept_state as int).len() > 0
                },
                RegexSymbol::Star => {
                    let t = st1.last();
                    &&& final(nfa).node_cnt() == old(nfa).node_cnt() + 2
                    &&& final(component_stack)@ == st1.drop_last()
                    &&& comp.start_state as int == s
                    &&& comp.accept_state as int == a
                    &&& edges_extended(
                        *old(nfa),
                        *final(nfa),
                        Set::empty().insert((s, None, t.start_state as int)).insert(
                            (t.accept_state as int, None, a),
                        ).insert((t.accept_state as int, None, t.start_state as int)).insert(
                            (s, None, a),
                        ),
                    )
                    &&& final(nfa).out_chain(s).len() > 0
                    &&& final(nfa).out_chain(a).len() == 0
                    &&& final(nfa).out_chain(t.accept_state as int).len() > 0
                },
                RegexSymbol::Concat => {
                    let r = st1.last();
                    let l = st1[st1.len() - 2];
                    &&& final(nfa).node_cnt() == old(nfa).node_cnt()
                    &&& final(component_stack)@ == st1.drop_last().drop_last()
                    &&& comp.start_state == l.start_state
                    &&& comp.accept_state == r.accept_state
                    &&& edges_extended(
                        *old(nfa),
                        *final(nfa),
                        Set::empty().insert((l.accept_state as int, None, r.start_state as int)),
                    )
                    &&& final(nfa).out_chain(l.accept_state as int).len() > 0
                },
                RegexSymbol::Alternation => {
                    let r = st1.last();
                    let l = st1[st1.len() - 2];
                    &&& final(nfa).node_cnt() == old(nfa).node_cnt() + 2
                    &&& final(component_stack)@ == st1.drop_last().drop_last()
                    &&& comp.start_state as int == s
                    &&& comp.accept_state as int == a
                    &&& edges_extended(
                        *old(nfa),
                        *final(nfa),
                        Set::empty().insert((s, None, l.start_state as int)).insert(
                            (s, None, r.start_state as int),
                        ).insert((l.accept_state as int, None, a)).insert(
                            (r.accept_state as int, None, a),
                        ),
                    )
                    &&& final(nfa).out_chain(s).len() > 0
                    &&& final(nfa).out_chain(a).len() == 0
                    &&& final(nfa).out_chain(l.accept_state as int).len() > 0
                    &&& final(nfa).out_chain(r.accept_state as int).len() > 0
                },
                RegexSymbol::Open | RegexSymbol::Close => true,
            }
        }),
{
    match symbol {
        RegexSymbol::Optional => compile_optional(nfa, component_stack),
        RegexSymbol::Plus => compile_plus(nfa, component_stack),
        RegexSymbol::Star => compile_star(nfa, component_stack),
        RegexSymbol::Concat => compile_concat(nfa, component_stack),
        RegexSymbol::Alternation => compile_alternation(nfa, component_stack),
        RegexSymbol::Char(c) => compile_character(nfa, c),
        RegexSymbol::Open | RegexSymbol::Close => {
            proof {
                assert(false);
            }
            AutomataComponent::new(0, 0)
        },
    }
}

/// Thompson construction of an NFA from a postfix symbol queue. The
/// returned component holds the start state and the single accepting
/// state; the graph realises exactly the transitions of the Thompson
/// model of the stream, marks exactly the final fragment's exit
/// accepting, and leaves no other state without an outgoing edge.
pub fn build_nfa(postfix_regex: VecDeque<RegexSymbol>) -> (r: (
    AutomataComponent,
    Graph<AutomataState, AutomataLabel>,
))
    requires
        nfa_input_wf(postfix_regex@),
    ensures
        spec_thompson(postfix_regex@) is Some,
        ({
            let m = spec_thompson(postfix_regex@)->Some_0.0;
            let st = spec_thompson(postfix_regex@)->Some_0.1;
            &&& nfa_corresponds(r.1, m)
            &&& labels_wf(r.1)
            &&& r.0.start_state as int == st[0].0
            &&& r.0.accept_state as int == st[0].1
            &&& r.0.start_state < r.1.node_cnt()
            &&& r.0.accept_state < r.1.node_cnt()
            &&& forall|n: int|
                0 <= n < r.1.node_cnt() ==> ((#[trigger] r.1.nodes@[n]).data.accepting <==> n
                    == r.0.accept_state as int)
            &&& forall|n: int|
                0 <= n < r.1.node_cnt() && n != r.0.accept_state as int ==> (
                #[trigger] r.1.out_chain(n)).len() > 0
        }),
{
    let ghost q = postfix_regex@;
    let mut nfa: Graph<AutomataState, AutomataLabel> = Graph::new();
    let mut component_stack: Vec<AutomataComponent> = Vec::new();
    let ghost mut m = empty_model();
    let ghost mut st = Seq::<(int, int)>::empty();
    let mut i: usize = 0;
    while i < postfix_regex.len()
        invariant
            q == postfix_regex@,
            i <= q.len(),
            nfa_input_wf(q),
            spec_thompson(q) == thompson_from(q, i as int, m, st),
            nfa_corresponds(nfa, m),
            labels_wf(nfa),
            all_nonaccepting(nfa),
            stack_matches(component_stack@, st),
            stack_in_range(st, m.node_total),
            forall|n: int|
                0 <= n < nfa.node_cnt() && (#[trigger] nfa.out_chain(n)).len() == 0
                    ==> is_stack_exit(st, n),
        decreases q.len() - i,
    {
        let symbol = postfix_regex[i];
        proof {
            assert(thompson_from(q, i as int, m, st) is Some);
            assert(thompson_step(m, st, q[i as int]) is Some);
        }
        let ghost g_old = nfa;
        let ghost st_old = st;
        let ghost m_old = m;
        let component = compile(&mut nfa, &mut component_stack, symbol);
        component_stack.push(component);
        proof {
            let stepped = thompson_step(m_old, st_old, q[i as int])->Some_0;
            m = stepped.0;
            st = stepped.1;
            assert(spec_thompson(q) == thompson_from(q, i as int + 1, m, st));
            // The graph realises the stepped model.
            let ts = m.triples;
            assert forall|a: int, l: Option<char>, b: int|
                #![trigger nfa_has_edge(nfa, a, l, b)]
                #![trigger m.triples.contains((a, l, b))]
                nfa_has_edge(nfa, a, l, b) <==> m.triples.contains((a, l, b)) by {
                match symbol {
                    RegexSymbol::Open | RegexSymbol::Close => {
                        assert(false);
                    },
                    _ => {},
                }
            }
            assert(nfa_corresponds(nfa, m));
            // The executable stack mirrors the fragment stack.
            assert(stack_matches(component_stack@, st));
            assert(stack_in_range(st, m.node_total));
            // Every node without outgoing edges is some fragment's exit.
            assert forall|n: int|
                0 <= n < nfa.node_cnt() && (#[trigger] nfa.out_chain(n)).len() == 0
                    implies is_stack_exit(st, n) by {
                if n < g_old.node_cnt() {
                    assert(g_old.out_chain(n).len() == 0);
                    assert(is_stack_exit(st_old, n));
                    let j = choose|j: int| 0 <= j < st_old.len() && (#[trigger] st_old[j]).1 == n;
                    match symbol {
                        RegexSymbol::Char(_) => {
                            assert(st[j] == st_old[j]);
                        },
                        RegexSymbol::Optional | RegexSymbol::Plus | RegexSymbol::Star => {
                            if j < st_old.len() - 1 {
                                assert(st[j] == st_old[j]);
                            } else {
                                assert(false);
                            }
                        },
                        RegexSymbol::Concat | RegexSymbol::Alternation => {
                            if j < st_old.len() - 2 {
                                assert(st[j] == st_old[j]);
                            } else if j == st_old.len() - 1 {
                                assert(st.last().1 == n);
                            } else {
                                assert(false);
                            }
                        },
                        RegexSymbol::Open | RegexSymbol::Close => {
                            assert(false);
                        },
                    }
                } else {
                    match symbol {
                        RegexSymbol::Concat => {
                            assert(false);
                        },
                        RegexSymbol::Open | RegexSymbol::Close => {
                            assert(false);
                        },
                        _ => {
                            assert(n == g_old.node_cnt() + 1);
                            assert(st.last().1 == n);
                        },
                    }
                }
            }
        }
        i = i + 1;
    }
    proof {
        assert(spec_thompson(q) == Some((m, st)));
        assert(st.len() == 1);
    }
    let result = component_stack.pop().unwrap();
    let accept_state = result.get_accept_state();
    let ghost g_before = nfa;
    let mut state = *nfa.get_node_data(accept_state);
    state.mark_as_accepting();
    nfa.set_node_data(accept_state, state);
    proof {
        lemma_nfa_edges_unchanged(g_before, nfa);
        assert(nfa_corresponds(nfa, m));
        assert forall|n: int|
            0 <= n < nfa.node_cnt() && n != result.accept_state as int implies (
        #[trigger] nfa.out_chain(n)).len() > 0 by {
            if nfa.out_chain(n).len() == 0 {
                assert(g_before.out_chain(n).len() == 0);
                assert(is_stack_exit(st, n));
                let j = choose|j: int| 0 <= j < st.len() && (#[trigger] st[j]).1 == n;
                assert(j == 0);
                assert(false);
            }
        }
    }
    (result, nfa)
}

} // verus!
