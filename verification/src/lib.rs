use vstd::prelude::*;

pub mod automata;
pub mod dfa;
pub mod graph;
pub mod nfa;
pub mod postfixer;
pub mod regex;

use crate::automata::AutomataState;
use crate::dfa::{
    avail_chars, build_dfa, closure, dfa_accepts, dfa_matches_nfa, dfa_realizes,
    lemma_dfa_nfa_equivalence, move_set, nfa_accepts, node_expanded,
};
use crate::graph::{EdgeIndex, Graph, NodeIndex};
use crate::nfa::{
    build_nfa, lemma_thompson_labels, nfa_input_wf, nfa_triples, spec_thompson,
};
use crate::postfixer::{
    lemma_alphabet_complete, lemma_alphabet_nodup, spec_alphabet, spec_transform,
};

verus! {

/// A query together with where to look and how to compare case.
pub struct Config {
    pub query: String,
    pub file_path: String,
    pub ignore_case: bool,
}

/// The lowercase form of one character, as the characters it unfolds
/// to; it depends on the character alone.
pub uninterp spec fn char_lower(c: char) -> Seq<char>;

/// Relies on char::to_lowercase: yields the lowercase mapping of the
/// one character, determined by the character alone.
#[verifier::external_body]
fn to_lowercase_chars(c: char) -> (r: Vec<char>)
    ensures
        r@ == char_lower(c),
{
    c.to_lowercase().collect()
}

/// Whether two characters agree once both are lowercased.
fn lowercase_eq(a: char, b: char) -> (r: bool)
    ensures
        r == (char_lower(a) == char_lower(b)),
{
    let va = to_lowercase_chars(a);
    let vb = to_lowercase_chars(b);
    if va.len() != vb.len() {
        return false;
    }
    let mut k: usize = 0;
    while k < va.len()
        invariant
            va@ == char_lower(a),
            vb@ == char_lower(b),
            va@.len() == vb@.len(),
            k <= va@.len(),
            forall|j: int| 0 <= j < k ==> va@[j] == vb@[j],
        decreases va@.len() - k,
    {
        if va[k] != vb[k] {
            return false;
        }
        k = k + 1;
    }
    proof {
        assert(va@ =~= vb@);
    }
    true
}

/// How an edge label is compared with an input character: exactly, or
/// by the lowercase forms of both.
pub open spec fn label_matches(label: char, c: char, ignore_case: bool) -> bool {
    if ignore_case {
        char_lower(label) == char_lower(c)
    } else {
        label == c
    }
}

/// The state reached by following the last matching edge of the list,
/// scanning the whole list and letting later entries win, as the
/// scanner's edge loop does.
pub open spec fn scan_pick(
    d: Graph<AutomataState, char>,
    ch: Seq<EdgeIndex>,
    x: char,
    ignore_case: bool,
) -> Option<int>
    decreases ch.len(),
{
    if ch.len() == 0 {
        None
    } else {
        match scan_pick(d, ch.drop_first(), x, ignore_case) {
            Some(t) => Some(t),
            None => {
                if ch[0] < d.edge_cnt() && label_matches(
                    d.edges@[ch[0] as int].data,
                    x,
                    ignore_case,
                ) {
                    Some(d.edges@[ch[0] as int].target as int)
                } else {
                    None
                }
            },
        }
    }
}

/// One scanner step from DFA state `q` on input `x`.
pub open spec fn scan_step(
    d: Graph<AutomataState, char>,
    q: int,
    x: char,
    ignore_case: bool,
) -> Option<int> {
    scan_pick(d, d.out_chain(q), x, ignore_case)
}

/// The DFA state where the scanner comes to rest: it follows matching
/// edges until the input ends or no edge matches.
pub open spec fn stuck_run(
    d: Graph<AutomataState, char>,
    q: int,
    s: Seq<char>,
    ignore_case: bool,
) -> int
    decreases s.len(),
{
    if s.len() == 0 {
        q
    } else {
        match scan_step(d, q, s[0], ignore_case) {
            None => q,
            Some(t) => stuck_run(d, t, s.drop_first(), ignore_case),
        }
    }
}

pub open spec fn dfa_accepting(d: Graph<AutomataState, char>, q: int) -> bool {
    0 <= q < d.node_cnt() && d.nodes@[q].data.accepting
}

/// A line contains a match when the scanner, started at some offset,
/// comes to rest in an accepting state.
pub open spec fn line_matches_dfa(
    d: Graph<AutomataState, char>,
    d0: int,
    line: Seq<char>,
    ignore_case: bool,
) -> bool {
    exists|i: int|
        0 <= i < line.len() && dfa_accepting(
            d,
            #[trigger] stuck_run(d, d0, line.skip(i), ignore_case),
        )
}

/// Simulates the DFA on one suffix of a line: follows an edge whose
/// label matches each character in turn, stops at the first character
/// with no matching edge, and reports whether the state reached
/// accepts.
pub fn run_automata(
    start_of_dfa: NodeIndex,
    dfa: &Graph<AutomataState, char>,
    sub_line: &str,
    ignore_case: bool,
) -> (r: bool)
    requires
        dfa.wf(),
        start_of_dfa < dfa.node_cnt(),
    ensures
        r == dfa_accepting(*dfa, stuck_run(*dfa, start_of_dfa as int, sub_line@, ignore_case)),
{
    let n = sub_line.unicode_len();
    let mut current_node = start_of_dfa;
    let mut i: usize = 0;
    proof {
        assert(sub_line@.skip(0) =~= sub_line@);
    }
    while i < n
        invariant
            dfa.wf(),
            current_node < dfa.node_cnt(),
            n == sub_line@.len(),
            i <= n,
            stuck_run(*dfa, start_of_dfa as int, sub_line@, ignore_case) == stuck_run(
                *dfa,
                current_node as int,
                sub_line@.skip(i as int),
                ignore_case,
            ),
        ensures
            stuck_run(*dfa, start_of_dfa as int, sub_line@, ignore_case) == current_node as int,
            current_node < dfa.node_cnt(),
        decreases n - i,
    {
        let c = sub_line.get_char(i);
        let mut can_progress = false;
        let mut best: NodeIndex = current_node;
        let outgoing_edges = match dfa.outgoing_edges(current_node) {
            Ok(v) => v,
            Err(_) => {
                proof {
                    assert(false);
                }
                Vec::new()
            },
        };
        let ghost chain = dfa.out_chain(current_node as int);
        let ghost suffix = sub_line@.skip(i as int);
        proof {
            assert(suffix.len() == n - i);
            assert(suffix[0] == sub_line@[i as int]);
            assert(chain.skip(0) =~= chain);
        }
        let mut j: usize = 0;
        while j < outgoing_edges.len()
            invariant
                dfa.wf(),
                current_node < dfa.node_cnt(),
                chain == dfa.out_chain(current_node as int),
                outgoing_edges@ == chain,
                forall|k: int| 0 <= k < chain.len() ==> (#[trigger] chain[k]) < dfa.edge_cnt(),
                j <= chain.len(),
                c == suffix[0],
                can_progress ==> best < dfa.node_cnt(),
                scan_pick(*dfa, chain, c, ignore_case) == (match scan_pick(
                    *dfa,
                    chain.skip(j as int),
                    c,
                    ignore_case,
                ) {
                    Some(t) => Some(t),
                    None => if can_progress {
                        Some(best as int)
                    } else {
                        None::<int>
                    },
                }),
            decreases chain.len() - j,
        {
            let edge = outgoing_edges[j];
            let label = *dfa.get_edge_data(edge);
            let is_match = if ignore_case {
                lowercase_eq(label, c)
            } else {
                label == c
            };
            proof {
                assert(chain.skip(j as int)[0] == chain[j as int]);
                assert(chain.skip(j as int).drop_first() =~= chain.skip(j as int + 1));
            }
            if is_match {
                let target = match dfa.traverse(edge) {
                    Ok(t) => t,
                    Err(_) => {
                        proof {
                            assert(false);
                        }
                        0
                    },
                };
                best = target;
                can_progress = true;
            }
            j = j + 1;
        }
        proof {
            assert(chain.skip(chain.len() as int) =~= Seq::<EdgeIndex>::empty());
        }
        if !can_progress {
            proof {
                assert(scan_step(*dfa, current_node as int, suffix[0], ignore_case) is None);
                assert(stuck_run(*dfa, current_node as int, suffix, ignore_case)
                    == current_node as int);
            }
            break ;
        }
        proof {
            assert(scan_step(*dfa, current_node as int, suffix[0], ignore_case) == Some(
                best as int,
            ));
            assert(stuck_run(*dfa, current_node as int, suffix, ignore_case) == stuck_run(
                *dfa,
                best as int,
                suffix.drop_first(),
                ignore_case,
            ));
            assert(suffix.drop_first() =~= sub_line@.skip(i as int + 1));
        }
        current_node = best;
        i = i + 1;
    }
    let data = dfa.get_node_data(current_node);
    data.is_accepting()
}

/// Tries every starting offset of the line as a potential match origin.
pub fn check_line_matches(
    start_of_dfa: NodeIndex,
    dfa: &Graph<AutomataState, char>,
    line: &str,
    ignore_case: bool,
) -> (r: bool)
    requires
        dfa.wf(),
        start_of_dfa < dfa.node_cnt(),
    ensures
        r == line_matches_dfa(*dfa, start_of_dfa as int, line@, ignore_case),
{
    let n = line.unicode_len();
    let mut i: usize = 0;
    while i < n
        invariant
            dfa.wf(),
            start_of_dfa < dfa.node_cnt(),
            n == line@.len(),
            i <= n,
            forall|k: int|
                0 <= k < i ==> !dfa_accepting(
                    *dfa,
                    #[trigger] stuck_run(*dfa, start_of_dfa as int, line@.skip(k), ignore_case),
                ),
        decreases n - i,
    {
        let sub_line = line.substring_char(i, n);
        proof {
            assert(sub_line@ =~= line@.skip(i as int));
        }
        let automata_has_accepted = run_automata(start_of_dfa, dfa, sub_line, ignore_case);
        if automata_has_accepted {
            return true;
        }
        i = i + 1;
    }
    false
}

// ---------------------------------------------------------------------------
// The scanner's behaviour at the level of NFA state sets, so that
// `search` can promise its results in terms of the pattern alone.
// ---------------------------------------------------------------------------
/// The first alphabet character whose label matches the input and on
/// which the state set can step; the scanner's tie-break takes exactly
/// this one.
pub open spec fn sim_first_avail(
    tr: Set<(int, Option<char>, int)>,
    alphabet: Seq<char>,
    s: Set<int>,
    x: char,
    ignore_case: bool,
) -> Option<char>
    decreases alphabet.len(),
{
    if alphabet.len() == 0 {
        None
    } else if label_matches(alphabet[0], x, ignore_case) && closure(
        tr,
        move_set(tr, s, alphabet[0]),
    ) != Set::<int>::empty() {
        Some(alphabet[0])
    } else {
        sim_first_avail(tr, alphabet.drop_first(), s, x, ignore_case)
    }
}

/// The scanner's rest state at the level of state sets: step while a
/// matching transition exists, then stand still.
pub open spec fn sim_stuck_run(
    tr: Set<(int, Option<char>, int)>,
    alphabet: Seq<char>,
    s: Set<int>,
    line: Seq<char>,
    ignore_case: bool,
) -> Set<int>
    decreases line.len(),
{
    if line.len() == 0 {
        s
    } else {
        match sim_first_avail(tr, alphabet, s, line[0], ignore_case) {
            None => s,
            Some(c) => sim_stuck_run(
                tr,
                alphabet,
                closure(tr, move_set(tr, s, c)),
                line.drop_first(),
                ignore_case,
            ),
        }
    }
}

/// The first index of the sequence whose character matches the input.
pub open spec fn first_match_idx(f: Seq<char>, x: char, ignore_case: bool) -> Option<int>
    decreases f.len(),
{
    if f.len() == 0 {
        None
    } else if label_matches(f[0], x, ignore_case) {
        Some(0)
    } else {
        match first_match_idx(f.drop_first(), x, ignore_case) {
            Some(j) => Some(j + 1),
            None => None,
        }
    }
}

proof fn lemma_first_idx_bounds(f: Seq<char>, x: char, ignore_case: bool)
    ensures
        match first_match_idx(f, x, ignore_case) {
            Some(j) => 0 <= j < f.len() && label_matches(f[j], x, ignore_case),
            None => true,
        },
    decreases f.len(),
{
    if f.len() > 0 && !label_matches(f[0], x, ignore_case) {
        lemma_first_idx_bounds(f.drop_first(), x, ignore_case);
    }
}

proof fn lemma_first_idx_snoc(f: Seq<char>, x: char, ignore_case: bool)
    requires
        f.len() > 0,
    ensures
        first_match_idx(f, x, ignore_case) == (match first_match_idx(
            f.drop_last(),
            x,
            ignore_case,
        ) {
            Some(j) => Some(j),
            None => if label_matches(f.last(), x, ignore_case) {
                Some(f.len() - 1)
            } else {
                None::<int>
            },
        }),
    decreases f.len(),
{
    if f.len() == 1 {
        assert(f.drop_last() =~= Seq::<char>::empty());
        assert(f.drop_first() =~= Seq::<char>::empty());
    } else {
        let g = f.drop_first();
        lemma_first_idx_snoc(g, x, ignore_case);
        assert(f.drop_last()[0] == f[0]);
        assert(f.drop_last().drop_first() =~= g.drop_last());
        assert(g.last() == f.last());
    }
}

proof fn lemma_scan_pick_chain(
    d: Graph<AutomataState, char>,
    ch: Seq<EdgeIndex>,
    f: Seq<char>,
    x: char,
    ignore_case: bool,
)
    requires
        ch.len() == f.len(),
        forall|j: int|
            0 <= j < ch.len() ==> (#[trigger] ch[j]) < d.edge_cnt() && d.edges@[ch[j] as int].data
                == f[f.len() - 1 - j],
    ensures
        match first_match_idx(f, x, ignore_case) {
            None => scan_pick(d, ch, x, ignore_case) is None,
            Some(fi) => 0 <= fi < f.len() && scan_pick(d, ch, x, ignore_case) == Some(
                d.edges@[ch[f.len() - 1 - fi] as int].target as int,
            ),
        },
    decreases ch.len(),
{
    if ch.len() == 0 {
    } else {
        let ch1 = ch.drop_first();
        let f1 = f.drop_last();
        assert(forall|j: int| 0 <= j < ch1.len() ==> #[trigger] ch1[j] == ch[j + 1]);
        assert(forall|j: int| 0 <= j < f1.len() ==> #[trigger] f1[j] == f[j]);
        lemma_scan_pick_chain(d, ch1, f1, x, ignore_case);
        lemma_first_idx_snoc(f, x, ignore_case);
        assert(d.edges@[ch[0] as int].data == f.last());
        match first_match_idx(f1, x, ignore_case) {
            Some(fi) => {
                assert(ch1[f1.len() - 1 - fi] == ch[f.len() - 1 - fi]);
            },
            None => {},
        }
    }
}

proof fn lemma_first_avail_vs_idx(
    tr: Set<(int, Option<char>, int)>,
    alphabet: Seq<char>,
    s: Set<int>,
    x: char,
    ignore_case: bool,
)
    ensures
        sim_first_avail(tr, alphabet, s, x, ignore_case) == (match first_match_idx(
            avail_chars(tr, s, alphabet),
            x,
            ignore_case,
        ) {
            None => None::<char>,
            Some(fi) => Some(avail_chars(tr, s, alphabet)[fi]),
        }),
        match sim_first_avail(tr, alphabet, s, x, ignore_case) {
            Some(c) => label_matches(c, x, ignore_case) && closure(tr, move_set(tr, s, c))
                != Set::<int>::empty(),
            None => true,
        },
    decreases alphabet.len(),
{
    if alphabet.len() == 0 {
    } else {
        let tail = alphabet.drop_first();
        lemma_first_avail_vs_idx(tr, tail, s, x, ignore_case);
        let f = avail_chars(tr, s, alphabet);
        let rest = avail_chars(tr, s, tail);
        if closure(tr, move_set(tr, s, alphabet[0])) != Set::<int>::empty() {
            assert(f == seq![alphabet[0]] + rest);
            assert(f[0] == alphabet[0]);
            assert(f.drop_first() =~= rest);
            if label_matches(alphabet[0], x, ignore_case) {
            } else {
                lemma_first_idx_bounds(rest, x, ignore_case);
                match first_match_idx(rest, x, ignore_case) {
                    Some(j) => {
                        assert(f[j + 1] == rest[j]);
                    },
                    None => {},
                }
            }
        } else {
            assert(f == rest);
        }
    }
}

/// The DFA scanner and the state-set scanner stay in lock step: the
/// state where the scanner rests denotes exactly the simulated set.
proof fn lemma_stuck_run_by_reps(
    d: Graph<AutomataState, char>,
    reps: Seq<Set<int>>,
    tr: Set<(int, Option<char>, int)>,
    d0: int,
    n0: int,
    acc: int,
    alphabet: Seq<char>,
    k: int,
    s: Seq<char>,
    ignore_case: bool,
)
    requires
        dfa_realizes(d, d0, tr, n0, acc, alphabet, reps),
        0 <= k < reps.len(),
    ensures
        0 <= stuck_run(d, k, s, ignore_case) < reps.len(),
        reps[stuck_run(d, k, s, ignore_case)] == sim_stuck_run(
            tr,
            alphabet,
            reps[k],
            s,
            ignore_case,
        ),
    decreases s.len(),
{
    if s.len() == 0 {
    } else {
        let x = s[0];
        let f = avail_chars(tr, reps[k], alphabet);
        let ch = d.out_chain(k);
        assert(node_expanded(d, reps, tr, alphabet, k));
        lemma_scan_pick_chain(d, ch, f, x, ignore_case);
        lemma_first_avail_vs_idx(tr, alphabet, reps[k], x, ignore_case);
        match first_match_idx(f, x, ignore_case) {
            None => {
                assert(scan_step(d, k, x, ignore_case) is None);
                assert(stuck_run(d, k, s, ignore_case) == k);
                assert(sim_first_avail(tr, alphabet, reps[k], x, ignore_case) is None);
            },
            Some(fi) => {
                let j = f.len() - 1 - fi;
                let tgt = d.edges@[ch[j] as int].target as int;
                assert(scan_step(d, k, x, ignore_case) == Some(tgt));
                assert(reps[tgt] == closure(tr, move_set(tr, reps[k], f[fi])));
                assert(sim_first_avail(tr, alphabet, reps[k], x, ignore_case) == Some(f[fi]));
                lemma_stuck_run_by_reps(
                    d,
                    reps,
                    tr,
                    d0,
                    n0,
                    acc,
                    alphabet,
                    tgt,
                    s.drop_first(),
                    ignore_case,
                );
            },
        }
    }
}

// ---------------------------------------------------------------------------
// Lines of a text.
// ---------------------------------------------------------------------------
/// The position of the first newline at or after `i`.
pub open spec fn first_nl_from(s: Seq<char>, i: int) -> Option<int>
    decreases s.len() - i,
{
    if i < 0 || i >= s.len() {
        None
    } else if s[i] == '\n' {
        Some(i)
    } else {
        first_nl_from(s, i + 1)
    }
}

/// A line with one carriage return dropped from its end, as a line
/// ending in the two-character form leaves one behind.
pub open spec fn strip_trailing_cr(t: Seq<char>) -> Seq<char> {
    if t.len() > 0 && t.last() == '\r' {
        t.drop_last()
    } else {
        t
    }
}

/// The lines of a text: split at newlines, each segment before one
/// stripped of a trailing carriage return, and no empty final line
/// after a trailing newline.
pub open spec fn spec_lines(s: Seq<char>) -> Seq<Seq<char>>
    decreases s.len(),
{
    if s.len() == 0 {
        Seq::empty()
    } else {
        match first_nl_from(s, 0) {
            Some(j) => if 0 <= j < s.len() {
                seq![strip_trailing_cr(s.take(j))] + spec_lines(s.skip(j + 1))
            } else {
                seq![s]
            },
            None => seq![s],
        }
    }
}

proof fn lemma_first_nl_at(s: Seq<char>, p: int, m: int)
    requires
        0 <= p <= m <= s.len(),
        forall|k: int| p <= k < m ==> s[k] != '\n',
        m < s.len() ==> s[m] == '\n',
    ensures
        first_nl_from(s, p) == (if m < s.len() {
            Some(m)
        } else {
            None::<int>
        }),
    decreases m - p,
{
    if p < m {
        lemma_first_nl_at(s, p + 1, m);
    }
}

/// Splits a text into its lines, sharing the text's storage.
pub fn split_lines<'a>(contents: &'a str) -> (r: Vec<&'a str>)
    ensures
        r@.map_values(|l: &str| l@) == spec_lines(contents@),
{
    let n = contents.unicode_len();
    let mut r: Vec<&'a str> = Vec::new();
    let mut i: usize = 0;
    proof {
        assert(contents@.skip(0) =~= contents@);
        assert(r@.map_values(|l: &str| l@) + spec_lines(contents@) =~= spec_lines(contents@));
    }
    while i < n
        invariant
            n == contents@.len(),
            i <= n,
            spec_lines(contents@) == r@.map_values(|l: &str| l@) + spec_lines(
                contents@.skip(i as int),
            ),
        decreases n - i,
    {
        let ghost t = contents@.skip(i as int);
        let mut j: usize = i;
        while j < n && contents.get_char(j) != '\n'
            invariant
                n == contents@.len(),
                i <= j <= n,
                forall|k: int| i <= k < j ==> contents@[k] != '\n',
            decreases n - j,
        {
            j = j + 1;
        }
        proof {
            assert(forall|k: int| 0 <= k < j - i ==> t[k] == contents@[k + i]);
            assert(j < n ==> t[j - i] == contents@[j as int]);
            lemma_first_nl_at(t, 0, j - i);
        }
        let ghost prev = r@;
        if j < n {
            let line_end = if j > i && contents.get_char(j - 1) == '\r' {
                j - 1
            } else {
                j
            };
            let line = contents.substring_char(i, line_end);
            r.push(line);
            proof {
                assert(t.take(j - i) =~= contents@.subrange(i as int, j as int));
                assert(strip_trailing_cr(t.take(j - i)) =~= line@);
                assert(t.skip(j - i + 1) =~= contents@.skip(j as int + 1));
                assert(spec_lines(t) == seq![line@] + spec_lines(contents@.skip(j as int + 1)));
                assert(r@.map_values(|l: &str| l@) =~= prev.map_values(|l: &str| l@) + seq![
                    line@,
                ]);
                assert(r@.map_values(|l: &str| l@) + spec_lines(contents@.skip(j as int + 1)) =~= (
                prev.map_values(|l: &str| l@) + seq![line@]) + spec_lines(
                    contents@.skip(j as int + 1),
                ));
                assert((prev.map_values(|l: &str| l@) + seq![line@]) + spec_lines(
                    contents@.skip(j as int + 1),
                ) =~= prev.map_values(|l: &str| l@) + (seq![line@] + spec_lines(
                    contents@.skip(j as int + 1),
                )));
            }
            i = j + 1;
        } else {
            let line = contents.substring_char(i, n);
            r.push(line);
            proof {
                assert(line@ =~= t);
                assert(spec_lines(t) == seq![t]);
                assert(contents@.skip(n as int) =~= Seq::<char>::empty());
                assert(spec_lines(contents@.skip(n as int)) == Seq::<Seq<char>>::empty());
                assert(r@.map_values(|l: &str| l@) =~= prev.map_values(|l: &str| l@) + seq![t]);
                assert(r@.map_values(|l: &str| l@) + spec_lines(contents@.skip(n as int)) =~= (
                prev.map_values(|l: &str| l@) + seq![t]));
                assert(prev.map_values(|l: &str| l@) + spec_lines(t) =~= prev.map_values(
                    |l: &str| l@,
                ) + seq![t]);
            }
            i = n;
        }
    }
    proof {
        assert(contents@.skip(n as int) =~= Seq::<char>::empty());
        assert(spec_lines(contents@.skip(i as int)) == Seq::<Seq<char>>::empty());
        assert(r@.map_values(|l: &str| l@) =~= spec_lines(contents@));
    }
    r
}

// ---------------------------------------------------------------------------
// The whole pipeline.
// ---------------------------------------------------------------------------
/// A pattern the pipeline accepts: the postfixer takes it, and its
/// postfix stream compiles to exactly one fragment.
pub open spec fn pattern_ok(q: Seq<char>) -> bool {
    &&& spec_transform(q) is Ok
    &&& nfa_input_wf(spec_transform(q)->Ok_0)
}

/// Whether a line contains a match for the pattern, stated over the
/// pattern's Thompson model alone: at some offset, the set-level
/// scanner comes to rest in a set holding the accepting state.
pub open spec fn regex_line_match(q: Seq<char>, line: Seq<char>, ignore_case: bool) -> bool {
    let pf = spec_transform(q)->Ok_0;
    let m = spec_thompson(pf)->Some_0.0;
    let st = spec_thompson(pf)->Some_0.1;
    let alphabet = spec_alphabet(pf);
    let s0 = closure(m.triples, Set::<int>::empty().insert(st[0].0));
    exists|i: int|
        0 <= i < line.len() && (#[trigger] sim_stuck_run(
            m.triples,
            alphabet,
            s0,
            line.skip(i),
            ignore_case,
        )).contains(st[0].1)
}

/// Any DFA the subset construction builds for a pattern accepts
/// exactly the strings the pattern's Thompson NFA accepts: the
/// alphabet repeats no character and covers every labeled transition,
/// so the general equivalence of the construction applies.
pub proof fn lemma_pipeline_equivalence(
    q: Seq<char>,
    d: Graph<AutomataState, char>,
    d0: int,
    input: Seq<char>,
)
    requires
        pattern_ok(q),
        dfa_matches_nfa(
            d,
            d0,
            spec_thompson(spec_transform(q)->Ok_0)->Some_0.0.triples,
            spec_thompson(spec_transform(q)->Ok_0)->Some_0.1[0].0,
            spec_thompson(spec_transform(q)->Ok_0)->Some_0.1[0].1,
            spec_alphabet(spec_transform(q)->Ok_0),
        ),
    ensures
        dfa_accepts(d, d0, input) <==> nfa_accepts(
            spec_thompson(spec_transform(q)->Ok_0)->Some_0.0.triples,
            spec_thompson(spec_transform(q)->Ok_0)->Some_0.1[0].0,
            spec_thompson(spec_transform(q)->Ok_0)->Some_0.1[0].1,
            input,
        ),
{
    let pf = spec_transform(q)->Ok_0;
    let m = spec_thompson(pf)->Some_0.0;
    let st = spec_thompson(pf)->Some_0.1;
    let alphabet = spec_alphabet(pf);
    lemma_alphabet_nodup(pf);
    assert forall|a: int, x: char, b: int| #[trigger]
        m.triples.contains((a, Some(x), b)) implies alphabet.contains(x) by {
        let w = lemma_thompson_labels(pf, a, x, b);
        lemma_alphabet_complete(pf, x, w);
    }
    lemma_dfa_nfa_equivalence(d, d0, m.triples, st[0].0, st[0].1, alphabet, input);
}

/// The lines of the sequence that match the pattern, in order, from
/// position `i` on.
pub open spec fn matching_from(
    lines: Seq<Seq<char>>,
    i: int,
    q: Seq<char>,
    ignore_case: bool,
) -> Seq<Seq<char>>
    decreases lines.len() - i,
{
    if i < 0 || i >= lines.len() {
        Seq::empty()
    } else {
        (if regex_line_match(q, lines[i], ignore_case) {
            seq![lines[i]]
        } else {
            Seq::<Seq<char>>::empty()
        }) + matching_from(lines, i + 1, q, ignore_case)
    }
}

/// Searches the contents line by line: exactly the lines containing a
/// match for the pattern are returned, in input order.
#[verifier::rlimit(100)]
#[verifier::spinoff_prover]
pub fn search<'a>(query: &str, contents: &'a str, ignore_case: bool) -> (results: Vec<&'a str>)
    requires
        pattern_ok(query@),
    ensures
        results@.map_values(|l: &str| l@) == matching_from(
            spec_lines(contents@),
            0,
            query@,
            ignore_case,
        ),
{
    let ghost q = query@;
    let ghost pf = spec_transform(q)->Ok_0;
    let ghost model = spec_thompson(pf)->Some_0.0;
    let ghost st = spec_thompson(pf)->Some_0.1;
    let postfix_regex = match postfixer::transform(String::from_str(query)) {
        Ok(p) => p,
        Err(_) => {
            proof {
                assert(false);
            }
            return Vec::new();
        },
    };
    let alphabet = postfixer::get_alphabet(&postfix_regex);
    proof {
        crate::postfixer::lemma_alphabet_nodup(pf);
    }
    let (handle, nfa_graph) = build_nfa(postfix_regex);
    let ghost tr = nfa_triples(nfa_graph);
    proof {
        assert(tr =~= model.triples) by {
            reveal(crate::nfa::nfa_triples);
            assert forall|t: (int, Option<char>, int)|
                tr.contains(t) <==> model.triples.contains(t) by {
                assert(crate::nfa::nfa_has_edge(nfa_graph, t.0, t.1, t.2)
                    <==> model.triples.contains((t.0, t.1, t.2)));
            }
        }
    }
    let (start_of_dfa, dfa_graph) = build_dfa(handle, nfa_graph, alphabet);
    let ghost reps = choose|reps: Seq<Set<int>>|
        dfa_realizes(
            dfa_graph,
            start_of_dfa as int,
            tr,
            handle.start_state as int,
            handle.accept_state as int,
            spec_alphabet(pf),
            reps,
        );
    proof {
        assert(reps[start_of_dfa as int] == closure(
            tr,
            Set::<int>::empty().insert(st[0].0),
        ));
    }
    let lines = split_lines(contents);
    let mut results: Vec<&'a str> = Vec::new();
    let mut li: usize = 0;
    proof {
        assert(results@.map_values(|l: &str| l@) + matching_from(
            spec_lines(contents@),
            0,
            q,
            ignore_case,
        ) =~= matching_from(spec_lines(contents@), 0, q, ignore_case));
    }
    while li < lines.len()
        invariant
            pattern_ok(q),
            q == query@,
            pf == spec_transform(q)->Ok_0,
            model == spec_thompson(pf)->Some_0.0,
            st == spec_thompson(pf)->Some_0.1,
            tr == model.triples,
            dfa_realizes(
                dfa_graph,
                start_of_dfa as int,
                tr,
                st[0].0,
                st[0].1,
                spec_alphabet(pf),
                reps,
            ),
            dfa_graph.wf(),
            start_of_dfa < dfa_graph.node_cnt(),
            reps.len() == dfa_graph.node_cnt(),
            reps[start_of_dfa as int] == closure(tr, Set::<int>::empty().insert(st[0].0)),
            lines@.map_values(|l: &str| l@) == spec_lines(contents@),
            li <= lines@.len(),
            matching_from(spec_lines(contents@), 0, q, ignore_case) == results@.map_values(
                |l: &str| l@,
            ) + matching_from(spec_lines(contents@), li as int, q, ignore_case),
        decreases lines@.len() - li,
    {
        let line = lines[li];
        proof {
            assert(line@ == spec_lines(contents@)[li as int]);
        }
        let matched = check_line_matches(start_of_dfa, &dfa_graph, line, ignore_case);
        proof {
            let s0 = closure(tr, Set::<int>::empty().insert(st[0].0));
            assert(matched == regex_line_match(q, line@, ignore_case)) by {
                if matched {
                    let i = choose|i: int|
                        0 <= i < line@.len() && dfa_accepting(
                            dfa_graph,
                            #[trigger] stuck_run(
                                dfa_graph,
                                start_of_dfa as int,
                                line@.skip(i),
                                ignore_case,
                            ),
                        );
                    lemma_stuck_run_by_reps(
                        dfa_graph,
                        reps,
                        tr,
                        start_of_dfa as int,
                        st[0].0,
                        st[0].1,
                        spec_alphabet(pf),
                        start_of_dfa as int,
                        line@.skip(i),
                        ignore_case,
                    );
                    let e = stuck_run(dfa_graph, start_of_dfa as int, line@.skip(i), ignore_case);
                    assert(reps[e].contains(st[0].1));
                    assert(sim_stuck_run(
                        tr,
                        spec_alphabet(pf),
                        s0,
                        line@.skip(i),
                        ignore_case,
                    ).contains(st[0].1));
                }
                if regex_line_match(q, line@, ignore_case) {
                    let i = choose|i: int|
                        0 <= i < line@.len() && (#[trigger] sim_stuck_run(
                            tr,
                            spec_alphabet(pf),
                            s0,
                            line@.skip(i),
                            ignore_case,
                        )).contains(st[0].1);
                    lemma_stuck_run_by_reps(
                        dfa_graph,
                        reps,
                        tr,
                        start_of_dfa as int,
                        st[0].0,
                        st[0].1,
                        spec_alphabet(pf),
                        start_of_dfa as int,
                        line@.skip(i),
                        ignore_case,
                    );
                    let e = stuck_run(dfa_graph, start_of_dfa as int, line@.skip(i), ignore_case);
                    assert(reps[e].contains(st[0].1));
                    assert(dfa_accepting(dfa_graph, e));
                }
            }
        }
        let ghost prev = results@;
        if matched {
            results.push(line);
        }
        proof {
            let all = spec_lines(contents@);
            assert(matching_from(all, li as int, q, ignore_case) == (if regex_line_match(
                q,
                all[li as int],
                ignore_case,
            ) {
                seq![all[li as int]]
            } else {
                Seq::<Seq<char>>::empty()
            }) + matching_from(all, li as int + 1, q, ignore_case));
            if matched {
                assert(results@.map_values(|l: &str| l@) =~= prev.map_values(|l: &str| l@) + seq![
                    line@,
                ]);
                assert(prev.map_values(|l: &str| l@) + (seq![line@] + matching_from(
                    all,
                    li as int + 1,
                    q,
                    ignore_case,
                )) =~= (prev.map_values(|l: &str| l@) + seq![line@]) + matching_from(
                    all,
                    li as int + 1,
                    q,
                    ignore_case,
                ));
            } else {
                assert(seq![line@].len() == 1);
                assert(matching_from(all, li as int, q, ignore_case) =~= matching_from(
                    all,
                    li as int + 1,
                    q,
                    ignore_case,
                ));
            }
        }
        li = li + 1;
    }
    proof {
        assert(matching_from(spec_lines(contents@), lines@.len() as int, q, ignore_case)
            =~= Seq::<Seq<char>>::empty());
        assert(results@.map_values(|l: &str| l@) =~= matching_from(
            spec_lines(contents@),
            0,
            q,
            ignore_case,
        ));
    }
    results
}

} // verus!
