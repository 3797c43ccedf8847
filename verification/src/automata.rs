use vstd::prelude::*;

use crate::graph::NodeIndex;

verus! {

/// Payload of an automaton node: whether the node accepts.
#[derive(Clone, Copy, Debug, PartialEq, Eq, Structural)]
pub struct AutomataState {
    pub accepting: bool,
}

/// Payload of an NFA edge: either an empty (epsilon) transition or a
/// transition on one character. The two are disjoint: an empty label
/// carries no character.
#[derive(Clone, Copy, Debug, PartialEq, Eq, Structural)]
pub struct AutomataLabel {
    pub label: Option<char>,
    pub empty: bool,
}

/// A Thompson fragment: the entry and exit node of a partial NFA.
#[derive(Clone, Copy, Debug, PartialEq, Eq, Structural)]
pub struct AutomataComponent {
    pub start_state: NodeIndex,
    pub accept_state: NodeIndex,
}

impl AutomataState {
    pub fn new(accepting: bool) -> (s: AutomataState)
        ensures
            s.accepting == accepting,
    {
        AutomataState { accepting }
    }

    pub fn is_accepting(&self) -> (r: bool)
        ensures
            r == self.accepting,
    {
        self.accepting
    }

    pub fn mark_as_accepting(&mut self)
        ensures
            final(self).accepting == true,
    {
        self.accepting = true;
    }
}

impl AutomataLabel {
    /// An empty label never carries a character and a non-empty one
    /// always does.
    pub open spec fn wf(self) -> bool {
        self.empty <==> self.label is None
    }

    pub fn new(label: Option<char>, empty: bool) -> (l: AutomataLabel)
        requires
            empty ==> label is None,
            !empty ==> label is Some,
        ensures
            l.label == label,
            l.empty == empty,
            l.wf(),
    {
        AutomataLabel { label, empty }
    }

    pub fn is_empty(&self) -> (r: bool)
        ensures
            r == self.empty,
    {
        self.empty
    }

    pub fn get_label(&self) -> (r: Result<char, &'static str>)
        requires
            self.wf(),
        ensures
            match self.label {
                Some(c) => r == Ok::<char, &'static str>(c),
                None => r is Err,
            },
    {
        if self.empty {
            return Err("Error - No label present on an empty automata label");
        }
        match self.label {
            Some(c) => Ok(c),
            None => Err("Error - No label present on an empty automata label"),
        }
    }
}

impl AutomataComponent {
    pub fn new(start_state: NodeIndex, accept_state: NodeIndex) -> (c: AutomataComponent)
        ensures
            c.start_state == start_state,
            c.accept_state == accept_state,
    {
        AutomataComponent { start_state, accept_state }
    }

    pub fn get_start_state(&self) -> (r: NodeIndex)
        ensures
            r == self.start_state,
    {
        self.start_state
    }

    pub fn get_accept_state(&self) -> (r: NodeIndex)
        ensures
            r == self.accept_state,
    {
        self.accept_state
    }
}

} // verus!
