//! The pattern tree and its mathematical model.

use vstd::prelude::*;

verus! {

/// Why a pattern could not be parsed.
#[derive(Debug, Clone, Copy, PartialEq, Eq, Structural)]
pub enum Error {
    /// No unit starts at the current position.
    EmptyExpr,
    /// An opening parenthesis without its closing one, or the reverse.
    InconsistentParans,
}

/// A handle of a node in the arena: its index.
pub type RegexRef = usize;

/// One node of a parsed pattern.
#[derive(Debug, PartialEq)]
pub enum Regex {
    /// Zero or more repetitions of the arena node with this handle.
    Any(RegexRef),
    /// One or more repetitions of the arena node with this handle.
    Many(RegexRef),
    /// One literal character.
    Char(char),
    /// The nodes of a sequence, in order.
    Multi(Vec<Regex>),
}

/// The mathematical value of a [`Regex`].
pub ghost enum Pattern {
    /// Zero or more repetitions of the arena node with this handle.
    Any(int),
    /// One or more repetitions of the arena node with this handle.
    Many(int),
    /// One literal character.
    Char(char),
    /// The nodes of a sequence, in order.
    Multi(Seq<Pattern>),
}

impl View for Regex {
    type V = Pattern;

    open spec fn view(&self) -> Pattern
        decreases self,
    {
        match self {
            Regex::Any(r) => Pattern::Any(*r as int),
            Regex::Many(r) => Pattern::Many(*r as int),
            Regex::Char(c) => Pattern::Char(*c),
            Regex::Multi(items) => Pattern::Multi(views(items@)),
        }
    }
}

/// The views of `nodes`, in order.
pub open spec fn views(nodes: Seq<Regex>) -> Seq<Pattern>
    decreases nodes,
{
    if nodes.len() == 0 {
        Seq::empty()
    } else {
        views(nodes.drop_last()).push(nodes.last()@)
    }
}

/// `views` keeps the length and takes the view of each node where it stands.
pub proof fn lemma_views(nodes: Seq<Regex>)
    ensures
        views(nodes).len() == nodes.len(),
        forall|i: int| 0 <= i < nodes.len() ==> (#[trigger] views(nodes)[i]) == nodes[i]@,
    decreases nodes.len(),
{
    if nodes.len() > 0 {
        lemma_views(nodes.drop_last());
        assert(views(nodes) == views(nodes.drop_last()).push(nodes.last()@));
    } else {
        assert(views(nodes) == Seq::<Pattern>::empty());
    }
}

/// The views of a sequence with one more node at its end.
pub proof fn lemma_views_push(nodes: Seq<Regex>, node: Regex)
    ensures
        views(nodes.push(node)) == views(nodes).push(node@),
{
    assert(nodes.push(node).drop_last() =~= nodes);
}

} // verus!
