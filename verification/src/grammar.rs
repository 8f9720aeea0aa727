//! The grammar as mathematics: what a pattern text parses to.
//!
//! A *unit* is an alphanumeric literal or a parenthesised pattern, followed by
//! at most one quantifier. A *pattern* is one or more units side by side. The
//! functions here read a text from a position and an arena, and say what comes
//! out: a tree or an error, the position reached and the arena as it then is.

use vstd::prelude::*;
use crate::ast::{Error, Pattern};

verus! {

/// What a parse step leaves behind.
pub ghost struct Outcome<T> {
    /// The value parsed, or why none was.
    pub result: Result<T, Error>,
    /// The position of the cursor afterwards.
    pub pos: int,
    /// The arena afterwards.
    pub arena: Seq<Pattern>,
}

/// The letters and digits that stand for themselves in a pattern.
pub open spec fn is_alnum(c: char) -> bool {
    ||| 'a' <= c <= 'z'
    ||| 'A' <= c <= 'Z'
    ||| '0' <= c <= '9'
}

/// The character at `pos`, if the text reaches that far.
pub open spec fn peek(text: Seq<char>, pos: int) -> Option<char> {
    if 0 <= pos < text.len() {
        Some(text[pos])
    } else {
        None
    }
}

/// A unit has been read and the cursor stands at `pos`: a `*` or a `+` there
/// is consumed, moves the unit into the arena and yields the quantifier over
/// its handle. Anything else leaves the unit as it is.
pub open spec fn quantify(text: Seq<char>, pos: int, arena: Seq<Pattern>, unit: Pattern) -> Outcome<
    Pattern,
> {
    if peek(text, pos) == Some('*') {
        Outcome { result: Ok(Pattern::Any(arena.len() as int)), pos: pos + 1, arena: arena.push(unit) }
    } else if peek(text, pos) == Some('+') {
        Outcome { result: Ok(Pattern::Many(arena.len() as int)), pos: pos + 1, arena: arena.push(unit) }
    } else {
        Outcome { result: Ok(unit), pos, arena }
    }
}

/// A literal, with its quantifier if one follows. Where no alphanumeric
/// character stands at `pos`, nothing is consumed and the result is
/// `EmptyExpr`.
pub open spec fn literal_unit(text: Seq<char>, pos: int, arena: Seq<Pattern>) -> Outcome<Pattern> {
    match peek(text, pos) {
        Some(c) if is_alnum(c) => quantify(text, pos + 1, arena, Pattern::Char(c)),
        _ => Outcome { result: Err(Error::EmptyExpr), pos, arena },
    }
}

/// A pattern between parentheses. The opening one is consumed, then a whole
/// pattern, then the closing one; an error inside comes out unchanged.
pub open spec fn group(text: Seq<char>, pos: int, arena: Seq<Pattern>) -> Outcome<Pattern>
    decreases text.len() - pos, 2int,
{
    if peek(text, pos) != Some('(') {
        Outcome { result: Err(Error::InconsistentParans), pos, arena }
    } else {
        let inner = pattern(text, pos + 1, arena);
        if inner.result is Err {
            inner
        } else if peek(text, inner.pos) == Some(')') {
            Outcome { result: inner.result, pos: inner.pos + 1, arena: inner.arena }
        } else {
            Outcome { result: Err(Error::InconsistentParans), pos: inner.pos, arena: inner.arena }
        }
    }
}

/// One unit: a group or a literal, with its quantifier if one follows.
pub open spec fn unit(text: Seq<char>, pos: int, arena: Seq<Pattern>) -> Outcome<Pattern>
    decreases text.len() - pos, 3int,
{
    if peek(text, pos) == Some('(') {
        let inner = group(text, pos, arena);
        match inner.result {
            Ok(tree) => quantify(text, inner.pos, inner.arena, tree),
            Err(_) => inner,
        }
    } else {
        literal_unit(text, pos, arena)
    }
}

/// The units that follow `sofar`, read one after the other until `EmptyExpr`
/// says that none is left. Any other error ends the parse.
///
/// A unit that consumed nothing would end the run too; `lemma_unit_advances`
/// shows that there is none.
pub open spec fn units(text: Seq<char>, pos: int, arena: Seq<Pattern>, sofar: Seq<Pattern>) -> Outcome<
    Seq<Pattern>,
>
    decreases text.len() - pos, 4int,
{
    let next = unit(text, pos, arena);
    match next.result {
        Ok(tree) => if pos < next.pos <= text.len() {
            units(text, next.pos, next.arena, sofar.push(tree))
        } else {
            Outcome { result: Ok(sofar), pos: next.pos, arena: next.arena }
        },
        Err(Error::EmptyExpr) => Outcome { result: Ok(sofar), pos: next.pos, arena: next.arena },
        Err(e) => Outcome { result: Err(e), pos: next.pos, arena: next.arena },
    }
}

/// A single unit stands for itself; two or more make a sequence.
pub open spec fn join(trees: Seq<Pattern>) -> Pattern {
    if trees.len() == 1 {
        trees[0]
    } else {
        Pattern::Multi(trees)
    }
}

/// A whole pattern: all the units from `pos` on, of which there must be one
/// at least.
pub open spec fn pattern(text: Seq<char>, pos: int, arena: Seq<Pattern>) -> Outcome<Pattern>
    decreases text.len() - pos, 5int,
{
    let all = units(text, pos, arena, Seq::empty());
    match all.result {
        Ok(trees) => if trees.len() == 0 {
            Outcome { result: Err(Error::EmptyExpr), pos: all.pos, arena: all.arena }
        } else {
            Outcome { result: Ok(join(trees)), pos: all.pos, arena: all.arena }
        },
        Err(e) => Outcome { result: Err(e), pos: all.pos, arena: all.arena },
    }
}

} // verus!
