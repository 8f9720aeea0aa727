//! What holds of every parse.

use vstd::prelude::*;
use crate::ast::{Error, Pattern, Regex};
use crate::parser::{result_view, Context};
use crate::grammar::{group, is_alnum, pattern, peek, quantify, unit, units, Outcome};
use crate::tree::{
    arena_proper, arena_well_formed, lemma_arena_grows, lemma_total_arena_grows, node_count, proper,
    total_count, well_formed,
};

verus! {

/// `longer` begins with `arena`: it is `arena` with nodes added at its end.
pub open spec fn extends(longer: Seq<Pattern>, arena: Seq<Pattern>) -> bool {
    arena.len() <= longer.len() && longer.take(arena.len() as int) == arena
}

/// What holds of every step of a parse that started at `pos` with `arena`:
/// the cursor has not gone back and is still inside the text, a step that
/// yielded a tree has consumed a character at least, and the arena has only
/// grown at its end.
pub open spec fn forward<T>(text: Seq<char>, pos: int, arena: Seq<Pattern>, o: Outcome<T>) -> bool {
    &&& pos <= o.pos <= text.len()
    &&& o.result is Ok ==> pos < o.pos
    &&& extends(o.arena, arena)
}

/// Extending is transitive.
pub proof fn lemma_extends_trans(a: Seq<Pattern>, b: Seq<Pattern>, c: Seq<Pattern>)
    requires
        extends(b, a),
        extends(c, b),
    ensures
        extends(c, a),
{
    assert(c.take(a.len() as int) =~= c.take(b.len() as int).take(a.len() as int));
}

/// An arena extends itself, and so does one with a node more at its end.
pub proof fn lemma_extends_push(arena: Seq<Pattern>, node: Pattern)
    ensures
        extends(arena, arena),
        extends(arena.push(node), arena),
{
    assert(arena.take(arena.len() as int) =~= arena);
    assert(arena.push(node).take(arena.len() as int) =~= arena);
}

/// A unit moves the cursor forward only and lets the arena grow only; one
/// that is parsed consumes a character at least.
pub proof fn lemma_unit_advances(text: Seq<char>, pos: int, arena: Seq<Pattern>)
    requires
        0 <= pos <= text.len(),
    ensures
        forward(text, pos, arena, unit(text, pos, arena)),
    decreases text.len() - pos, 3int,
{
    if peek(text, pos) == Some('(') {
        lemma_group_advances(text, pos, arena);
        let inner = group(text, pos, arena);
        if inner.result is Ok {
            lemma_extends_push(inner.arena, inner.result->Ok_0);
            lemma_extends_trans(arena, inner.arena, unit(text, pos, arena).arena);
        }
    } else {
        match peek(text, pos) {
            Some(c) => {
                lemma_extends_push(arena, Pattern::Char(c));
            },
            None => {
                assert(arena.take(arena.len() as int) =~= arena);
            },
        }
    }
}

/// The same of a group, which consumes its two parentheses at least.
pub proof fn lemma_group_advances(text: Seq<char>, pos: int, arena: Seq<Pattern>)
    requires
        0 <= pos <= text.len(),
    ensures
        forward(text, pos, arena, group(text, pos, arena)),
    decreases text.len() - pos, 2int,
{
    if peek(text, pos) == Some('(') {
        lemma_pattern_advances(text, pos + 1, arena);
    } else {
        assert(arena.take(arena.len() as int) =~= arena);
    }
}

/// The same of a run of units, which adds to the trees read before it, and
/// consumes a character at least where it adds one.
pub proof fn lemma_units_advance(text: Seq<char>, pos: int, arena: Seq<Pattern>, sofar: Seq<Pattern>)
    requires
        0 <= pos <= text.len(),
    ensures
        ({
            let o = units(text, pos, arena, sofar);
            &&& pos <= o.pos <= text.len()
            &&& extends(o.arena, arena)
            &&& o.result matches Ok(trees) ==> {
                &&& trees.len() >= sofar.len()
                &&& trees.len() > sofar.len() ==> pos < o.pos
            }
        }),
    decreases text.len() - pos, 4int,
{
    lemma_unit_advances(text, pos, arena);
    let next = unit(text, pos, arena);
    if next.result is Ok {
        lemma_units_advance(text, next.pos, next.arena, sofar.push(next.result->Ok_0));
        lemma_extends_trans(arena, next.arena, units(text, pos, arena, sofar).arena);
    }
}

/// The same of a pattern.
pub proof fn lemma_pattern_advances(text: Seq<char>, pos: int, arena: Seq<Pattern>)
    requires
        0 <= pos <= text.len(),
    ensures
        forward(text, pos, arena, pattern(text, pos, arena)),
    decreases text.len() - pos, 5int,
{
    lemma_units_advance(text, pos, arena, Seq::empty());
}

/// An arena in which every node only refers to nodes before it and every
/// sequence has two items at least.
pub open spec fn sound(arena: Seq<Pattern>) -> bool {
    arena_well_formed(arena) && arena_proper(arena)
}

/// What holds of a tree that came out of a sound arena `arena` at `pos`:
/// the arena has only grown and is still sound, and the tree, if there is
/// one, is well formed against it, has no sequence of fewer than two items,
/// and has at most `slack` nodes more than characters were consumed.
pub open spec fn sound_step(pos: int, arena: Seq<Pattern>, o: Outcome<Pattern>, slack: int) -> bool {
    &&& extends(o.arena, arena)
    &&& sound(o.arena)
    &&& o.result matches Ok(tree) ==> {
        &&& well_formed(tree, o.arena)
        &&& proper(tree)
        &&& node_count(tree, o.arena) <= o.pos - pos + slack
    }
}

/// Trees that are each well formed against `arena` and proper.
pub open spec fn all_sound(trees: Seq<Pattern>, arena: Seq<Pattern>) -> bool {
    forall|i: int|
        0 <= i < trees.len() ==> well_formed(#[trigger] trees[i], arena) && proper(trees[i])
}

/// Trees that are sound against an arena are so against one that extends
/// it, and count the same there.
pub proof fn lemma_all_sound_extends(trees: Seq<Pattern>, arena: Seq<Pattern>, longer: Seq<Pattern>)
    requires
        all_sound(trees, arena),
        extends(longer, arena),
    ensures
        all_sound(trees, longer),
        total_count(trees, longer) == total_count(trees, arena),
{
    assert forall|i: int| 0 <= i < trees.len() implies well_formed(#[trigger] trees[i], longer) by {
        lemma_arena_grows(trees[i], arena, longer);
    }
    lemma_total_arena_grows(trees, arena, longer);
}

/// A quantifier keeps a sound arena sound, and the tree it yields has one
/// node and one character more where a quantifier was read.
pub proof fn lemma_quantify_sound(
    text: Seq<char>,
    pos: int,
    arena: Seq<Pattern>,
    tree: Pattern,
    budget: int,
)
    requires
        sound(arena),
        well_formed(tree, arena),
        proper(tree),
        node_count(tree, arena) <= budget,
    ensures
        sound_step(pos, arena, quantify(text, pos, arena, tree), budget),
{
    let o = quantify(text, pos, arena, tree);
    if peek(text, pos) == Some('*') || peek(text, pos) == Some('+') {
        let h = arena.len() as int;
        assert(o.arena.take(h) =~= arena);
        assert forall|k: int| 0 <= k < o.arena.len() implies well_formed(
            #[trigger] o.arena[k],
            o.arena.take(k),
        ) && proper(o.arena[k]) by {
            if k < h {
                assert(o.arena.take(k) =~= arena.take(k));
                assert(o.arena[k] == arena[k]);
            }
        }
    } else {
        assert(arena.take(arena.len() as int) =~= arena);
    }
}

/// Every unit parsed from a sound arena is sound, and has no more nodes
/// than it has characters.
pub proof fn lemma_unit_sound(text: Seq<char>, pos: int, arena: Seq<Pattern>)
    requires
        0 <= pos <= text.len(),
        sound(arena),
    ensures
        sound_step(pos, arena, unit(text, pos, arena), 0),
    decreases text.len() - pos, 3int,
{
    if peek(text, pos) == Some('(') {
        lemma_group_sound(text, pos, arena);
        lemma_group_advances(text, pos, arena);
        let inner = group(text, pos, arena);
        if inner.result is Ok {
            let tree = inner.result->Ok_0;
            lemma_quantify_sound(text, inner.pos, inner.arena, tree, inner.pos - pos);
            lemma_extends_trans(arena, inner.arena, unit(text, pos, arena).arena);
        }
    } else {
        match peek(text, pos) {
            Some(c) if is_alnum(c) => {
                lemma_quantify_sound(text, pos + 1, arena, Pattern::Char(c), 1);
            },
            _ => {
                assert(arena.take(arena.len() as int) =~= arena);
            },
        }
    }
}

/// Every group parsed from a sound arena is sound, and has fewer nodes than
/// it has characters.
pub proof fn lemma_group_sound(text: Seq<char>, pos: int, arena: Seq<Pattern>)
    requires
        0 <= pos <= text.len(),
        sound(arena),
    ensures
        sound_step(pos, arena, group(text, pos, arena), -1),
    decreases text.len() - pos, 2int,
{
    if peek(text, pos) == Some('(') {
        lemma_pattern_sound(text, pos + 1, arena);
    } else {
        assert(arena.take(arena.len() as int) =~= arena);
    }
}

/// The units read in a run from a sound arena are sound, and all the trees
/// together have no more nodes than the ones read before and the characters
/// read in the run.
pub proof fn lemma_units_sound(text: Seq<char>, pos: int, arena: Seq<Pattern>, sofar: Seq<Pattern>)
    requires
        0 <= pos <= text.len(),
        sound(arena),
        all_sound(sofar, arena),
    ensures
        ({
            let o = units(text, pos, arena, sofar);
            &&& extends(o.arena, arena)
            &&& sound(o.arena)
            &&& o.result matches Ok(trees) ==> {
                &&& all_sound(trees, o.arena)
                &&& trees.len() >= sofar.len()
                &&& total_count(trees, o.arena) <= total_count(sofar, arena) + o.pos - pos
            }
        }),
    decreases text.len() - pos, 4int,
{
    lemma_unit_sound(text, pos, arena);
    lemma_unit_advances(text, pos, arena);
    let next = unit(text, pos, arena);
    let o = units(text, pos, arena, sofar);
    lemma_all_sound_extends(sofar, arena, next.arena);
    match next.result {
        Ok(tree) => {
            let more = sofar.push(tree);
            assert(more.drop_last() =~= sofar);
            assert(all_sound(more, next.arena)) by {
                assert forall|i: int| 0 <= i < more.len() implies well_formed(
                    #[trigger] more[i],
                    next.arena,
                ) && proper(more[i]) by {
                    if i < sofar.len() {
                        assert(more[i] == sofar[i]);
                    }
                }
            }
            lemma_units_sound(text, next.pos, next.arena, more);
            lemma_extends_trans(arena, next.arena, o.arena);
        },
        Err(_) => {},
    }
}

/// Every pattern parsed from a sound arena is sound, and has at most one
/// node more than it has characters.
pub proof fn lemma_pattern_sound(text: Seq<char>, pos: int, arena: Seq<Pattern>)
    requires
        0 <= pos <= text.len(),
        sound(arena),
    ensures
        sound_step(pos, arena, pattern(text, pos, arena), 1),
    decreases text.len() - pos, 5int,
{
    let none = Seq::<Pattern>::empty();
    lemma_units_sound(text, pos, arena, none);
    let all = units(text, pos, arena, none);
    if all.result is Ok {
        let trees = all.result->Ok_0;
        if trees.len() == 1 {
            assert(trees.drop_last() =~= none);
            assert(total_count(trees, all.arena) == total_count(none, all.arena) + node_count(
                trees[0],
                all.arena,
            ));
        }
    }
}

/// Every character of `text` from `from` on is a letter or a digit.
pub open spec fn alnum_from(text: Seq<char>, from: int) -> bool {
    forall|i: int| from <= i < text.len() ==> is_alnum(#[trigger] text[i])
}

/// The literal that stands for `c`.
pub open spec fn literal(c: char) -> Pattern {
    Pattern::Char(c)
}

/// The literals that stand for the characters of `text`, in order.
pub open spec fn literals(text: Seq<char>) -> Seq<Pattern>
    decreases text.len(),
{
    if text.len() == 0 {
        Seq::empty()
    } else {
        literals(text.drop_last()).push(literal(text.last()))
    }
}

/// `literals` has one literal for each character, where the character
/// stands.
pub proof fn lemma_literals_index(text: Seq<char>)
    ensures
        literals(text).len() == text.len(),
        forall|i: int| 0 <= i < text.len() ==> (#[trigger] literals(text)[i]) == Pattern::Char(text[i]),
    decreases text.len(),
{
    if text.len() > 0 {
        lemma_literals_index(text.drop_last());
        assert(literals(text) == literals(text.drop_last()).push(literal(text.last())));
    } else {
        assert(literals(text) == Seq::<Pattern>::empty());
    }
}

/// A run that has read the literals before `pos` and finds only letters and
/// digits from there on reads each of them as a literal, up to the end of
/// the text, and leaves the arena alone.
pub proof fn lemma_units_of_literals(text: Seq<char>, pos: int, arena: Seq<Pattern>)
    requires
        0 <= pos <= text.len(),
        alnum_from(text, pos),
    ensures
        units(text, pos, arena, literals(text.take(pos))) == (Outcome {
            result: Ok(literals(text)),
            pos: text.len() as int,
            arena,
        }),
    decreases text.len() - pos,
{
    if pos == text.len() {
        assert(text.take(pos) =~= text);
        assert(unit(text, pos, arena).result == Err::<Pattern, Error>(Error::EmptyExpr));
    } else {
        let c = text[pos];
        assert(is_alnum(c));
        if pos + 1 < text.len() {
            assert(is_alnum(text[pos + 1]));
        }
        assert(unit(text, pos, arena) == (Outcome {
            result: Ok(Pattern::Char(c)),
            pos: pos + 1,
            arena,
        }));
        assert(text.take(pos + 1).drop_last() =~= text.take(pos));
        assert(text.take(pos + 1).last() == c);
        assert(literals(text.take(pos + 1)) == literals(text.take(pos)).push(literal(c)));
        lemma_units_of_literals(text, pos + 1, arena);
    }
}

/// A pattern of letters and digits alone parses to the sequence of its
/// literals, in the order in which they are written, or to the one literal
/// where it has a single character. The whole text is consumed and nothing
/// enters the arena.
pub proof fn lemma_literals_parse(text: Seq<char>, arena: Seq<Pattern>)
    requires
        text.len() >= 1,
        alnum_from(text, 0),
    ensures
        pattern(text, 0, arena) == (Outcome {
            result: Ok(
                if text.len() == 1 {
                    Pattern::Char(text[0])
                } else {
                    Pattern::Multi(literals(text))
                },
            ),
            pos: text.len() as int,
            arena,
        }),
{
    lemma_units_of_literals(text, 0, arena);
    lemma_literals_index(text);
    assert(text.take(0) =~= Seq::<char>::empty());
    assert(literals(text.take(0)) == Seq::<Pattern>::empty());
}

/// Parsing is a function of the text: two calls of `parse` that start over
/// equal texts, at the same place and with equal arenas, give equal trees
/// or the same error, and end at the same place with equal arenas.
pub proof fn lemma_reparse_equal(
    a: Context,
    a_after: Context,
    a_result: Result<Regex, Error>,
    b: Context,
    b_after: Context,
    b_result: Result<Regex, Error>,
)
    requires
        a.parsed(&a_after, a_result),
        b.parsed(&b_after, b_result),
        a.input@ == b.input@,
        a.offset == b.offset,
        a.arena_view() == b.arena_view(),
    ensures
        result_view(a_result) == result_view(b_result),
        a_after.offset == b_after.offset,
        a_after.arena_view() == b_after.arena_view(),
{
}

/// The same of `parse_single`.
pub proof fn lemma_reparse_single_equal(
    a: Context,
    a_after: Context,
    a_result: Result<Regex, Error>,
    b: Context,
    b_after: Context,
    b_result: Result<Regex, Error>,
)
    requires
        a.parsed_single(&a_after, a_result),
        b.parsed_single(&b_after, b_result),
        a.input@ == b.input@,
        a.offset == b.offset,
        a.arena_view() == b.arena_view(),
    ensures
        result_view(a_result) == result_view(b_result),
        a_after.offset == b_after.offset,
        a_after.arena_view() == b_after.arena_view(),
{
}

} // verus!
