//! The generated program as mathematics: which functions a tree compiles to,
//! under which identifiers, and how each is written.
//!
//! Every node of a tree becomes one function. Identifiers are handed out in
//! pre-order from a counter: a node takes the identifier it is given, and its
//! operand or its items take the ones that follow. A function refers to
//! another only by that identifier, so the numbering here is the whole
//! linkage of the program.

use vstd::prelude::*;
use crate::ast::Pattern;
use crate::text::decimal;
use crate::tree::{node_count, total_count, well_formed};

verus! {

/// What a generated function does.
pub ghost enum Body {
    /// Calls `child` until it fails; always succeeds.
    Any { child: nat },
    /// Calls `child` until it fails; succeeds if a call did.
    Many { child: nat },
    /// Steps over the character `c`, or fails.
    Char { c: char },
    /// Calls each of `children` in order; restores the input and fails as
    /// soon as one fails.
    Multi { children: Seq<nat> },
}

/// One generated function.
pub ghost struct Function {
    /// The identifier that it is named by and called under.
    pub id: nat,
    /// What it does.
    pub body: Body,
}

/// The functions that `tree` compiles to when its root is given the
/// identifier `id`, in the order in which they are written.
///
/// A quantifier is written before its operand, a sequence after its items.
pub open spec fn functions(tree: Pattern, arena: Seq<Pattern>, id: nat) -> Seq<Function>
    decreases arena.len(), tree,
{
    match tree {
        Pattern::Char(c) => seq![Function { id, body: Body::Char { c } }],
        Pattern::Any(h) => seq![Function { id, body: Body::Any { child: id + 1 } }] + (if 0 <= h
            < arena.len() {
            functions(arena[h], arena.take(h), id + 1)
        } else {
            Seq::empty()
        }),
        Pattern::Many(h) => seq![Function { id, body: Body::Many { child: id + 1 } }] + (if 0 <= h
            < arena.len() {
            functions(arena[h], arena.take(h), id + 1)
        } else {
            Seq::empty()
        }),
        Pattern::Multi(items) => functions_of_all(items, arena, id + 1).push(
            Function { id, body: Body::Multi { children: item_ids(items, arena, id + 1) } },
        ),
    }
}

/// The functions of `trees`, one tree after the other, the first of them
/// numbered from `first` and each of the others from where the one before it
/// ended.
pub open spec fn functions_of_all(trees: Seq<Pattern>, arena: Seq<Pattern>, first: nat) -> Seq<
    Function,
>
    decreases arena.len(), trees,
{
    if trees.len() == 0 {
        Seq::empty()
    } else {
        functions_of_all(trees.drop_last(), arena, first) + functions(
            trees.last(),
            arena,
            first + total_count(trees.drop_last(), arena),
        )
    }
}

/// The identifier of the root of each of `trees`, numbered as
/// `functions_of_all` numbers them.
pub open spec fn item_ids(trees: Seq<Pattern>, arena: Seq<Pattern>, first: nat) -> Seq<nat> {
    Seq::new(trees.len(), |i: int| first + total_count(trees.take(i), arena))
}

/// The name under which the function with the identifier `id` is defined
/// and called.
pub open spec fn function_name(id: nat) -> Seq<char> {
    "func_"@ + decimal(id)
}

/// The lines that every function begins with, up to the opening of its
/// body.
pub open spec fn header(comment: Seq<char>, id: nat) -> Seq<char> {
    comment + "#[inline(always)]\nfn "@ + function_name(id) + "(input: &mut &str) -> bool {\n"@
}

/// The call of one item inside a sequence.
pub open spec fn call(id: nat) -> Seq<char> {
    "    if !"@ + function_name(id)
        + "(input) {\n        *input = saved;\n        return false;\n    }\n"@
}

/// The calls of the items of a sequence, in order.
pub open spec fn calls(ids: Seq<nat>) -> Seq<char>
    decreases ids.len(),
{
    if ids.len() == 0 {
        Seq::empty()
    } else {
        calls(ids.drop_last()) + call(ids.last())
    }
}

/// The text of one function.
pub open spec fn render(f: Function) -> Seq<char> {
    match f.body {
        Body::Any { child } => header("// any\n"@, f.id)
            + "    loop {\n        let saved = *input;\n        if !"@ + function_name(child)
            + "(input) {\n            *input = saved;\n            break;\n        }\n    }\n\n    true\n}\n"@,
        Body::Many { child } => header("// many\n"@, f.id)
            + "    let mut did_a_match = false;\n    loop {\n        let saved = *input;\n        if !"@
            + function_name(child)
            + "(input) {\n            *input = saved;\n            break;\n        }\n        did_a_match = true;\n    }\n\n    did_a_match\n}\n"@,
        Body::Char { c } => header("// single char\n"@, f.id)
            + "    let starts = input.starts_with('"@.push(c)
            + "');\n    *input = &input[(starts as usize)..];\n    starts\n}\n"@,
        Body::Multi { children } => header("// multi\n"@, f.id) + "    let saved = *input;\n"@
            + calls(children) + "\n    true\n}\n"@,
    }
}

/// The text of several functions, one after the other.
pub open spec fn text_of(fs: Seq<Function>) -> Seq<char>
    decreases fs.len(),
{
    if fs.len() == 0 {
        Seq::empty()
    } else {
        text_of(fs.drop_last()) + render(fs.last())
    }
}

/// The entry point that the generated functions are written behind. It
/// hands the first argument of the program to the function with the
/// identifier 0 and exits with status 1 where that function fails.
pub open spec fn harness() -> Seq<char> {
    "\nfn main() {{\n    let Some(input) = std::env::args().skip(1).next() else {{\n        eprintln!(\"Program expects input string.\");\n        std::process::exit(1);\n    }};\n    if !"@
        + function_name(0)
        + "(&mut (&input as &str)) {{\n        std::process::exit(1);\n    }}\n}}"@
}

/// The whole program for `tree`: the entry point, then the functions of the
/// tree numbered from 0.
pub open spec fn program(tree: Pattern, arena: Seq<Pattern>) -> Seq<char> {
    harness() + text_of(functions(tree, arena, 0))
}

/// Two identifiers that give the same name are the same identifier: every
/// identifier names a function of its own.
pub proof fn lemma_names_differ(a: nat, b: nat)
    requires
        function_name(a) == function_name(b),
    ensures
        a == b,
{
    let prefix = "func_"@;
    assert(function_name(a).skip(prefix.len() as int) =~= decimal(a));
    assert(function_name(b).skip(prefix.len() as int) =~= decimal(b));
    crate::text::lemma_decimal_injective(a, b);
}

/// The text of two runs of functions is the text of the first, then that of
/// the second.
pub proof fn lemma_text_of_concat(a: Seq<Function>, b: Seq<Function>)
    ensures
        text_of(a + b) == text_of(a) + text_of(b),
    decreases b.len(),
{
    if b.len() == 0 {
        assert(a + b =~= a);
        assert(text_of(a) + text_of(b) =~= text_of(a));
    } else {
        assert((a + b).drop_last() =~= a + b.drop_last());
        assert((a + b).last() == b.last());
        lemma_text_of_concat(a, b.drop_last());
        assert(text_of(a + b) =~= text_of(a) + text_of(b));
    }
}

/// The text of a single function.
pub proof fn lemma_text_of_one(f: Function)
    ensures
        text_of(seq![f]) == render(f),
{
    assert(seq![f].drop_last() =~= Seq::<Function>::empty());
    assert(text_of(Seq::<Function>::empty()) =~= Seq::<char>::empty());
    assert(text_of(seq![f]) =~= render(f));
}

/// A tree has as many functions as nodes.
pub proof fn lemma_functions_len(tree: Pattern, arena: Seq<Pattern>, id: nat)
    ensures
        functions(tree, arena, id).len() == node_count(tree, arena),
    decreases arena.len(), tree,
{
    match tree {
        Pattern::Char(_) => {},
        Pattern::Any(h) | Pattern::Many(h) => {
            if 0 <= h < arena.len() {
                lemma_functions_len(arena[h], arena.take(h), id + 1);
            }
        },
        Pattern::Multi(items) => {
            lemma_functions_of_all_len(items, arena, id + 1);
        },
    }
}

/// Several trees have as many functions as nodes.
pub proof fn lemma_functions_of_all_len(trees: Seq<Pattern>, arena: Seq<Pattern>, first: nat)
    ensures
        functions_of_all(trees, arena, first).len() == total_count(trees, arena),
    decreases arena.len(), trees,
{
    if trees.len() > 0 {
        lemma_functions_of_all_len(trees.drop_last(), arena, first);
        lemma_functions_len(
            trees.last(),
            arena,
            first + total_count(trees.drop_last(), arena),
        );
    }
}

/// A tree that is well formed against an arena compiles to the same
/// functions against any arena that begins with it.
pub proof fn lemma_functions_arena_grows(
    tree: Pattern,
    arena: Seq<Pattern>,
    longer: Seq<Pattern>,
    id: nat,
)
    requires
        well_formed(tree, arena),
        arena.len() <= longer.len(),
        longer.take(arena.len() as int) == arena,
    ensures
        functions(tree, longer, id) == functions(tree, arena, id),
    decreases tree,
{
    match tree {
        Pattern::Char(_) => {},
        Pattern::Any(h) | Pattern::Many(h) => {
            assert(longer[h] == longer.take(arena.len() as int)[h]);
            assert(longer.take(h) =~= arena.take(h));
        },
        Pattern::Multi(items) => {
            lemma_functions_of_all_arena_grows(items, arena, longer, id + 1);
            assert(item_ids(items, longer, id + 1) =~= item_ids(items, arena, id + 1)) by {
                assert forall|i: int| 0 <= i < items.len() implies total_count(
                    items.take(i),
                    longer,
                ) == total_count(items.take(i), arena) by {
                    crate::tree::lemma_total_arena_grows(items.take(i), arena, longer);
                }
            }
        },
    }
}

/// The same of several trees.
pub proof fn lemma_functions_of_all_arena_grows(
    trees: Seq<Pattern>,
    arena: Seq<Pattern>,
    longer: Seq<Pattern>,
    first: nat,
)
    requires
        forall|i: int| 0 <= i < trees.len() ==> well_formed(#[trigger] trees[i], arena),
        arena.len() <= longer.len(),
        longer.take(arena.len() as int) == arena,
    ensures
        functions_of_all(trees, longer, first) == functions_of_all(trees, arena, first),
    decreases trees,
{
    if trees.len() > 0 {
        lemma_functions_of_all_arena_grows(trees.drop_last(), arena, longer, first);
        crate::tree::lemma_total_arena_grows(trees.drop_last(), arena, longer);
        lemma_functions_arena_grows(
            trees.last(),
            arena,
            longer,
            first + total_count(trees.drop_last(), arena),
        );
    }
}

} // verus!
