//! What holds of the identifiers of every generated program.

use vstd::prelude::*;
use crate::ast::Pattern;
use crate::program::{
    function_name, functions, functions_of_all, item_ids, lemma_names_differ, Body, Function,
};
use crate::tree::{lemma_total_bounds_each, node_count, total_count, well_formed};

verus! {

/// One of `fs` has the identifier `id`.
pub open spec fn has_id(fs: Seq<Function>, id: nat) -> bool {
    exists|i: int| 0 <= i < fs.len() && (#[trigger] fs[i]).id == id
}

/// The identifiers of `fs` are the numbers from `lo` up to `hi`, `hi` left
/// out, each of them taken by exactly one function.
pub open spec fn numbered(fs: Seq<Function>, lo: nat, hi: nat) -> bool {
    &&& lo + fs.len() == hi
    &&& forall|i: int| 0 <= i < fs.len() ==> lo <= (#[trigger] fs[i]).id < hi
    &&& forall|i: int, j: int|
        0 <= i < j < fs.len() ==> (#[trigger] fs[i]).id != (#[trigger] fs[j]).id
    &&& forall|id: nat| lo <= id < hi ==> #[trigger] has_id(fs, id)
}

/// The identifiers that a function calls.
pub open spec fn targets(body: Body) -> Seq<nat> {
    match body {
        Body::Any { child } => seq![child],
        Body::Many { child } => seq![child],
        Body::Char { c } => Seq::empty(),
        Body::Multi { children } => children,
    }
}

/// Every function of `fs` only calls identifiers above its own and
/// below `hi`.
pub open spec fn calls_within(fs: Seq<Function>, hi: nat) -> bool {
    forall|i: int, k: int|
        0 <= i < fs.len() && 0 <= k < targets(fs[i].body).len() ==> fs[i].id < (
        #[trigger] targets(fs[i].body)[k]) < hi
}

/// The function that the root of `tree` compiles to under the identifier
/// `id`.
pub open spec fn root_function(tree: Pattern, arena: Seq<Pattern>, id: nat) -> Function {
    Function {
        id,
        body: match tree {
            Pattern::Char(c) => Body::Char { c },
            Pattern::Any(_) => Body::Any { child: id + 1 },
            Pattern::Many(_) => Body::Many { child: id + 1 },
            Pattern::Multi(items) => Body::Multi { children: item_ids(items, arena, id + 1) },
        },
    }
}

/// `f` is one of `fs`.
pub open spec fn holds(fs: Seq<Function>, f: Function) -> bool {
    exists|i: int| 0 <= i < fs.len() && #[trigger] fs[i] == f
}

/// Two runs of functions that are numbered over adjoining ranges are
/// together numbered over both, whichever is written first.
pub proof fn lemma_numbered_join(a: Seq<Function>, b: Seq<Function>, lo: nat, mid: nat, hi: nat)
    requires
        numbered(a, lo, mid),
        numbered(b, mid, hi),
    ensures
        numbered(a + b, lo, hi),
        numbered(b + a, lo, hi),
{
    let ab = a + b;
    let ba = b + a;
    assert forall|id: nat| lo <= id < hi implies #[trigger] has_id(ab, id) by {
        if id < mid {
            assert(has_id(a, id));
            let i = choose|i: int| 0 <= i < a.len() && (#[trigger] a[i]).id == id;
            assert(ab[i] == a[i]);
        } else {
            assert(has_id(b, id));
            let i = choose|i: int| 0 <= i < b.len() && (#[trigger] b[i]).id == id;
            assert(ab[a.len() + i] == b[i]);
        }
    }
    assert forall|id: nat| lo <= id < hi implies #[trigger] has_id(ba, id) by {
        if id < mid {
            assert(has_id(a, id));
            let i = choose|i: int| 0 <= i < a.len() && (#[trigger] a[i]).id == id;
            assert(ba[b.len() + i] == a[i]);
        } else {
            assert(has_id(b, id));
            let i = choose|i: int| 0 <= i < b.len() && (#[trigger] b[i]).id == id;
            assert(ba[i] == b[i]);
        }
    }
    assert forall|i: int| 0 <= i < ab.len() implies lo <= (#[trigger] ab[i]).id < hi by {
        if i < a.len() {
            assert(ab[i] == a[i]);
        } else {
            assert(ab[i] == b[i - a.len()]);
        }
    }
    assert forall|i: int| 0 <= i < ba.len() implies lo <= (#[trigger] ba[i]).id < hi by {
        if i < b.len() {
            assert(ba[i] == b[i]);
        } else {
            assert(ba[i] == a[i - b.len()]);
        }
    }
    assert forall|i: int, j: int| 0 <= i < j < ab.len() implies (#[trigger] ab[i]).id != (
    #[trigger] ab[j]).id by {
        if i < a.len() {
            assert(ab[i] == a[i]);
        } else {
            assert(ab[i] == b[i - a.len()]);
        }
        if j < a.len() {
            assert(ab[j] == a[j]);
        } else {
            assert(ab[j] == b[j - a.len()]);
        }
    }
    assert forall|i: int, j: int| 0 <= i < j < ba.len() implies (#[trigger] ba[i]).id != (
    #[trigger] ba[j]).id by {
        if i < b.len() {
            assert(ba[i] == b[i]);
        } else {
            assert(ba[i] == a[i - b.len()]);
        }
        if j < b.len() {
            assert(ba[j] == b[j]);
        } else {
            assert(ba[j] == a[j - b.len()]);
        }
    }
}

/// Two runs of functions that call within a bound do so together.
pub proof fn lemma_calls_within_join(a: Seq<Function>, b: Seq<Function>, hi_a: nat, hi: nat)
    requires
        calls_within(a, hi_a),
        calls_within(b, hi),
        hi_a <= hi,
    ensures
        calls_within(a + b, hi),
{
    let ab = a + b;
    assert forall|i: int, k: int|
        0 <= i < ab.len() && 0 <= k < targets(ab[i].body).len() implies ab[i].id < (
    #[trigger] targets(ab[i].body)[k]) < hi by {
        if i < a.len() {
            assert(ab[i] == a[i]);
            assert(a[i].id < targets(a[i].body)[k] < hi_a);
        } else {
            assert(ab[i] == b[i - a.len()]);
            assert(b[i - a.len()].id < targets(b[i - a.len()].body)[k] < hi);
        }
    }
}

/// A single function is numbered by its own identifier.
pub proof fn lemma_numbered_one(f: Function)
    ensures
        numbered(seq![f], f.id, f.id + 1),
{
    let fs = seq![f];
    assert(fs[0].id == f.id);
    assert(has_id(fs, f.id));
}

/// Every node of a tree gets an identifier of its own, and none is left
/// out: a well-formed tree whose root is given `id` compiles to functions
/// whose identifiers are `id`, `id + 1` and so on, one for each node. The
/// function with the identifier `id` is that of the root, and no function
/// calls an identifier that none has.
pub proof fn lemma_functions_numbered(tree: Pattern, arena: Seq<Pattern>, id: nat)
    requires
        well_formed(tree, arena),
    ensures
        numbered(functions(tree, arena, id), id, id + node_count(tree, arena)),
        calls_within(functions(tree, arena, id), id + node_count(tree, arena)),
        holds(functions(tree, arena, id), root_function(tree, arena, id)),
    decreases arena.len(), tree, 1int,
{
    let fs = functions(tree, arena, id);
    let own = root_function(tree, arena, id);
    lemma_numbered_one(own);
    match tree {
        Pattern::Char(_) => {
            assert(fs[0] == own);
        },
        Pattern::Any(h) | Pattern::Many(h) => {
            let rest = functions(arena[h], arena.take(h), id + 1);
            lemma_functions_numbered(arena[h], arena.take(h), id + 1);
            lemma_numbered_join(seq![own], rest, id, id + 1, id + node_count(tree, arena));
            assert(fs == seq![own] + rest);
            assert(fs[0] == own);
            assert(calls_within(seq![own], id + node_count(tree, arena))) by {
                assert(node_count(arena[h], arena.take(h)) >= 1) by {
                    crate::program::lemma_functions_len(arena[h], arena.take(h), id + 1);
                    assert(holds(rest, root_function(arena[h], arena.take(h), id + 1)));
                }
            }
            lemma_calls_within_join(
                seq![own],
                rest,
                id + node_count(tree, arena),
                id + node_count(tree, arena),
            );
        },
        Pattern::Multi(items) => {
            let inner = functions_of_all(items, arena, id + 1);
            lemma_functions_of_all_numbered(items, arena, id + 1);
            lemma_numbered_join(seq![own], inner, id, id + 1, id + node_count(tree, arena));
            assert(fs =~= inner + seq![own]);
            assert(fs[fs.len() - 1] == own);
            assert(calls_within(seq![own], id + node_count(tree, arena))) by {
                assert forall|k: int| 0 <= k < items.len() implies id < (#[trigger] item_ids(
                    items,
                    arena,
                    id + 1,
                )[k]) < id + node_count(tree, arena) by {
                    lemma_total_bounds_each(items, arena, k);
                    crate::program::lemma_functions_len(
                        items[k],
                        arena,
                        id + 1 + total_count(items.take(k), arena),
                    );
                    lemma_functions_numbered(
                        items[k],
                        arena,
                        id + 1 + total_count(items.take(k), arena),
                    );
                }
            }
            lemma_calls_within_join(
                inner,
                seq![own],
                id + node_count(tree, arena),
                id + node_count(tree, arena),
            );
        },
    }
}

/// The same of the items of a sequence, numbered one after the other.
pub proof fn lemma_functions_of_all_numbered(trees: Seq<Pattern>, arena: Seq<Pattern>, first: nat)
    requires
        forall|i: int| 0 <= i < trees.len() ==> well_formed(#[trigger] trees[i], arena),
    ensures
        numbered(
            functions_of_all(trees, arena, first),
            first,
            first + total_count(trees, arena),
        ),
        calls_within(functions_of_all(trees, arena, first), first + total_count(trees, arena)),
    decreases arena.len(), trees, 0int,
{
    if trees.len() > 0 {
        let front = trees.drop_last();
        let mid = first + total_count(front, arena);
        lemma_functions_of_all_numbered(front, arena, first);
        lemma_functions_numbered(trees.last(), arena, mid);
        lemma_numbered_join(
            functions_of_all(front, arena, first),
            functions(trees.last(), arena, mid),
            first,
            mid,
            first + total_count(trees, arena),
        );
        lemma_calls_within_join(
            functions_of_all(front, arena, first),
            functions(trees.last(), arena, mid),
            mid,
            first + total_count(trees, arena),
        );
    }
}

/// No two of `fs` are defined under the same name.
pub open spec fn named_apart(fs: Seq<Function>) -> bool {
    forall|i: int, j: int|
        0 <= i < j < fs.len() ==> function_name((#[trigger] fs[i]).id) != function_name(
            (#[trigger] fs[j]).id,
        )
}

/// Functions with identifiers of their own have names of their own.
pub proof fn lemma_numbered_named_apart(fs: Seq<Function>, lo: nat, hi: nat)
    requires
        numbered(fs, lo, hi),
    ensures
        named_apart(fs),
{
    assert forall|i: int, j: int| 0 <= i < j < fs.len() implies function_name(
        (#[trigger] fs[i]).id,
    ) != function_name((#[trigger] fs[j]).id) by {
        if function_name(fs[i].id) == function_name(fs[j].id) {
            lemma_names_differ(fs[i].id, fs[j].id);
        }
    }
}

/// What holds of the functions that `tree` compiles to from the identifier
/// `id` on: their identifiers are `id` and the numbers that follow, one for
/// each node, each taken once and none left out; no two of them have the
/// same name; none calls an identifier that no function has; and the one
/// with the identifier `id` is that of the root.
pub open spec fn linked(tree: Pattern, arena: Seq<Pattern>, id: nat) -> bool {
    let fs = functions(tree, arena, id);
    let end = id + node_count(tree, arena);
    &&& numbered(fs, id, end)
    &&& named_apart(fs)
    &&& calls_within(fs, end)
    &&& holds(fs, root_function(tree, arena, id))
}

/// The functions of every well-formed tree are linked.
pub proof fn lemma_functions_linked(tree: Pattern, arena: Seq<Pattern>, id: nat)
    requires
        well_formed(tree, arena),
    ensures
        linked(tree, arena, id),
{
    lemma_functions_numbered(tree, arena, id);
    lemma_numbered_named_apart(functions(tree, arena, id), id, id + node_count(tree, arena));
}

} // verus!
