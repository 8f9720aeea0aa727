//! The code generator: one function of text for every node of a tree.

use vstd::prelude::*;
use vstd::string::*;
use crate::ast::{lemma_views, views, Error, Pattern, Regex};
use crate::grammar::pattern;
use crate::laws::lemma_pattern_advances;
use crate::parser::Context;
use crate::program::{
    call, calls, function_name, functions, functions_of_all, harness, header, item_ids,
    lemma_functions_arena_grows,
    lemma_text_of_concat, lemma_text_of_one, program, render, text_of, Body, Function,
};
use crate::numbering::{lemma_functions_linked, linked};
use crate::text::push_decimal;
use crate::tree::{
    lemma_arena_grows, lemma_total_bounds_each, node_count, proper, total_count, well_formed,
};

verus! {

/// Writes the name of the function with the identifier `id`.
fn push_name(out: &mut String, id: usize)
    ensures
        final(out)@ == old(out)@ + function_name(id as nat),
{
    out.append("func_");
    push_decimal(out, id);
    assert(out@ =~= old(out)@ + function_name(id as nat));
}

/// Writes the lines that a function begins with.
fn push_header(out: &mut String, comment: &str, id: usize)
    ensures
        final(out)@ == old(out)@ + header(comment@, id as nat),
{
    out.append(comment);
    out.append("#[inline(always)]\nfn ");
    push_name(out, id);
    out.append("(input: &mut &str) -> bool {\n");
    assert(out@ =~= old(out)@ + header(comment@, id as nat));
}

/// Writes the function of a zero-or-more node.
fn push_any(out: &mut String, id: usize, child: usize)
    ensures
        final(out)@ == old(out)@ + render(
            (Function { id: id as nat, body: Body::Any { child: child as nat } }),
        ),
{
    push_header(out, "// any\n", id);
    out.append("    loop {\n        let saved = *input;\n        if !");
    push_name(out, child);
    out.append(
        "(input) {\n            *input = saved;\n            break;\n        }\n    }\n\n    true\n}\n",
    );
    assert(out@ =~= old(out)@ + render(
        (Function { id: id as nat, body: Body::Any { child: child as nat } }),
    ));
}

/// Writes the function of a one-or-more node.
fn push_many(out: &mut String, id: usize, child: usize)
    ensures
        final(out)@ == old(out)@ + render(
            (Function { id: id as nat, body: Body::Many { child: child as nat } }),
        ),
{
    push_header(out, "// many\n", id);
    out.append(
        "    let mut did_a_match = false;\n    loop {\n        let saved = *input;\n        if !",
    );
    push_name(out, child);
    out.append(
        "(input) {\n            *input = saved;\n            break;\n        }\n        did_a_match = true;\n    }\n\n    did_a_match\n}\n",
    );
    assert(out@ =~= old(out)@ + render(
        (Function { id: id as nat, body: Body::Many { child: child as nat } }),
    ));
}

/// Writes the function of a literal.
fn push_char(out: &mut String, id: usize, c: char)
    ensures
        final(out)@ == old(out)@ + render((Function { id: id as nat, body: Body::Char { c } })),
{
    push_header(out, "// single char\n", id);
    out.append("    let starts = input.starts_with('");
    out.push(c);
    out.append("');\n    *input = &input[(starts as usize)..];\n    starts\n}\n");
    assert(out@ =~= old(out)@ + render((Function { id: id as nat, body: Body::Char { c } })));
}

/// The identifiers in `ids` as numbers.
pub open spec fn as_nats(ids: Seq<usize>) -> Seq<nat> {
    ids.map_values(|id: usize| id as nat)
}

/// Writes the function of a sequence whose items have the identifiers `ids`.
fn push_multi(out: &mut String, id: usize, ids: &Vec<usize>)
    ensures
        final(out)@ == old(out)@ + render(
            (Function { id: id as nat, body: Body::Multi { children: as_nats(ids@) } }),
        ),
{
    let mut funcs_to_call = String::new();
    let ghost children = as_nats(ids@);
    for i in 0..ids.len()
        invariant
            children == as_nats(ids@),
            funcs_to_call@ == calls(children.take(i as int)),
    {
        let ghost before = funcs_to_call@;
        funcs_to_call.append("    if !");
        push_name(&mut funcs_to_call, ids[i]);
        funcs_to_call.append("(input) {\n        *input = saved;\n        return false;\n    }\n");
        proof {
            assert(children.take(i + 1).drop_last() =~= children.take(i as int));
            assert(children.take(i + 1).last() == ids@[i as int] as nat);
            assert(funcs_to_call@ =~= before + call(ids@[i as int] as nat));
        }
    }
    assert(children.take(ids.len() as int) =~= children);
    push_header(out, "// multi\n", id);
    out.append("    let saved = *input;\n");
    out.append(funcs_to_call.as_str());
    out.append("\n    true\n}\n");
    assert(out@ =~= old(out)@ + render(
        (Function { id: id as nat, body: Body::Multi { children } }),
    ));
}

/// Writes the functions of `regex` at the end of `out`, the root under the
/// identifier `depth` and every other node under the identifiers that follow
/// in pre-order, and returns the first identifier that is still free.
///
/// Every node gets one identifier and one function, under a name of its
/// own, and every call in a function goes to one of the functions written.
pub fn recurse_gen_program(out: &mut String, ctx: &Context, regex: &Regex, depth: usize) -> (next:
    usize)
    requires
        well_formed(regex@, ctx.arena_view()),
        depth + node_count(regex@, ctx.arena_view()) <= usize::MAX,
    ensures
        final(out)@ == old(out)@ + text_of(functions(regex@, ctx.arena_view(), depth as nat)),
        next == depth + node_count(regex@, ctx.arena_view()),
        linked(regex@, ctx.arena_view(), depth as nat),
    decreases node_count(regex@, ctx.arena_view()),
{
    let ghost arena = ctx.arena_view();
    let ghost id = depth as nat;
    proof {
        lemma_views(ctx.arena@);
        lemma_functions_linked(regex@, arena, id);
    }
    match regex {
        Regex::Any(regexref) => {
            let ghost h = *regexref as int;
            let ghost own = Function { id, body: Body::Any { child: id + 1 } };
            proof {
                lemma_arena_grows(arena[h], arena.take(h), arena);
                lemma_functions_arena_grows(arena[h], arena.take(h), arena, id + 1);
                lemma_text_of_one(own);
                lemma_text_of_concat(seq![own], functions(arena[h], arena, id + 1));
            }
            push_any(out, depth, depth + 1);
            let next = recurse_gen_program(out, ctx, &ctx.arena[*regexref], depth + 1);
            assert(out@ =~= old(out)@ + text_of(functions(regex@, arena, id)));
            next
        },
        Regex::Many(regexref) => {
            let ghost h = *regexref as int;
            let ghost own = Function { id, body: Body::Many { child: id + 1 } };
            proof {
                lemma_arena_grows(arena[h], arena.take(h), arena);
                lemma_functions_arena_grows(arena[h], arena.take(h), arena, id + 1);
                lemma_text_of_one(own);
                lemma_text_of_concat(seq![own], functions(arena[h], arena, id + 1));
            }
            push_many(out, depth, depth + 1);
            let next = recurse_gen_program(out, ctx, &ctx.arena[*regexref], depth + 1);
            assert(out@ =~= old(out)@ + text_of(functions(regex@, arena, id)));
            next
        },
        Regex::Char(chr) => {
            proof {
                lemma_text_of_one(Function { id, body: Body::Char { c: *chr } });
            }
            push_char(out, depth, *chr);
            depth + 1
        },
        Regex::Multi(regexs) => {
            let ghost items = views(regexs@);
            proof {
                lemma_views(regexs@);
                assert(regex@ == Pattern::Multi(items));
            }
            let mut new_depth = depth + 1;
            let mut indices_to_call: Vec<usize> = Vec::with_capacity(regexs.len());
            for i in 0..regexs.len()
                invariant
                    arena == ctx.arena_view(),
                    id == depth as nat,
                    items == views(regexs@),
                    items.len() == regexs@.len(),
                    regex@ == Pattern::Multi(items),
                    well_formed(regex@, arena),
                    depth + node_count(regex@, arena) <= usize::MAX,
                    new_depth == depth + 1 + total_count(items.take(i as int), arena),
                    total_count(items.take(i as int), arena) <= total_count(items, arena),
                    indices_to_call@.len() == i,
                    as_nats(indices_to_call@) == item_ids(items, arena, id + 1).take(i as int),
                    out@ == old(out)@ + text_of(
                        functions_of_all(items.take(i as int), arena, id + 1),
                    ),
                decreases regexs.len() - i,
            {
                let ghost done = items.take(i as int);
                let ghost ids_before = as_nats(indices_to_call@);
                proof {
                    lemma_views(regexs@);
                    lemma_total_bounds_each(items, arena, i as int);
                    assert(items[i as int] == regexs@[i as int]@);
                    assert(items.take(i + 1).drop_last() =~= done);
                    assert(items.take(i + 1).last() == items[i as int]);
                    lemma_text_of_concat(
                        functions_of_all(done, arena, id + 1),
                        functions(items[i as int], arena, new_depth as nat),
                    );
                }
                indices_to_call.push(new_depth);
                assert(as_nats(indices_to_call@) =~= ids_before.push(new_depth as nat));
                assert(as_nats(indices_to_call@) =~= item_ids(items, arena, id + 1).take(i + 1));
                new_depth = recurse_gen_program(out, ctx, &regexs[i], new_depth);
                assert(out@ =~= old(out)@ + text_of(
                    functions_of_all(items.take(i + 1), arena, id + 1),
                ));
            }
            let ghost own = Function {
                id,
                body: Body::Multi { children: item_ids(items, arena, id + 1) },
            };
            proof {
                assert(items.take(regexs.len() as int) =~= items);
                assert(item_ids(items, arena, id + 1).take(regexs.len() as int) =~= item_ids(
                    items,
                    arena,
                    id + 1,
                ));
                lemma_text_of_one(own);
                lemma_text_of_concat(functions_of_all(items, arena, id + 1), seq![own]);
                assert(functions(regex@, arena, id) =~= functions_of_all(items, arena, id + 1)
                    + seq![own]);
            }
            push_multi(out, depth, &indices_to_call);
            assert(out@ =~= old(out)@ + text_of(functions(regex@, arena, id)));
            new_depth
        },
    }
}

/// The program that matches `regex`: the entry point, which calls the
/// function with the identifier 0, then the functions of the tree, the root
/// under the identifier 0.
pub fn gen_program(ctx: &Context, regex: &Regex) -> (text: String)
    requires
        well_formed(regex@, ctx.arena_view()),
        node_count(regex@, ctx.arena_view()) <= usize::MAX,
    ensures
        text@ == program(regex@, ctx.arena_view()),
        linked(regex@, ctx.arena_view(), 0),
{
    let mut rust_program = String::from_str(
        "\nfn main() {{\n    let Some(input) = std::env::args().skip(1).next() else {{\n        eprintln!(\"Program expects input string.\");\n        std::process::exit(1);\n    }};\n    if !",
    );
    push_name(&mut rust_program, 0);
    rust_program.append("(&mut (&input as &str)) {{\n        std::process::exit(1);\n    }}\n}}");
    assert(rust_program@ =~= harness());
    recurse_gen_program(&mut rust_program, ctx, regex, 0);
    rust_program
}

/// A pattern that has been parsed and compiled.
pub struct Compiled {
    /// The tree of the pattern.
    pub tree: Regex,
    /// The arena that the handles in `tree` refer to.
    pub arena: Vec<Regex>,
    /// The text of the program that matches the pattern.
    pub program: String,
}

/// A parse that failed, and where.
#[derive(Debug, Clone, Copy, PartialEq, Eq, Structural)]
pub struct Failure {
    /// Why the pattern could not be parsed.
    pub kind: Error,
    /// Where the cursor stood in the pattern when the parse gave up.
    pub offset: usize,
}

/// Parses `input` from its start with an empty arena and generates the
/// program that matches it. Where the parse fails, its error is returned
/// with the place that the cursor had reached, and nothing is generated.
pub fn compile(input: &str) -> (r: Result<Compiled, Failure>)
    requires
        input@.len() < usize::MAX,
    ensures
        match pattern(input@, 0, Seq::empty()).result {
            Ok(tree) => {
                let arena = pattern(input@, 0, Seq::empty()).arena;
                &&& r matches Ok(done)
                &&& done.tree@ == tree
                &&& views(done.arena@) == arena
                &&& done.program@ == program(tree, arena)
                &&& linked(tree, arena, 0)
                &&& well_formed(tree, arena)
                &&& proper(tree)
            },
            Err(e) => r == Err::<Compiled, Failure>(
                (Failure { kind: e, offset: pattern(input@, 0, Seq::empty()).pos as usize }),
            ),
        },
{
    let mut ctx = Context::new(input);
    match ctx.parse() {
        Ok(tree) => {
            proof {
                lemma_pattern_advances(input@, 0, Seq::empty());
            }
            let program = gen_program(&ctx, &tree);
            Ok(Compiled { tree, arena: ctx.arena, program })
        },
        Err(kind) => Err(Failure { kind, offset: ctx.offset }),
    }
}

} // verus!
