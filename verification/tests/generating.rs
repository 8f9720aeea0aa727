use regex_codegen::ast::{Error, Regex};
use regex_codegen::codegen::{compile, gen_program, recurse_gen_program, Failure};
use regex_codegen::parser::Context;
use regex_codegen::text::push_decimal;

const HARNESS: &str = "
fn main() {{
    let Some(input) = std::env::args().skip(1).next() else {{
        eprintln!(\"Program expects input string.\");
        std::process::exit(1);
    }};
    if !func_0(&mut (&input as &str)) {{
        std::process::exit(1);
    }}
}}";

fn char_fn(id: usize, c: char) -> String {
    format!(
        "// single char\n#[inline(always)]\nfn func_{id}(input: &mut &str) -> bool {{\n    let starts = input.starts_with('{c}');\n    *input = &input[(starts as usize)..];\n    starts\n}}\n"
    )
}

fn any_fn(id: usize, child: usize) -> String {
    format!(
        "// any\n#[inline(always)]\nfn func_{id}(input: &mut &str) -> bool {{\n    loop {{\n        let saved = *input;\n        if !func_{child}(input) {{\n            *input = saved;\n            break;\n        }}\n    }}\n\n    true\n}}\n"
    )
}

fn many_fn(id: usize, child: usize) -> String {
    format!(
        "// many\n#[inline(always)]\nfn func_{id}(input: &mut &str) -> bool {{\n    let mut did_a_match = false;\n    loop {{\n        let saved = *input;\n        if !func_{child}(input) {{\n            *input = saved;\n            break;\n        }}\n        did_a_match = true;\n    }}\n\n    did_a_match\n}}\n"
    )
}

fn multi_fn(id: usize, children: &[usize]) -> String {
    let mut calls = String::new();
    for child in children {
        calls.push_str(&format!(
            "    if !func_{child}(input) {{\n        *input = saved;\n        return false;\n    }}\n"
        ));
    }
    format!(
        "// multi\n#[inline(always)]\nfn func_{id}(input: &mut &str) -> bool {{\n    let saved = *input;\n{calls}\n    true\n}}\n"
    )
}

fn generate(pattern: &str) -> (String, usize) {
    let mut ctx = Context::new(pattern);
    let regex = ctx.parse().unwrap();
    let mut out = String::new();
    let next = recurse_gen_program(&mut out, &ctx, &regex, 0);
    (out, next)
}

#[test]
fn literal_program_is_exact() {
    let mut ctx = Context::new("a");
    let regex = ctx.parse().unwrap();
    let program = gen_program(&ctx, &regex);
    let expected = "
fn main() {{
    let Some(input) = std::env::args().skip(1).next() else {{
        eprintln!(\"Program expects input string.\");
        std::process::exit(1);
    }};
    if !func_0(&mut (&input as &str)) {{
        std::process::exit(1);
    }}
}}// single char
#[inline(always)]
fn func_0(input: &mut &str) -> bool {
    let starts = input.starts_with('a');
    *input = &input[(starts as usize)..];
    starts
}
";
    assert_eq!(program, expected);
}

#[test]
fn any_program_is_exact() {
    let (text, next) = generate("a*");
    let expected = "// any
#[inline(always)]
fn func_0(input: &mut &str) -> bool {
    loop {
        let saved = *input;
        if !func_1(input) {
            *input = saved;
            break;
        }
    }

    true
}
// single char
#[inline(always)]
fn func_1(input: &mut &str) -> bool {
    let starts = input.starts_with('a');
    *input = &input[(starts as usize)..];
    starts
}
";
    assert_eq!(text, expected);
    assert_eq!(next, 2);
}

#[test]
fn many_program_is_exact() {
    let (text, next) = generate("a+");
    let expected = "// many
#[inline(always)]
fn func_0(input: &mut &str) -> bool {
    let mut did_a_match = false;
    loop {
        let saved = *input;
        if !func_1(input) {
            *input = saved;
            break;
        }
        did_a_match = true;
    }

    did_a_match
}
// single char
#[inline(always)]
fn func_1(input: &mut &str) -> bool {
    let starts = input.starts_with('a');
    *input = &input[(starts as usize)..];
    starts
}
";
    assert_eq!(text, expected);
    assert_eq!(next, 2);
}

#[test]
fn sequence_program_is_exact() {
    let (text, next) = generate("ab");
    let expected = "// single char
#[inline(always)]
fn func_1(input: &mut &str) -> bool {
    let starts = input.starts_with('a');
    *input = &input[(starts as usize)..];
    starts
}
// single char
#[inline(always)]
fn func_2(input: &mut &str) -> bool {
    let starts = input.starts_with('b');
    *input = &input[(starts as usize)..];
    starts
}
// multi
#[inline(always)]
fn func_0(input: &mut &str) -> bool {
    let saved = *input;
    if !func_1(input) {
        *input = saved;
        return false;
    }
    if !func_2(input) {
        *input = saved;
        return false;
    }

    true
}
";
    assert_eq!(text, expected);
    assert_eq!(next, 3);
}

#[test]
fn quantifier_inside_a_sequence() {
    // Multi 0 [ Many 1 -> Char 2, Char 3 ]
    let mut ctx = Context::new("a+b");
    let regex = ctx.parse().unwrap();
    assert_eq!(regex, Regex::Multi(vec![Regex::Many(0), Regex::Char('b')]));
    let program = gen_program(&ctx, &regex);
    let expected = format!(
        "{}{}{}{}{}",
        HARNESS,
        many_fn(1, 2),
        char_fn(2, 'a'),
        char_fn(3, 'b'),
        multi_fn(0, &[1, 3])
    );
    assert_eq!(program, expected);
}

#[test]
fn quantified_group() {
    // Any 0 -> Multi 1 [ Char 2, Char 3 ]
    let (text, next) = generate("(ab)*");
    let expected = format!(
        "{}{}{}{}",
        any_fn(0, 1),
        char_fn(2, 'a'),
        char_fn(3, 'b'),
        multi_fn(1, &[2, 3])
    );
    assert_eq!(text, expected);
    assert_eq!(next, 4);
}

#[test]
fn sibling_after_a_nested_sequence_takes_the_next_identifier() {
    // Multi 0 [ Multi 1 [ Char 2, Char 3 ], Char 4 ]
    let (text, next) = generate("(ab)c");
    let expected = format!(
        "{}{}{}{}{}",
        char_fn(2, 'a'),
        char_fn(3, 'b'),
        multi_fn(1, &[2, 3]),
        char_fn(4, 'c'),
        multi_fn(0, &[1, 4])
    );
    assert_eq!(text, expected);
    assert_eq!(next, 5);
}

#[test]
fn nested_quantifiers_follow_their_handles() {
    // "(a*)+" : Many 0 -> Any 1 -> Char 2
    let mut ctx = Context::new("(a*)+");
    let regex = ctx.parse().unwrap();
    assert_eq!(regex, Regex::Many(1));
    assert_eq!(ctx.arena, vec![Regex::Char('a'), Regex::Any(0)]);
    let mut out = String::new();
    let next = recurse_gen_program(&mut out, &ctx, &regex, 0);
    assert_eq!(out, format!("{}{}{}", many_fn(0, 1), any_fn(1, 2), char_fn(2, 'a')));
    assert_eq!(next, 3);
}

#[test]
fn generation_can_start_at_any_identifier() {
    let mut ctx = Context::new("ab");
    let regex = ctx.parse().unwrap();
    let mut out = String::from("// head\n");
    let next = recurse_gen_program(&mut out, &ctx, &regex, 40);
    let expected = format!(
        "// head\n{}{}{}",
        char_fn(41, 'a'),
        char_fn(42, 'b'),
        multi_fn(40, &[41, 42])
    );
    assert_eq!(out, expected);
    assert_eq!(next, 43);
}

#[test]
fn every_node_gets_one_identifier() {
    // 1 sequence + a, b + inner sequence + c, d + e, f
    let (text, next) = generate("ab(cd)ef");
    assert_eq!(next, 8);
    for id in 0..8 {
        let header = format!("fn func_{id}(input: &mut &str) -> bool {{");
        assert_eq!(text.matches(&header).count(), 1);
    }
    assert_eq!(text.matches("fn func_").count(), 8);
    assert_eq!(text.matches("fn func_8(").count(), 0);
}

#[test]
fn every_call_has_a_function() {
    let (text, next) = generate("abhdsfj(hgj)as(dd+)ff");
    // 13 items, 3 in the first group, 2 in the second and the operand of `+`
    assert_eq!(next, 1 + 13 + 3 + 2 + 1);
    for id in 0..next {
        let header = format!("fn func_{id}(input: &mut &str) -> bool {{");
        assert_eq!(text.matches(&header).count(), 1);
    }
    for (at, _) in text.match_indices("if !func_") {
        let rest = &text[at + "if !func_".len()..];
        let digits: String = rest.chars().take_while(|c| c.is_ascii_digit()).collect();
        let id: usize = digits.parse().unwrap();
        assert!(id < next);
    }
}

#[test]
fn handmade_tree_over_an_arena() {
    let mut ctx = Context::new("");
    ctx.arena.push(Regex::Char('x'));
    ctx.arena.push(Regex::Multi(vec![Regex::Any(0), Regex::Char('y')]));
    let regex = Regex::Many(1);
    let mut out = String::new();
    let next = recurse_gen_program(&mut out, &ctx, &regex, 0);
    let expected = format!(
        "{}{}{}{}{}",
        many_fn(0, 1),
        any_fn(2, 3),
        char_fn(3, 'x'),
        char_fn(4, 'y'),
        multi_fn(1, &[2, 4])
    );
    assert_eq!(out, expected);
    assert_eq!(next, 5);
}

#[test]
fn decimal_numbers() {
    let cases: [(usize, &str); 7] = [
        (0, "0"),
        (7, "7"),
        (9, "9"),
        (10, "10"),
        (100, "100"),
        (12345, "12345"),
        (987654321, "987654321"),
    ];
    for (n, expected) in cases {
        let mut out = String::from("x");
        push_decimal(&mut out, n);
        assert_eq!(out, format!("x{expected}"));
    }
    let mut out = String::new();
    push_decimal(&mut out, usize::MAX);
    assert_eq!(out, usize::MAX.to_string());
}

#[test]
fn compile_parses_and_generates() {
    let done = compile("a+b").unwrap();
    assert_eq!(done.tree, Regex::Multi(vec![Regex::Many(0), Regex::Char('b')]));
    assert_eq!(done.arena, vec![Regex::Char('a')]);
    let mut ctx = Context::new("a+b");
    let again = ctx.parse().unwrap();
    assert_eq!(done.program, gen_program(&ctx, &again));
    assert!(done.program.starts_with(HARNESS));
}

#[test]
fn compile_reports_the_parse_error() {
    let failure = |kind, offset| Some(Failure { kind, offset });
    assert_eq!(compile("").err(), failure(Error::EmptyExpr, 0));
    assert_eq!(compile("(").err(), failure(Error::EmptyExpr, 1));
    assert_eq!(compile("(a").err(), failure(Error::InconsistentParans, 2));
    assert_eq!(compile("ab(cd").err(), failure(Error::InconsistentParans, 5));
    assert_eq!(compile("*").err(), failure(Error::EmptyExpr, 0));
}
