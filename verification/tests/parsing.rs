use regex_codegen::ast::{Error, Regex};
use regex_codegen::parser::Context;

#[test]
fn single_char_regex() {
    let regex = "a";
    let mut ctx = Context::new(regex);
    let result = ctx.parse().expect("Failed to parse regex");
    assert_eq!(result, Regex::Char('a'));
}

#[test]
fn multiple_char_regex() {
    let regex = "ab";
    let mut ctx = Context::new(regex);
    let result = ctx.parse().expect("Failed to parse regex");
    assert_eq!(result, Regex::Multi(vec![Regex::Char('a'), Regex::Char('b')]));
}

#[test]
fn lots_of_char_regex() {
    let regex = "abhdsfjhgjasddff";
    let mut ctx = Context::new(regex);
    let result = ctx.parse().expect("Failed to parse regex");
    assert_eq!(
        result,
        Regex::Multi(vec![
            Regex::Char('a'),
            Regex::Char('b'),
            Regex::Char('h'),
            Regex::Char('d'),
            Regex::Char('s'),
            Regex::Char('f'),
            Regex::Char('j'),
            Regex::Char('h'),
            Regex::Char('g'),
            Regex::Char('j'),
            Regex::Char('a'),
            Regex::Char('s'),
            Regex::Char('d'),
            Regex::Char('d'),
            Regex::Char('f'),
            Regex::Char('f'),
        ])
    );
}

#[test]
fn long_mix_regex() {
    let regex = "abhdsfj(hgj)as(dd+)ff";
    let mut ctx = Context::new(regex);
    let result = ctx.parse().expect("Failed to parse regex");
    assert_eq!(
        result,
        Regex::Multi(vec![
            Regex::Char('a'),
            Regex::Char('b'),
            Regex::Char('h'),
            Regex::Char('d'),
            Regex::Char('s'),
            Regex::Char('f'),
            Regex::Char('j'),
            Regex::Multi(vec![
                Regex::Char('h'),
                Regex::Char('g'),
                Regex::Char('j'),
            ]),
            Regex::Char('a'),
            Regex::Char('s'),
            Regex::Multi(vec![
                Regex::Char('d'),
                Regex::Many(0),
            ]),
            Regex::Char('f'),
            Regex::Char('f'),
        ])
    );
}

#[test]
fn any_char_regex() {
    let regex = "a*";
    let mut ctx = Context::new(regex);
    let result = ctx.parse().expect("Failed to parse regex");
    assert_eq!(result, Regex::Any(0));
}

#[test]
fn many_char_regex() {
    let regex = "a+";
    let mut ctx = Context::new(regex);
    let result = ctx.parse().expect("Failed to parse regex");
    assert_eq!(result, Regex::Many(0));
}

#[test]
fn invalid_regex() {
    let regex = "(";
    let mut ctx = Context::new(regex);
    let result = ctx.parse();

    assert!(result.is_err());
}

#[test]
fn quantifier_operand_enters_the_arena() {
    let mut ctx = Context::new("a*");
    assert_eq!(ctx.parse().unwrap(), Regex::Any(0));
    assert_eq!(ctx.arena, vec![Regex::Char('a')]);
    assert_eq!(ctx.offset, 2);

    let mut ctx = Context::new("a+");
    assert_eq!(ctx.parse().unwrap(), Regex::Many(0));
    assert_eq!(ctx.arena, vec![Regex::Char('a')]);
}

#[test]
fn group_inside_a_sequence() {
    let mut ctx = Context::new("ab(cd)ef");
    let result = ctx.parse().unwrap();
    assert_eq!(
        result,
        Regex::Multi(vec![
            Regex::Char('a'),
            Regex::Char('b'),
            Regex::Multi(vec![Regex::Char('c'), Regex::Char('d')]),
            Regex::Char('e'),
            Regex::Char('f'),
        ])
    );
    assert!(ctx.arena.is_empty());
    assert_eq!(ctx.offset, 8);
}

#[test]
fn empty_pattern_is_an_error() {
    let mut ctx = Context::new("");
    assert_eq!(ctx.parse(), Err(Error::EmptyExpr));
    assert_eq!(ctx.offset, 0);
}

#[test]
fn lone_open_paren_is_empty_expr() {
    let mut ctx = Context::new("(");
    assert_eq!(ctx.parse(), Err(Error::EmptyExpr));
    assert_eq!(ctx.offset, 1);
}

#[test]
fn missing_close_paren() {
    let mut ctx = Context::new("(ab");
    assert_eq!(ctx.parse(), Err(Error::InconsistentParans));
    assert_eq!(ctx.offset, 3);

    let mut ctx = Context::new("a(b");
    assert_eq!(ctx.parse(), Err(Error::InconsistentParans));
}

#[test]
fn literals_parse_in_order() {
    for text in ["a", "Zq", "0aB9", "abcdefghijklmnopqrstuvwxyzABCDEFGHIJKLMNOPQRSTUVWXYZ0123456789"] {
        let mut ctx = Context::new(text);
        let result = ctx.parse().unwrap();
        let literals: Vec<Regex> = text.chars().map(Regex::Char).collect();
        if literals.len() == 1 {
            assert_eq!(result, Regex::Char(text.chars().next().unwrap()));
        } else {
            assert_eq!(result, Regex::Multi(literals));
        }
        assert_eq!(ctx.offset, text.len());
        assert!(ctx.arena.is_empty());
    }
}

#[test]
fn parsing_twice_gives_equal_trees() {
    for text in ["a", "ab(cd)ef", "(a*b)+c", "abhdsfj(hgj)as(dd+)ff", "(", "a(b", ""] {
        let mut first = Context::new(text);
        let mut second = Context::new(text);
        assert_eq!(first.parse(), second.parse());
        assert_eq!(first.arena, second.arena);
        assert_eq!(first.offset, second.offset);
    }
}

#[test]
fn handles_point_backwards() {
    // the operand of the outer `+` is the group, which holds the handle of `a*`
    let mut ctx = Context::new("(a*b)+c");
    let result = ctx.parse().unwrap();
    assert_eq!(result, Regex::Multi(vec![Regex::Many(1), Regex::Char('c')]));
    assert_eq!(
        ctx.arena,
        vec![
            Regex::Char('a'),
            Regex::Multi(vec![Regex::Any(0), Regex::Char('b')]),
        ]
    );
    assert_eq!(ctx.offset, 7);
}

#[test]
fn group_of_one_unit_is_unwrapped() {
    let mut ctx = Context::new("(a)");
    assert_eq!(ctx.parse().unwrap(), Regex::Char('a'));
    assert_eq!(ctx.offset, 3);

    let mut ctx = Context::new("((a))b");
    assert_eq!(
        ctx.parse().unwrap(),
        Regex::Multi(vec![Regex::Char('a'), Regex::Char('b')])
    );
}

#[test]
fn at_most_one_quantifier_per_unit() {
    // the second `*` starts no unit, so the pattern ends before it
    let mut ctx = Context::new("a**");
    assert_eq!(ctx.parse().unwrap(), Regex::Any(0));
    assert_eq!(ctx.offset, 2);
}

#[test]
fn parsing_stops_where_no_unit_starts() {
    let mut ctx = Context::new("ab)c");
    assert_eq!(
        ctx.parse().unwrap(),
        Regex::Multi(vec![Regex::Char('a'), Regex::Char('b')])
    );
    assert_eq!(ctx.offset, 2);

    let mut ctx = Context::new("a-b");
    assert_eq!(ctx.parse().unwrap(), Regex::Char('a'));
    assert_eq!(ctx.offset, 1);

    // an empty group after a unit ends the pattern as well
    let mut ctx = Context::new("a()");
    assert_eq!(ctx.parse().unwrap(), Regex::Char('a'));
    assert_eq!(ctx.offset, 2);
}

#[test]
fn characters_outside_ascii_start_no_unit() {
    let mut ctx = Context::new("é");
    assert_eq!(ctx.parse(), Err(Error::EmptyExpr));
    assert_eq!(ctx.offset, 0);

    let mut ctx = Context::new("aé*");
    assert_eq!(ctx.parse().unwrap(), Regex::Char('a'));
    assert_eq!(ctx.offset, 1);

    let mut ctx = Context::new("(a€");
    assert_eq!(ctx.parse(), Err(Error::InconsistentParans));
    assert_eq!(ctx.offset, 2);
}

#[test]
fn parse_single_reads_one_unit() {
    let mut ctx = Context::new("ab");
    assert_eq!(ctx.parse_single().unwrap(), Regex::Char('a'));
    assert_eq!(ctx.offset, 1);
    assert_eq!(ctx.parse_single().unwrap(), Regex::Char('b'));
    assert_eq!(ctx.offset, 2);
    assert_eq!(ctx.parse_single(), Err(Error::EmptyExpr));
    assert_eq!(ctx.offset, 2);

    let mut ctx = Context::new("(ab)+c");
    assert_eq!(ctx.parse_single().unwrap(), Regex::Many(0));
    assert_eq!(
        ctx.arena,
        vec![Regex::Multi(vec![Regex::Char('a'), Regex::Char('b')])]
    );
    assert_eq!(ctx.offset, 5);
}

#[test]
fn new_context_is_at_the_start() {
    let ctx = Context::new("abc");
    assert_eq!(ctx.input, "abc");
    assert_eq!(ctx.offset, 0);
    assert!(ctx.arena.is_empty());
}

#[test]
fn consume_steps_by_the_bytes_of_the_character() {
    let mut ctx = Context::new("éa");
    assert!(ctx.consume(|c| c == 'é'));
    assert_eq!(ctx.offset, 2);
    assert_eq!(ctx.current_char(), Some('a'));

    let mut ctx = Context::new("€x");
    assert!(ctx.consume(|c| c == '€'));
    assert_eq!(ctx.offset, 3);
    assert_eq!(ctx.current_char(), Some('x'));

    let mut ctx = Context::new("😀é");
    assert!(ctx.consume(|_| true));
    assert_eq!(ctx.offset, 4);
    assert_eq!(ctx.current_char(), Some('é'));
    assert!(ctx.consume(|_| true));
    assert_eq!(ctx.offset, 6);
    assert_eq!(ctx.current_char(), None);

    let mut ctx = Context::new("(a)");
    assert!(ctx.consume(|c| c == '('));
    assert_eq!(ctx.offset, 1);
    assert!(ctx.arena.is_empty());
    assert_eq!(ctx.input, "(a)");
}

#[test]
fn consume_leaves_what_the_matcher_refuses() {
    let mut ctx = Context::new("éa");
    assert!(!ctx.consume(|c| c == 'a'));
    assert_eq!(ctx.offset, 0);

    let mut ctx = Context::new("+");
    assert!(!ctx.consume(|c| c == '*'));
    assert_eq!(ctx.offset, 0);
    assert!(ctx.consume(|c| c == '+'));
    assert_eq!(ctx.offset, 1);
}

#[test]
fn consume_at_the_end_asks_no_matcher() {
    let mut ctx = Context::new("");
    assert!(!ctx.consume(|_| panic!("nothing to match")));
    assert_eq!(ctx.offset, 0);

    let mut ctx = Context::new("a");
    assert!(ctx.consume(|c| c == 'a'));
    assert!(!ctx.consume(|_| panic!("nothing to match")));
    assert_eq!(ctx.offset, 1);
}

#[test]
fn current_char_reads_under_the_cursor() {
    let mut ctx = Context::new("a(é");
    assert_eq!(ctx.current_char(), Some('a'));
    assert_eq!(ctx.offset, 0);
    assert!(ctx.consume(|c| c == 'a'));
    assert_eq!(ctx.current_char(), Some('('));
    assert!(ctx.consume(|c| c == '('));
    assert_eq!(ctx.current_char(), Some('é'));
    assert!(ctx.consume(|c| c == 'é'));
    assert_eq!(ctx.offset, 4);
    assert_eq!(ctx.current_char(), None);

    let ctx = Context::new("");
    assert_eq!(ctx.current_char(), None);
}

#[test]
fn parsing_goes_on_behind_a_character_outside_ascii() {
    let mut ctx = Context::new("éa+b");
    assert!(ctx.consume(|c| c == 'é'));
    assert_eq!(
        ctx.parse().unwrap(),
        Regex::Multi(vec![Regex::Many(0), Regex::Char('b')])
    );
    assert_eq!(ctx.arena, vec![Regex::Char('a')]);
    assert_eq!(ctx.offset, 5);
}
