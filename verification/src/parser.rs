//! The recursive-descent parser.

use vstd::prelude::*;
use vstd::utf8::encode_scalar;
use crate::cursor::{
    at_char, byte_offset, char_at, char_index, is_boundary, lemma_char_index, lemma_offset_step,
    lemma_scalar_len, lemma_start,
};
use crate::ast::{lemma_views, lemma_views_push, views, Error, Pattern, Regex, RegexRef};
use crate::grammar::{group, literal_unit, pattern, peek, quantify, unit, units, Outcome};
use crate::laws::{
    forward, lemma_pattern_advances, lemma_pattern_sound, lemma_unit_advances, lemma_unit_sound, sound,
    sound_step,
};

verus! {

/// A parse result with its tree taken by its view.
pub open spec fn result_view(r: Result<Regex, Error>) -> Result<Pattern, Error> {
    match r {
        Ok(tree) => Ok(tree@),
        Err(e) => Err(e),
    }
}

/// A pattern text, a cursor into it and the arena of the nodes that
/// quantifiers refer to.
pub struct Context<'a> {
    /// The pattern text.
    pub input: &'a str,
    /// How far the text has been read: the byte offset of the character
    /// under the cursor.
    pub offset: usize,
    /// The operands of the quantifiers parsed so far.
    pub arena: Vec<Regex>,
}

impl<'a> Context<'a> {
    /// The arena as a sequence of trees.
    pub open spec fn arena_view(&self) -> Seq<Pattern> {
        views(self.arena@)
    }

    /// The cursor stands at the first byte of a character of the text, or
    /// at the end of the text.
    pub open spec fn wf(&self) -> bool {
        is_boundary(self.input@, self.offset as int)
    }

    /// The position of the character under the cursor: the number of
    /// characters that lie before it.
    pub open spec fn pos(&self) -> int {
        char_index(self.input@, self.offset as int)
    }

    /// A valid cursor stands at the byte offset of its position, which lies
    /// inside the text or at its end.
    pub proof fn lemma_pos(&self)
        requires
            self.wf(),
        ensures
            at_char(self.input@, self.offset as int, self.pos()),
            0 <= self.pos() <= self.input@.len(),
            self.offset == byte_offset(self.input@, self.pos()),
    {
    }

    /// A context at the start of `input`, with an empty arena.
    pub fn new(input: &'a str) -> (ctx: Self)
        ensures
            ctx.wf(),
            ctx.input == input,
            ctx.offset == 0,
            ctx.pos() == 0,
            ctx.arena@ == Seq::<Regex>::empty(),
            ctx.arena_view() == Seq::<Pattern>::empty(),
    {
        proof {
            lemma_start(input@);
            lemma_char_index(input@, 0, 0);
        }
        Self { input, offset: 0, arena: Vec::new() }
    }

    /// The character under the cursor, if the text reaches that far.
    pub fn current_char(&self) -> (r: Option<char>)
        requires
            self.wf(),
        ensures
            r == peek(self.input@, self.pos()),
            r matches Some(c) ==> self.offset + encode_scalar(c as u32).len() <= usize::MAX,
    {
        char_at(self.input, self.offset)
    }

    /// Steps over the character under the cursor if `matcher` accepts it,
    /// and says whether it did. The cursor moves by the bytes that the
    /// character takes in UTF-8, which brings it to the next character. At
    /// the end of the text `matcher` is not asked and nothing moves.
    pub fn consume<F: FnOnce(char) -> bool>(&mut self, matcher: F) -> (r: bool)
        requires
            old(self).wf(),
            forall|c: char| matcher.requires((c,)),
        ensures
            final(self).wf(),
            final(self).input == old(self).input,
            final(self).arena == old(self).arena,
            match peek(old(self).input@, old(self).pos()) {
                Some(c) => {
                    &&& matcher.ensures((c,), r)
                    &&& final(self).offset == old(self).offset + (if r {
                        encode_scalar(c as u32).len() as int
                    } else {
                        0int
                    })
                    &&& final(self).pos() == old(self).pos() + (if r {
                        1int
                    } else {
                        0int
                    })
                },
                None => !r && final(self).offset == old(self).offset,
            },
    {
        let Some(chr) = self.current_char() else {
            return false;
        };
        let matches = matcher(chr);
        if matches {
            proof {
                self.lemma_pos();
                lemma_offset_step(self.input@, self.pos());
                lemma_char_index(
                    self.input@,
                    self.offset + encode_scalar(chr as u32).len(),
                    self.pos() + 1,
                );
            }
            self.offset += chr.len_utf8();
        }
        matches
    }

    /// Appends `regex` to the arena and returns its handle.
    fn alloc_node(&mut self, regex: Regex) -> (handle: RegexRef)
        ensures
            final(self).input == old(self).input,
            final(self).offset == old(self).offset,
            handle == old(self).arena@.len(),
            final(self).arena@ == old(self).arena@.push(regex),
            final(self).arena_view() == old(self).arena_view().push(regex@),
    {
        let offset = self.arena.len();
        self.arena.push(regex);
        proof {
            lemma_views_push(old(self).arena@, regex);
        }
        offset
    }

    /// What the grammar gives for a whole pattern read from this state.
    pub open spec fn pattern_here(&self) -> Outcome<Pattern> {
        pattern(self.input@, self.pos(), self.arena_view())
    }

    /// What the grammar gives for one unit read from this state.
    pub open spec fn unit_here(&self) -> Outcome<Pattern> {
        unit(self.input@, self.pos(), self.arena_view())
    }

    /// A step that started in this state has left the context in the state
    /// `after` and returned `r`, and both are what `o` says: the text is
    /// the same, the cursor and the arena are those of `o`, and `r` is its
    /// tree or its error. The cursor has moved by as many bytes as
    /// characters: what a parse steps over is ASCII.
    pub open spec fn stepped(&self, after: &Self, r: Result<Regex, Error>, o: Outcome<Pattern>) -> bool {
        &&& after.wf()
        &&& after.input == self.input
        &&& after.pos() == o.pos
        &&& after.offset - self.offset == after.pos() - self.pos()
        &&& after.arena_view() == o.arena
        &&& result_view(r) == o.result
    }

    /// What `parse` promises: the step that the grammar gives for a whole
    /// pattern.
    pub open spec fn parsed(&self, after: &Self, r: Result<Regex, Error>) -> bool {
        self.stepped(after, r, self.pattern_here())
    }

    /// What `parse_single` promises: the step that the grammar gives for
    /// one unit.
    pub open spec fn parsed_single(&self, after: &Self, r: Result<Regex, Error>) -> bool {
        self.stepped(after, r, self.unit_here())
    }

    /// Applies the quantifier under the cursor, if there is one, to `tree`.
    fn parse_quantifier(&mut self, tree: Regex) -> (r: Regex)
        requires
            old(self).wf(),
        ensures
            old(self).stepped(
                final(self),
                Ok(r),
                quantify(old(self).input@, old(self).pos(), old(self).arena_view(), tree@),
            ),
    {
        proof {
            lemma_views(self.arena@);
        }
        if self.consume(|c: char| -> (b: bool) ensures b == (c == '*') { c == '*' }) {
            let any = Regex::Any(self.alloc_node(tree));
            assert(any@ == Pattern::Any(old(self).arena_view().len() as int));
            return any;
        }
        if self.consume(|c: char| -> (b: bool) ensures b == (c == '+') { c == '+' }) {
            let many = Regex::Many(self.alloc_node(tree));
            assert(many@ == Pattern::Many(old(self).arena_view().len() as int));
            return many;
        }
        tree
    }

    /// Parses a whole pattern: one unit or more.
    ///
    /// A single unit is returned as it is, two or more as a `Multi`. Where no
    /// unit starts under the cursor the result is `EmptyExpr`; a parenthesis
    /// without its partner gives `InconsistentParans`.
    pub fn parse(&mut self) -> (r: Result<Regex, Error>)
        requires
            old(self).wf(),
        ensures
            old(self).parsed(final(self), r),
            forward(
                old(self).input@,
                old(self).pos(),
                old(self).arena_view(),
                old(self).pattern_here(),
            ),
            sound(old(self).arena_view()) ==> sound_step(
                old(self).pos(),
                old(self).arena_view(),
                old(self).pattern_here(),
                1,
            ),
        decreases old(self).input@.len() - old(self).pos(), 5int,
    {
        let ghost text = self.input@;
        let ghost start = self.pos();
        let ghost arena = self.arena_view();
        proof {
            lemma_pattern_advances(text, start, arena);
            if sound(arena) {
                lemma_pattern_sound(text, start, arena);
            }
        }
        let head = match self.parse_single() {
            Ok(tree) => tree,
            Err(e) => {
                return Err(e);
            },
        };
        let ghost first = unit(text, start, arena);
        proof {
            lemma_unit_advances(text, start, arena);
        }
        match self.parse_single() {
            Ok(second) => {
                proof {
                    lemma_unit_advances(text, first.pos, first.arena);
                }
                let mut multi = vec![head, second];
                proof {
                    assert(multi@ =~= Seq::<Regex>::empty().push(head).push(second));
                    lemma_views_push(Seq::<Regex>::empty(), head);
                    lemma_views_push(Seq::<Regex>::empty().push(head), second);
                }
                loop
                    invariant_except_break
                        units(text, start, arena, Seq::empty()) == units(
                            text,
                            self.pos(),
                            self.arena_view(),
                            views(multi@),
                        ),
                    invariant
                        self.wf(),
                        text == old(self).input@,
                        start == old(self).pos(),
                        arena == old(self).arena_view(),
                        forward(text, start, arena, pattern(text, start, arena)),
                        sound(arena) ==> sound_step(start, arena, pattern(text, start, arena), 1),
                        self.input == old(self).input,
                        start <= self.pos(),
                        self.offset - old(self).offset == self.pos() - start,
                        multi@.len() >= 2,
                    ensures
                        units(text, start, arena, Seq::empty()) == (Outcome {
                            result: Ok(views(multi@)),
                            pos: self.pos(),
                            arena: self.arena_view(),
                        }),
                    decreases text.len() - self.pos(),
                {
                    let ghost here = self.pos();
                    let ghost nodes = self.arena_view();
                    let ghost sofar = views(multi@);
                    proof {
                        lemma_unit_advances(text, here, nodes);
                    }
                    let ghost run = units(text, here, nodes, sofar);
                    match self.parse_single() {
                        Err(Error::EmptyExpr) => {
                            assert(run.result == Ok::<Seq<Pattern>, Error>(sofar));
                            break ;
                        },
                        Err(err) => {
                            assert(run.result == Err::<Seq<Pattern>, Error>(err));
                            return Err(err);
                        },
                        Ok(expr) => {
                            proof {
                                lemma_views_push(multi@, expr);
                            }
                            multi.push(expr);
                        },
                    }
                }
                proof {
                    lemma_views(multi@);
                }
                let tree = Regex::Multi(multi);
                assert(tree@ == Pattern::Multi(views(multi@)));
                Ok(tree)
            },
            Err(Error::EmptyExpr) => {
                assert(Seq::<Pattern>::empty().push(first.result->Ok_0).len() == 1);
                Ok(head)
            },
            Err(err) => Err(err),
        }
    }

    /// Parses one unit: a group or a literal, with the quantifier that
    /// follows it, if any.
    ///
    /// Where neither a `(` nor an alphanumeric character stands under the
    /// cursor, the result is `EmptyExpr` and nothing is consumed.
    pub fn parse_single(&mut self) -> (r: Result<Regex, Error>)
        requires
            old(self).wf(),
        ensures
            old(self).parsed_single(final(self), r),
            forward(
                old(self).input@,
                old(self).pos(),
                old(self).arena_view(),
                old(self).unit_here(),
            ),
            sound(old(self).arena_view()) ==> sound_step(
                old(self).pos(),
                old(self).arena_view(),
                old(self).unit_here(),
                0,
            ),
        decreases old(self).input@.len() - old(self).pos(), 3int,
    {
        proof {
            lemma_unit_advances(self.input@, self.pos(), self.arena_view());
            if sound(self.arena_view()) {
                lemma_unit_sound(self.input@, self.pos(), self.arena_view());
            }
        }
        if self.at_open_paren() {
            let expr = match self.parse_param() {
                Ok(tree) => tree,
                Err(e) => {
                    return Err(e);
                },
            };
            return Ok(self.parse_quantifier(expr));
        }
        self.parse_char_or_any()
    }

    /// Whether an opening parenthesis stands under the cursor.
    fn at_open_paren(&self) -> (r: bool)
        requires
            self.wf(),
        ensures
            r == (peek(self.input@, self.pos()) == Some('(')),
    {
        match self.current_char() {
            Some(c) => c == '(',
            None => false,
        }
    }

    /// Parses a pattern between parentheses.
    fn parse_param(&mut self) -> (r: Result<Regex, Error>)
        requires
            old(self).wf(),
        ensures
            old(self).stepped(
                final(self),
                r,
                group(old(self).input@, old(self).pos(), old(self).arena_view()),
            ),
        decreases old(self).input@.len() - old(self).pos(), 2int,
    {
        if !self.consume(|c: char| -> (b: bool) ensures b == (c == '(') { c == '(' }) {
            return Err(Error::InconsistentParans);
        }
        let expr = match self.parse() {
            Ok(tree) => tree,
            Err(e) => {
                return Err(e);
            },
        };
        if !self.consume(|c: char| -> (b: bool) ensures b == (c == ')') { c == ')' }) {
            return Err(Error::InconsistentParans);
        }
        Ok(expr)
    }

    /// Parses a literal with the quantifier that follows it, if any.
    fn parse_char_or_any(&mut self) -> (r: Result<Regex, Error>)
        requires
            old(self).wf(),
        ensures
            old(self).stepped(
                final(self),
                r,
                literal_unit(old(self).input@, old(self).pos(), old(self).arena_view()),
            ),
    {
        if let Some(chr) = self.current_char() {
            if ('a' <= chr && chr <= 'z') || ('A' <= chr && chr <= 'Z') || ('0' <= chr && chr <= '9') {
                proof {
                    self.lemma_pos();
                    lemma_scalar_len(chr);
                    lemma_offset_step(self.input@, self.pos());
                    lemma_char_index(self.input@, self.offset + 1, self.pos() + 1);
                }
                self.offset += 1;
                return Ok(self.parse_quantifier(Regex::Char(chr)));
            }
        }
        Err(Error::EmptyExpr)
    }
}

} // verus!
