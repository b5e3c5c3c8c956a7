//! Recursive-descent parser from pattern text to `Ast`.
//!
//! Grammar (lowest precedence first):
//!   alternation := concat ('|' concat)*
//!   concat      := repetition*          (stops before '|', ')' or the end)
//!   repetition  := atom ('*' | '+' | '?')?
//!   atom        := '.' | '^' | '$' | class | '(' alternation ')' | '\' char | char
//!   class       := '[' '^'? item+ ']'
//!   item        := '\' char | char '-' char | char
//! The `spec_*` functions below state this grammar, with the position at which
//! each error is reported, over the pattern's characters.
use vstd::prelude::*;
use crate::regex_engine::ast::{
    Ast, ClassItem, RepetitionKind, Term, asts_terms, class_ranges_ok, item_ok, lemma_asts_terms_push, lemma_leaf_terms,
    lemma_concat_matches, lemma_matches_range, lemma_repetition_matches, pieces, term_matches,
};
use crate::regex_engine::error::{ParseError, ParseErrorKind};
use crate::regex_engine::scanner::{Scanner, char_at};
use crate::text::byte_pos;

verus! {

/// An error of the given kind reported after `q` characters of `t`.
pub open spec fn perr(t: Seq<char>, q: int, kind: ParseErrorKind) -> ParseError {
    ParseError { kind, pos: byte_pos(t, q) as usize }
}

pub open spec fn prepend<T>(acc: Seq<T>, r: Result<(Seq<T>, int), ParseError>) -> Result<(Seq<T>, int), ParseError> {
    match r {
        Ok((rest, q)) => Ok((acc + rest, q)),
        Err(e) => Err(e),
    }
}

pub proof fn lemma_prepend_assoc<T>(a: Seq<T>, b: Seq<T>, r: Result<(Seq<T>, int), ParseError>)
    ensures
        prepend(a + b, r) == prepend(a, prepend(b, r)),
{
    match r {
        Ok((rest, q)) => {
            assert(a + b + rest =~= a + (b + rest));
        },
        Err(e) => {},
    }
}

pub proof fn lemma_prepend_empty<T>(r: Result<(Seq<T>, int), ParseError>)
    ensures
        prepend(Seq::empty(), r) == r,
{
    match r {
        Ok((rest, q)) => {
            assert(Seq::<T>::empty() + rest =~= rest);
        },
        Err(e) => {},
    }
}

/// `alternation` at position `p`: the term and the position after it.
pub open spec fn spec_alternation(t: Seq<char>, p: int) -> Result<(Term, int), ParseError>
    decreases t.len() - p, 4int,
{
    match spec_concat(t, p) {
        Err(e) => Err(e),
        Ok((items, p1)) => {
            let first = Term::Concat(items);
            if char_at(t, p1) != Some('|') {
                Ok((first, p1))
            } else if p <= p1 <= t.len() {
                match spec_alt_tail(t, p1) {
                    Err(e) => Err(e),
                    Ok((rest, p2)) => Ok((Term::Alternation(seq![first] + rest), p2)),
                }
            } else {
                Err(perr(t, p1, ParseErrorKind::UnexpectedEof))
            }
        },
    }
}

/// The branches `('|' concat)*` at position `p`.
pub open spec fn spec_alt_tail(t: Seq<char>, p: int) -> Result<(Seq<Term>, int), ParseError>
    decreases t.len() - p, 3int,
{
    if char_at(t, p) == Some('|') {
        match spec_concat(t, p + 1) {
            Err(e) => Err(e),
            Ok((items, p1)) => if p + 1 <= p1 <= t.len() {
                prepend(seq![Term::Concat(items)], spec_alt_tail(t, p1))
            } else {
                Err(perr(t, p1, ParseErrorKind::UnexpectedEof))
            },
        }
    } else {
        Ok((Seq::empty(), p))
    }
}

/// `concat` at position `p`: the items and the position after them.
pub open spec fn spec_concat(t: Seq<char>, p: int) -> Result<(Seq<Term>, int), ParseError>
    decreases t.len() - p, 2int,
{
    match char_at(t, p) {
        None => Ok((Seq::empty(), p)),
        Some(c) => if c == '|' || c == ')' {
            Ok((Seq::empty(), p))
        } else {
            match spec_repetition(t, p) {
                Err(e) => Err(e),
                Ok((a, p1)) => if p < p1 <= t.len() {
                    prepend(seq![a], spec_concat(t, p1))
                } else {
                    Err(perr(t, p1, ParseErrorKind::UnexpectedEof))
                },
            }
        },
    }
}

/// `repetition` at position `p`.
pub open spec fn spec_repetition(t: Seq<char>, p: int) -> Result<(Term, int), ParseError>
    decreases t.len() - p, 1int,
{
    match spec_atom(t, p) {
        Err(e) => Err(e),
        Ok((a, p1)) => match char_at(t, p1) {
            Some('*') => Ok((Term::Repetition(RepetitionKind::ZeroOrMore, Box::new(a)), p1 + 1)),
            Some('+') => Ok((Term::Repetition(RepetitionKind::OneOrMore, Box::new(a)), p1 + 1)),
            Some('?') => Ok((Term::Repetition(RepetitionKind::ZeroOrOne, Box::new(a)), p1 + 1)),
            _ => Ok((a, p1)),
        },
    }
}

/// `atom` at position `p`.
pub open spec fn spec_atom(t: Seq<char>, p: int) -> Result<(Term, int), ParseError>
    decreases t.len() - p, 0int,
{
    match char_at(t, p) {
        None => Err(perr(t, p, ParseErrorKind::UnexpectedEof)),
        Some(c) => if c == '.' {
            Ok((Term::Dot, p + 1))
        } else if c == '^' {
            Ok((Term::StartAnchor, p + 1))
        } else if c == '$' {
            Ok((Term::EndAnchor, p + 1))
        } else if c == '[' {
            spec_char_class(t, p)
        } else if c == '(' {
            match spec_alternation(t, p + 1) {
                Err(e) => Err(e),
                Ok((a, p1)) => match char_at(t, p1) {
                    Some(d) => if d == ')' {
                        Ok((Term::Group(Box::new(a)), p1 + 1))
                    } else {
                        Err(perr(t, p1 + 1, ParseErrorKind::UnclosedGroup))
                    },
                    None => Err(perr(t, p1, ParseErrorKind::UnexpectedEof)),
                },
            }
        } else if c == '\\' {
            match char_at(t, p + 1) {
                Some(d) => if d == 'b' {
                    Ok((Term::WordBoundary, p + 2))
                } else {
                    Ok((Term::Literal(d), p + 2))
                },
                None => Err(perr(t, p + 1, ParseErrorKind::UnexpectedEof)),
            }
        } else if c == '*' || c == '+' || c == '?' {
            Err(perr(t, p, ParseErrorKind::DanglingRepetitionOperator))
        } else {
            Ok((Term::Literal(c), p + 1))
        },
    }
}

/// A character class whose '[' is at position `p`.
pub open spec fn spec_char_class(t: Seq<char>, p: int) -> Result<(Term, int), ParseError> {
    let q = p + 1;
    match char_at(t, q) {
        None => Err(perr(t, q, ParseErrorKind::UnexpectedEof)),
        Some(c) => if c == ']' {
            Err(perr(t, q, ParseErrorKind::EmptyCharClass))
        } else {
            let negative = c == '^';
            let q2 = if negative {
                q + 1
            } else {
                q
            };
            if char_at(t, q2) == Some(']') {
                Err(perr(t, q2, ParseErrorKind::EmptyCharClass))
            } else {
                match spec_class_item(t, q2) {
                    Err(e) => Err(e),
                    Ok((it, q3)) => match prepend(seq![it], spec_class_rest(t, q3)) {
                        Err(e) => Err(e),
                        Ok((items, q4)) => Ok((Term::CharClass(negative, items), q4)),
                    },
                }
            }
        },
    }
}

/// The remaining items of a class, up to and including its ']'.
pub open spec fn spec_class_rest(t: Seq<char>, q: int) -> Result<(Seq<ClassItem>, int), ParseError>
    decreases t.len() - q,
{
    match char_at(t, q) {
        None => Err(perr(t, q, ParseErrorKind::UnclosedCharClass)),
        Some(c) => if c == ']' {
            Ok((Seq::empty(), q + 1))
        } else {
            match spec_class_item(t, q) {
                Err(e) => Err(e),
                Ok((it, q1)) => if q < q1 <= t.len() {
                    prepend(seq![it], spec_class_rest(t, q1))
                } else {
                    Err(perr(t, q1, ParseErrorKind::UnclosedCharClass))
                },
            }
        },
    }
}

/// One class item at position `q`.
pub open spec fn spec_class_item(t: Seq<char>, q: int) -> Result<(ClassItem, int), ParseError> {
    match char_at(t, q) {
        None => Err(perr(t, q, ParseErrorKind::UnexpectedEof)),
        Some(c1) => if c1 == '\\' {
            match char_at(t, q + 1) {
                Some(c) => Ok((ClassItem::Char(c), q + 2)),
                None => Err(perr(t, q + 1, ParseErrorKind::UnexpectedEof)),
            }
        } else if char_at(t, q + 1) == Some('-') && char_at(t, q + 2) != Some(']') {
            match char_at(t, q + 2) {
                Some(c2) => if c1 > c2 {
                    Err(perr(t, q + 3, ParseErrorKind::InvalidRange { start: c1, end: c2 }))
                } else {
                    Ok((ClassItem::Range(c1, c2), q + 3))
                },
                None => Err(perr(t, q + 2, ParseErrorKind::UnexpectedEof)),
            }
        } else {
            Ok((ClassItem::Char(c1), q + 1))
        },
    }
}

/// The result of parsing a whole pattern.
pub open spec fn spec_parse(t: Seq<char>) -> Result<Term, ParseError> {
    match spec_alternation(t, 0) {
        Ok((a, _)) => Ok(a),
        Err(e) => Err(e),
    }
}

pub open spec fn term_result(r: Result<Ast, ParseError>, q: int) -> Result<(Term, int), ParseError> {
    match r {
        Ok(a) => Ok((a@, q)),
        Err(e) => Err(e),
    }
}

pub struct Parser {
    scanner: Scanner,
}

impl Parser {

    pub closed spec fn text(&self) -> Seq<char> {
        self.scanner.text()
    }

    pub closed spec fn index(&self) -> int {
        self.scanner.index()
    }

    pub fn new(input: &str) -> (p: Self)
        ensures
            p.text() == input@,
            p.index() == 0,
    {
        let scanner = Scanner::new(input);
        Parser { scanner }
    }

    /// Parses the whole pattern (trailing input after an unmatched ')' is left
    /// unread).
    pub fn parse(&mut self) -> (r: Result<Ast, ParseError>)
        ensures
            r matches Ok(a) ==> class_ranges_ok(a),
            final(self).text() == old(self).text(),
            term_result(r, final(self).index()) == spec_alternation(
                old(self).text(),
                old(self).index(),
            ),
    {
        self.parse_alternation()
    }

    fn parse_alternation(&mut self) -> (r: Result<Ast, ParseError>)
        ensures
            r matches Ok(a) ==> class_ranges_ok(a),
            final(self).scanner.text() == old(self).scanner.text(),
            old(self).scanner.index() <= final(self).scanner.index(),
            final(self).scanner.index() <= final(self).scanner.text().len(),
            term_result(r, final(self).scanner.index()) == spec_alternation(
                old(self).scanner.text(),
                old(self).scanner.index(),
            ),
        decreases old(self).scanner.text().len() - old(self).scanner.index(), 4int,
    {
        let ghost t = self.scanner.text();
        let ghost p = self.scanner.index();
        let concat = match self.parse_concat() {
            Ok(items) => Ast::Concat(items),
            Err(e) => return Err(e),
        };
        let is_bar = match self.scanner.peek() {
            Some(c) => c == '|',
            None => false,
        };
        if !is_bar {
            return Ok(concat);
        }
        let ghost p1 = self.scanner.index();
        let mut items: Vec<Ast> = Vec::new();
        items.push(concat);
        proof {
            lemma_asts_terms_push(Seq::empty(), items@[0]);
            assert(Seq::<Ast>::empty().push(items@[0]) =~= items@);
            assert(asts_terms(Seq::<Ast>::empty()) =~= Seq::<Term>::empty());
        }
        loop
            invariant
                self.scanner.text() == t,
                t == old(self).scanner.text(),
                p == old(self).scanner.index(),
                p <= p1 <= self.scanner.index() <= t.len(),
                items@.len() >= 1,
                forall|k: int| 0 <= k < items@.len() ==> class_ranges_ok(#[trigger] items@[k]),
                char_at(t, p1) == Some('|'),
                spec_alternation(t, p) == match spec_alt_tail(t, p1) {
                    Err(e) => Err(e),
                    Ok((rest, p2)) => Ok((Term::Alternation(seq![items@[0]@] + rest), p2)),
                },
                prepend(asts_terms(items@).subrange(1, items@.len() as int), spec_alt_tail(t, self.scanner.index()))
                    == spec_alt_tail(t, p1),
                asts_terms(items@).len() == items@.len(),
                asts_terms(items@)[0] == items@[0]@,
            ensures
                spec_alt_tail(t, self.scanner.index()) == Ok::<(Seq<Term>, int), ParseError>((Seq::<Term>::empty(), self.scanner.index())),
            decreases t.len() - self.scanner.index(),
        {
            let ghost q = self.scanner.index();
            let is_bar = match self.scanner.peek() {
                Some(c) => c == '|',
                None => false,
            };
            if !is_bar {
                break;
            }
            self.scanner.bump();
            let next = match self.parse_concat() {
                Ok(v) => Ast::Concat(v),
                Err(e) => {
                    return Err(e);
                },
            };
            let ghost old_items = items@;
            let ghost q2 = self.scanner.index();
            proof {
                assert(spec_alt_tail(t, q) == prepend(seq![next@], spec_alt_tail(t, q2)));
            }
            items.push(next);
            proof {
                lemma_asts_terms_push(old_items, next);
                assert(asts_terms(items@).subrange(1, items@.len() as int) =~= asts_terms(
                    old_items,
                ).subrange(1, old_items.len() as int) + seq![next@]);
                lemma_prepend_assoc(asts_terms(old_items).subrange(1, old_items.len() as int), seq![next@], spec_alt_tail(t, q2));
            }
        }
        proof {
            assert(asts_terms(items@).subrange(1, items@.len() as int) + Seq::<Term>::empty() =~= asts_terms(items@).subrange(1, items@.len() as int));
            assert(asts_terms(items@) =~= seq![items@[0]@] + asts_terms(items@).subrange(
                1,
                items@.len() as int,
            ));
        }
        Ok(Ast::Alternation(items))
    }

    fn parse_concat(&mut self) -> (r: Result<Vec<Ast>, ParseError>)
        ensures
            r matches Ok(v) ==> forall|k: int| 0 <= k < v@.len() ==> class_ranges_ok(#[trigger] v@[k]),
            final(self).scanner.text() == old(self).scanner.text(),
            old(self).scanner.index() <= final(self).scanner.index(),
            final(self).scanner.index() <= final(self).scanner.text().len(),
            match r {
                Ok(items) => spec_concat(old(self).scanner.text(), old(self).scanner.index())
                    == Ok::<(Seq<Term>, int), ParseError>(
                    (asts_terms(items@), final(self).scanner.index()),
                ),
                Err(e) => spec_concat(old(self).scanner.text(), old(self).scanner.index())
                    == Err::<(Seq<Term>, int), ParseError>(e),
            },
        decreases old(self).scanner.text().len() - old(self).scanner.index(), 3int,
    {
        let ghost t = self.scanner.text();
        let ghost p = self.scanner.index();
        let mut items: Vec<Ast> = Vec::new();
        let mut next = self.scanner.peek();
        proof {
            assert(asts_terms(items@) =~= Seq::<Term>::empty());
            lemma_prepend_empty(spec_concat(t, p));
        }
        loop
            invariant
                self.scanner.text() == t,
                t == old(self).scanner.text(),
                p == old(self).scanner.index(),
                p <= self.scanner.index() <= t.len(),
                spec_concat(t, p) == prepend(asts_terms(items@), spec_concat(t, self.scanner.index())),
                forall|k: int| 0 <= k < items@.len() ==> class_ranges_ok(#[trigger] items@[k]),
                next == char_at(t, self.scanner.index()),
            ensures
                spec_concat(t, self.scanner.index()) == Ok::<(Seq<Term>, int), ParseError>((Seq::<Term>::empty(), self.scanner.index())),
            decreases t.len() - self.scanner.index(),
        {
            let stop = match next {
                None => true,
                Some(c) => c == '|' || c == ')',
            };
            if stop {
                break;
            }
            let ghost q = self.scanner.index();
            let a = match self.parse_repetition() {
                Ok(a) => a,
                Err(e) => return Err(e),
            };
            let ghost old_items = items@;
            let ghost q2 = self.scanner.index();
            proof {
                assert(spec_concat(t, q) == prepend(seq![a@], spec_concat(t, q2)));
            }
            items.push(a);
            proof {
                lemma_asts_terms_push(old_items, a);
                assert(asts_terms(old_items) + seq![a@] =~= asts_terms(items@));
                lemma_prepend_assoc(asts_terms(old_items), seq![a@], spec_concat(t, q2));
            }
            next = self.scanner.peek();
        }
        proof {
            assert(asts_terms(items@) + Seq::<Term>::empty() =~= asts_terms(items@));
        }
        Ok(items)
    }

    fn parse_repetition(&mut self) -> (r: Result<Ast, ParseError>)
        ensures
            r matches Ok(a) ==> class_ranges_ok(a),
            final(self).scanner.text() == old(self).scanner.text(),
            final(self).scanner.index() <= final(self).scanner.text().len(),
            old(self).scanner.index() <= final(self).scanner.index(),
            r is Ok ==> old(self).scanner.index() < final(self).scanner.index(),
            term_result(r, final(self).scanner.index()) == spec_repetition(
                old(self).scanner.text(),
                old(self).scanner.index(),
            ),
        decreases old(self).scanner.text().len() - old(self).scanner.index(), 2int,
    {
        let inner = match self.parse_atom() {
            Ok(a) => a,
            Err(e) => return Err(e),
        };
        let kind = match self.scanner.peek() {
            Some('*') => RepetitionKind::ZeroOrMore,
            Some('+') => RepetitionKind::OneOrMore,
            Some('?') => RepetitionKind::ZeroOrOne,
            _ => return Ok(inner),
        };
        self.scanner.bump();
        Ok(Ast::Repetition { kind, inner: Box::new(inner) })
    }

    fn parse_atom(&mut self) -> (r: Result<Ast, ParseError>)
        ensures
            r matches Ok(a) ==> class_ranges_ok(a),
            final(self).scanner.text() == old(self).scanner.text(),
            final(self).scanner.index() <= final(self).scanner.text().len(),
            old(self).scanner.index() <= final(self).scanner.index(),
            r is Ok ==> old(self).scanner.index() < final(self).scanner.index(),
            term_result(r, final(self).scanner.index()) == spec_atom(
                old(self).scanner.text(),
                old(self).scanner.index(),
            ),
        decreases old(self).scanner.text().len() - old(self).scanner.index(), 1int,
    {
        let c = match self.scanner.peek() {
            Some(c) => c,
            None => {
                return Err(
                    ParseError { kind: ParseErrorKind::UnexpectedEof, pos: self.scanner.position() },
                )
            },
        };
        proof {
            lemma_leaf_terms(c);
        }
        if c == '.' {
            self.scanner.bump();
            Ok(Ast::Dot)
        } else if c == '^' {
            self.scanner.bump();
            Ok(Ast::StartAnchor)
        } else if c == '$' {
            self.scanner.bump();
            Ok(Ast::EndAnchor)
        } else if c == '[' {
            self.parse_char_class()
        } else if c == '(' {
            self.parse_group()
        } else if c == '\\' {
            self.parse_escape()
        } else if c == '*' || c == '+' || c == '?' {
            Err(
                ParseError {
                    kind: ParseErrorKind::DanglingRepetitionOperator,
                    pos: self.scanner.position(),
                },
            )
        } else {
            self.scanner.bump();
            Ok(Ast::Literal(c))
        }
    }

    /// A group whose '(' is the next character.
    fn parse_group(&mut self) -> (r: Result<Ast, ParseError>)
        requires
            char_at(old(self).scanner.text(), old(self).scanner.index()) == Some('('),
        ensures
            r matches Ok(a) ==> class_ranges_ok(a),
            final(self).scanner.text() == old(self).scanner.text(),
            final(self).scanner.index() <= final(self).scanner.text().len(),
            old(self).scanner.index() <= final(self).scanner.index(),
            r is Ok ==> old(self).scanner.index() < final(self).scanner.index(),
            term_result(r, final(self).scanner.index()) == spec_atom(
                old(self).scanner.text(),
                old(self).scanner.index(),
            ),
        decreases old(self).scanner.text().len() - old(self).scanner.index(), 0int,
    {
        let ghost t = self.scanner.text();
        let ghost p = self.scanner.index();
        self.scanner.bump();
        let item = match self.parse_alternation() {
            Ok(a) => a,
            Err(e) => return Err(e),
        };
        match self.scanner.bump() {
            Some(d) => if d == ')' {
                Ok(Ast::Group(Box::new(item)))
            } else {
                Err(ParseError { kind: ParseErrorKind::UnclosedGroup, pos: self.scanner.position() })
            },
            None => Err(
                ParseError { kind: ParseErrorKind::UnexpectedEof, pos: self.scanner.position() },
            ),
        }
    }

    /// An escape whose '\\' is the next character.
    fn parse_escape(&mut self) -> (r: Result<Ast, ParseError>)
        requires
            char_at(old(self).scanner.text(), old(self).scanner.index()) == Some('\\'),
        ensures
            r matches Ok(a) ==> class_ranges_ok(a),
            final(self).scanner.text() == old(self).scanner.text(),
            final(self).scanner.index() <= final(self).scanner.text().len(),
            old(self).scanner.index() <= final(self).scanner.index(),
            r is Ok ==> old(self).scanner.index() < final(self).scanner.index(),
            term_result(r, final(self).scanner.index()) == spec_atom(
                old(self).scanner.text(),
                old(self).scanner.index(),
            ),
    {
        proof {
            lemma_leaf_terms(char_at(old(self).scanner.text(), old(self).scanner.index() + 1)->0);
        }
        self.scanner.bump();
        match self.scanner.bump() {
            Some(d) => if d == 'b' {
                Ok(Ast::WordBoundary)
            } else {
                Ok(Ast::Literal(d))
            },
            None => Err(
                ParseError { kind: ParseErrorKind::UnexpectedEof, pos: self.scanner.position() },
            ),
        }
    }

    fn parse_char_class(&mut self) -> (r: Result<Ast, ParseError>)
        requires
            char_at(old(self).scanner.text(), old(self).scanner.index()) == Some('['),
        ensures
            r matches Ok(a) ==> class_ranges_ok(a),
            final(self).scanner.text() == old(self).scanner.text(),
            final(self).scanner.index() <= final(self).scanner.text().len(),
            old(self).scanner.index() <= final(self).scanner.index(),
            r is Ok ==> old(self).scanner.index() < final(self).scanner.index(),
            term_result(r, final(self).scanner.index()) == spec_char_class(
                old(self).scanner.text(),
                old(self).scanner.index(),
            ),
    {
        let ghost t = self.scanner.text();
        let ghost p = self.scanner.index();
        self.scanner.bump();
        let negative = match self.scanner.peek() {
            Some(c) => if c == '^' {
                self.scanner.bump();
                true
            } else if c == ']' {
                return Err(
                    ParseError {
                        kind: ParseErrorKind::EmptyCharClass,
                        pos: self.scanner.position(),
                    },
                );
            } else {
                false
            },
            None => {
                return Err(
                    ParseError { kind: ParseErrorKind::UnexpectedEof, pos: self.scanner.position() },
                );
            },
        };
        match self.scanner.peek() {
            Some(c) => if c == ']' {
                return Err(
                    ParseError {
                        kind: ParseErrorKind::EmptyCharClass,
                        pos: self.scanner.position(),
                    },
                );
            },
            None => {},
        }
        let first = match self.parse_class_item() {
            Ok(it) => it,
            Err(e) => return Err(e),
        };
        let mut items: Vec<ClassItem> = Vec::new();
        items.push(first);
        let ghost q3 = self.scanner.index();
        proof {
            assert(items@.subrange(1, items@.len() as int) =~= Seq::<ClassItem>::empty());
            lemma_prepend_empty(spec_class_rest(t, q3));
        }
        loop
            invariant_except_break
                prepend(items@.subrange(1, items@.len() as int), spec_class_rest(t, self.scanner.index()))
                    == spec_class_rest(t, q3),
            invariant
                self.scanner.text() == t,
                t == old(self).scanner.text(),
                p == old(self).scanner.index(),
                p < q3 <= self.scanner.index() <= t.len(),
                items@.len() >= 1,
                items@[0] == first,
                forall|k: int| 0 <= k < items@.len() ==> item_ok(#[trigger] items@[k]),
                spec_char_class(t, p) == match prepend(seq![first], spec_class_rest(t, q3)) {
                    Err(e) => Err(e),
                    Ok((items, q4)) => Ok((Term::CharClass(negative, items), q4)),
                },
            ensures
                spec_class_rest(t, q3) == Ok::<(Seq<ClassItem>, int), ParseError>((items@.subrange(1, items@.len() as int), self.scanner.index())),
            decreases t.len() - self.scanner.index(),
        {
            let ghost q = self.scanner.index();
            match self.scanner.peek() {
                Some(c) => if c == ']' {
                    self.scanner.bump();
                    proof {
                        assert(spec_class_rest(t, q) == Ok::<(Seq<ClassItem>, int), ParseError>((Seq::<ClassItem>::empty(), q + 1)));
                        assert(items@.subrange(1, items@.len() as int) + Seq::<ClassItem>::empty() =~= items@.subrange(1, items@.len() as int));
                    }
                    break;
                } else {
                    let it = match self.parse_class_item() {
                        Ok(it) => it,
                        Err(e) => return Err(e),
                    };
                    let ghost old_items = items@;
                    let ghost q2 = self.scanner.index();
                    proof {
                        assert(spec_class_rest(t, q) == prepend(seq![it], spec_class_rest(t, q2)));
                    }
                    items.push(it);
                    proof {
                        assert(items@.subrange(1, items@.len() as int) =~= old_items.subrange(
                            1,
                            old_items.len() as int,
                        ) + seq![it]);
                        lemma_prepend_assoc(old_items.subrange(1, old_items.len() as int), seq![it], spec_class_rest(t, q2));
                    }
                },
                None => {
                    return Err(
                        ParseError {
                            kind: ParseErrorKind::UnclosedCharClass,
                            pos: self.scanner.position(),
                        },
                    );
                },
            }
        }
        proof {
            assert(seq![first] + items@.subrange(1, items@.len() as int) =~= items@);
            assert(items@.subrange(1, items@.len() as int) + Seq::<ClassItem>::empty() =~= items@.subrange(1, items@.len() as int));
        }
        Ok(Ast::CharClass { negative, items })
    }

    fn parse_class_item(&mut self) -> (r: Result<ClassItem, ParseError>)
        ensures
            r matches Ok(it) ==> item_ok(it),
            final(self).scanner.text() == old(self).scanner.text(),
            final(self).scanner.index() <= final(self).scanner.text().len(),
            old(self).scanner.index() <= final(self).scanner.index(),
            r is Ok ==> old(self).scanner.index() < final(self).scanner.index(),
            match r {
                Ok(it) => spec_class_item(old(self).scanner.text(), old(self).scanner.index())
                    == Ok::<(ClassItem, int), ParseError>((it, final(self).scanner.index())),
                Err(e) => spec_class_item(old(self).scanner.text(), old(self).scanner.index())
                    == Err::<(ClassItem, int), ParseError>(e),
            },
    {
        match self.scanner.bump() {
            Some(c1) => if c1 == '\\' {
                match self.scanner.bump() {
                    Some(c) => Ok(ClassItem::Char(c)),
                    None => Err(
                        ParseError {
                            kind: ParseErrorKind::UnexpectedEof,
                            pos: self.scanner.position(),
                        },
                    ),
                }
            } else {
                let dash = match self.scanner.peek() {
                    Some(d) => d == '-',
                    None => false,
                };
                if !dash {
                    return Ok(ClassItem::Char(c1));
                }
                let closes = match self.scanner.peek2() {
                    Some(d) => d == ']',
                    None => false,
                };
                if closes {
                    return Ok(ClassItem::Char(c1));
                }
                self.scanner.bump();
                match self.scanner.bump() {
                    Some(c2) => if c1 > c2 {
                        Err(
                            ParseError {
                                kind: ParseErrorKind::InvalidRange { start: c1, end: c2 },
                                pos: self.scanner.position(),
                            },
                        )
                    } else {
                        Ok(ClassItem::Range(c1, c2))
                    },
                    None => Err(
                        ParseError {
                            kind: ParseErrorKind::UnexpectedEof,
                            pos: self.scanner.position(),
                        },
                    ),
                }
            },
            None => Err(
                ParseError { kind: ParseErrorKind::UnexpectedEof, pos: self.scanner.position() },
            ),
        }
    }
}

/// A repetition that may repeat nothing matches the empty stretch at every
/// position.
proof fn lemma_repeat_none(kind: RepetitionKind, a: Term, s: Seq<char>, ci: bool, i: int)
    requires
        !(kind is OneOrMore),
        0 <= i <= s.len(),
    ensures
        term_matches(Term::Repetition(kind, Box::new(a)), s, ci, i, i),
{
    lemma_repetition_matches(kind, a, s, ci, i, i);
    let ps = seq![i];
    assert(pieces(ps, ps.len() - 1, i, i));
}

/// A repetition matches whatever its term matches once.
proof fn lemma_repeat_once(kind: RepetitionKind, a: Term, s: Seq<char>, ci: bool, i: int, j: int)
    requires
        term_matches(a, s, ci, i, j),
    ensures
        term_matches(Term::Repetition(kind, Box::new(a)), s, ci, i, j),
{
    lemma_matches_range(a, s, ci, i, j);
    lemma_repetition_matches(kind, a, s, ci, i, j);
    let ps = seq![i, j];
    assert(pieces(ps, ps.len() - 1, i, j));
    assert(term_matches(a, s, ci, ps[0], ps[1]));
}

/// Whatever the atom, a `*` after it makes a repetition of it that may
/// repeat it any number of times, none included: it matches the empty
/// stretch at every position of every text, and everything the atom
/// matches.
pub proof fn lemma_star_repeats_any_atom(t: Seq<char>, p: int, s: Seq<char>, ci: bool)
    requires
        spec_atom(t, p) is Ok,
        char_at(t, spec_atom(t, p)->Ok_0.1) == Some('*'),
    ensures
        spec_repetition(t, p) == Ok::<(Term, int), ParseError>(
            (
                Term::Repetition(RepetitionKind::ZeroOrMore, Box::new(spec_atom(t, p)->Ok_0.0)),
                spec_atom(t, p)->Ok_0.1 + 1,
            ),
        ),
        forall|i: int| 0 <= i <= s.len() ==> #[trigger] term_matches(spec_repetition(t, p)->Ok_0.0, s, ci, i, i),
        forall|i: int, j: int|
            #[trigger] term_matches(spec_atom(t, p)->Ok_0.0, s, ci, i, j) ==> term_matches(
                spec_repetition(t, p)->Ok_0.0,
                s,
                ci,
                i,
                j,
            ),
{
    let a = spec_atom(t, p)->Ok_0.0;
    assert forall|i: int| 0 <= i <= s.len() implies #[trigger] term_matches(spec_repetition(t, p)->Ok_0.0, s, ci, i, i) by {
        lemma_repeat_none(RepetitionKind::ZeroOrMore, a, s, ci, i);
    }
    assert forall|i: int, j: int| #[trigger] term_matches(a, s, ci, i, j) implies term_matches(
        spec_repetition(t, p)->Ok_0.0,
        s,
        ci,
        i,
        j,
    ) by {
        lemma_repeat_once(RepetitionKind::ZeroOrMore, a, s, ci, i, j);
    }
}

/// Whatever the atom, a `?` after it makes the atom optional: it matches the
/// empty stretch at every position, and everything the atom matches.
pub proof fn lemma_question_makes_any_atom_optional(t: Seq<char>, p: int, s: Seq<char>, ci: bool)
    requires
        spec_atom(t, p) is Ok,
        char_at(t, spec_atom(t, p)->Ok_0.1) == Some('?'),
    ensures
        spec_repetition(t, p) == Ok::<(Term, int), ParseError>(
            (
                Term::Repetition(RepetitionKind::ZeroOrOne, Box::new(spec_atom(t, p)->Ok_0.0)),
                spec_atom(t, p)->Ok_0.1 + 1,
            ),
        ),
        forall|i: int| 0 <= i <= s.len() ==> #[trigger] term_matches(spec_repetition(t, p)->Ok_0.0, s, ci, i, i),
        forall|i: int, j: int|
            #[trigger] term_matches(spec_atom(t, p)->Ok_0.0, s, ci, i, j) ==> term_matches(
                spec_repetition(t, p)->Ok_0.0,
                s,
                ci,
                i,
                j,
            ),
{
    let a = spec_atom(t, p)->Ok_0.0;
    assert forall|i: int| 0 <= i <= s.len() implies #[trigger] term_matches(spec_repetition(t, p)->Ok_0.0, s, ci, i, i) by {
        lemma_repeat_none(RepetitionKind::ZeroOrOne, a, s, ci, i);
    }
    assert forall|i: int, j: int| #[trigger] term_matches(a, s, ci, i, j) implies term_matches(
        spec_repetition(t, p)->Ok_0.0,
        s,
        ci,
        i,
        j,
    ) by {
        lemma_repeat_once(RepetitionKind::ZeroOrOne, a, s, ci, i, j);
    }
}

/// Whatever the atom, a `+` after it makes a repetition of it that matches
/// everything the atom matches.
pub proof fn lemma_plus_repeats_any_atom(t: Seq<char>, p: int, s: Seq<char>, ci: bool)
    requires
        spec_atom(t, p) is Ok,
        char_at(t, spec_atom(t, p)->Ok_0.1) == Some('+'),
    ensures
        spec_repetition(t, p) == Ok::<(Term, int), ParseError>(
            (
                Term::Repetition(RepetitionKind::OneOrMore, Box::new(spec_atom(t, p)->Ok_0.0)),
                spec_atom(t, p)->Ok_0.1 + 1,
            ),
        ),
        forall|i: int, j: int|
            #[trigger] term_matches(spec_atom(t, p)->Ok_0.0, s, ci, i, j) ==> term_matches(
                spec_repetition(t, p)->Ok_0.0,
                s,
                ci,
                i,
                j,
            ),
{
    let a = spec_atom(t, p)->Ok_0.0;
    assert forall|i: int, j: int| #[trigger] term_matches(a, s, ci, i, j) implies term_matches(
        spec_repetition(t, p)->Ok_0.0,
        s,
        ci,
        i,
        j,
    ) by {
        lemma_repeat_once(RepetitionKind::OneOrMore, a, s, ci, i, j);
    }
}

/// A pattern of one character and `*` is a repetition of that character's
/// atom that may repeat nothing: it matches the empty stretch at every
/// position of every text.
pub proof fn lemma_one_char_star(t: Seq<char>, s: Seq<char>, ci: bool)
    requires
        t.len() == 2,
        t[1] == '*',
        t[0] != '|' && t[0] != ')',
        spec_atom(t, 0) matches Ok((_, p1)) && p1 == 1,
    ensures
        spec_parse(t) == Ok::<Term, ParseError>(
            Term::Concat(seq![Term::Repetition(RepetitionKind::ZeroOrMore, Box::new(spec_atom(t, 0)->Ok_0.0))]),
        ),
        forall|i: int| 0 <= i <= s.len() ==> #[trigger] term_matches(spec_parse(t)->Ok_0, s, ci, i, i),
{
    let a = spec_atom(t, 0)->Ok_0.0;
    let r = Term::Repetition(RepetitionKind::ZeroOrMore, Box::new(a));
    assert(char_at(t, 1) == Some('*'));
    assert(spec_repetition(t, 0) == Ok::<(Term, int), ParseError>((r, 2)));
    assert(spec_concat(t, 2) == Ok::<(Seq<Term>, int), ParseError>((Seq::empty(), 2)));
    assert(seq![r] + Seq::<Term>::empty() =~= seq![r]);
    assert(spec_concat(t, 0) == Ok::<(Seq<Term>, int), ParseError>((seq![r], 2)));
    assert forall|i: int| 0 <= i <= s.len() implies #[trigger] term_matches(spec_parse(t)->Ok_0, s, ci, i, i) by {
        lemma_repeat_none(RepetitionKind::ZeroOrMore, a, s, ci, i);
        lemma_concat_matches(seq![r], s, ci, i, i);
        let ps = seq![i, i];
        assert(pieces(ps, 1, i, i));
        assert(term_matches(seq![r][0], s, ci, ps[0], ps[1]));
    }
}

} // verus!
