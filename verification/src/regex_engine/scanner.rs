//! A cursor over the characters of a pattern that tracks the byte offset of
//! everything consumed so far.
use vstd::prelude::*;
use crate::text::{byte_len, byte_pos, char_width, chars_of, lemma_byte_pos_mono, lemma_byte_pos_step, str_byte_len};

verus! {

pub struct Scanner {
    chars: Vec<char>,
    /// Characters consumed so far, and their length in bytes.
    cursor: (usize, usize),
}

impl Scanner {
    #[verifier::type_invariant]
    spec fn inv(&self) -> bool {
        &&& self.cursor.0 <= self.chars@.len()
        &&& self.cursor.1 == byte_pos(self.chars@, self.cursor.0 as int)
        &&& byte_len(self.chars@) <= usize::MAX
    }

    /// The characters being scanned.
    pub closed spec fn text(&self) -> Seq<char> {
        self.chars@
    }

    /// How many characters have been consumed.
    pub closed spec fn index(&self) -> int {
        self.cursor.0 as int
    }

    pub fn new(input: &str) -> (s: Self)
        ensures
            s.text() == input@,
            s.index() == 0,
            byte_len(s.text()) <= usize::MAX,
    {
        let n = str_byte_len(input);
        let chars = chars_of(input);
        assert(chars@.take(0) =~= Seq::<char>::empty());
        Scanner { chars, cursor: (0, 0) }
    }

    /// The next character, without consuming it.
    pub fn peek(&self) -> (c: Option<char>)
        ensures
            c == char_at(self.text(), self.index()),
            0 <= self.index() <= self.text().len(),
            byte_len(self.text()) <= usize::MAX,
    {
        proof {
            use_type_invariant(self);
        }
        if self.cursor.0 < self.chars.len() {
            Some(self.chars[self.cursor.0])
        } else {
            None
        }
    }

    /// The character after the next one, without consuming anything.
    pub fn peek2(&self) -> (c: Option<char>)
        ensures
            c == char_at(self.text(), self.index() + 1),
    {
        proof {
            use_type_invariant(self);
        }
        let i = self.cursor.0;
        if i < self.chars.len() && i + 1 < self.chars.len() {
            Some(self.chars[i + 1])
        } else {
            None
        }
    }

    /// Consumes and returns the next character.
    pub fn bump(&mut self) -> (c: Option<char>)
        ensures
            c == char_at(old(self).text(), old(self).index()),
            final(self).text() == old(self).text(),
            0 <= old(self).index() <= old(self).text().len(),
            0 <= final(self).index() <= final(self).text().len(),
            final(self).index() == if c is Some {
                old(self).index() + 1
            } else {
                old(self).index()
            },
    {
        proof {
            use_type_invariant(&*self);
        }
        let (i, offset) = self.cursor;
        if i < self.chars.len() {
            let c = self.chars[i];
            proof {
                lemma_byte_pos_step(self.chars@, i as int);
                lemma_byte_pos_mono(self.chars@, i + 1, self.chars@.len() as int);
                assert(self.chars@.take(self.chars@.len() as int) =~= self.chars@);
            }
            let w = char_width(c);
            self.cursor = (i + 1, offset + w);
            Some(c)
        } else {
            None
        }
    }

    /// Byte offset just past the last consumed character.
    pub fn position(&self) -> (p: usize)
        ensures
            p == byte_pos(self.text(), self.index()),
    {
        proof {
            use_type_invariant(self);
        }
        self.cursor.1
    }
}

/// The character at index `k`, if there is one.
pub open spec fn char_at(t: Seq<char>, k: int) -> Option<char> {
    if 0 <= k < t.len() {
        Some(t[k])
    } else {
        None
    }
}

} // verus!
