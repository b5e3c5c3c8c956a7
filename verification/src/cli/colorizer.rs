//! ANSI colouring of paths, line numbers and matched text.
use vstd::prelude::*;
use crate::text::{decimal, push_decimal};

verus! {

/// The escape character that starts an ANSI sequence.
pub open spec fn esc() -> char {
    27u32 as char
}

/// `text` between the colour sequence for `code` and the reset sequence when
/// colouring is on, `text` unchanged otherwise.
pub open spec fn wrap_spec(enabled: bool, text: Seq<char>, code: Seq<char>) -> Seq<char> {
    if enabled {
        seq![esc(), '['] + code + seq!['m'] + text + seq![esc(), '[', '0', 'm']
    } else {
        text
    }
}

fn escape() -> (c: char)
    ensures
        c == esc(),
{
    match char::from_u32(27) {
        Some(c) => {
            proof {
                vstd::utf8::char_u32_cast(c, 27);
            }
            c
        },
        None => ' ',
    }
}

/// Colours output, or leaves it plain.
pub struct Colorizer {
    enabled: bool,
}

impl Colorizer {
    pub closed spec fn is_enabled(&self) -> bool {
        self.enabled
    }

    pub fn new(enabled: bool) -> (r: Self)
        ensures
            r.is_enabled() == enabled,
    {
        Colorizer { enabled }
    }

    /// A path, in magenta.
    pub fn path(&self, text: &str) -> (r: String)
        ensures
            r@ == wrap_spec(self.is_enabled(), text@, seq!['3', '5']),
    {
        let code = ['3', '5'];
        self.wrap(text, &code)
    }

    /// A line number, in green.
    pub fn line_number(&self, line: usize) -> (r: String)
        ensures
            r@ == wrap_spec(self.is_enabled(), decimal(line as nat), seq!['3', '2']),
    {
        let mut digits = String::new();
        push_decimal(&mut digits, line);
        let code = ['3', '2'];
        self.wrap(digits.as_str(), &code)
    }

    /// Matched text, in bold red.
    pub fn matched(&self, text: &str) -> (r: String)
        ensures
            r@ == wrap_spec(self.is_enabled(), text@, seq!['1', ';', '3', '1']),
    {
        let code = ['1', ';', '3', '1'];
        self.wrap(text, &code)
    }

    fn wrap(&self, text: &str, code: &[char]) -> (r: String)
        ensures
            r@ == wrap_spec(self.is_enabled(), text@, code@),
    {
        if self.enabled {
            let e = escape();
            let mut r = String::new();
            r.push(e);
            r.push('[');
            crate::text::push_chars(&mut r, code);
            r.push('m');
            r.append(text);
            r.push(e);
            r.push('[');
            r.push('0');
            r.push('m');
            proof {
                assert(r@ =~= wrap_spec(self.is_enabled(), text@, code@));
            }
            r
        } else {
            String::from_str(text)
        }
    }
}

} // verus!
