//! ANSI colouring of messages.
use vstd::prelude::*;

verus! {

/// `s` between the escape sequence `code` and the reset sequence.
pub open spec fn wrapped(code: Seq<char>, s: Seq<char>) -> Seq<char> {
    code + s + "\x1b[0m"@
}

/// Colouring of a message for the console.
pub trait Colorize: Sized {
    /// The text being coloured.
    spec fn text(&self) -> Seq<char>;

    /// Bold yellow.
    fn warning(self) -> (r: String)
        ensures
            r@ == wrapped("\x1b[1;33m"@, self.text()),
    ;

    /// Bold red.
    fn error(self) -> (r: String)
        ensures
            r@ == wrapped("\x1b[1;31m"@, self.text()),
    ;

    /// Blue.
    fn info(self) -> (r: String)
        ensures
            r@ == wrapped("\x1b[0;34m"@, self.text()),
    ;

    /// Bold green.
    fn success(self) -> (r: String)
        ensures
            r@ == wrapped("\x1b[1;32m"@, self.text()),
    ;

    /// Moved to the start of the previous line, so that it overwrites it.
    fn update(self) -> (r: String)
        ensures
            r@ == "\x1b[1A\r"@ + self.text(),
    ;
}

fn wrap(code: &str, s: &str) -> (r: String)
    ensures
        r@ == code@ + s@ + "\x1b[0m"@,
{
    let mut r = String::from_str(code);
    r.append(s);
    r.append("\x1b[0m");
    r
}

impl Colorize for String {
    open spec fn text(&self) -> Seq<char> {
        self@
    }

    fn warning(self) -> (r: String) {
        wrap("\x1b[1;33m", self.as_str())
    }

    fn error(self) -> (r: String) {
        wrap("\x1b[1;31m", self.as_str())
    }

    fn info(self) -> (r: String) {
        wrap("\x1b[0;34m", self.as_str())
    }

    fn success(self) -> (r: String) {
        wrap("\x1b[1;32m", self.as_str())
    }

    fn update(self) -> (r: String) {
        let mut r = String::from_str("\x1b[1A\r");
        r.append(self.as_str());
        r
    }
}

impl<'a> Colorize for &'a str {
    open spec fn text(&self) -> Seq<char> {
        (*self)@
    }

    fn warning(self) -> (r: String) {
        wrap("\x1b[1;33m", self)
    }

    fn error(self) -> (r: String) {
        wrap("\x1b[1;31m", self)
    }

    fn info(self) -> (r: String) {
        wrap("\x1b[0;34m", self)
    }

    fn success(self) -> (r: String) {
        wrap("\x1b[1;32m", self)
    }

    fn update(self) -> (r: String) {
        let mut r = String::from_str("\x1b[1A\r");
        r.append(self);
        r
    }
}

} // verus!
