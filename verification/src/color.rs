//! Colouring of log text by ANSI escape sequences.

use vstd::prelude::*;

verus! {

/// `text` between the escape sequence for the foreground colour with the
/// digit `colour` and the sequence that resets it.
pub open spec fn painted(colour: char, text: Seq<char>) -> Seq<char> {
    seq!['\x1b', '[', '3', colour, 'm'] + text + seq!['\x1b', '[', '0', 'm']
}

fn paint(colour: char, text: &str) -> (out: String)
    ensures
        out@ == painted(colour, text@),
{
    let mut out = String::new();
    out.push('\x1b');
    out.push('[');
    out.push('3');
    out.push(colour);
    out.push('m');
    out.append(text);
    out.push('\x1b');
    out.push('[');
    out.push('0');
    out.push('m');
    assert(out@ =~= painted(colour, text@));
    out
}

/// Text that can be shown in colour.
pub trait Colorize {
    /// The text itself.
    spec fn plain(&self) -> Seq<char>;

    fn red(&self) -> (out: String)
        ensures
            out@ == painted('1', self.plain()),
    ;

    fn green(&self) -> (out: String)
        ensures
            out@ == painted('2', self.plain()),
    ;

    fn blue(&self) -> (out: String)
        ensures
            out@ == painted('4', self.plain()),
    ;

    fn yellow(&self) -> (out: String)
        ensures
            out@ == painted('3', self.plain()),
    ;
}

impl Colorize for &str {
    open spec fn plain(&self) -> Seq<char> {
        (*self)@
    }

    fn red(&self) -> (out: String) {
        paint('1', *self)
    }

    fn green(&self) -> (out: String) {
        paint('2', *self)
    }

    fn blue(&self) -> (out: String) {
        paint('4', *self)
    }

    fn yellow(&self) -> (out: String) {
        paint('3', *self)
    }
}

impl Colorize for String {
    open spec fn plain(&self) -> Seq<char> {
        self@
    }

    fn red(&self) -> (out: String) {
        paint('1', self.as_str())
    }

    fn green(&self) -> (out: String) {
        paint('2', self.as_str())
    }

    fn blue(&self) -> (out: String) {
        paint('4', self.as_str())
    }

    fn yellow(&self) -> (out: String) {
        paint('3', self.as_str())
    }
}

} // verus!
