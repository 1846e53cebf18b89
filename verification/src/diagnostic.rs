use vstd::prelude::*;

verus! {

/// A place in the source code: a file and a range of bytes in it.
#[derive(Clone, Copy, Debug, PartialEq, Eq, Structural, Hash)]
pub struct Position {
    pub file_index: usize,
    pub start: usize,
    pub end: usize,
}

impl Position {
    /// The position of items that were not written in any file.
    pub fn placeholder() -> (p: Self)
        ensures
            p.file_index == 0 && p.start == 0 && p.end == 0,
    {
        Position { file_index: 0, start: 0, end: 0 }
    }
}

/// A message about a problem in a program, made of lines of text.
#[derive(Clone, Debug, PartialEq, Eq, Hash)]
pub struct Diagnostic {
    pub lines: Vec<String>,
}

impl Diagnostic {
    pub fn new() -> (d: Self)
        ensures
            d.lines@.len() == 0,
    {
        Diagnostic { lines: Vec::new() }
    }

    /// A diagnostic with the same lines.
    pub fn copy(&self) -> (d: Self)
        ensures
            d.lines@ == self.lines@,
    {
        let mut lines: Vec<String> = Vec::new();
        let mut i: usize = 0;
        while i < self.lines.len()
            invariant
                i <= self.lines@.len(),
                lines@ == self.lines@.take(i as int),
            decreases self.lines@.len() - i,
        {
            lines.push(self.lines[i].clone());
            i += 1;
            assert(lines@ =~= self.lines@.take(i as int));
        }
        assert(self.lines@.take(i as int) =~= self.lines@);
        Diagnostic { lines }
    }

    /// Appends a line of error text.
    pub fn with_text_error(self, text: String) -> (d: Self)
        ensures
            d.lines@ == self.lines@.push(text),
    {
        let mut lines = self.lines;
        lines.push(text);
        Diagnostic { lines }
    }
}

} // verus!
