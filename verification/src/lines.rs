//! Lines of text, and the text that they make up when joined by line breaks.

use vstd::prelude::*;
use vstd::string::*;

verus! {

/// The lines one after the other, with a line break between each two.
pub open spec fn join_lines(lines: Seq<Seq<char>>) -> Seq<char>
    decreases lines.len(),
{
    if lines.len() == 0 {
        Seq::empty()
    } else if lines.len() == 1 {
        lines[0]
    } else {
        join_lines(lines.drop_last()) + "\n"@ + lines.last()
    }
}

/// The texts of the strings.
pub open spec fn texts(strings: Seq<String>) -> Seq<Seq<char>> {
    Seq::new(strings.len(), |i: int| strings[i]@)
}

/// A text in the making, line by line.
pub(crate) struct Joiner {
    out: String,
    any: bool,
}

impl Joiner {
    /// The joiner holds the lines `done`, joined.
    pub(crate) closed spec fn holds(&self, done: Seq<Seq<char>>) -> bool {
        self.out@ == join_lines(done) && self.any == (done.len() > 0)
    }

    /// A joiner that holds no line.
    pub(crate) fn new() -> (joiner: Self)
        ensures
            joiner.holds(Seq::empty()),
    {
        Joiner { out: String::new(), any: false }
    }

    /// Adds one line.
    pub(crate) fn push_line(&mut self, line: &str, Ghost(done): Ghost<Seq<Seq<char>>>)
        requires
            old(self).holds(done),
        ensures
            final(self).holds(done.push(line@)),
    {
        if self.any {
            self.out.append("\n");
        }
        self.out.append(line);
        self.any = true;
        proof {
            let now = done.push(line@);
            assert(now.drop_last() == done);
            assert(Seq::<char>::empty() + line@ == line@);
        }
    }

    /// Adds the lines `lines[from..to]`.
    pub(crate) fn push_lines(
        &mut self,
        lines: &Vec<String>,
        from: usize,
        to: usize,
        Ghost(done): Ghost<Seq<Seq<char>>>,
    )
        requires
            old(self).holds(done),
            from <= to <= lines@.len(),
        ensures
            final(self).holds(done + texts(lines@).subrange(from as int, to as int)),
    {
        let mut i = from;
        proof {
            assert(done + texts(lines@).subrange(from as int, from as int) == done);
        }
        while i < to
            invariant
                from <= i <= to <= lines@.len(),
                self.holds(done + texts(lines@).subrange(from as int, i as int)),
            decreases to - i,
        {
            let ghost so_far = done + texts(lines@).subrange(from as int, i as int);
            self.push_line(lines[i].as_str(), Ghost(so_far));
            proof {
                assert(so_far.push(lines@[i as int]@) == done + texts(lines@).subrange(
                    from as int,
                    i + 1,
                ));
            }
            i += 1;
        }
    }

    /// The text of the lines held.
    pub(crate) fn finish(self, Ghost(done): Ghost<Seq<Seq<char>>>) -> (text: String)
        requires
            self.holds(done),
        ensures
            text@ == join_lines(done),
    {
        self.out
    }
}

/// Joins the lines by line breaks.
pub fn join(lines: &Vec<String>) -> (text: String)
    ensures
        text@ == join_lines(texts(lines@)),
{
    let mut joiner = Joiner::new();
    joiner.push_lines(lines, 0, lines.len(), Ghost(Seq::empty()));
    proof {
        let all = texts(lines@);
        assert(Seq::<Seq<char>>::empty() + all.subrange(0, lines@.len() as int) == all);
    }
    joiner.finish(Ghost(texts(lines@)))
}

} // verus!
