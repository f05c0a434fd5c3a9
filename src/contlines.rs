//! Joining physical lines that end in a backslash into logical lines.

use vstd::prelude::*;
use crate::text::lines_view;

verus! {

/// Whether a physical line ends in the continuation marker.
pub open spec fn ends_with_marker(l: Seq<char>) -> bool {
    l.len() > 0 && l.last() == '\\'
}

/// The logical lines already complete after reading `ls`, and the text of
/// the logical line still open, if the last line read ended in the marker.
pub open spec fn join_state(ls: Seq<Seq<char>>) -> (Seq<Seq<char>>, Option<Seq<char>>)
    decreases ls.len(),
{
    if ls.len() == 0 {
        (Seq::empty(), None)
    } else {
        let (done, pending) = join_state(ls.drop_last());
        let l = ls.last();
        let acc = match pending {
            Some(p) => p,
            None => Seq::empty(),
        };
        if ends_with_marker(l) {
            (done, Some(acc + l.drop_last()))
        } else {
            (done.push(acc + l), None)
        }
    }
}

/// The logical lines of a sequence of physical lines: a line that ends in
/// the marker loses it and runs on into the next one; a marker on the very
/// last line is dropped with nothing appended.
pub open spec fn logical_lines(ls: Seq<Seq<char>>) -> Seq<Seq<char>> {
    let (done, pending) = join_state(ls);
    match pending {
        Some(p) => done.push(p),
        None => done,
    }
}

/// Appends `src[from..to]` to `dst`.
pub fn append_range(dst: &mut Vec<char>, src: &Vec<char>, from: usize, to: usize)
    requires
        from <= to <= src@.len(),
    ensures
        final(dst)@ == old(dst)@ + src@.subrange(from as int, to as int),
{
    let mut i = from;
    while i < to
        invariant
            from <= i <= to <= src@.len(),
            dst@ == old(dst)@ + src@.subrange(from as int, i as int),
        decreases to - i,
    {
        dst.push(src[i]);
        i = i + 1;
        assert(dst@ =~= old(dst)@ + src@.subrange(from as int, i as int));
    }
}

/// Whether `pos` lines into `ls` no logical line is left open: at the
/// start, at the end, or after a line without the marker.
pub open spec fn at_boundary(ls: Seq<Seq<char>>, pos: int) -> bool {
    0 <= pos <= ls.len() && (pos == ls.len() || join_state(ls.subrange(0, pos)).1 is None)
}

/// Physical lines handed out as logical lines, one at a time.
pub struct ContinuationLines {
    underlying: Vec<Vec<char>>,
    pos: usize,
}

impl View for ContinuationLines {
    /// The physical lines, and how many of them have been read.
    type V = (Seq<Seq<char>>, int);

    closed spec fn view(&self) -> (Seq<Seq<char>>, int) {
        (lines_view(self.underlying@), self.pos as int)
    }
}

impl ContinuationLines {
    /// Whether the walk stands at the boundary of a logical line.
    pub open spec fn wf(&self) -> bool {
        at_boundary(self@.0, self@.1)
    }

    /// The logical lines of `lines`, from the first.
    pub fn new(lines: Vec<Vec<char>>) -> (r: ContinuationLines)
        ensures
            r.wf(),
            at_boundary(r@.0, r@.1),
            r@ == (lines_view(lines@), 0int),
    {
        ContinuationLines { underlying: lines, pos: 0 }
    }

    /// The next logical line, or `None` once all lines have been read.
    pub fn next(&mut self) -> (r: Option<Vec<char>>)
        requires
            old(self).wf(),
        ensures
            final(self).wf(),
            at_boundary(final(self)@.0, final(self)@.1),
            final(self)@.0 == old(self)@.0,
            old(self)@.1 == old(self)@.0.len() ==> r is None && final(self)@ == old(self)@,
            old(self)@.1 < old(self)@.0.len() ==> {
                &&& r is Some
                &&& old(self)@.1 < final(self)@.1
                &&& logical_lines(final(self)@.0.subrange(0, final(self)@.1)) == logical_lines(
                    old(self)@.0.subrange(0, old(self)@.1),
                ).push(r->Some_0@)
            },
    {
        if self.pos >= self.underlying.len() {
            return None;
        }
        let ghost all = lines_view(self.underlying@);
        let ghost start = self.pos as int;
        let ghost done = join_state(all.subrange(0, start)).0;
        let len = self.underlying.len();
        let mut acc: Vec<char> = Vec::new();
        loop
            invariant
                len == self.underlying@.len(),
                start == old(self).pos,
                all == lines_view(self.underlying@),
                self.underlying@ == old(self).underlying@,
                self.underlying@.len() == all.len(),
                start <= self.pos < all.len(),
                at_boundary(all, start),
                done == join_state(all.subrange(0, start)).0,
                self.pos == start ==> acc@.len() == 0,
                self.pos > start ==> join_state(all.subrange(0, self.pos as int)) == (
                    done,
                    Some(acc@),
                ),
            decreases all.len() - self.pos,
        {
            let i = self.pos;
            let ghost prefix = all.subrange(0, i as int);
            assert(all.subrange(0, i + 1).drop_last() =~= prefix);
            assert(all.subrange(0, i + 1).last() == self.underlying@[i as int]@);
            assert(i == start ==> join_state(prefix) == (done, Option::<Seq<char>>::None));
            let n = self.underlying[i].len();
            self.pos = i + 1;
            if n > 0 && self.underlying[i][n - 1] == '\\' {
                append_range(&mut acc, &self.underlying[i], 0, n - 1);
                assert(self.underlying@[i as int]@.drop_last() =~= self.underlying@[i as int]@.subrange(0, n - 1));
                if self.pos == len {
                    return Some(acc);
                }
            } else {
                append_range(&mut acc, &self.underlying[i], 0, n);
                assert(self.underlying@[i as int]@.subrange(0, n as int) =~= self.underlying@[i as int]@);
                return Some(acc);
            }
        }
    }
}

/// Joins physical lines into logical lines.
pub fn join_lines(lines: Vec<Vec<char>>) -> (r: Vec<Vec<char>>)
    ensures
        lines_view(r@) == logical_lines(lines_view(lines@)),
{
    let ghost all = lines_view(lines@);
    let mut it = ContinuationLines::new(lines);
    let mut out: Vec<Vec<char>> = Vec::new();
    assert(all.subrange(0, 0) =~= Seq::<Seq<char>>::empty());
    assert(lines_view(out@) =~= logical_lines(all.subrange(0, 0)));
    loop
        invariant
            it.wf(),
            it@.0 == all,
            lines_view(out@) == logical_lines(all.subrange(0, it@.1)),
        ensures
            lines_view(out@) == logical_lines(all),
        decreases all.len() - it@.1,
    {
        match it.next() {
            None => {
                assert(all.subrange(0, it@.1) =~= all);
                break ;
            },
            Some(l) => {
                let ghost before = out@;
                out.push(l);
                assert(lines_view(out@) =~= lines_view(before).push(l@));
            },
        }
    }
    out
}

} // verus!
