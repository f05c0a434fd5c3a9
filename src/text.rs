//! Characters, strings and physical lines.

use vstd::prelude::*;
use vstd::std_specs::iter::IteratorSpec;
use vstd::string::StringSliceAdditionalSpecFns;
use vstd::utf8::*;

verus! {

/// Relies on std::str::from_utf8: a result exactly when the bytes are valid
/// UTF-8, and then a string slice over those very bytes.
#[verifier::external_body]
fn decode_utf8_slice(b: &[u8]) -> (r: Option<&str>)
    ensures
        r is Some <==> valid_utf8(b@),
        r is Some ==> r->Some_0.spec_bytes() == b@,
{
    std::str::from_utf8(b).ok()
}

/// Relies on String::push: the character is appended at the end.
#[verifier::external_body]
pub(crate) fn push_char(s: &mut String, c: char)
    ensures
        final(s)@ == old(s)@.push(c),
{
    s.push(c)
}

/// The characters that a UTF-8 byte string encodes, or `None` where the
/// bytes are not valid UTF-8.
pub fn decode(b: &[u8]) -> (r: Option<Vec<char>>)
    ensures
        r is Some <==> valid_utf8(b@),
        r is Some ==> r->Some_0@ == decode_utf8(b@),
{
    match decode_utf8_slice(b) {
        None => None,
        Some(s) => {
            proof {
                encode_utf8_decode_utf8(s@);
            }
            Some(chars_of(s))
        },
    }
}

/// The characters of a string slice.
pub fn chars_of(s: &str) -> (r: Vec<char>)
    ensures
        r@ == s@,
{
    broadcast use vstd::string::axiom_spec_iter, vstd::string::next_postcondition;

    let mut it = s.chars();
    let mut out: Vec<char> = Vec::new();
    loop
        invariant
            out@ + it.remaining() == s@,
            it.obeys_prophetic_iter_laws(),
            it.decrease() is Some,
        ensures
            out@ == s@,
        decreases it.decrease()->0,
    {
        match it.next() {
            None => {
                assert(out@ =~= s@);
                break ;
            },
            Some(c) => {
                out.push(c);
            },
        }
    }
    out
}

/// Appends `v[from..to]` to `s`.
pub fn push_chars(s: &mut String, v: &Vec<char>, from: usize, to: usize)
    requires
        from <= to <= v@.len(),
    ensures
        final(s)@ == old(s)@ + v@.subrange(from as int, to as int),
{
    let mut i = from;
    while i < to
        invariant
            from <= i <= to <= v@.len(),
            s@ == old(s)@ + v@.subrange(from as int, i as int),
        decreases to - i,
    {
        push_char(s, v[i]);
        i = i + 1;
        assert(s@ =~= old(s)@ + v@.subrange(from as int, i as int));
    }
}

/// A string made of `v[from..to]`.
pub fn string_of(v: &Vec<char>, from: usize, to: usize) -> (r: String)
    requires
        from <= to <= v@.len(),
    ensures
        r@ == v@.subrange(from as int, to as int),
{
    let mut s = String::new();
    push_chars(&mut s, v, from, to);
    assert(s@ =~= v@.subrange(from as int, to as int));
    s
}

/// A line without the carriage return that ends it, if it has one.
pub open spec fn strip_cr(l: Seq<char>) -> Seq<char> {
    if l.len() > 0 && l.last() == '\r' {
        l.drop_last()
    } else {
        l
    }
}

/// The lines of `s` that a newline has already ended, and the characters
/// read since the last newline.
pub open spec fn split_state(s: Seq<char>) -> (Seq<Seq<char>>, Seq<char>)
    decreases s.len(),
{
    if s.len() == 0 {
        (Seq::empty(), Seq::empty())
    } else {
        let (done, cur) = split_state(s.drop_last());
        if s.last() == '\n' {
            (done.push(strip_cr(cur)), Seq::empty())
        } else {
            (done, cur.push(s.last()))
        }
    }
}

/// The physical lines of a text, as a buffered reader reads them: each
/// newline (with a carriage return before it) ends a line and is dropped,
/// and text after the last newline is one more line.
pub open spec fn physical_lines(s: Seq<char>) -> Seq<Seq<char>> {
    let (done, cur) = split_state(s);
    if cur.len() > 0 {
        done.push(cur)
    } else {
        done
    }
}

/// The characters of each line.
pub open spec fn lines_view(v: Seq<Vec<char>>) -> Seq<Seq<char>> {
    v.map_values(|l: Vec<char>| l@)
}

/// Splits a text into its physical lines.
pub fn split_lines(text: &Vec<char>) -> (r: Vec<Vec<char>>)
    ensures
        lines_view(r@) == physical_lines(text@),
{
    let mut done: Vec<Vec<char>> = Vec::new();
    let mut cur: Vec<char> = Vec::new();
    let mut i: usize = 0;
    while i < text.len()
        invariant
            i <= text@.len(),
            (lines_view(done@), cur@) == split_state(text@.subrange(0, i as int)),
        decreases text@.len() - i,
    {
        let ghost prefix = text@.subrange(0, i as int);
        let c = text[i];
        assert(text@.subrange(0, i + 1).drop_last() =~= prefix);
        if c == '\n' {
            let n = cur.len();
            if n > 0 && cur[n - 1] == '\r' {
                cur.pop();
            }
            let ghost old_done = done@;
            done.push(cur);
            assert(lines_view(done@) =~= lines_view(old_done).push(strip_cr(split_state(prefix).1)));
            cur = Vec::new();
        } else {
            cur.push(c);
        }
        i = i + 1;
        assert(cur@ =~= split_state(text@.subrange(0, i as int)).1);
    }
    assert(text@.subrange(0, i as int) =~= text@);
    if cur.len() > 0 {
        let ghost old_done = done@;
        done.push(cur);
        assert(lines_view(done@) =~= lines_view(old_done).push(split_state(text@).1));
    }
    done
}

} // verus!
