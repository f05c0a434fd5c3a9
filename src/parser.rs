//! The record parser: a state machine over logical lines.

use vstd::prelude::*;
use vstd::utf8::*;
use crate::contlines::{join_lines, logical_lines};
use crate::record::{FieldView, RecError, Recfile, Record, RecordView, fields_view, opt_view, records_view};
use crate::text::{lines_view, decode, physical_lines, push_char, push_chars, split_lines, string_of};

verus! {

/// Why a sequence of logical lines is no recfile, with the line at fault
/// (leading spaces removed).
pub enum LineError {
    BadContLine(Seq<char>),
    InvalidLine(Seq<char>),
}

/// What the parser knows between two lines: the records sealed so far,
/// the fields and type of the record being built, and the type that the
/// last `%rec` field declared.
pub struct ParseState {
    pub done: Seq<RecordView>,
    pub fields: Seq<FieldView>,
    pub cur_type: Option<Seq<char>>,
    pub ctx: Option<Seq<char>>,
}

/// A line without its leading space characters (other blanks stay).
pub open spec fn trim_start_spaces(s: Seq<char>) -> Seq<char>
    decreases s.len(),
{
    if s.len() > 0 && s[0] == ' ' {
        trim_start_spaces(s.drop_first())
    } else {
        s
    }
}

/// The index of the first `:` at or after `i`, or the length where there
/// is none.
pub open spec fn colon_index(s: Seq<char>, i: int) -> int
    decreases s.len() - i,
{
    if i < 0 || i >= s.len() {
        s.len() as int
    } else if s[i] == ':' {
        i
    } else {
        colon_index(s, i + 1)
    }
}

/// The field name that declares a record type.
pub open spec fn rec_key() -> Seq<char> {
    seq!['%', 'r', 'e', 'c']
}

/// What a continuation line adds after the newline: the text after `+`,
/// less one space if one follows the `+`.
pub open spec fn cont_text(t: Seq<char>) -> Seq<char> {
    if t.len() > 1 && t[1] == ' ' {
        t.subrange(2, t.len() as int)
    } else {
        t.subrange(1, t.len() as int)
    }
}

/// The state before the first line.
pub open spec fn initial_state() -> ParseState {
    ParseState { done: Seq::empty(), fields: Seq::empty(), cur_type: None, ctx: None }
}

/// The record being built, sealed.
pub open spec fn current_record(st: ParseState) -> RecordView {
    RecordView { rec_type: st.cur_type, fields: st.fields }
}

/// One logical line's effect on the state.
pub open spec fn step(st: ParseState, line: Seq<char>) -> Result<ParseState, LineError> {
    let t = trim_start_spaces(line);
    if t.len() > 0 && t[0] == '#' {
        Ok(st)
    } else if t.len() == 0 {
        if st.fields.len() > 0 {
            Ok(
                ParseState {
                    done: st.done.push(current_record(st)),
                    fields: Seq::empty(),
                    cur_type: st.ctx,
                    ctx: st.ctx,
                },
            )
        } else {
            Ok(st)
        }
    } else if t[0] == '+' {
        if st.fields.len() == 0 {
            Err(LineError::BadContLine(t))
        } else {
            let last = st.fields.last();
            Ok(
                ParseState {
                    fields: st.fields.drop_last().push(
                        (last.0, last.1 + seq!['\n'] + cont_text(t)),
                    ),
                    ..st
                },
            )
        }
    } else if colon_index(t, 0) < t.len() {
        let c = colon_index(t, 0);
        let key = t.subrange(0, c);
        let value = trim_start_spaces(t.subrange(c + 1, t.len() as int));
        let declares = key == rec_key();
        Ok(
            ParseState {
                done: st.done,
                fields: st.fields.push((key, value)),
                cur_type: if declares && st.fields.len() == 0 {
                    Some(value)
                } else {
                    st.cur_type
                },
                ctx: if declares {
                    Some(value)
                } else {
                    st.ctx
                },
            },
        )
    } else {
        Err(LineError::InvalidLine(t))
    }
}

/// The state after a sequence of logical lines, or the first line's error.
pub open spec fn parse_state(ls: Seq<Seq<char>>) -> Result<ParseState, LineError>
    decreases ls.len(),
{
    if ls.len() == 0 {
        Ok(initial_state())
    } else {
        match parse_state(ls.drop_last()) {
            Ok(st) => step(st, ls.last()),
            Err(e) => Err(e),
        }
    }
}

/// The records of a finished state: those sealed, then the one being
/// built if it holds a field.
pub open spec fn finish(st: ParseState) -> Seq<RecordView> {
    if st.fields.len() > 0 {
        st.done.push(current_record(st))
    } else {
        st.done
    }
}

/// The records that a sequence of logical lines holds.
pub open spec fn parse_lines(ls: Seq<Seq<char>>) -> Result<Seq<RecordView>, LineError> {
    match parse_state(ls) {
        Ok(st) => Ok(finish(st)),
        Err(e) => Err(e),
    }
}

/// The records that a text holds.
pub open spec fn parse_text(s: Seq<char>) -> Result<Seq<RecordView>, LineError> {
    parse_lines(logical_lines(physical_lines(s)))
}

/// Whether an error of the library is the given line error.
pub open spec fn error_matches(r: RecError, e: LineError) -> bool {
    match e {
        LineError::BadContLine(l) => r is BadContLine && r->BadContLine_ln@ == l,
        LineError::InvalidLine(l) => r is InvalidLine && r->InvalidLine_ln@ == l,
    }
}

/// The index of the first character at or after `from` that is no space.
fn skip_spaces(v: &Vec<char>, from: usize) -> (k: usize)
    requires
        from <= v@.len(),
    ensures
        from <= k <= v@.len(),
        v@.subrange(k as int, v@.len() as int) == trim_start_spaces(
            v@.subrange(from as int, v@.len() as int),
        ),
{
    let mut k = from;
    while k < v.len() && v[k] == ' '
        invariant
            from <= k <= v@.len(),
            trim_start_spaces(v@.subrange(k as int, v@.len() as int)) == trim_start_spaces(
                v@.subrange(from as int, v@.len() as int),
            ),
        decreases v@.len() - k,
    {
        assert(v@.subrange(k as int, v@.len() as int).drop_first() =~= v@.subrange(
            k + 1,
            v@.len() as int,
        ));
        k = k + 1;
    }
    k
}

/// The line without its leading spaces.
fn trimmed(line: &Vec<char>) -> (r: Vec<char>)
    ensures
        r@ == trim_start_spaces(line@),
{
    let k = skip_spaces(line, 0);
    assert(line@.subrange(0, line@.len() as int) =~= line@);
    let mut r: Vec<char> = Vec::new();
    let mut i = k;
    while i < line.len()
        invariant
            k <= i <= line@.len(),
            r@ == line@.subrange(k as int, i as int),
        decreases line@.len() - i,
    {
        r.push(line[i]);
        i = i + 1;
        assert(r@ =~= line@.subrange(k as int, i as int));
    }
    r
}

/// The index of the first `:`, or the length where there is none.
fn find_colon(t: &Vec<char>) -> (c: usize)
    ensures
        c == colon_index(t@, 0),
        c <= t@.len(),
{
    let mut i: usize = 0;
    while i < t.len()
        invariant
            i <= t@.len(),
            colon_index(t@, 0) == colon_index(t@, i as int),
        decreases t@.len() - i,
    {
        if t[i] == ':' {
            return i;
        }
        i = i + 1;
    }
    i
}

/// A copy of an optional string.
fn copy_opt(o: &Option<String>) -> (r: Option<String>)
    ensures
        opt_view(r) == opt_view(*o),
{
    match o {
        Some(s) => Some(s.clone()),
        None => None,
    }
}

/// The parser's state as it runs.
struct Builder {
    done: Vec<Record>,
    fields: Vec<(String, String)>,
    cur_type: Option<String>,
    ctx: Option<String>,
}

impl View for Builder {
    type V = ParseState;

    closed spec fn view(&self) -> ParseState {
        ParseState {
            done: records_view(self.done@),
            fields: fields_view(self.fields@),
            cur_type: opt_view(self.cur_type),
            ctx: opt_view(self.ctx),
        }
    }
}

impl Builder {
    /// Seals the record being built, if it holds a field.
    fn seal(&mut self)
        ensures
            final(self)@ == (if old(self)@.fields.len() > 0 {
                ParseState {
                    done: old(self)@.done.push(current_record(old(self)@)),
                    fields: Seq::empty(),
                    cur_type: old(self)@.ctx,
                    ctx: old(self)@.ctx,
                }
            } else {
                old(self)@
            }),
    {
        if self.fields.len() > 0 {
            let mut fields: Vec<(String, String)> = Vec::new();
            std::mem::swap(&mut fields, &mut self.fields);
            let mut rec_type = copy_opt(&self.ctx);
            std::mem::swap(&mut rec_type, &mut self.cur_type);
            let rec = Record { rec_type, fields };
            let ghost old_done = self.done@;
            self.done.push(rec);
            assert(records_view(self.done@) =~= records_view(old_done).push(rec@));
            assert(fields_view(self.fields@) =~= Seq::<FieldView>::empty());
        }
    }

    /// Takes in one logical line.
    fn take_line(&mut self, line: &Vec<char>) -> (r: Result<(), RecError>)
        ensures
            match step(old(self)@, line@) {
                Ok(st) => r is Ok && final(self)@ == st,
                Err(e) => r is Err && error_matches(r->Err_0, e),
            },
    {
        let t = trimmed(line);
        let n = t.len();
        assert(t@.subrange(0, n as int) =~= t@);
        if n > 0 && t[0] == '#' {
            Ok(())
        } else if n == 0 {
            self.seal();
            Ok(())
        } else if t[0] == '+' {
            match self.fields.pop() {
                None => Err(RecError::BadContLine { ln: string_of(&t, 0, n) }),
                Some(last) => {
                    let (key, mut value) = last;
                    let ghost old_value = value@;
                    push_char(&mut value, '\n');
                    let from: usize = if n > 1 && t[1] == ' ' {
                        2
                    } else {
                        1
                    };
                    push_chars(&mut value, &t, from, n);
                    assert(value@ =~= old_value + seq!['\n'] + cont_text(t@));
                    let ghost old_fields = self.fields@;
                    self.fields.push((key, value));
                    assert(fields_view(self.fields@) =~= fields_view(old_fields).push(
                        (key@, value@),
                    ));
                    assert(fields_view(old_fields) =~= fields_view(old(self).fields@).drop_last());
                    assert(t@.subrange(0, n as int) =~= t@);
                    Ok(())
                },
            }
        } else {
            let c = find_colon(&t);
            if c == n {
                return Err(RecError::InvalidLine { ln: string_of(&t, 0, n) });
            }
            let key = string_of(&t, 0, c);
            let v = skip_spaces(&t, c + 1);
            let value = string_of(&t, v, n);
            let declares = c == 4 && t[0] == '%' && t[1] == 'r' && t[2] == 'e' && t[3] == 'c';
            assert(declares == (key@ == rec_key())) by {
                if key@.len() == 4 {
                    assert(key@ == rec_key() <==> key@ =~= rec_key());
                }
            }
            if declares {
                if self.fields.len() == 0 {
                    self.cur_type = Some(value.clone());
                }
                self.ctx = Some(value.clone());
            }
            let ghost old_fields = self.fields@;
            self.fields.push((key, value));
            assert(fields_view(self.fields@) =~= fields_view(old_fields).push((key@, value@)));
            assert(key@ == t@.subrange(0, colon_index(t@, 0)));
            assert(value@ == trim_start_spaces(t@.subrange(colon_index(t@, 0) + 1, t@.len() as int)));
            Ok(())
        }
    }
}

impl Recfile {
    /// Parses a recfile from its bytes. Text that is not UTF-8 gives
    /// `GenericError`; a misplaced continuation line `BadContLine`; a line
    /// that is neither comment, blank, continuation nor field `InvalidLine`.
    pub fn parse(input: &[u8]) -> (r: Result<Recfile, RecError>)
        ensures
            !valid_utf8(input@) ==> r is Err && r->Err_0 is GenericError,
            valid_utf8(input@) ==> match parse_text(decode_utf8(input@)) {
                Ok(rs) => r is Ok && r->Ok_0@ == rs,
                Err(e) => r is Err && error_matches(r->Err_0, e),
            },
    {
        let text = match decode(input) {
            Some(text) => text,
            None => {
                return Err(
                    RecError::GenericError { message: "stream did not contain valid UTF-8".to_owned() },
                );
            },
        };
        let lines = join_lines(split_lines(&text));
        let ghost ls = logical_lines(physical_lines(text@));
        let mut b = Builder { done: Vec::new(), fields: Vec::new(), cur_type: None, ctx: None };
        assert(records_view(b.done@) =~= Seq::<RecordView>::empty());
        assert(fields_view(b.fields@) =~= Seq::<FieldView>::empty());
        assert(b@ == initial_state());
        let mut i: usize = 0;
        while i < lines.len()
            invariant
                i <= lines@.len(),
                valid_utf8(input@),
                text@ == decode_utf8(input@),
                ls == logical_lines(physical_lines(text@)),
                lines_view(lines@) == ls,
                parse_state(ls.subrange(0, i as int)) == Ok::<ParseState, LineError>(b@),
            decreases lines@.len() - i,
        {
            assert(ls.subrange(0, i + 1).drop_last() =~= ls.subrange(0, i as int));
            assert(ls.subrange(0, i + 1).last() == lines@[i as int]@);
            let ghost before = b@;
            match b.take_line(&lines[i]) {
                Ok(()) => {},
                Err(e) => {
                    proof {
                        lemma_error_persists(ls, i as int + 1);
                    }
                    return Err(e);
                },
            }
            i = i + 1;
        }
        assert(ls.subrange(0, i as int) =~= ls);
        b.seal();
        Ok(Recfile { records: b.done })
    }
}

/// Once a line fails, the whole sequence fails with that line's error.
proof fn lemma_error_persists(ls: Seq<Seq<char>>, k: int)
    requires
        0 <= k <= ls.len(),
        parse_state(ls.subrange(0, k)) is Err,
    ensures
        parse_state(ls) == parse_state(ls.subrange(0, k)),
    decreases ls.len() - k,
{
    if k < ls.len() {
        assert(ls.subrange(0, k + 1).drop_last() =~= ls.subrange(0, k));
        lemma_error_persists(ls, k + 1);
    } else {
        assert(ls.subrange(0, k) =~= ls);
    }
}

} // verus!
