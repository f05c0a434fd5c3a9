//! Laws that relate the parser and the writer.

use vstd::prelude::*;
use vstd::utf8::{decode_utf8, encode_utf8, encode_utf8_decode_utf8};
use crate::contlines::{ends_with_marker, join_state, logical_lines};
use crate::parser::{
    LineError, ParseState, colon_index, step, parse_state, parse_text, rec_key, trim_start_spaces,
};
use crate::record::{FieldView, RecordView, fields_text, recfile_text};
use crate::parser::{cont_text, current_record, finish, initial_state};
use crate::text::{physical_lines, split_state, strip_cr};

verus! {

/// Whether a logical line is blank once its leading spaces are gone.
pub open spec fn is_blank(l: Seq<char>) -> bool {
    trim_start_spaces(l).len() == 0
}

/// Whether a logical line holds a field: no comment, no continuation, and
/// a colon.
pub open spec fn is_field_line(l: Seq<char>) -> bool {
    let t = trim_start_spaces(l);
    t.len() > 0 && t[0] != '#' && t[0] != '+' && colon_index(t, 0) < t.len()
}

/// The number of groups of lines that a blank line has closed with a
/// field in them, and whether the group still open holds a field.
pub open spec fn group_state(ls: Seq<Seq<char>>) -> (nat, bool)
    decreases ls.len(),
{
    if ls.len() == 0 {
        (0, false)
    } else {
        let (n, open) = group_state(ls.drop_last());
        let l = ls.last();
        if is_blank(l) {
            if open {
                (n + 1, false)
            } else {
                (n, false)
            }
        } else if is_field_line(l) {
            (n, true)
        } else {
            (n, open)
        }
    }
}

/// The number of blank-line-delimited groups of lines that hold a field,
/// counting a last group that no blank line closes.
pub open spec fn group_count(ls: Seq<Seq<char>>) -> nat {
    let (n, open) = group_state(ls);
    if open {
        n + 1
    } else {
        n
    }
}

proof fn lemma_state_tracks_groups(ls: Seq<Seq<char>>)
    requires
        parse_state(ls) is Ok,
    ensures
        parse_state(ls)->Ok_0.done.len() == group_state(ls).0,
        parse_state(ls)->Ok_0.fields.len() > 0 <==> group_state(ls).1,
    decreases ls.len(),
{
    if ls.len() > 0 {
        lemma_state_tracks_groups(ls.drop_last());
    }
}

/// A text that parses gives one record for each blank-line-delimited
/// group of its logical lines that holds a field, plus one for a last
/// such group that no blank line ends.
pub proof fn lemma_record_count(s: Seq<char>)
    requires
        parse_text(s) is Ok,
    ensures
        parse_text(s)->Ok_0.len() == group_count(logical_lines(physical_lines(s))),
{
    lemma_state_tracks_groups(logical_lines(physical_lines(s)));
}

/// A field's line without its newline.
pub open spec fn field_text_line(f: FieldView) -> Seq<char> {
    f.0 + seq![':', ' '] + f.1
}

/// The lines of the fields, without newlines.
pub open spec fn field_lines(fs: Seq<FieldView>) -> Seq<Seq<char>>
    decreases fs.len(),
{
    if fs.len() == 0 {
        Seq::empty()
    } else {
        field_lines(fs.drop_last()).push(field_text_line(fs.last()))
    }
}

/// The lines of a recfile's text form, without newlines.
pub open spec fn file_lines(rs: Seq<RecordView>) -> Seq<Seq<char>>
    decreases rs.len(),
{
    if rs.len() == 0 {
        Seq::empty()
    } else {
        file_lines(rs.drop_last()) + field_lines(rs.last().fields).push(Seq::empty())
    }
}

/// A name that reads back as itself: no colon and no newline in it, and
/// no space, `#` or `+` first.
pub open spec fn plain_name(k: Seq<char>) -> bool {
    &&& forall|i: int| 0 <= i < k.len() ==> k[i] != ':' && k[i] != '\n'
    &&& k.len() > 0 ==> k[0] != ' ' && k[0] != '#' && k[0] != '+'
}

/// A value that reads back as itself: no newline in it, no space first,
/// and no backslash or carriage return last.
pub open spec fn plain_value(v: Seq<char>) -> bool {
    &&& forall|i: int| 0 <= i < v.len() ==> v[i] != '\n'
    &&& v.len() > 0 ==> v[0] != ' ' && v.last() != '\\' && v.last() != '\r'
}

/// Whether every name and value of the fields reads back as itself.
pub open spec fn plain_fields(fs: Seq<FieldView>) -> bool {
    forall|j: int| 0 <= j < fs.len() ==> plain_name(#[trigger] fs[j].0) && plain_value(fs[j].1)
}

/// The type declared last, by the fields or before them.
pub open spec fn declared_after(ctx: Option<Seq<char>>, fs: Seq<FieldView>) -> Option<Seq<char>>
    decreases fs.len(),
{
    if fs.len() == 0 {
        ctx
    } else if fs.last().0 == rec_key() {
        Some(fs.last().1)
    } else {
        declared_after(ctx, fs.drop_last())
    }
}

/// The type declared last in a sequence of records, if any.
pub open spec fn declared_in(rs: Seq<RecordView>) -> Option<Seq<char>>
    decreases rs.len(),
{
    if rs.len() == 0 {
        None
    } else {
        declared_after(declared_in(rs.drop_last()), rs.last().fields)
    }
}

/// The type that the parser gives a record with these fields, where `ctx`
/// was declared before it: its own first field's, if that declares one.
pub open spec fn assigned_type(ctx: Option<Seq<char>>, fs: Seq<FieldView>) -> Option<Seq<char>> {
    if fs.len() > 0 && fs[0].0 == rec_key() {
        Some(fs[0].1)
    } else {
        ctx
    }
}

/// Records whose text form reads back as themselves: each holds a field,
/// all names and values are plain, and each type is the one that the
/// `%rec` fields before it give.
pub open spec fn writable(rs: Seq<RecordView>) -> bool
    decreases rs.len(),
{
    if rs.len() == 0 {
        true
    } else {
        let r = rs.last();
        &&& writable(rs.drop_last())
        &&& r.fields.len() > 0
        &&& plain_fields(r.fields)
        &&& r.rec_type == assigned_type(declared_in(rs.drop_last()), r.fields)
    }
}

/// Whether no line ends in the continuation marker.
pub open spec fn no_markers(ls: Seq<Seq<char>>) -> bool
    decreases ls.len(),
{
    ls.len() == 0 || (no_markers(ls.drop_last()) && !ends_with_marker(ls.last()))
}

proof fn lemma_split_line(s: Seq<char>, l: Seq<char>)
    requires
        split_state(s).1.len() == 0,
        forall|i: int| 0 <= i < l.len() ==> l[i] != '\n',
    ensures
        split_state(s + l) == (split_state(s).0, l),
    decreases l.len(),
{
    if l.len() == 0 {
        assert(s + l =~= s);
        assert(l =~= split_state(s).1);
    } else {
        lemma_split_line(s, l.drop_last());
        assert((s + l).drop_last() =~= s + l.drop_last());
        assert(l.drop_last().push(l.last()) =~= l);
    }
}

proof fn lemma_split_newline(s: Seq<char>, l: Seq<char>)
    requires
        split_state(s).1.len() == 0,
        forall|i: int| 0 <= i < l.len() ==> l[i] != '\n',
    ensures
        split_state(s + l + seq!['\n']) == (split_state(s).0.push(strip_cr(l)), Seq::<char>::empty()),
{
    lemma_split_line(s, l);
    assert((s + l + seq!['\n']).drop_last() =~= s + l);
}

proof fn lemma_field_line_shape(f: FieldView)
    requires
        plain_name(f.0),
        plain_value(f.1),
    ensures
        forall|i: int| 0 <= i < field_text_line(f).len() ==> field_text_line(f)[i] != '\n',
        strip_cr(field_text_line(f)) == field_text_line(f),
        !ends_with_marker(field_text_line(f)),
{
    let l = field_text_line(f);
    assert forall|i: int| 0 <= i < l.len() implies l[i] != '\n' by {
        if i < f.0.len() {
            assert(l[i] == f.0[i]);
        } else if i >= f.0.len() + 2 {
            assert(l[i] == f.1[i - f.0.len() - 2]);
        }
    }
    if f.1.len() > 0 {
        assert(l.last() == f.1.last());
    } else {
        assert(l.last() == ' ');
    }
}

proof fn lemma_split_fields(s: Seq<char>, fs: Seq<FieldView>)
    requires
        split_state(s).1.len() == 0,
        plain_fields(fs),
    ensures
        split_state(s + fields_text(fs)) == (split_state(s).0 + field_lines(fs), Seq::<char>::empty()),
    decreases fs.len(),
{
    if fs.len() == 0 {
        assert(s + fields_text(fs) =~= s);
        assert(split_state(s).0 + field_lines(fs) =~= split_state(s).0);
    } else {
        let init = fs.drop_last();
        let f = fs.last();
        assert(plain_fields(init)) by {
            assert forall|j: int| 0 <= j < init.len() implies plain_name(#[trigger] init[j].0)
                && plain_value(init[j].1) by {
                assert(init[j] == fs[j]);
            }
        }
        assert(plain_name(fs[fs.len() - 1].0) && plain_value(fs[fs.len() - 1].1));
        lemma_split_fields(s, init);
        lemma_field_line_shape(f);
        let s2 = s + fields_text(init);
        lemma_split_newline(s2, field_text_line(f));
        assert(s + fields_text(fs) =~= s2 + field_text_line(f) + seq!['\n']);
        assert(split_state(s).0 + field_lines(fs) =~= (split_state(s).0 + field_lines(init)).push(
            field_text_line(f),
        ));
    }
}

proof fn lemma_split_file(rs: Seq<RecordView>)
    requires
        writable(rs),
    ensures
        split_state(recfile_text(rs)) == (file_lines(rs), Seq::<char>::empty()),
    decreases rs.len(),
{
    if rs.len() > 0 {
        let init = rs.drop_last();
        let r = rs.last();
        lemma_split_file(init);
        let s = recfile_text(init);
        lemma_split_fields(s, r.fields);
        let s2 = s + fields_text(r.fields);
        lemma_split_newline(s2, Seq::empty());
        assert(s2 + Seq::<char>::empty() =~= s2);
        assert(recfile_text(rs) =~= s2 + seq!['\n']);
        assert(strip_cr(Seq::<char>::empty()) == Seq::<char>::empty());
    }
}

proof fn lemma_no_markers_append(a: Seq<Seq<char>>, b: Seq<Seq<char>>)
    requires
        no_markers(a),
        no_markers(b),
    ensures
        no_markers(a + b),
    decreases b.len(),
{
    if b.len() == 0 {
        assert(a + b =~= a);
    } else {
        lemma_no_markers_append(a, b.drop_last());
        assert((a + b).drop_last() =~= a + b.drop_last());
    }
}

proof fn lemma_field_lines_no_markers(fs: Seq<FieldView>)
    requires
        plain_fields(fs),
    ensures
        no_markers(field_lines(fs)),
    decreases fs.len(),
{
    if fs.len() > 0 {
        let init = fs.drop_last();
        assert(plain_fields(init)) by {
            assert forall|j: int| 0 <= j < init.len() implies plain_name(#[trigger] init[j].0)
                && plain_value(init[j].1) by {
                assert(init[j] == fs[j]);
            }
        }
        assert(plain_name(fs[fs.len() - 1].0) && plain_value(fs[fs.len() - 1].1));
        lemma_field_lines_no_markers(init);
        lemma_field_line_shape(fs.last());
        assert(field_lines(fs).drop_last() =~= field_lines(init));
    }
}

proof fn lemma_file_lines_no_markers(rs: Seq<RecordView>)
    requires
        writable(rs),
    ensures
        no_markers(file_lines(rs)),
    decreases rs.len(),
{
    if rs.len() > 0 {
        lemma_file_lines_no_markers(rs.drop_last());
        let fl = field_lines(rs.last().fields);
        lemma_field_lines_no_markers(rs.last().fields);
        assert(fl.push(Seq::empty()).drop_last() =~= fl);
        lemma_no_markers_append(file_lines(rs.drop_last()), fl.push(Seq::empty()));
    }
}

proof fn lemma_join_identity(ls: Seq<Seq<char>>)
    requires
        no_markers(ls),
    ensures
        join_state(ls) == (ls, Option::<Seq<char>>::None),
    decreases ls.len(),
{
    if ls.len() > 0 {
        lemma_join_identity(ls.drop_last());
        assert(Seq::<char>::empty() + ls.last() =~= ls.last());
        assert(ls.drop_last().push(ls.last()) =~= ls);
    }
}

proof fn lemma_colon_at(s: Seq<char>, i: int, c: int)
    requires
        0 <= i <= c < s.len(),
        s[c] == ':',
        forall|j: int| i <= j < c ==> s[j] != ':',
    ensures
        colon_index(s, i) == c,
    decreases c - i,
{
    if i < c {
        lemma_colon_at(s, i + 1, c);
    }
}

proof fn lemma_step_field(st: ParseState, f: FieldView)
    requires
        plain_name(f.0),
        plain_value(f.1),
    ensures
        step(st, field_text_line(f)) == Ok::<ParseState, LineError>(
            ParseState {
                done: st.done,
                fields: st.fields.push(f),
                cur_type: if f.0 == rec_key() && st.fields.len() == 0 {
                    Some(f.1)
                } else {
                    st.cur_type
                },
                ctx: if f.0 == rec_key() {
                    Some(f.1)
                } else {
                    st.ctx
                },
            },
        ),
{
    let (k, v) = f;
    let l = field_text_line(f);
    assert(l[k.len() as int] == ':');
    if k.len() > 0 {
        assert(l[0] == k[0]);
    }
    assert(trim_start_spaces(l) == l);
    assert forall|j: int| 0 <= j < k.len() implies l[j] != ':' by {
        assert(l[j] == k[j]);
    }
    lemma_colon_at(l, 0, k.len() as int);
    assert(l.subrange(0, k.len() as int) =~= k);
    let rest = l.subrange(k.len() as int + 1, l.len() as int);
    assert(rest =~= seq![' '] + v);
    assert(rest.drop_first() =~= v);
    assert(trim_start_spaces(v) == v);
    assert(trim_start_spaces(rest) == v);
}

proof fn lemma_parse_fields(a: Seq<Seq<char>>, fs: Seq<FieldView>, st: ParseState)
    requires
        parse_state(a) == Ok::<ParseState, LineError>(st),
        st.fields.len() == 0,
        st.cur_type == st.ctx,
        plain_fields(fs),
    ensures
        parse_state(a + field_lines(fs)) == Ok::<ParseState, LineError>(
            ParseState {
                done: st.done,
                fields: fs,
                cur_type: assigned_type(st.ctx, fs),
                ctx: declared_after(st.ctx, fs),
            },
        ),
    decreases fs.len(),
{
    if fs.len() == 0 {
        assert(a + field_lines(fs) =~= a);
        assert(st.fields =~= fs);
    } else {
        let init = fs.drop_last();
        let f = fs.last();
        assert(plain_fields(init)) by {
            assert forall|j: int| 0 <= j < init.len() implies plain_name(#[trigger] init[j].0)
                && plain_value(init[j].1) by {
                assert(init[j] == fs[j]);
            }
        }
        assert(plain_name(fs[fs.len() - 1].0) && plain_value(fs[fs.len() - 1].1));
        lemma_parse_fields(a, init, st);
        let prev = ParseState {
            done: st.done,
            fields: init,
            cur_type: assigned_type(st.ctx, init),
            ctx: declared_after(st.ctx, init),
        };
        lemma_step_field(prev, f);
        assert((a + field_lines(fs)).drop_last() =~= a + field_lines(init));
        assert(init.push(f) =~= fs);
        if init.len() > 0 {
            assert(init[0] == fs[0]);
        }
    }
}

proof fn lemma_parse_file(rs: Seq<RecordView>)
    requires
        writable(rs),
    ensures
        parse_state(file_lines(rs)) == Ok::<ParseState, LineError>(
            ParseState {
                done: rs,
                fields: Seq::empty(),
                cur_type: declared_in(rs),
                ctx: declared_in(rs),
            },
        ),
    decreases rs.len(),
{
    if rs.len() == 0 {
        assert(rs =~= Seq::<RecordView>::empty());
    } else {
        let init = rs.drop_last();
        let r = rs.last();
        lemma_parse_file(init);
        let a = file_lines(init);
        let st = ParseState {
            done: init,
            fields: Seq::empty(),
            cur_type: declared_in(init),
            ctx: declared_in(init),
        };
        lemma_parse_fields(a, r.fields, st);
        assert(file_lines(rs) =~= (a + field_lines(r.fields)).push(Seq::empty()));
        assert(file_lines(rs).drop_last() =~= a + field_lines(r.fields));
        assert(trim_start_spaces(Seq::<char>::empty()) == Seq::<char>::empty());
        assert(init.push(r) =~= rs);
    }
}

/// Writing records whose text form reads back as themselves, encoding the
/// text as UTF-8, and parsing the bytes gives the same records.
pub proof fn lemma_round_trip(rs: Seq<RecordView>)
    requires
        writable(rs),
    ensures
        parse_text(decode_utf8(encode_utf8(recfile_text(rs)))) == Ok::<
            Seq<RecordView>,
            LineError,
        >(rs),
{
    let text = recfile_text(rs);
    encode_utf8_decode_utf8(text);
    lemma_split_file(rs);
    lemma_file_lines_no_markers(rs);
    lemma_join_identity(file_lines(rs));
    lemma_parse_file(rs);
}

/// Whether a text holds no newline.
pub open spec fn no_newline(v: Seq<char>) -> bool {
    forall|i: int| 0 <= i < v.len() ==> v[i] != '\n'
}

/// A value that can come out of a parse and still read back as itself:
/// no newline in it, and no backslash or carriage return last.
pub open spec fn clean_value(v: Seq<char>) -> bool {
    no_newline(v) && (v.len() > 0 ==> v.last() != '\\' && v.last() != '\r')
}

/// Whether no field value of the records holds a newline.
pub open spec fn no_newline_values(fs: Seq<FieldView>) -> bool {
    forall|j: int| 0 <= j < fs.len() ==> no_newline(#[trigger] fs[j].1)
}

/// Whether every field value of the records is clean.
pub open spec fn clean_records(rs: Seq<RecordView>) -> bool {
    forall|i: int, j: int|
        0 <= i < rs.len() && 0 <= j < rs[i].fields.len() ==> clean_value(
            #[trigger] rs[i].fields[j].1,
        )
}

/// Names that are plain, and values that start with no space.
pub open spec fn loose_fields(fs: Seq<FieldView>) -> bool {
    forall|j: int|
        0 <= j < fs.len() ==> plain_name(#[trigger] fs[j].0) && (fs[j].1.len() > 0 ==> fs[j].1[0]
            != ' ')
}

/// Like `writable`, but saying nothing of newlines or of the last
/// character of a value.
pub open spec fn loose_writable(rs: Seq<RecordView>) -> bool
    decreases rs.len(),
{
    if rs.len() == 0 {
        true
    } else {
        let r = rs.last();
        &&& loose_writable(rs.drop_last())
        &&& r.fields.len() > 0
        &&& loose_fields(r.fields)
        &&& r.rec_type == assigned_type(declared_in(rs.drop_last()), r.fields)
    }
}

/// What holds of a parser state while no value has taken a newline.
pub open spec fn state_ok(st: ParseState) -> bool {
    &&& loose_writable(st.done)
    &&& loose_fields(st.fields)
    &&& no_newline_values(st.fields)
    &&& st.ctx == declared_after(declared_in(st.done), st.fields)
    &&& st.cur_type == assigned_type(declared_in(st.done), st.fields)
}

/// Whether every record sealed so far, and the one being built, is free
/// of newlines in its values.
pub open spec fn state_clean(st: ParseState) -> bool {
    &&& forall|i: int| 0 <= i < st.done.len() ==> no_newline_values(#[trigger] st.done[i].fields)
    &&& no_newline_values(st.fields)
}

/// Whether no line holds a newline.
pub open spec fn lines_no_newline(ls: Seq<Seq<char>>) -> bool {
    forall|k: int| 0 <= k < ls.len() ==> no_newline(#[trigger] ls[k])
}

proof fn lemma_trim_shape(s: Seq<char>)
    ensures
        trim_start_spaces(s).len() > 0 ==> trim_start_spaces(s)[0] != ' ',
        no_newline(s) ==> no_newline(trim_start_spaces(s)),
    decreases s.len(),
{
    if s.len() > 0 && s[0] == ' ' {
        lemma_trim_shape(s.drop_first());
        if no_newline(s) {
            assert forall|i: int| 0 <= i < s.drop_first().len() implies s.drop_first()[i]
                != '\n' by {
                assert(s.drop_first()[i] == s[i + 1]);
            }
        }
    }
}

proof fn lemma_physical_no_newline(s: Seq<char>)
    ensures
        lines_no_newline(split_state(s).0),
        no_newline(split_state(s).1),
        lines_no_newline(physical_lines(s)),
    decreases s.len(),
{
    if s.len() > 0 {
        lemma_physical_no_newline(s.drop_last());
        let (d, c) = split_state(s.drop_last());
        if s.last() == '\n' {
            assert(no_newline(strip_cr(c))) by {
                if c.len() > 0 && c.last() == '\r' {
                    assert forall|i: int| 0 <= i < c.drop_last().len() implies c.drop_last()[i]
                        != '\n' by {
                        assert(c.drop_last()[i] == c[i]);
                    }
                }
            }
            assert forall|k: int| 0 <= k < d.push(strip_cr(c)).len() implies no_newline(
                #[trigger] d.push(strip_cr(c))[k],
            ) by {
                if k < d.len() {
                    assert(d.push(strip_cr(c))[k] == d[k]);
                }
            }
        } else {
            assert forall|i: int| 0 <= i < c.push(s.last()).len() implies c.push(s.last())[i]
                != '\n' by {
                if i < c.len() {
                    assert(c.push(s.last())[i] == c[i]);
                }
            }
        }
    }
    let (d, c) = split_state(s);
    if c.len() > 0 {
        assert forall|k: int| 0 <= k < d.push(c).len() implies no_newline(#[trigger] d.push(c)[k]) by {
            if k < d.len() {
                assert(d.push(c)[k] == d[k]);
            }
        }
    }
}

proof fn lemma_join_no_newline(ls: Seq<Seq<char>>)
    requires
        lines_no_newline(ls),
    ensures
        lines_no_newline(join_state(ls).0),
        join_state(ls).1 is Some ==> no_newline(join_state(ls).1->Some_0),
        lines_no_newline(logical_lines(ls)),
    decreases ls.len(),
{
    if ls.len() > 0 {
        assert(lines_no_newline(ls.drop_last())) by {
            assert forall|k: int| 0 <= k < ls.drop_last().len() implies no_newline(
                #[trigger] ls.drop_last()[k],
            ) by {
                assert(ls.drop_last()[k] == ls[k]);
            }
        }
        lemma_join_no_newline(ls.drop_last());
        let (d, p) = join_state(ls.drop_last());
        let l = ls.last();
        assert(no_newline(l)) by {
            assert(l == ls[ls.len() - 1]);
        }
        let acc = match p {
            Some(x) => x,
            None => Seq::<char>::empty(),
        };
        let joined = if ends_with_marker(l) {
            acc + l.drop_last()
        } else {
            acc + l
        };
        assert forall|i: int| 0 <= i < joined.len() implies joined[i] != '\n' by {
            if i < acc.len() {
                assert(joined[i] == acc[i]);
            } else {
                assert(joined[i] == l[i - acc.len()]);
            }
        }
        if !ends_with_marker(l) {
            assert forall|k: int| 0 <= k < d.push(joined).len() implies no_newline(
                #[trigger] d.push(joined)[k],
            ) by {
                if k < d.len() {
                    assert(d.push(joined)[k] == d[k]);
                }
            }
        }
    }
    let (d, p) = join_state(ls);
    if p is Some {
        assert forall|k: int| 0 <= k < d.push(p->Some_0).len() implies no_newline(
            #[trigger] d.push(p->Some_0)[k],
        ) by {
            if k < d.len() {
                assert(d.push(p->Some_0)[k] == d[k]);
            }
        }
    }
}

proof fn lemma_colon_before(s: Seq<char>, i: int)
    requires
        0 <= i <= s.len(),
    ensures
        i <= colon_index(s, i) <= s.len(),
        forall|j: int| i <= j < colon_index(s, i) ==> s[j] != ':',
    decreases s.len() - i,
{
    if i < s.len() && s[i] != ':' {
        lemma_colon_before(s, i + 1);
    }
}

proof fn lemma_seal_ok(st: ParseState)
    requires
        state_ok(st),
        st.fields.len() > 0,
    ensures
        loose_writable(st.done.push(current_record(st))),
        declared_in(st.done.push(current_record(st))) == st.ctx,
{
    let d = st.done.push(current_record(st));
    assert(d.drop_last() =~= st.done);
}

proof fn lemma_step_ok(st: ParseState, l: Seq<char>)
    requires
        state_clean(st) ==> state_ok(st),
        no_newline(l),
        step(st, l) is Ok,
    ensures
        state_clean(step(st, l)->Ok_0) ==> state_ok(step(st, l)->Ok_0),
{
    let st2 = step(st, l)->Ok_0;
    let t = trim_start_spaces(l);
    lemma_trim_shape(l);
    if t.len() > 0 && t[0] == '#' {
    } else if t.len() == 0 {
        if st.fields.len() > 0 && state_clean(st2) {
            assert(state_clean(st)) by {
                assert forall|i: int| 0 <= i < st.done.len() implies no_newline_values(
                    #[trigger] st.done[i].fields,
                ) by {
                    assert(st2.done[i] == st.done[i]);
                }
                assert(st2.done[st.done.len() as int] == current_record(st));
                assert(no_newline_values(st2.done[st.done.len() as int].fields));
            }
            lemma_seal_ok(st);
        }
    } else if t[0] == '+' {
        if st.fields.len() > 0 {
            let last = st.fields.last();
            let n = st2.fields.len() - 1;
            assert(st2.fields[n].1[last.1.len() as int] == '\n');
        }
    } else {
        let c = colon_index(t, 0);
        let key = t.subrange(0, c);
        let value = trim_start_spaces(t.subrange(c + 1, t.len() as int));
        if state_clean(st2) {
            let n = st.fields.len() as int;
            assert(state_clean(st)) by {
                assert forall|j: int| 0 <= j < n implies no_newline(#[trigger] st.fields[j].1) by {
                    assert(st2.fields[j] == st.fields[j]);
                }
            }
            lemma_colon_before(t, 0);
            lemma_trim_shape(t.subrange(c + 1, t.len() as int));
            assert(plain_name(key)) by {
                assert forall|i: int| 0 <= i < key.len() implies key[i] != ':' && key[i] != '\n' by {
                    assert(key[i] == t[i]);
                }
                if key.len() > 0 {
                    assert(key[0] == t[0]);
                }
            }
            assert(st2.fields[n] == (key, value));
            assert(loose_fields(st2.fields)) by {
                assert forall|j: int| 0 <= j < st2.fields.len() implies plain_name(
                    #[trigger] st2.fields[j].0,
                ) && (st2.fields[j].1.len() > 0 ==> st2.fields[j].1[0] != ' ') by {
                    if j < n {
                        assert(st2.fields[j] == st.fields[j]);
                    }
                }
            }
            assert(st2.fields.drop_last() =~= st.fields);
            if n > 0 {
                assert(st2.fields[0] == st.fields[0]);
            }
        }
    }
}

proof fn lemma_parse_state_ok(ls: Seq<Seq<char>>)
    requires
        lines_no_newline(ls),
        parse_state(ls) is Ok,
    ensures
        state_clean(parse_state(ls)->Ok_0) ==> state_ok(parse_state(ls)->Ok_0),
    decreases ls.len(),
{
    if ls.len() == 0 {
        let st = initial_state();
        assert(st.done =~= Seq::<RecordView>::empty());
    } else {
        assert(lines_no_newline(ls.drop_last())) by {
            assert forall|k: int| 0 <= k < ls.drop_last().len() implies no_newline(
                #[trigger] ls.drop_last()[k],
            ) by {
                assert(ls.drop_last()[k] == ls[k]);
            }
        }
        lemma_parse_state_ok(ls.drop_last());
        assert(no_newline(ls[ls.len() - 1]));
        lemma_step_ok(parse_state(ls.drop_last())->Ok_0, ls.last());
    }
}

proof fn lemma_loose_to_writable(rs: Seq<RecordView>)
    requires
        loose_writable(rs),
        clean_records(rs),
    ensures
        writable(rs),
    decreases rs.len(),
{
    if rs.len() > 0 {
        let init = rs.drop_last();
        assert(clean_records(init)) by {
            assert forall|i: int, j: int|
                0 <= i < init.len() && 0 <= j < init[i].fields.len() implies clean_value(
                #[trigger] init[i].fields[j].1,
            ) by {
                assert(init[i] == rs[i]);
            }
        }
        lemma_loose_to_writable(init);
        let fs = rs.last().fields;
        assert(plain_fields(fs)) by {
            assert forall|j: int| 0 <= j < fs.len() implies plain_name(#[trigger] fs[j].0)
                && plain_value(fs[j].1) by {
                assert(rs[rs.len() - 1].fields == fs);
                assert(clean_value(rs[rs.len() - 1].fields[j].1));
                assert(loose_fields(fs));
                assert(plain_name(fs[j].0) && (fs[j].1.len() > 0 ==> fs[j].1[0] != ' '));
            }
        }
    }
}

/// A recfile that a text parses into, whose values hold no newline and
/// end in no backslash or carriage return, reads back as itself once
/// written and encoded.
pub proof fn lemma_parsed_round_trip(s: Seq<char>)
    requires
        parse_text(s) is Ok,
        clean_records(parse_text(s)->Ok_0),
    ensures
        writable(parse_text(s)->Ok_0),
        parse_text(decode_utf8(encode_utf8(recfile_text(parse_text(s)->Ok_0)))) == Ok::<
            Seq<RecordView>,
            LineError,
        >(parse_text(s)->Ok_0),
{
    let ls = logical_lines(physical_lines(s));
    lemma_physical_no_newline(s);
    lemma_join_no_newline(physical_lines(s));
    lemma_parse_state_ok(ls);
    let st = parse_state(ls)->Ok_0;
    let rs = finish(st);
    assert(rs == parse_text(s)->Ok_0);
    assert(state_clean(st)) by {
        assert forall|i: int| 0 <= i < st.done.len() implies no_newline_values(
            #[trigger] st.done[i].fields,
        ) by {
            assert(st.fields.len() > 0 ==> rs[i] == st.done[i]);
            assert(st.fields.len() == 0 ==> rs[i] == st.done[i]);
            assert forall|j: int| 0 <= j < st.done[i].fields.len() implies no_newline(
                #[trigger] st.done[i].fields[j].1,
            ) by {
                assert(clean_value(rs[i].fields[j].1));
            }
        }
        if st.fields.len() > 0 {
            assert(rs[st.done.len() as int] == current_record(st));
            assert forall|j: int| 0 <= j < st.fields.len() implies no_newline(
                #[trigger] st.fields[j].1,
            ) by {
                assert(clean_value(rs[st.done.len() as int].fields[j].1));
            }
        }
    }
    if st.fields.len() > 0 {
        lemma_seal_ok(st);
    }
    lemma_loose_to_writable(rs);
    lemma_round_trip(rs);
}

} // verus!
