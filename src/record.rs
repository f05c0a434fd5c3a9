//! Records, recfiles, their errors, and their text form.

use vstd::prelude::*;
use vstd::std_specs::iter::IteratorSpec;
use vstd::string::StringExecFns;
use crate::text::push_char;

verus! {

/// One field: a name and a value.
pub type FieldView = (Seq<char>, Seq<char>);

/// What a record holds: its type tag and its fields in order.
pub struct RecordView {
    pub rec_type: Option<Seq<char>>,
    pub fields: Seq<FieldView>,
}

/// The characters of an optional string.
pub open spec fn opt_view(o: Option<String>) -> Option<Seq<char>> {
    match o {
        Some(s) => Some(s@),
        None => None,
    }
}

/// The characters of each name and value.
pub open spec fn fields_view(fs: Seq<(String, String)>) -> Seq<FieldView> {
    fs.map_values(|f: (String, String)| (f.0@, f.1@))
}

/// A `Record` is a single bundle of key-value pairs with an optional
/// type tag. The order of the fields is kept, and a name may repeat.
#[derive(PartialEq, Eq, Debug)]
pub struct Record {
    pub rec_type: Option<String>,
    pub fields: Vec<(String, String)>,
}

impl View for Record {
    type V = RecordView;

    open spec fn view(&self) -> RecordView {
        RecordView { rec_type: opt_view(self.rec_type), fields: fields_view(self.fields@) }
    }
}

/// The records of a recfile, in order.
pub open spec fn records_view(rs: Seq<Record>) -> Seq<RecordView> {
    rs.map_values(|r: Record| r@)
}

/// A `Recfile` is a sequence of `Record`s.
#[derive(PartialEq, Eq, Debug)]
pub struct Recfile {
    pub records: Vec<Record>,
}

impl View for Recfile {
    type V = Seq<RecordView>;

    open spec fn view(&self) -> Seq<RecordView> {
        records_view(self.records@)
    }
}

/// The ways in which parsing a recfile, or looking up a field, fails.
#[derive(PartialEq, Eq, Debug)]
pub enum RecError {
    /// The input could not be read as text.
    GenericError { message: String },
    /// A continuation line with no field before it in its record.
    BadContLine { ln: String },
    /// A line that is no comment, no blank, no continuation and no field.
    InvalidLine { ln: String },
    /// A field that the record does not hold.
    MissingField { name: String },
}

/// The line that holds one field.
pub open spec fn field_line(f: FieldView) -> Seq<char> {
    f.0 + seq![':', ' '] + f.1 + seq!['\n']
}

/// The lines of the fields, in order.
pub open spec fn fields_text(fs: Seq<FieldView>) -> Seq<char>
    decreases fs.len(),
{
    if fs.len() == 0 {
        Seq::empty()
    } else {
        fields_text(fs.drop_last()) + field_line(fs.last())
    }
}

/// A record as text: its fields' lines, then one blank line.
pub open spec fn record_text(r: RecordView) -> Seq<char> {
    fields_text(r.fields) + seq!['\n']
}

/// A recfile as text: its records one after the other.
pub open spec fn recfile_text(rs: Seq<RecordView>) -> Seq<char>
    decreases rs.len(),
{
    if rs.len() == 0 {
        Seq::empty()
    } else {
        recfile_text(rs.drop_last()) + record_text(rs.last())
    }
}

/// Whether a record carries the given type tag.
pub open spec fn has_type(r: RecordView, t: Seq<char>) -> bool {
    r.rec_type == Some(t)
}

/// The index of the first field named `name` at or after `i`, or the
/// number of fields where there is none.
pub open spec fn find_field(fs: Seq<FieldView>, name: Seq<char>, i: int) -> int
    decreases fs.len() - i,
{
    if i < 0 || i >= fs.len() {
        fs.len() as int
    } else if fs[i].0 == name {
        i
    } else {
        find_field(fs, name, i + 1)
    }
}

/// The index of the first record at or after `i` with type `t`, or the
/// number of records where there is none.
pub open spec fn find_typed(rs: Seq<RecordView>, t: Seq<char>, i: int) -> int
    decreases rs.len() - i,
{
    if i < 0 || i >= rs.len() {
        rs.len() as int
    } else if has_type(rs[i], t) {
        i
    } else {
        find_typed(rs, t, i + 1)
    }
}

impl Record {
    /// Appends the text form of this record to `out`: one `name: value`
    /// line per field, then a blank line.
    pub fn write(&self, out: &mut String)
        ensures
            final(out)@ == old(out)@ + record_text(self@),
    {
        let mut i: usize = 0;
        while i < self.fields.len()
            invariant
                i <= self.fields@.len(),
                out@ == old(out)@ + fields_text(self@.fields.subrange(0, i as int)),
            decreases self.fields@.len() - i,
        {
            let ghost fs = self@.fields;
            assert(fs.subrange(0, i + 1).drop_last() =~= fs.subrange(0, i as int));
            out.append(self.fields[i].0.as_str());
            push_char(out, ':');
            push_char(out, ' ');
            out.append(self.fields[i].1.as_str());
            push_char(out, '\n');
            i = i + 1;
            assert(out@ =~= old(out)@ + fields_text(fs.subrange(0, i as int)));
        }
        assert(self@.fields.subrange(0, i as int) =~= self@.fields);
        push_char(out, '\n');
        assert(out@ =~= old(out)@ + record_text(self@));
    }

    /// The text form of this record.
    pub fn to_string(&self) -> (r: String)
        ensures
            r@ == record_text(self@),
    {
        let mut s = String::new();
        self.write(&mut s);
        assert(s@ =~= record_text(self@));
        s
    }

    /// The number of fields in this record.
    pub fn size(&self) -> (r: usize)
        ensures
            r == self@.fields.len(),
    {
        self.fields.len()
    }

    /// The value of the first field named `name`, or `MissingField` where
    /// the record has none.
    pub fn get<'a>(&'a self, name: &str) -> (r: Result<&'a str, RecError>)
        ensures
            ({
                let k = find_field(self@.fields, name@, 0);
                &&& k < self@.fields.len() ==> r is Ok && r->Ok_0@ == self@.fields[k].1
                &&& k == self@.fields.len() ==> r is Err && r->Err_0 is MissingField
                    && r->Err_0->MissingField_name@ == name@
            }),
    {
        let key = name.to_owned();
        let mut i: usize = 0;
        while i < self.fields.len()
            invariant
                i <= self.fields@.len(),
                key@ == name@,
                find_field(self@.fields, name@, 0) == find_field(self@.fields, name@, i as int),
            decreases self.fields@.len() - i,
        {
            if self.fields[i].0 == key {
                return Ok(self.fields[i].1.as_str());
            }
            i = i + 1;
        }
        Err(RecError::MissingField { name: key })
    }
}

impl Recfile {
    /// Appends the text form of every record, in order, to `out`.
    pub fn write(&self, out: &mut String)
        ensures
            final(out)@ == old(out)@ + recfile_text(self@),
    {
        let mut i: usize = 0;
        while i < self.records.len()
            invariant
                i <= self.records@.len(),
                out@ == old(out)@ + recfile_text(self@.subrange(0, i as int)),
            decreases self.records@.len() - i,
        {
            let ghost rs = self@;
            assert(rs.subrange(0, i + 1).drop_last() =~= rs.subrange(0, i as int));
            self.records[i].write(out);
            i = i + 1;
            assert(out@ =~= old(out)@ + recfile_text(rs.subrange(0, i as int)));
        }
        assert(self@.subrange(0, i as int) =~= self@);
    }

    /// The text form of this recfile.
    pub fn to_string(&self) -> (r: String)
        ensures
            r@ == recfile_text(self@),
    {
        let mut s = String::new();
        self.write(&mut s);
        assert(s@ =~= recfile_text(self@));
        s
    }

    /// Keeps only the records whose type is `wanted`, in their order;
    /// untyped records all go.
    pub fn filter_by_type(&mut self, wanted: &str)
        ensures
            final(self)@ == old(self)@.filter(|r: RecordView| has_type(r, wanted@)),
    {
        let ghost pred = |r: RecordView| has_type(r, wanted@);
        let mut all: Vec<Record> = Vec::new();
        std::mem::swap(&mut all, &mut self.records);
        let ghost orig = records_view(all@);
        let mut kept: Vec<Record> = Vec::new();
        let w = wanted.to_owned();
        for r in it: all
            invariant
                w@ == wanted@,
                pred == (|r: RecordView| has_type(r, wanted@)),
                records_view(it.seq()) == orig,
                records_view(kept@) == orig.subrange(0, it.index() as int).filter(pred),
        {
            let ghost n = it.index() as int;
            assert(orig.subrange(0, n + 1).drop_last() =~= orig.subrange(0, n));
            assert(orig[n] == r@);
            assert(orig.subrange(0, n + 1).last() == orig[n]);
            reveal(Seq::filter);
            assert(orig.subrange(0, n + 1).filter(pred) == if pred(orig[n]) {
                orig.subrange(0, n).filter(pred).push(orig[n])
            } else {
                orig.subrange(0, n).filter(pred)
            });
            let t = match &r.rec_type {
                Some(t) => *t == w,
                None => false,
            };
            let ghost old_kept = kept@;
            if t {
                kept.push(r);
                assert(records_view(kept@) =~= records_view(old_kept).push(orig[n]));
            }
        }
        assert(orig.subrange(0, orig.len() as int) =~= orig);
        self.records = kept;
    }

    /// The records of type `wanted`, in order, one at a time; the
    /// recfile is left as it is.
    pub fn iter_by_type<'a>(&'a self, wanted: &'a str) -> (r: RecIterator<'a>)
        ensures
            r.records@ == self.records@,
            r.typ@ == wanted@,
            r.pos == 0,
    {
        RecIterator { typ: wanted, records: self.records.as_slice(), pos: 0 }
    }

    /// All the records, in order.
    pub fn iter(&self) -> (r: std::slice::Iter<'_, Record>)
        ensures
            r.remaining().len() == self.records@.len(),
            forall|i: int| 0 <= i < self.records@.len() ==> *r.remaining()[i] == self.records@[i],
    {
        broadcast use vstd::std_specs::slice::axiom_spec_slice_iter;

        self.records.iter()
    }
}

/// The records of one type in a recfile, handed out one at a time.
pub struct RecIterator<'a> {
    /// The type that is looked for.
    pub typ: &'a str,
    /// The records that are walked.
    pub records: &'a [Record],
    /// Where the walk stands: the index of the next record to look at.
    pub pos: usize,
}

impl<'a> RecIterator<'a> {
    /// The next record of the type, if one is left.
    pub fn next(&mut self) -> (r: Option<&'a Record>)
        ensures
            ({
                let rs = records_view(old(self).records@);
                let k = find_typed(rs, old(self).typ@, old(self).pos as int);
                &&& final(self).typ == old(self).typ
                &&& final(self).records == old(self).records
                &&& k < rs.len() ==> r == Some(&old(self).records@[k]) && final(self).pos == k + 1
                &&& k == rs.len() ==> r is None && final(self).pos == if old(self).pos
                    <= rs.len() {
                    rs.len() as int
                } else {
                    old(self).pos as int
                }
            }),
    {
        let w = self.typ.to_owned();
        while self.pos < self.records.len()
            invariant
                w@ == self.typ@,
                old(self).pos <= self.records@.len() ==> self.pos <= self.records@.len(),
                self.pos >= old(self).pos,
                old(self).pos > self.records@.len() ==> self.pos == old(self).pos,
                self.typ == old(self).typ,
                self.records == old(self).records,
                find_typed(records_view(self.records@), self.typ@, self.pos as int) == find_typed(
                    records_view(old(self).records@),
                    old(self).typ@,
                    old(self).pos as int,
                ),
            decreases self.records@.len() - self.pos,
        {
            let r = &self.records[self.pos];
            assert(records_view(self.records@)[self.pos as int] == r@);
            self.pos = self.pos + 1;
            let t = match &r.rec_type {
                Some(t) => *t == w,
                None => false,
            };
            if t {
                return Some(r);
            }
        }
        assert(find_typed(records_view(self.records@), self.typ@, self.pos as int) == self.records@.len());
        None
    }
}

} // verus!
