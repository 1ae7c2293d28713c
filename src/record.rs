//! Parsing tab-separated lines into translation records.
use vstd::prelude::*;
use crate::text::{chars_of, string_of, string_views, views};

verus! {

/// One input line: a source id, a human reference and a machine translation.
pub struct TranslationRecord {
    pub source_id: String,
    pub human_reference: String,
    pub machine_translation: String,
}

impl View for TranslationRecord {
    type V = (Seq<char>, Seq<char>, Seq<char>);

    open spec fn view(&self) -> (Seq<char>, Seq<char>, Seq<char>) {
        (self.source_id@, self.human_reference@, self.machine_translation@)
    }
}

impl Clone for TranslationRecord {
    fn clone(&self) -> (r: TranslationRecord)
        ensures
            r@ == self@,
    {
        TranslationRecord {
            source_id: self.source_id.clone(),
            human_reference: self.human_reference.clone(),
            machine_translation: self.machine_translation.clone(),
        }
    }
}

/// Why a line could not be read as a record.
pub enum ParseError {
    /// The line has fewer than two tab-separated fields.
    MalformedRecord { line: String },
}

/// The tab-separated fields of a line; a line without tabs is one field.
pub open spec fn fields(s: Seq<char>) -> Seq<Seq<char>>
    decreases s.len(),
{
    if s.len() == 0 {
        seq![seq![]]
    } else {
        let f = fields(s.drop_last());
        if s.last() == '\t' {
            f.push(seq![])
        } else {
            f.update(f.len() - 1, f.last().push(s.last()))
        }
    }
}

/// A line can be read when it has at least two fields.
pub open spec fn readable(s: Seq<char>) -> bool {
    fields(s).len() >= 2
}

/// The record of a readable line: field 1, the second-to-last field and the last field.
pub open spec fn record_of(s: Seq<char>) -> (Seq<char>, Seq<char>, Seq<char>) {
    let f = fields(s);
    (f[1], f[f.len() - 2], f[f.len() - 1])
}

/// The views of a sequence of records.
pub open spec fn record_views(v: Seq<TranslationRecord>) -> Seq<(Seq<char>, Seq<char>, Seq<char>)> {
    v.map_values(|r: TranslationRecord| r@)
}

fn split_fields(s: &str) -> (r: Vec<Vec<char>>)
    ensures
        views(r@) == fields(s@),
{
    let cs = chars_of(s);
    let mut done: Vec<Vec<char>> = Vec::new();
    let mut cur: Vec<char> = Vec::new();
    let mut i: usize = 0;
    while i < cs.len()
        invariant
            0 <= i <= cs.len(),
            cs@ == s@,
            views(done@).push(cur@) == fields(cs@.take(i as int)),
        decreases cs.len() - i,
    {
        let c = cs[i];
        let ghost pre = cs@.take(i as int);
        let ghost old_done = views(done@);
        let ghost old_cur = cur@;
        assert(cs@.take(i + 1) =~= pre.push(c));
        assert(cs@.take(i + 1).drop_last() =~= pre);
        if c == '\t' {
            let t = cur;
            cur = Vec::new();
            done.push(t);
            assert(views(done@).push(cur@) =~= old_done.push(old_cur).push(seq![]));
        } else {
            cur.push(c);
            assert(views(done@).push(cur@) =~= old_done.push(old_cur).update(
                old_done.len() as int,
                old_cur.push(c),
            ));
        }
        i = i + 1;
    }
    let ghost old_done = views(done@);
    done.push(cur);
    assert(views(done@) =~= old_done.push(cur@));
    assert(cs@.take(cs.len() as int) =~= cs@);
    done
}

/// Reads one line: the source id is field 1, the human reference the
/// second-to-last field and the machine translation the last field.
pub fn parse_line(line: &str) -> (r: Result<TranslationRecord, ParseError>)
    ensures
        r is Ok <==> readable(line@),
        r matches Ok(rec) ==> rec@ == record_of(line@),
        r matches Err(ParseError::MalformedRecord { line: l }) ==> l@ == line@,
{
    let f = split_fields(line);
    let k = f.len();
    if k < 2 {
        return Err(ParseError::MalformedRecord { line: string_of(&chars_of(line)) });
    }
    Ok(
        TranslationRecord {
            source_id: string_of(&f[1]),
            human_reference: string_of(&f[k - 2]),
            machine_translation: string_of(&f[k - 1]),
        },
    )
}

/// Reads every line in order; the first line that cannot be read is the error.
pub fn parse_records(lines: &Vec<String>) -> (r: Result<Vec<TranslationRecord>, ParseError>)
    ensures
        r is Ok <==> forall|i: int| 0 <= i < lines@.len() ==> readable(#[trigger] lines@[i]@),
        r matches Ok(recs) ==> record_views(recs@) == string_views(lines@).map_values(
            |s: Seq<char>| record_of(s),
        ),
        r matches Err(ParseError::MalformedRecord { line: l }) ==> exists|i: int|
            0 <= i < lines@.len() && !readable(#[trigger] lines@[i]@) && l@ == lines@[i]@ && forall|
                j: int,
            |
                0 <= j < i ==> readable(#[trigger] lines@[j]@),
{
    let mut out: Vec<TranslationRecord> = Vec::new();
    let mut i: usize = 0;
    while i < lines.len()
        invariant
            0 <= i <= lines.len(),
            forall|j: int| 0 <= j < i ==> readable(#[trigger] lines@[j]@),
            record_views(out@) =~= string_views(lines@).map_values(|s: Seq<char>| record_of(s)).take(
                i as int,
            ),
        decreases lines.len() - i,
    {
        match parse_line(lines[i].as_str()) {
            Ok(rec) => {
                let ghost prev = record_views(out@);
                out.push(rec);
                assert(record_views(out@) =~= prev.push(rec@));
            },
            Err(e) => {
                return Err(e);
            },
        }
        i = i + 1;
    }
    assert(string_views(lines@).map_values(|s: Seq<char>| record_of(s)).take(i as int)
        =~= string_views(lines@).map_values(|s: Seq<char>| record_of(s)));
    Ok(out)
}

} // verus!
