//! Grouping consecutive records that share a source id.
use vstd::prelude::*;
use itertools::Itertools;
use crate::record::{record_views, TranslationRecord};
use crate::text::{chars_of, string_views};

verus! {

/// All human references of one source id, with one machine translation.
pub struct GroupedTranslation {
    pub source_id: String,
    pub human_references: Vec<String>,
    pub machine_translation: String,
}

impl View for GroupedTranslation {
    type V = (Seq<char>, Seq<Seq<char>>, Seq<char>);

    open spec fn view(&self) -> (Seq<char>, Seq<Seq<char>>, Seq<char>) {
        (self.source_id@, string_views(self.human_references@), self.machine_translation@)
    }
}

/// The views of a sequence of grouped translations.
pub open spec fn group_views(v: Seq<GroupedTranslation>) -> Seq<
    (Seq<char>, Seq<Seq<char>>, Seq<char>),
> {
    v.map_values(|g: GroupedTranslation| g@)
}

/// The maximal runs of consecutive records with equal source ids, in order.
pub open spec fn runs(s: Seq<(Seq<char>, Seq<char>, Seq<char>)>) -> Seq<
    Seq<(Seq<char>, Seq<char>, Seq<char>)>,
>
    decreases s.len(),
{
    if s.len() == 0 {
        seq![]
    } else {
        let r = runs(s.drop_last());
        let x = s.last();
        if r.len() > 0 && r.last().len() > 0 && r.last().last().0 == x.0 {
            r.update(r.len() - 1, r.last().push(x))
        } else {
            r.push(seq![x])
        }
    }
}

/// The views of a sequence of record runs.
pub open spec fn run_views(v: Seq<Vec<TranslationRecord>>) -> Seq<
    Seq<(Seq<char>, Seq<char>, Seq<char>)>,
> {
    v.map_values(|g: Vec<TranslationRecord>| record_views(g@))
}

/// Relies on itertools' `Itertools::group_by`: consecutive elements with
/// equal keys (here the source id) form one group, in order.
#[verifier::external_body]
fn runs_by_source(records: Vec<TranslationRecord>) -> (r: Vec<Vec<TranslationRecord>>)
    ensures
        run_views(r@) == runs(record_views(records@)),
{
    let grouped = records.into_iter().group_by(|rec| rec.source_id.clone());
    let out: Vec<Vec<TranslationRecord>> = grouped.into_iter().map(|(_, g)| g.collect()).collect();
    out
}

/// Lexicographic order on characters, by code point; for strings this is
/// the order of their UTF-8 bytes.
pub open spec fn lex_lt(a: Seq<char>, b: Seq<char>) -> bool
    decreases a.len(),
{
    if a.len() == 0 {
        b.len() > 0
    } else if b.len() == 0 {
        false
    } else if a[0] != b[0] {
        a[0] < b[0]
    } else {
        lex_lt(a.drop_first(), b.drop_first())
    }
}

/// Whether text `a` sorts strictly before text `b`.
pub fn text_less(a: &String, b: &String) -> (r: bool)
    ensures
        r == lex_lt(a@, b@),
{
    let ca = chars_of(a.as_str());
    let cb = chars_of(b.as_str());
    let mut i: usize = 0;
    assert(ca@.skip(0) =~= a@ && cb@.skip(0) =~= b@);
    while i < ca.len() && i < cb.len()
        invariant
            0 <= i <= ca.len(),
            i <= cb.len(),
            lex_lt(a@, b@) == lex_lt(ca@.skip(i as int), cb@.skip(i as int)),
        decreases ca.len() - i,
    {
        let x = ca[i];
        let y = cb[i];
        assert(ca@.skip(i as int)[0] == x);
        assert(cb@.skip(i as int)[0] == y);
        if x != y {
            return x < y;
        }
        assert(ca@.skip(i as int).drop_first() =~= ca@.skip(i + 1));
        assert(cb@.skip(i as int).drop_first() =~= cb@.skip(i + 1));
        i = i + 1;
    }
    i < cb.len()
}

/// `x` placed after every record whose reference does not sort after its own.
pub open spec fn insert_by_reference(
    s: Seq<(Seq<char>, Seq<char>, Seq<char>)>,
    x: (Seq<char>, Seq<char>, Seq<char>),
) -> Seq<(Seq<char>, Seq<char>, Seq<char>)>
    decreases s.len(),
{
    if s.len() == 0 {
        seq![x]
    } else if !lex_lt(x.1, s.last().1) {
        s.push(x)
    } else {
        insert_by_reference(s.drop_last(), x).push(s.last())
    }
}

/// The records stably sorted by reference text.
pub open spec fn sort_by_reference(s: Seq<(Seq<char>, Seq<char>, Seq<char>)>) -> Seq<
    (Seq<char>, Seq<char>, Seq<char>),
>
    decreases s.len(),
{
    if s.len() == 0 {
        seq![]
    } else {
        insert_by_reference(sort_by_reference(s.drop_last()), s.last())
    }
}

/// The grouped translation of one run: its source id, the references in
/// sorted order, and the machine translation of the last record after sorting.
pub open spec fn group_of(run: Seq<(Seq<char>, Seq<char>, Seq<char>)>) -> (
    Seq<char>,
    Seq<Seq<char>>,
    Seq<char>,
) {
    let t = sort_by_reference(run);
    (run[0].0, t.map_values(|x: (Seq<char>, Seq<char>, Seq<char>)| x.1), t.last().2)
}

/// The grouped corpus: one grouped translation per run.
pub open spec fn grouping(s: Seq<(Seq<char>, Seq<char>, Seq<char>)>) -> Seq<
    (Seq<char>, Seq<Seq<char>>, Seq<char>),
> {
    runs(s).map_values(|run: Seq<(Seq<char>, Seq<char>, Seq<char>)>| group_of(run))
}

proof fn lemma_insert_at(
    s: Seq<(Seq<char>, Seq<char>, Seq<char>)>,
    x: (Seq<char>, Seq<char>, Seq<char>),
    p: int,
)
    requires
        0 <= p <= s.len(),
        forall|j: int| p <= j < s.len() ==> lex_lt(x.1, #[trigger] s[j].1),
        p > 0 ==> !lex_lt(x.1, s[p - 1].1),
    ensures
        insert_by_reference(s, x) == s.take(p).push(x) + s.skip(p),
    decreases s.len(),
{
    if s.len() == 0 {
        assert(s.take(p).push(x) + s.skip(p) =~= seq![x]);
    } else if p == s.len() {
        assert(s.take(p).push(x) + s.skip(p) =~= s.push(x));
    } else {
        assert(lex_lt(x.1, s[s.len() - 1].1));
        let d = s.drop_last();
        assert forall|j: int| p <= j < d.len() implies lex_lt(x.1, #[trigger] d[j].1) by {
            assert(d[j] == s[j]);
        }
        lemma_insert_at(d, x, p);
        assert(d.take(p).push(x) + d.skip(p) + seq![s.last()] =~= s.take(p).push(x) + s.skip(p));
    }
}

fn sort_records(run: &Vec<TranslationRecord>) -> (r: Vec<TranslationRecord>)
    ensures
        record_views(r@) == sort_by_reference(record_views(run@)),
{
    let ghost rv = record_views(run@);
    let mut sorted: Vec<TranslationRecord> = Vec::new();
    let mut i: usize = 0;
    while i < run.len()
        invariant
            0 <= i <= run.len(),
            rv == record_views(run@),
            record_views(sorted@) == sort_by_reference(rv.take(i as int)),
        decreases run.len() - i,
    {
        let x = run[i].clone();
        let ghost sv = record_views(sorted@);
        let mut p: usize = sorted.len();
        while p > 0 && text_less(&x.human_reference, &sorted[p - 1].human_reference)
            invariant
                0 <= p <= sorted.len(),
                sv == record_views(sorted@),
                forall|j: int| p <= j < sv.len() ==> lex_lt(x@.1, #[trigger] sv[j].1),
            decreases p,
        {
            p = p - 1;
        }
        proof {
            lemma_insert_at(sv, x@, p as int);
        }
        assert(x@ == rv[i as int]);
        assert(rv.take(i + 1).drop_last() =~= rv.take(i as int));
        sorted.insert(p, x);
        assert(record_views(sorted@) =~= sv.take(p as int).push(rv[i as int]) + sv.skip(p as int));
        i = i + 1;
    }
    assert(rv.take(i as int) =~= rv);
    sorted
}

/// Every run is non-empty and holds one source id, neighbouring runs have
/// different source ids, and the last run ends with the last record.
pub proof fn lemma_runs_shape(s: Seq<(Seq<char>, Seq<char>, Seq<char>)>)
    ensures
        forall|i: int| 0 <= i < runs(s).len() ==> #[trigger] runs(s)[i].len() > 0,
        forall|i: int, j: int|
            0 <= i < runs(s).len() && 0 <= j < runs(s)[i].len() ==> #[trigger] runs(s)[i][j].0
                == runs(s)[i][0].0,
        forall|i: int| 0 <= i < runs(s).len() - 1 ==> #[trigger] runs(s)[i][0].0 != runs(s)[i + 1][0].0,
        s.len() > 0 ==> runs(s).len() > 0 && runs(s).last().last() == s.last(),
        s.len() == 0 ==> runs(s).len() == 0,
    decreases s.len(),
{
    if s.len() > 0 {
        lemma_runs_shape(s.drop_last());
        let r = runs(s.drop_last());
        let x = s.last();
        if r.len() > 0 && r.last().len() > 0 && r.last().last().0 == x.0 {
            let q = runs(s);
            assert(q == r.update(r.len() - 1, r.last().push(x)));
            assert forall|i: int, j: int|
                0 <= i < q.len() && 0 <= j < q[i].len() implies #[trigger] q[i][j].0 == q[i][0].0 by {
                if i == q.len() - 1 && j == q[i].len() - 1 {
                    assert(r[i][r[i].len() - 1].0 == r[i][0].0);
                }
            }
            assert forall|i: int| 0 <= i < q.len() - 1 implies #[trigger] q[i][0].0 != q[i + 1][0].0 by {
                assert(q[i + 1][0] == r[i + 1][0]);
            }
        } else {
            let q = runs(s);
            assert(q == r.push(seq![x]));
            assert forall|i: int| 0 <= i < q.len() - 1 implies #[trigger] q[i][0].0 != q[i + 1][0].0 by {
                if i == q.len() - 2 {
                    assert(r.last()[r.last().len() - 1].0 == r.last()[0].0);
                }
            }
        }
    }
}

/// Sorting keeps the number of records.
pub proof fn lemma_sort_len(s: Seq<(Seq<char>, Seq<char>, Seq<char>)>)
    ensures
        sort_by_reference(s).len() == s.len(),
    decreases s.len(),
{
    if s.len() > 0 {
        lemma_sort_len(s.drop_last());
        lemma_insert_len(sort_by_reference(s.drop_last()), s.last());
    }
}

proof fn lemma_insert_len(s: Seq<(Seq<char>, Seq<char>, Seq<char>)>, x: (Seq<char>, Seq<char>, Seq<char>))
    ensures
        insert_by_reference(s, x).len() == s.len() + 1,
    decreases s.len(),
{
    if s.len() > 0 {
        lemma_insert_len(s.drop_last(), x);
    }
}

fn group_run(run: &Vec<TranslationRecord>) -> (g: GroupedTranslation)
    requires
        run.len() > 0,
    ensures
        g@ == group_of(record_views(run@)),
{
    let ghost rv = record_views(run@);
    let sorted = sort_records(run);
    proof {
        lemma_sort_len(rv);
    }
    let ghost sv = record_views(sorted@);
    let mut refs: Vec<String> = Vec::new();
    let mut j: usize = 0;
    while j < sorted.len()
        invariant
            0 <= j <= sorted.len(),
            sv == record_views(sorted@),
            string_views(refs@) =~= sv.take(j as int).map_values(
                |x: (Seq<char>, Seq<char>, Seq<char>)| x.1,
            ),
        decreases sorted.len() - j,
    {
        let ghost prev = string_views(refs@);
        refs.push(sorted[j].human_reference.clone());
        assert(string_views(refs@) =~= prev.push(sv[j as int].1));
        j = j + 1;
    }
    assert(sv.take(j as int) =~= sv);
    let last = sorted.len() - 1;
    GroupedTranslation {
        source_id: run[0].source_id.clone(),
        human_references: refs,
        machine_translation: sorted[last].machine_translation.clone(),
    }
}

/// Groups consecutive records with equal source ids. Each group holds its
/// references sorted by text, and the machine translation of the record
/// that sorts last.
pub fn group_translations(records: Vec<TranslationRecord>) -> (r: Vec<GroupedTranslation>)
    ensures
        group_views(r@) == grouping(record_views(records@)),
{
    let ghost rv = record_views(records@);
    let rs = runs_by_source(records);
    proof {
        lemma_runs_shape(rv);
    }
    let mut out: Vec<GroupedTranslation> = Vec::new();
    let mut i: usize = 0;
    while i < rs.len()
        invariant
            0 <= i <= rs.len(),
            run_views(rs@) == runs(rv),
            forall|k: int| 0 <= k < runs(rv).len() ==> #[trigger] runs(rv)[k].len() > 0,
            group_views(out@) =~= grouping(rv).take(i as int),
        decreases rs.len() - i,
    {
        assert(record_views(rs@[i as int]@) == runs(rv)[i as int]);
        let g = group_run(&rs[i]);
        let ghost prev = group_views(out@);
        out.push(g);
        assert(group_views(out@) =~= prev.push(g@));
        i = i + 1;
    }
    assert(grouping(rv).take(i as int) =~= grouping(rv));
    out
}

/// The records of one grouped translation: one per reference, in order,
/// each with the group's source id and machine translation.
pub open spec fn records_of(g: (Seq<char>, Seq<Seq<char>>, Seq<char>)) -> Seq<
    (Seq<char>, Seq<char>, Seq<char>),
> {
    g.1.map_values(|r: Seq<char>| (g.0, r, g.2))
}

/// A grouped corpus flattened back into records, group after group.
pub open spec fn flatten(gs: Seq<(Seq<char>, Seq<Seq<char>>, Seq<char>)>) -> Seq<
    (Seq<char>, Seq<char>, Seq<char>),
>
    decreases gs.len(),
{
    if gs.len() == 0 {
        seq![]
    } else {
        flatten(gs.drop_last()) + records_of(gs.last())
    }
}

/// Records whose references never step down in the order.
pub open spec fn sorted_by_reference(t: Seq<(Seq<char>, Seq<char>, Seq<char>)>) -> bool {
    forall|j: int| 0 <= j < t.len() - 1 ==> !lex_lt(#[trigger] t[j + 1].1, t[j].1)
}

proof fn lemma_lex_asym(a: Seq<char>, b: Seq<char>)
    requires
        lex_lt(a, b),
    ensures
        !lex_lt(b, a),
    decreases a.len(),
{
    if a.len() > 0 && b.len() > 0 && a[0] == b[0] {
        lemma_lex_asym(a.drop_first(), b.drop_first());
    }
}

proof fn lemma_insert_sorted(t: Seq<(Seq<char>, Seq<char>, Seq<char>)>, x: (Seq<char>, Seq<char>, Seq<char>))
    requires
        sorted_by_reference(t),
    ensures
        sorted_by_reference(insert_by_reference(t, x)),
        insert_by_reference(t, x).len() == t.len() + 1,
        insert_by_reference(t, x).last() == x || (t.len() > 0 && insert_by_reference(t, x).last()
            == t.last()),
    decreases t.len(),
{
    if t.len() == 0 {
    } else if !lex_lt(x.1, t.last().1) {
        let u = t.push(x);
        assert forall|j: int| 0 <= j < u.len() - 1 implies !lex_lt(#[trigger] u[j + 1].1, u[j].1) by {
            if j < t.len() - 1 {
                assert(u[j + 1] == t[j + 1] && u[j] == t[j]);
            }
        }
    } else {
        let d = t.drop_last();
        assert forall|j: int| 0 <= j < d.len() - 1 implies !lex_lt(#[trigger] d[j + 1].1, d[j].1) by {
            assert(d[j + 1] == t[j + 1] && d[j] == t[j]);
        }
        lemma_insert_sorted(d, x);
        let u = insert_by_reference(d, x);
        let w = u.push(t.last());
        if u.last() == x {
            lemma_lex_asym(x.1, t.last().1);
        } else {
            assert(t[t.len() - 2] == d.last());
            let k = t.len() - 2;
            assert(!lex_lt(t[k + 1].1, t[k].1));
        }
        assert(!lex_lt(t.last().1, u.last().1));
        assert forall|j: int| 0 <= j < w.len() - 1 implies !lex_lt(#[trigger] w[j + 1].1, w[j].1) by {
            if j < u.len() - 1 {
                assert(w[j + 1] == u[j + 1] && w[j] == u[j]);
            } else {
                assert(w[j + 1] == t.last() && w[j] == u.last());
            }
        }
    }
}

/// The sorted records are in order.
pub proof fn lemma_sort_sorted(s: Seq<(Seq<char>, Seq<char>, Seq<char>)>)
    ensures
        sorted_by_reference(sort_by_reference(s)),
    decreases s.len(),
{
    if s.len() > 0 {
        lemma_sort_sorted(s.drop_last());
        lemma_insert_sorted(sort_by_reference(s.drop_last()), s.last());
    }
}

/// Sorting records that are already in order leaves them as they are.
pub proof fn lemma_sort_identity(t: Seq<(Seq<char>, Seq<char>, Seq<char>)>)
    requires
        sorted_by_reference(t),
    ensures
        sort_by_reference(t) == t,
    decreases t.len(),
{
    if t.len() > 0 {
        let d = t.drop_last();
        assert forall|j: int| 0 <= j < d.len() - 1 implies !lex_lt(#[trigger] d[j + 1].1, d[j].1) by {
            assert(d[j + 1] == t[j + 1] && d[j] == t[j]);
        }
        lemma_sort_identity(d);
        if d.len() > 0 {
            assert(t[t.len() - 2] == d.last());
            assert(d.push(t.last()) =~= t);
        } else {
            assert(seq![t.last()] =~= t);
        }
    }
}

proof fn lemma_runs_append_block(
    a: Seq<(Seq<char>, Seq<char>, Seq<char>)>,
    b: Seq<(Seq<char>, Seq<char>, Seq<char>)>,
)
    requires
        b.len() > 0,
        forall|j: int| 0 <= j < b.len() ==> #[trigger] b[j].0 == b[0].0,
        a.len() > 0 ==> a.last().0 != b[0].0,
    ensures
        runs(a + b) == runs(a).push(b),
    decreases b.len(),
{
    lemma_runs_shape(a);
    if b.len() == 1 {
        assert((a + b).drop_last() =~= a);
        assert((a + b).last() == b[0]);
        assert(b =~= seq![b[0]]);
    } else {
        let d = b.drop_last();
        assert forall|j: int| 0 <= j < d.len() implies #[trigger] d[j].0 == d[0].0 by {
            assert(d[j] == b[j]);
        }
        lemma_runs_append_block(a, d);
        assert((a + b).drop_last() =~= a + d);
        assert((a + b).last() == b.last());
        assert(b[b.len() - 1].0 == b[0].0);
        assert(d.push(b.last()) =~= b);
        assert(runs(a).push(d).update(runs(a).len() as int, d.push(b.last())) =~= runs(a).push(b));
    }
}

proof fn lemma_runs_flatten(gs: Seq<(Seq<char>, Seq<Seq<char>>, Seq<char>)>)
    requires
        forall|i: int| 0 <= i < gs.len() ==> #[trigger] gs[i].1.len() > 0,
        forall|i: int| 0 <= i < gs.len() - 1 ==> #[trigger] gs[i].0 != gs[i + 1].0,
    ensures
        runs(flatten(gs)) == gs.map_values(
            |g: (Seq<char>, Seq<Seq<char>>, Seq<char>)| records_of(g),
        ),
    decreases gs.len(),
{
    if gs.len() == 0 {
        assert(runs(flatten(gs)) =~= gs.map_values(
            |g: (Seq<char>, Seq<Seq<char>>, Seq<char>)| records_of(g),
        ));
    } else {
        let d = gs.drop_last();
        assert forall|i: int| 0 <= i < d.len() implies #[trigger] d[i].1.len() > 0 by {
            assert(d[i] == gs[i]);
        }
        assert forall|i: int| 0 <= i < d.len() - 1 implies #[trigger] d[i].0 != d[i + 1].0 by {
            assert(d[i] == gs[i] && d[i + 1] == gs[i + 1]);
        }
        lemma_runs_flatten(d);
        let g = gs.last();
        let b = records_of(g);
        assert(g.1.len() > 0);
        assert forall|j: int| 0 <= j < b.len() implies #[trigger] b[j].0 == b[0].0 by {}
        let a = flatten(d);
        if d.len() > 0 {
            let dl = d.last();
            assert(dl == gs[gs.len() - 2]);
            assert(dl.1.len() > 0);
            assert(a == flatten(d.drop_last()) + records_of(dl));
            assert(a.last() == records_of(dl).last());
        } else {
            assert(a.len() == 0);
        }
        lemma_runs_append_block(a, b);
        assert(runs(flatten(gs)) =~= gs.map_values(
            |g: (Seq<char>, Seq<Seq<char>>, Seq<char>)| records_of(g),
        ));
    }
}

/// Regrouping a grouped corpus that was flattened back into records gives
/// the same grouped corpus.
pub proof fn lemma_grouping_idempotent(s: Seq<(Seq<char>, Seq<char>, Seq<char>)>)
    ensures
        grouping(flatten(grouping(s))) == grouping(s),
{
    let r = runs(s);
    let gs = grouping(s);
    lemma_runs_shape(s);
    assert forall|i: int| 0 <= i < gs.len() implies #[trigger] gs[i].1.len() > 0 && group_of(records_of(gs[i])) == gs[i] by {
        let run = r[i];
        let t = sort_by_reference(run);
        lemma_sort_len(run);
        lemma_sort_sorted(run);
        let g = gs[i];
        assert(g == group_of(run));
        let rec = records_of(g);
        assert forall|j: int| 0 <= j < rec.len() - 1 implies !lex_lt(#[trigger] rec[j + 1].1, rec[j].1) by {
            assert(rec[j + 1].1 == t[j + 1].1 && rec[j].1 == t[j].1);
        }
        lemma_sort_identity(rec);
        assert(rec.map_values(|x: (Seq<char>, Seq<char>, Seq<char>)| x.1) =~= g.1);
    }
    assert forall|i: int| 0 <= i < gs.len() - 1 implies #[trigger] gs[i].0 != gs[i + 1].0 by {}
    lemma_runs_flatten(gs);
    assert(grouping(flatten(gs)) =~= gs);
}

} // verus!
