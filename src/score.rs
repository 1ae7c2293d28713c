//! Corpus statistics: n-gram precisions as counts, lengths and brevity.
use vstd::prelude::*;
use crate::group::{group_translations, group_views, grouping, GroupedTranslation};
use crate::record::{parse_records, readable, record_of, ParseError};
use crate::ngram::{clipped, clipped_count, lemma_clipped_disjoint, lemma_clipped_self, n_grams_of, text_ngrams};
use crate::text::{split_tokens, tokens, string_views};

verus! {

/// The sum of `f` over the human references of one group.
pub open spec fn sum_refs(refs: Seq<Seq<char>>, f: spec_fn(Seq<char>) -> nat) -> nat
    decreases refs.len(),
{
    if refs.len() == 0 {
        0
    } else {
        sum_refs(refs.drop_last(), f) + f(refs.last())
    }
}

/// The sum of `f` over the grouped translations of a corpus.
pub open spec fn sum_groups(
    gs: Seq<(Seq<char>, Seq<Seq<char>>, Seq<char>)>,
    f: spec_fn((Seq<char>, Seq<Seq<char>>, Seq<char>)) -> nat,
) -> nat
    decreases gs.len(),
{
    if gs.len() == 0 {
        0
    } else {
        sum_groups(gs.drop_last(), f) + f(gs.last())
    }
}

/// A reference's token count.
pub open spec fn ref_tokens() -> spec_fn(Seq<char>) -> nat {
    |r: Seq<char>| tokens(r).len()
}

/// A group's reference token count.
pub open spec fn group_ref_tokens() -> spec_fn((Seq<char>, Seq<Seq<char>>, Seq<char>)) -> nat {
    |g: (Seq<char>, Seq<Seq<char>>, Seq<char>)| sum_refs(g.1, ref_tokens())
}

/// A group's machine translation token count.
pub open spec fn group_translation_tokens() -> spec_fn((Seq<char>, Seq<Seq<char>>, Seq<char>)) -> nat {
    |g: (Seq<char>, Seq<Seq<char>>, Seq<char>)| tokens(g.2).len()
}

/// A reference's clipped count of order `n` against machine translation `mt`.
pub open spec fn ref_clipped(mt: Seq<char>, n: nat) -> spec_fn(Seq<char>) -> nat {
    |r: Seq<char>| clipped(text_ngrams(mt, n), text_ngrams(r, n))
}

/// A group's clipped count of order `n`, summed over its references.
pub open spec fn group_clipped(n: nat) -> spec_fn((Seq<char>, Seq<Seq<char>>, Seq<char>)) -> nat {
    |g: (Seq<char>, Seq<Seq<char>>, Seq<char>)| sum_refs(g.1, ref_clipped(g.2, n))
}

/// A reference's number of n-grams of order `n`.
pub open spec fn ref_ngrams(n: nat) -> spec_fn(Seq<char>) -> nat {
    |r: Seq<char>| text_ngrams(r, n).len()
}

/// A group's number of reference n-grams of order `n`.
pub open spec fn group_ngrams(n: nat) -> spec_fn((Seq<char>, Seq<Seq<char>>, Seq<char>)) -> nat {
    |g: (Seq<char>, Seq<Seq<char>>, Seq<char>)| sum_refs(g.1, ref_ngrams(n))
}

/// Total token count of every human reference of every group.
pub open spec fn reference_length(gs: Seq<(Seq<char>, Seq<Seq<char>>, Seq<char>)>) -> nat {
    sum_groups(gs, group_ref_tokens())
}

/// Total token count of the machine translations, once per group.
pub open spec fn translation_length(gs: Seq<(Seq<char>, Seq<Seq<char>>, Seq<char>)>) -> nat {
    sum_groups(gs, group_translation_tokens())
}

/// The clipped counts of order `n`, summed over every reference of every
/// group, each reference clipping the machine translation on its own.
pub open spec fn clipped_total(gs: Seq<(Seq<char>, Seq<Seq<char>>, Seq<char>)>, n: nat) -> nat {
    sum_groups(gs, group_clipped(n))
}

/// The number of n-grams of order `n` over every reference of every group.
pub open spec fn ngram_total(gs: Seq<(Seq<char>, Seq<Seq<char>>, Seq<char>)>, n: nat) -> nat {
    sum_groups(gs, group_ngrams(n))
}

proof fn lemma_sum_refs_prefix(refs: Seq<Seq<char>>, f: spec_fn(Seq<char>) -> nat, i: int)
    requires
        0 <= i <= refs.len(),
    ensures
        sum_refs(refs.take(i), f) <= sum_refs(refs, f),
    decreases refs.len() - i,
{
    if i < refs.len() {
        lemma_sum_refs_prefix(refs, f, i + 1);
        assert(refs.take(i + 1).drop_last() =~= refs.take(i));
    } else {
        assert(refs.take(i) =~= refs);
    }
}

proof fn lemma_sum_groups_prefix(
    gs: Seq<(Seq<char>, Seq<Seq<char>>, Seq<char>)>,
    f: spec_fn((Seq<char>, Seq<Seq<char>>, Seq<char>)) -> nat,
    i: int,
)
    requires
        0 <= i <= gs.len(),
    ensures
        sum_groups(gs.take(i), f) <= sum_groups(gs, f),
    decreases gs.len() - i,
{
    if i < gs.len() {
        lemma_sum_groups_prefix(gs, f, i + 1);
        assert(gs.take(i + 1).drop_last() =~= gs.take(i));
    } else {
        assert(gs.take(i) =~= gs);
    }
}

fn token_count(s: &String) -> (r: usize)
    ensures
        r == tokens(s@).len(),
{
    split_tokens(s.as_str()).len()
}

/// The aggregate lengths `(reference, translation)`: the tokens of every
/// human reference, and of each group's machine translation once; `None`
/// when either total exceeds `usize::MAX`.
pub fn compute_lengths(unique_translations: &Vec<GroupedTranslation>) -> (r: Option<(usize, usize)>)
    ensures
        r is Some <==> reference_length(group_views(unique_translations@)) <= usize::MAX
            && translation_length(group_views(unique_translations@)) <= usize::MAX,
        r matches Some((rl, tl)) ==> rl == reference_length(group_views(unique_translations@))
            && tl == translation_length(group_views(unique_translations@)),
{
    let ghost gs = group_views(unique_translations@);
    let mut ref_len: usize = 0;
    let mut trans_len: usize = 0;
    let mut i: usize = 0;
    while i < unique_translations.len()
        invariant
            0 <= i <= unique_translations.len(),
            gs == group_views(unique_translations@),
            reference_length(gs) == sum_groups(gs, group_ref_tokens()),
            translation_length(gs) == sum_groups(gs, group_translation_tokens()),
            ref_len == sum_groups(gs.take(i as int), group_ref_tokens()),
            trans_len == sum_groups(gs.take(i as int), group_translation_tokens()),
        decreases unique_translations.len() - i,
    {
        let g = &unique_translations[i];
        assert(gs.take(i + 1).drop_last() =~= gs.take(i as int));
        assert(gs[i as int] == g@);
        proof {
            lemma_sum_groups_prefix(gs, group_ref_tokens(), i + 1);
            lemma_sum_groups_prefix(gs, group_translation_tokens(), i + 1);
        }
        let ghost refs = g@.1;
        assert(sum_groups(gs.take(i + 1), group_ref_tokens()) == sum_groups(gs.take(i as int), group_ref_tokens())
            + sum_refs(refs, ref_tokens()));
        assert(sum_groups(gs.take(i + 1), group_translation_tokens()) == sum_groups(gs.take(i as int), group_translation_tokens())
            + tokens(g@.2).len());
        let mut inner: usize = 0;
        let mut j: usize = 0;
        while j < g.human_references.len()
            invariant
                0 <= j <= g.human_references.len(),
                gs == group_views(unique_translations@),
                refs == string_views(g.human_references@),
                inner == sum_refs(refs.take(j as int), ref_tokens()),
                ref_len + sum_refs(refs, ref_tokens()) == sum_groups(gs.take(i + 1), group_ref_tokens()),
                sum_groups(gs.take(i + 1), group_ref_tokens()) <= sum_groups(gs, group_ref_tokens()),
                sum_groups(gs, group_ref_tokens()) == reference_length(gs),
                ref_len + inner <= usize::MAX,
            decreases g.human_references.len() - j,
        {
            assert(refs.take(j + 1).drop_last() =~= refs.take(j as int));
            proof {
                lemma_sum_refs_prefix(refs, ref_tokens(), j + 1);
            }
            let c = token_count(&g.human_references[j]);
            assert(refs[j as int] == g.human_references@[j as int]@);
            assert(sum_refs(refs.take(j + 1), ref_tokens()) == inner + c);
            match inner.checked_add(c) {
                Some(v) => inner = v,
                None => return None,
            }
            match ref_len.checked_add(inner) {
                Some(_) => {},
                None => return None,
            }
            j = j + 1;
        }
        assert(refs.take(j as int) =~= refs);
        ref_len = ref_len + inner;
        let c = token_count(&g.machine_translation);
        match trans_len.checked_add(c) {
            Some(v) => trans_len = v,
            None => return None,
        }
        i = i + 1;
    }
    assert(gs.take(i as int) =~= gs);
    Some((ref_len, trans_len))
}

/// The counts behind the precision of one n-gram order: the precision is
/// `matched / total`.
pub struct NgramPrecision {
    pub matched: usize,
    pub total: usize,
}

/// For order `n`, the clipped counts of every reference of every group
/// (`matched`) and their number of n-grams (`total`); `None` when either
/// sum exceeds `usize::MAX`.
pub fn precision_counts(unique_translations: &Vec<GroupedTranslation>, n: usize) -> (r: Option<NgramPrecision>)
    requires
        n >= 1,
    ensures
        r is Some <==> clipped_total(group_views(unique_translations@), n as nat) <= usize::MAX
            && ngram_total(group_views(unique_translations@), n as nat) <= usize::MAX,
        r matches Some(p) ==> p.matched == clipped_total(group_views(unique_translations@), n as nat)
            && p.total == ngram_total(group_views(unique_translations@), n as nat),
{
    let ghost gs = group_views(unique_translations@);
    let mut matched: usize = 0;
    let mut total: usize = 0;
    let mut i: usize = 0;
    while i < unique_translations.len()
        invariant
            0 <= i <= unique_translations.len(),
            n >= 1,
            gs == group_views(unique_translations@),
            matched == sum_groups(gs.take(i as int), group_clipped(n as nat)),
            total == sum_groups(gs.take(i as int), group_ngrams(n as nat)),
        decreases unique_translations.len() - i,
    {
        let g = &unique_translations[i];
        assert(gs.take(i + 1).drop_last() =~= gs.take(i as int));
        assert(gs[i as int] == g@);
        proof {
            lemma_sum_groups_prefix(gs, group_clipped(n as nat), i + 1);
            lemma_sum_groups_prefix(gs, group_ngrams(n as nat), i + 1);
        }
        let ghost refs = g@.1;
        let ghost mt = g@.2;
        assert(sum_groups(gs.take(i + 1), group_clipped(n as nat)) == matched + sum_refs(
            refs,
            ref_clipped(mt, n as nat),
        ));
        assert(sum_groups(gs.take(i + 1), group_ngrams(n as nat)) == total + sum_refs(
            refs,
            ref_ngrams(n as nat),
        ));
        let machine = n_grams_of(g.machine_translation.as_str(), n);
        let mut inner_matched: usize = 0;
        let mut inner_total: usize = 0;
        let mut j: usize = 0;
        while j < g.human_references.len()
            invariant
                0 <= j <= g.human_references.len(),
                n >= 1,
                gs == group_views(unique_translations@),
                refs == string_views(g.human_references@),
                string_views(machine@) == text_ngrams(mt, n as nat),
                inner_matched == sum_refs(refs.take(j as int), ref_clipped(mt, n as nat)),
                inner_total == sum_refs(refs.take(j as int), ref_ngrams(n as nat)),
                matched + sum_refs(refs, ref_clipped(mt, n as nat)) <= clipped_total(gs, n as nat),
                total + sum_refs(refs, ref_ngrams(n as nat)) <= ngram_total(gs, n as nat),
                matched + inner_matched <= usize::MAX,
                total + inner_total <= usize::MAX,
            decreases g.human_references.len() - j,
        {
            assert(refs.take(j + 1).drop_last() =~= refs.take(j as int));
            proof {
                lemma_sum_refs_prefix(refs, ref_clipped(mt, n as nat), j + 1);
                lemma_sum_refs_prefix(refs, ref_ngrams(n as nat), j + 1);
            }
            assert(refs[j as int] == g.human_references@[j as int]@);
            let human = n_grams_of(g.human_references[j].as_str(), n);
            let human_len = human.len();
            let c = clipped_count(&machine, human);
            assert(sum_refs(refs.take(j + 1), ref_clipped(mt, n as nat)) == inner_matched + c);
            assert(sum_refs(refs.take(j + 1), ref_ngrams(n as nat)) == inner_total + human_len);
            match inner_matched.checked_add(c) {
                Some(v) => inner_matched = v,
                None => return None,
            }
            match inner_total.checked_add(human_len) {
                Some(v) => inner_total = v,
                None => return None,
            }
            match matched.checked_add(inner_matched) {
                Some(_) => {},
                None => return None,
            }
            match total.checked_add(inner_total) {
                Some(_) => {},
                None => return None,
            }
            j = j + 1;
        }
        assert(refs.take(j as int) =~= refs);
        matched = matched + inner_matched;
        total = total + inner_total;
        i = i + 1;
    }
    assert(gs.take(i as int) =~= gs);
    Some(NgramPrecision { matched, total })
}

/// The brevity penalty of a corpus.
pub enum BrevityPenalty {
    /// The translation is at least as long as the references: the penalty is 1.
    Full,
    /// The translation is shorter: the penalty is
    /// `exp(1 - reference_length / translation_length)`.
    Reduced { reference_length: usize, translation_length: usize },
}

/// Whether translation length `c` against reference length `r` carries no penalty.
pub open spec fn full_penalty(r: nat, c: nat) -> bool {
    c >= r
}

/// No penalty once the translation is at least as long as the references;
/// otherwise `exp(1 - reference_length / translation_length)`.
pub fn compute_brevity_penalty(reference_length: usize, translation_length: usize) -> (r: BrevityPenalty)
    ensures
        full_penalty(reference_length as nat, translation_length as nat) ==> r is Full,
        !full_penalty(reference_length as nat, translation_length as nat) ==> r == (BrevityPenalty::Reduced { reference_length, translation_length }),
{
    if translation_length >= reference_length {
        BrevityPenalty::Full
    } else {
        BrevityPenalty::Reduced { reference_length, translation_length }
    }
}

/// Everything the score is computed from: the precision counts of orders
/// 1 to 4 (`precisions[k]` is order `k + 1`), the aggregate lengths and
/// the brevity penalty.
pub struct CorpusStatistics {
    pub precisions: Vec<NgramPrecision>,
    pub reference_length: usize,
    pub translation_length: usize,
    pub brevity_penalty: BrevityPenalty,
}

/// Whether every count of the corpus fits in a `usize`.
pub open spec fn counts_fit(gs: Seq<(Seq<char>, Seq<Seq<char>>, Seq<char>)>) -> bool {
    &&& reference_length(gs) <= usize::MAX
    &&& translation_length(gs) <= usize::MAX
    &&& forall|n: nat| 1 <= n <= 4 ==> #[trigger] clipped_total(gs, n) <= usize::MAX
    &&& forall|n: nat| 1 <= n <= 4 ==> #[trigger] ngram_total(gs, n) <= usize::MAX
}

/// `st` holds the statistics of the grouped corpus `gs`.
pub open spec fn statistics_of(gs: Seq<(Seq<char>, Seq<Seq<char>>, Seq<char>)>, st: CorpusStatistics) -> bool {
    &&& st.precisions.len() == 4
    &&& forall|k: int| 0 <= k < 4 ==> (#[trigger] st.precisions@[k]).matched == clipped_total(gs, (k + 1) as nat)
        && st.precisions@[k].total == ngram_total(gs, (k + 1) as nat)
    &&& st.reference_length == reference_length(gs)
    &&& st.translation_length == translation_length(gs)
    &&& (full_penalty(reference_length(gs), translation_length(gs)) ==> st.brevity_penalty is Full)
    &&& (!full_penalty(reference_length(gs), translation_length(gs)) ==> st.brevity_penalty == (BrevityPenalty::Reduced {
        reference_length: st.reference_length,
        translation_length: st.translation_length,
    }))
}

/// The statistics of a grouped corpus; `None` when a count exceeds `usize::MAX`.
pub fn corpus_statistics(unique_translations: &Vec<GroupedTranslation>) -> (r: Option<CorpusStatistics>)
    ensures
        r is Some <==> counts_fit(group_views(unique_translations@)),
        r matches Some(st) ==> statistics_of(group_views(unique_translations@), st),
{
    let ghost gs = group_views(unique_translations@);
    let mut precisions: Vec<NgramPrecision> = Vec::new();
    let mut n: usize = 1;
    while n <= 4
        invariant
            1 <= n <= 5,
            gs == group_views(unique_translations@),
            precisions.len() == n - 1,
            forall|k: int| 0 <= k < n - 1 ==> (#[trigger] precisions@[k]).matched == clipped_total(gs, (k + 1) as nat)
                && precisions@[k].total == ngram_total(gs, (k + 1) as nat),
            forall|m: nat| 1 <= m < n ==> #[trigger] clipped_total(gs, m) <= usize::MAX,
            forall|m: nat| 1 <= m < n ==> #[trigger] ngram_total(gs, m) <= usize::MAX,
        decreases 5 - n,
    {
        match precision_counts(unique_translations, n) {
            Some(p) => precisions.push(p),
            None => return None,
        }
        n = n + 1;
    }
    match compute_lengths(unique_translations) {
        Some((reference_length, translation_length)) => {
            let brevity_penalty = compute_brevity_penalty(reference_length, translation_length);
            Some(CorpusStatistics { precisions, reference_length, translation_length, brevity_penalty })
        },
        None => None,
    }
}

/// The statistics of a corpus given as tab-separated lines: the lines are
/// parsed, consecutive records with equal source ids grouped, and the
/// groups measured. The first line with fewer than two fields is the error.
pub fn evaluate_lines(lines: &Vec<String>) -> (r: Result<Option<CorpusStatistics>, ParseError>)
    ensures
        r is Ok <==> forall|i: int| 0 <= i < lines@.len() ==> readable(#[trigger] lines@[i]@),
        r matches Ok(o) ==> {
            let gs = grouping(string_views(lines@).map_values(|s: Seq<char>| record_of(s)));
            &&& (o is Some <==> counts_fit(gs))
            &&& (o matches Some(st) ==> statistics_of(gs, st))
        },
        r matches Err(ParseError::MalformedRecord { line: l }) ==> exists|i: int|
            0 <= i < lines@.len() && !readable(#[trigger] lines@[i]@) && l@ == lines@[i]@,
{
    let records = match parse_records(lines) {
        Ok(records) => records,
        Err(e) => return Err(e),
    };
    let groups = group_translations(records);
    Ok(corpus_statistics(&groups))
}

/// The brevity penalty never decreases as the translation grows against a
/// fixed reference length: once there is no penalty there stays none, and
/// while there is one its exponent `1 - r / c` does not decrease
/// (`r / c2 <= r / c1`, that is `r * c1 <= r * c2`).
pub proof fn lemma_brevity_monotone(r: nat, c1: nat, c2: nat)
    requires
        c1 <= c2,
    ensures
        full_penalty(r, c1) ==> full_penalty(r, c2),
        r * c1 <= r * c2,
{
    assert(r * c1 <= r * c2) by (nonlinear_arith)
        requires
            c1 <= c2,
    ;
}

proof fn lemma_sum_refs_zero(refs: Seq<Seq<char>>, f: spec_fn(Seq<char>) -> nat)
    requires
        forall|j: int| 0 <= j < refs.len() ==> f(#[trigger] refs[j]) == 0,
    ensures
        sum_refs(refs, f) == 0,
    decreases refs.len(),
{
    if refs.len() > 0 {
        assert forall|j: int| 0 <= j < refs.drop_last().len() implies f(#[trigger] refs.drop_last()[j]) == 0 by {
            assert(refs.drop_last()[j] == refs[j]);
        }
        lemma_sum_refs_zero(refs.drop_last(), f);
        assert(f(refs[refs.len() - 1]) == 0);
    }
}

/// Unigrams are the tokens themselves.
pub proof fn lemma_unigrams(s: Seq<char>)
    ensures
        text_ngrams(s, 1) == tokens(s),
{
    let t = tokens(s);
    if t.len() >= 1 {
        assert forall|i: int| 0 <= i < t.len() implies #[trigger] text_ngrams(s, 1)[i] == t[i] by {
            assert(t.subrange(i, i + 1).len() == 1);
        }
    }
    assert(text_ngrams(s, 1) =~= t);
}

/// When every machine translation is exactly its group's only reference,
/// every n-gram of every order is matched and the lengths agree, so there
/// is no brevity penalty.
pub proof fn lemma_identical_corpus(gs: Seq<(Seq<char>, Seq<Seq<char>>, Seq<char>)>, n: nat)
    requires
        forall|i: int| 0 <= i < gs.len() ==> #[trigger] gs[i].1 == seq![gs[i].2],
    ensures
        clipped_total(gs, n) == ngram_total(gs, n),
        reference_length(gs) == translation_length(gs),
        full_penalty(reference_length(gs), translation_length(gs)),
    decreases gs.len(),
{
    if gs.len() > 0 {
        let d = gs.drop_last();
        assert forall|i: int| 0 <= i < d.len() implies #[trigger] d[i].1 == seq![d[i].2] by {
            assert(d[i] == gs[i]);
        }
        lemma_identical_corpus(d, n);
        let g = gs.last();
        assert(g.1 == seq![g.2]);
        assert(g.1.drop_last() =~= Seq::<Seq<char>>::empty());
        lemma_clipped_self(text_ngrams(g.2, n));
        assert(g.1.last() == g.2);
        assert(sum_refs(g.1.drop_last(), ref_clipped(g.2, n)) == 0);
        assert(sum_refs(g.1.drop_last(), ref_ngrams(n)) == 0);
        assert(sum_refs(g.1.drop_last(), ref_tokens()) == 0);
        assert(sum_refs(g.1, ref_clipped(g.2, n)) == clipped(text_ngrams(g.2, n), text_ngrams(g.2, n)));
        assert(sum_refs(g.1, ref_ngrams(n)) == text_ngrams(g.2, n).len());
        assert(sum_refs(g.1, ref_tokens()) == tokens(g.2).len());
    }
}

/// When no token of a machine translation occurs in any reference of its
/// group, no unigram is matched.
pub proof fn lemma_disjoint_corpus(gs: Seq<(Seq<char>, Seq<Seq<char>>, Seq<char>)>)
    requires
        forall|i: int, j: int, k: int|
            0 <= i < gs.len() && 0 <= j < gs[i].1.len() && 0 <= k < tokens(gs[i].2).len()
                ==> !tokens(#[trigger] gs[i].1[j]).contains(#[trigger] tokens(gs[i].2)[k]),
    ensures
        clipped_total(gs, 1) == 0,
    decreases gs.len(),
{
    if gs.len() > 0 {
        let d = gs.drop_last();
        assert forall|i: int, j: int, k: int|
            0 <= i < d.len() && 0 <= j < d[i].1.len() && 0 <= k < tokens(d[i].2).len()
                implies !tokens(#[trigger] d[i].1[j]).contains(#[trigger] tokens(d[i].2)[k]) by {
            assert(d[i] == gs[i]);
        }
        lemma_disjoint_corpus(d);
        let g = gs.last();
        let i = gs.len() - 1;
        assert forall|j: int| 0 <= j < g.1.len() implies ref_clipped(g.2, 1)(#[trigger] g.1[j]) == 0 by {
            lemma_unigrams(g.2);
            lemma_unigrams(g.1[j]);
            let m = tokens(g.2);
            let h = tokens(g.1[j]);
            assert forall|k: int| 0 <= k < m.len() implies !h.contains(#[trigger] m[k]) by {
                assert(gs[i] == g);
            }
            lemma_clipped_disjoint(m, h);
        }
        lemma_sum_refs_zero(g.1, ref_clipped(g.2, 1));
    }
}

} // verus!
