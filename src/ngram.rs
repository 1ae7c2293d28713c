//! N-gram extraction and counting.
use vstd::prelude::*;
use crate::text::{split_tokens, string_of, string_views, tokens, views};

verus! {

/// Tokens joined by single spaces.
pub open spec fn join(ws: Seq<Seq<char>>) -> Seq<char>
    decreases ws.len(),
{
    if ws.len() == 0 {
        seq![]
    } else if ws.len() == 1 {
        ws[0]
    } else {
        join(ws.drop_last()) + seq![' '] + ws.last()
    }
}

/// Every window of `n` consecutive tokens, joined by spaces, left to right.
pub open spec fn ngrams(toks: Seq<Seq<char>>, n: nat) -> Seq<Seq<char>> {
    if n == 0 || toks.len() < n {
        seq![]
    } else {
        Seq::new((toks.len() - n + 1) as nat, |i: int| join(toks.subrange(i, i + n)))
    }
}

/// The n-grams of order `n` of a text.
pub open spec fn text_ngrams(s: Seq<char>, n: nat) -> Seq<Seq<char>> {
    ngrams(tokens(s), n)
}

/// How often `g` occurs in `s`.
pub open spec fn occurrences(s: Seq<Seq<char>>, g: Seq<char>) -> nat
    decreases s.len(),
{
    if s.len() == 0 {
        0
    } else {
        occurrences(s.drop_last(), g) + if s.last() == g {
            1nat
        } else {
            0nat
        }
    }
}

/// The clipped count of `m` against `h`: the sum, over the distinct n-grams
/// `g` of `m`, of `min(occurrences(m, g), occurrences(h, g))`. Counted
/// occurrence by occurrence: the k-th occurrence of `g` in `m` scores when
/// `h` holds at least k of them.
pub open spec fn clipped(m: Seq<Seq<char>>, h: Seq<Seq<char>>) -> nat
    decreases m.len(),
{
    if m.len() == 0 {
        0
    } else {
        clipped(m.drop_last(), h) + if occurrences(m.drop_last(), m.last()) < occurrences(
            h,
            m.last(),
        ) {
            1nat
        } else {
            0nat
        }
    }
}

/// A sentence of `k` tokens has `k - n + 1` n-grams of order `n` when
/// `1 <= n <= k`, and none when `n > k`.
pub proof fn lemma_ngram_count(s: Seq<char>, n: nat)
    requires
        n >= 1,
    ensures
        n <= tokens(s).len() ==> text_ngrams(s, n).len() == tokens(s).len() - n + 1,
        n > tokens(s).len() ==> text_ngrams(s, n).len() == 0,
{
}

/// A prefix holds no more occurrences than the whole.
pub proof fn lemma_occurrences_prefix(s: Seq<Seq<char>>, i: int, g: Seq<char>)
    requires
        0 <= i <= s.len(),
    ensures
        occurrences(s.take(i), g) <= occurrences(s, g),
    decreases s.len() - i,
{
    if i < s.len() {
        lemma_occurrences_prefix(s, i + 1, g);
        assert(s.take(i + 1).drop_last() =~= s.take(i));
    } else {
        assert(s.take(i) =~= s);
    }
}

/// Clipped against itself, every n-gram scores.
pub proof fn lemma_clipped_self(m: Seq<Seq<char>>)
    ensures
        clipped(m, m) == m.len(),
{
    lemma_clipped_self_prefix(m, m.len() as int);
    assert(m.take(m.len() as int) =~= m);
}

proof fn lemma_clipped_self_prefix(m: Seq<Seq<char>>, i: int)
    requires
        0 <= i <= m.len(),
    ensures
        clipped(m.take(i), m) == i,
    decreases i,
{
    if i > 0 {
        lemma_clipped_self_prefix(m, i - 1);
        let p = m.take(i);
        assert(p.drop_last() =~= m.take(i - 1));
        lemma_occurrences_prefix(m, i, p.last());
        assert(occurrences(p, p.last()) == occurrences(p.drop_last(), p.last()) + 1);
    }
}

/// When no n-gram of `m` occurs in `h`, nothing scores.
pub proof fn lemma_clipped_disjoint(m: Seq<Seq<char>>, h: Seq<Seq<char>>)
    requires
        forall|i: int| 0 <= i < m.len() ==> !h.contains(#[trigger] m[i]),
    ensures
        clipped(m, h) == 0,
    decreases m.len(),
{
    if m.len() > 0 {
        lemma_occurrences_absent(h, m.last());
        assert forall|i: int| 0 <= i < m.drop_last().len() implies !h.contains(
            #[trigger] m.drop_last()[i],
        ) by {
            assert(m.drop_last()[i] == m[i]);
        }
        lemma_clipped_disjoint(m.drop_last(), h);
    }
}

/// An absent n-gram occurs zero times.
pub proof fn lemma_occurrences_absent(s: Seq<Seq<char>>, g: Seq<char>)
    requires
        !s.contains(g),
    ensures
        occurrences(s, g) == 0,
    decreases s.len(),
{
    if s.len() > 0 {
        assert(!s.drop_last().contains(g)) by {
            if s.drop_last().contains(g) {
                let j = choose|j: int| 0 <= j < s.drop_last().len() && s.drop_last()[j] == g;
                assert(s[j] == g);
            }
        }
        lemma_occurrences_absent(s.drop_last(), g);
        assert(s[s.len() - 1] != g);
    }
}

/// Extracts the n-grams of order `n` of `s`: every window of `n`
/// whitespace tokens, joined by single spaces, left to right.
pub fn n_grams_of(s: &str, n: usize) -> (r: Vec<String>)
    requires
        n >= 1,
    ensures
        string_views(r@) == text_ngrams(s@, n as nat),
        n <= tokens(s@).len() ==> r.len() == tokens(s@).len() - n + 1,
        n > tokens(s@).len() ==> r.len() == 0,
{
    let toks = split_tokens(s);
    let ghost tv = views(toks@);
    let mut out: Vec<String> = Vec::new();
    if toks.len() < n {
        assert(string_views(out@) =~= text_ngrams(s@, n as nat));
        return out;
    }
    let count = toks.len() - n + 1;
    let mut i: usize = 0;
    while i < count
        invariant
            tv == views(toks@),
            tv == tokens(s@),
            n >= 1,
            count == toks.len() - n + 1,
            0 <= i <= count,
            string_views(out@) =~= ngrams(tv, n as nat).take(i as int),
        decreases count - i,
    {
        let mut buf: Vec<char> = Vec::new();
        let mut j: usize = 0;
        while j < n
            invariant
                tv == views(toks@),
                n >= 1,
                i + n <= toks.len(),
                0 <= j <= n,
                j == 0 ==> buf@ == Seq::<char>::empty(),
                j > 0 ==> buf@ == join(tv.subrange(i as int, i + j)),
            decreases n - j,
        {
            let ghost before = buf@;
            if j > 0 {
                buf.push(' ');
            }
            let tok = &toks[i + j];
            let mut k: usize = 0;
            let ghost mid = buf@;
            while k < tok.len()
                invariant
                    0 <= k <= tok.len(),
                    buf@ == mid + tok@.take(k as int),
                decreases tok.len() - k,
            {
                buf.push(tok[k]);
                k = k + 1;
                assert(buf@ =~= mid + tok@.take(k as int));
            }
            assert(tok@.take(k as int) =~= tok@);
            assert(tv[i + j] == tok@);
            let ghost w = tv.subrange(i as int, i + j + 1);
            if j == 0 {
                assert(buf@ =~= tok@);
                assert(w.len() == 1 && w[0] == tok@);
            } else {
                assert(w.drop_last() =~= tv.subrange(i as int, i + j));
                assert(buf@ =~= join(w.drop_last()) + seq![' '] + w.last());
            }
            j = j + 1;
        }
        let g = string_of(&buf);
        let ghost prev = string_views(out@);
        out.push(g);
        assert(string_views(out@) =~= prev.push(g@));
        assert(ngrams(tv, n as nat).take(i + 1) =~= ngrams(tv, n as nat).take(i as int).push(
            join(tv.subrange(i as int, i + n)),
        ));
        i = i + 1;
    }
    assert(ngrams(tv, n as nat).take(count as int) =~= ngrams(tv, n as nat));
    out
}

/// Occurrence counts of n-grams: each distinct n-gram with how often it
/// was added.
pub struct NgramCounts {
    entries: Vec<(String, usize)>,
    model: Ghost<Map<Seq<char>, nat>>,
}

impl View for NgramCounts {
    type V = Map<Seq<char>, nat>;

    closed spec fn view(&self) -> Map<Seq<char>, nat> {
        self.model@
    }
}

impl NgramCounts {
    /// The entries are distinct, positive, and are exactly the model.
    pub closed spec fn wf(&self) -> bool {
        &&& forall|i: int, j: int|
            0 <= i < j < self.entries@.len() ==> #[trigger] self.entries@[i].0@
                != #[trigger] self.entries@[j].0@
        &&& forall|i: int|
            0 <= i < self.entries@.len() ==> {
                let e = #[trigger] self.entries@[i];
                &&& self.model@.contains_key(e.0@)
                &&& self.model@[e.0@] == e.1 as nat
            }
        &&& forall|g: Seq<char>|
            #[trigger] self.model@.contains_key(g) ==> exists|i: int|
                0 <= i < self.entries@.len() && #[trigger] self.entries@[i].0@ == g
        &&& forall|g: Seq<char>| #[trigger] self.model@.contains_key(g) ==> self.model@[g] > 0
    }

    /// How often `g` was counted.
    pub open spec fn count(&self, g: Seq<char>) -> nat {
        if self@.contains_key(g) {
            self@[g]
        } else {
            0
        }
    }

    /// No n-gram counted yet.
    pub fn new() -> (r: NgramCounts)
        ensures
            r.wf(),
            r@ == Map::<Seq<char>, nat>::empty(),
    {
        NgramCounts { entries: Vec::new(), model: Ghost(Map::empty()) }
    }

    fn find(&self, g: &String) -> (r: Option<usize>)
        requires
            self.wf(),
        ensures
            r is Some <==> self@.contains_key(g@),
            r matches Some(i) ==> i < self.entries@.len() && self.entries@[i as int].0@ == g@,
    {
        let mut i: usize = 0;
        while i < self.entries.len()
            invariant
                self.wf(),
                0 <= i <= self.entries@.len(),
                forall|j: int| 0 <= j < i ==> #[trigger] self.entries@[j].0@ != g@,
            decreases self.entries.len() - i,
        {
            if self.entries[i].0 == *g {
                assert(self.model@.contains_key(self.entries@[i as int].0@));
                return Some(i);
            }
            i = i + 1;
        }
        proof {
            if self@.contains_key(g@) {
                let j = choose|j: int|
                    0 <= j < self.entries@.len() && #[trigger] self.entries@[j].0@ == g@;
                assert(self.entries@[j].0@ != g@);
            }
        }
        None
    }

    /// How often `g` was counted.
    pub fn get(&self, g: &String) -> (r: usize)
        requires
            self.wf(),
        ensures
            r == self.count(g@),
    {
        match self.find(g) {
            Some(i) => self.entries[i].1,
            None => 0,
        }
    }

    /// Counts one more occurrence of `g`.
    pub fn add(&mut self, g: String)
        requires
            old(self).wf(),
            old(self).count(g@) < usize::MAX,
        ensures
            final(self).wf(),
            final(self)@ == old(self)@.insert(g@, old(self).count(g@) + 1),
    {
        let ghost key = g@;
        match self.find(&g) {
            Some(i) => {
                let c = self.entries[i].1;
                let ghost old_entries = self.entries@;
                self.entries.set(i, (g, c + 1));
                self.model = Ghost(self.model@.insert(key, (c + 1) as nat));
                assert forall|h: Seq<char>| #[trigger] self.model@.contains_key(h) implies exists|
                    j: int,
                |
                    0 <= j < self.entries@.len() && #[trigger] self.entries@[j].0@ == h by {
                    if h != key {
                        let j = choose|j: int|
                            0 <= j < old_entries.len() && #[trigger] old_entries[j].0@ == h;
                        assert(self.entries@[j].0@ == h);
                    } else {
                        assert(self.entries@[i as int].0@ == h);
                    }
                }
            },
            None => {
                let ghost old_entries = self.entries@;
                self.entries.push((g, 1));
                self.model = Ghost(self.model@.insert(key, 1));
                assert forall|h: Seq<char>| #[trigger] self.model@.contains_key(h) implies exists|
                    j: int,
                |
                    0 <= j < self.entries@.len() && #[trigger] self.entries@[j].0@ == h by {
                    if h != key {
                        let j = choose|j: int|
                            0 <= j < old_entries.len() && #[trigger] old_entries[j].0@ == h;
                        assert(self.entries@[j].0@ == h);
                    } else {
                        assert(self.entries@[old_entries.len() as int].0@ == h);
                    }
                }
                assert forall|a: int, b: int|
                    0 <= a < b < self.entries@.len() implies #[trigger] self.entries@[a].0@
                    != #[trigger] self.entries@[b].0@ by {
                    if b == old_entries.len() {
                        assert(self.model@.contains_key(old_entries[a].0@));
                    }
                }
            },
        }
    }
}

/// Counts how often each distinct n-gram occurs in `ngrams`.
pub fn count_ngrams(ngrams: Vec<String>) -> (r: NgramCounts)
    ensures
        r.wf(),
        forall|g: Seq<char>| #[trigger] r.count(g) == occurrences(string_views(ngrams@), g),
        forall|g: Seq<char>| #[trigger] r@.contains_key(g) <==> occurrences(string_views(ngrams@), g) > 0,
{
    let mut counts = NgramCounts::new();
    let ghost all = string_views(ngrams@);
    let mut i: usize = 0;
    while i < ngrams.len()
        invariant
            0 <= i <= ngrams.len(),
            all == string_views(ngrams@),
            counts.wf(),
            forall|g: Seq<char>| #[trigger] counts.count(g) == occurrences(all.take(i as int), g),
            forall|g: Seq<char>| counts.count(g) <= i,
        decreases ngrams.len() - i,
    {
        let g = ngrams[i].clone();
        assert(all.take(i + 1).drop_last() =~= all.take(i as int));
        assert(counts.count(g@) <= i);
        let ghost key = g@;
        let ghost before = counts;
        counts.add(g);
        assert forall|h: Seq<char>| #[trigger] counts.count(h) == occurrences(all.take(i + 1), h)
            by {
            assert(all.take(i + 1).last() == key);
            if h != key {
                assert(counts.count(h) == before.count(h));
            }
        }
        assert forall|h: Seq<char>| counts.count(h) <= i + 1 by {
            if h != key {
                assert(counts.count(h) == before.count(h));
            }
        }
        i = i + 1;
    }
    assert(all.take(i as int) =~= all);
    assert forall|g: Seq<char>| #[trigger] counts@.contains_key(g) <==> occurrences(all, g) > 0 by {
        assert(counts.count(g) == occurrences(all, g));
        if counts@.contains_key(g) {
            assert(counts.model@.contains_key(g));
            assert(counts@[g] > 0);
        }
    }
    counts
}

/// The clipped count of the machine n-grams against one reference's n-grams.
pub fn clipped_count(machine: &Vec<String>, reference: Vec<String>) -> (r: usize)
    ensures
        r == clipped(string_views(machine@), string_views(reference@)),
{
    let ghost h = string_views(reference@);
    let ghost m = string_views(machine@);
    let human = count_ngrams(reference);
    let mut seen = NgramCounts::new();
    let mut total: usize = 0;
    let mut i: usize = 0;
    while i < machine.len()
        invariant
            0 <= i <= machine.len(),
            m == string_views(machine@),
            human.wf(),
            forall|g: Seq<char>| #[trigger] human.count(g) == occurrences(h, g),
            seen.wf(),
            forall|g: Seq<char>| #[trigger] seen.count(g) == occurrences(m.take(i as int), g),
            forall|g: Seq<char>| seen.count(g) <= i,
            total == clipped(m.take(i as int), h),
            total <= i,
        decreases machine.len() - i,
    {
        let g = &machine[i];
        assert(m.take(i + 1).drop_last() =~= m.take(i as int));
        assert(m.take(i + 1).last() == g@);
        if seen.get(g) < human.get(g) {
            total = total + 1;
        }
        assert(seen.count(g@) <= i);
        let ghost key = g@;
        let ghost before = seen;
        seen.add(g.clone());
        assert forall|h: Seq<char>| #[trigger] seen.count(h) == occurrences(m.take(i + 1), h) by {
            if h != key {
                assert(seen.count(h) == before.count(h));
            }
        }
        assert forall|h: Seq<char>| seen.count(h) <= i + 1 by {
            if h != key {
                assert(seen.count(h) == before.count(h));
            }
        }
        i = i + 1;
    }
    assert(m.take(i as int) =~= m);
    total
}

} // verus!
