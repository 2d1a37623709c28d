use vstd::prelude::*;
use crate::automaton::{accepts, state_view, Automaton, DfaState};
use crate::teacher::Teacher;
use crate::word::{bools_eq, concat_vec_elem, concat_vecs, copy_word, words_eq};

verus! {

/// The words that a list of vectors holds.
pub open spec fn words(v: Seq<Vec<char>>) -> Seq<Seq<char>> {
    v.map_values(|x: Vec<char>| x@)
}

/// The one-symbol extensions of `s`, in the order of the alphabet.
pub open spec fn ext(s: Seq<char>, sigma: Seq<char>) -> Seq<Seq<char>> {
    sigma.map_values(|a: char| s.push(a))
}

/// S·Σ: every prefix extended by every symbol, prefix by prefix.
pub open spec fn sa_seq(s: Seq<Seq<char>>, sigma: Seq<char>) -> Seq<Seq<char>>
    decreases s.len(),
{
    if s.len() == 0 {
        Seq::empty()
    } else {
        sa_seq(s.drop_last(), sigma) + ext(s.last(), sigma)
    }
}

/// `w` is `s[i]·a` for some prefix and some symbol of the alphabet.
pub open spec fn in_sa(s: Seq<Seq<char>>, sigma: Seq<char>, w: Seq<char>) -> bool {
    exists|i: int, j: int| 0 <= i < s.len() && 0 <= j < sigma.len() && w == #[trigger] s[i].push(sigma[j])
}

/// The row signature of `w`: the answers for `w·e`, column by column.
pub open spec fn sig(m: spec_fn(Seq<char>) -> bool, e: Seq<Seq<char>>, w: Seq<char>) -> Seq<bool> {
    Seq::new(e.len(), |j: int| m(w + e[j]))
}

/// Some prefix has the same row signature as `w`.
pub open spec fn represented(m: spec_fn(Seq<char>) -> bool, e: Seq<Seq<char>>, s: Seq<Seq<char>>, w: Seq<char>) -> bool {
    exists|k: int| 0 <= k < s.len() && #[trigger] sig(m, e, s[k]) == sig(m, e, w)
}

/// Every one-symbol extension of a prefix has the row signature of some prefix.
pub open spec fn closed(m: spec_fn(Seq<char>) -> bool, s: Seq<Seq<char>>, e: Seq<Seq<char>>, sigma: Seq<char>) -> bool {
    forall|i: int, j: int| 0 <= i < s.len() && 0 <= j < sigma.len()
        ==> represented(m, e, s, #[trigger] s[i].push(sigma[j]))
}

/// Prefixes with equal row signatures keep them equal when extended by a symbol.
pub open spec fn consistent(m: spec_fn(Seq<char>) -> bool, s: Seq<Seq<char>>, e: Seq<Seq<char>>, sigma: Seq<char>) -> bool {
    forall|i1: int, i2: int, j: int|
        0 <= i1 < s.len() && 0 <= i2 < s.len() && 0 <= j < sigma.len()
            && sig(m, e, s[i1]) == sig(m, e, s[i2])
            ==> sig(m, e, #[trigger] s[i1].push(sigma[j])) == sig(m, e, #[trigger] s[i2].push(sigma[j]))
}

proof fn lemma_words_push(v: Seq<Vec<char>>, x: Vec<char>)
    ensures
        words(v.push(x)) == words(v).push(x@),
{
    assert(words(v.push(x)) =~= words(v).push(x@));
}

proof fn lemma_sa_seq_contains(s: Seq<Seq<char>>, sigma: Seq<char>, w: Seq<char>)
    ensures
        sa_seq(s, sigma).contains(w) <==> in_sa(s, sigma, w),
    decreases s.len(),
{
    if s.len() > 0 {
        let s0 = s.drop_last();
        lemma_sa_seq_contains(s0, sigma, w);
        let a = sa_seq(s0, sigma);
        let b = ext(s.last(), sigma);
        if sa_seq(s, sigma).contains(w) {
            let k = choose|k: int| 0 <= k < sa_seq(s, sigma).len() && sa_seq(s, sigma)[k] == w;
            if k < a.len() {
                assert(a[k] == w);
                let (i, j) = choose|i: int, j: int| 0 <= i < s0.len() && 0 <= j < sigma.len() && w == #[trigger] s0[i].push(sigma[j]);
                assert(s[i] == s0[i]);
            } else {
                let j = k - a.len();
                assert(b[j] == w);
                assert(w == s[s.len() - 1].push(sigma[j]));
            }
        }
        if in_sa(s, sigma, w) {
            let (i, j) = choose|i: int, j: int| 0 <= i < s.len() && 0 <= j < sigma.len() && w == #[trigger] s[i].push(sigma[j]);
            if i < s.len() - 1 {
                assert(s0[i] == s[i]);
                assert(in_sa(s0, sigma, w));
                let k = choose|k: int| 0 <= k < a.len() && a[k] == w;
                assert(sa_seq(s, sigma)[k] == w);
            } else {
                assert(b[j] == w);
                assert(sa_seq(s, sigma)[a.len() + j] == w);
            }
        }
    }
}

/// Angluin's observation table: prefixes S, suffixes E, alphabet Σ, and for each
/// row of S followed by S·Σ the answers for that row followed by each suffix.
#[derive(Debug)]
pub struct ObservationTable {
    alphabets: Vec<char>,
    s_prefixes: Vec<Vec<char>>,
    e_suffixes: Vec<Vec<char>>,
    rows: Vec<Vec<char>>,
    table: Vec<Vec<bool>>,
}

impl ObservationTable {
    pub closed spec fn prefixes(&self) -> Seq<Seq<char>> {
        words(self.s_prefixes@)
    }

    pub closed spec fn suffixes(&self) -> Seq<Seq<char>> {
        words(self.e_suffixes@)
    }

    pub closed spec fn alphabet(&self) -> Seq<char> {
        self.alphabets@
    }

    /// The row labels of the last refresh.
    pub closed spec fn row_words(&self) -> Seq<Seq<char>> {
        words(self.rows@)
    }

    /// The answers of the last refresh, row by row.
    pub closed spec fn entries(&self) -> Seq<Seq<bool>> {
        self.table@.map_values(|r: Vec<bool>| r@)
    }

    /// The empty word is the first prefix and the first suffix, S and E hold
    /// no word twice, and every row label has its row of answers.
    pub open spec fn wf(&self) -> bool {
        &&& self.prefixes().no_duplicates()
        &&& self.suffixes().no_duplicates()
        &&& self.prefixes().len() > 0
        &&& self.prefixes()[0] == Seq::<char>::empty()
        &&& self.suffixes().len() > 0
        &&& self.suffixes()[0] == Seq::<char>::empty()
        &&& self.entries().len() == self.row_words().len()
    }

    /// The table holds, for the rows S then S·Σ, the answers of `m` for every
    /// current suffix.
    pub open spec fn filled(&self, m: spec_fn(Seq<char>) -> bool) -> bool {
        &&& self.row_words() == self.prefixes() + sa_seq(self.prefixes(), self.alphabet())
        &&& self.entries().len() == self.row_words().len()
        &&& forall|k: int| 0 <= k < self.row_words().len()
            ==> #[trigger] self.entries()[k] == sig(m, self.suffixes(), self.row_words()[k])
    }

    /// A table with S = {ε} and E = {ε} ∪ {a : a ∈ Σ}, not yet filled.
    pub fn new(alphabets: Vec<char>) -> (r: Self)
        requires
            alphabets@.no_duplicates(),
        ensures
            r.wf(),
            r.row_words().len() == 0,
            r.entries().len() == 0,
            r.alphabet() == alphabets@,
            r.prefixes() == seq![Seq::<char>::empty()],
            r.suffixes() == seq![Seq::<char>::empty()] + alphabets@.map_values(|a: char| seq![a]),
    {
        let mut e_suffixes: Vec<Vec<char>> = Vec::new();
        e_suffixes.push(Vec::new());
        let mut i: usize = 0;
        while i < alphabets.len()
            invariant
                i <= alphabets@.len(),
                words(e_suffixes@) == seq![Seq::<char>::empty()] + alphabets@.take(i as int).map_values(|a: char| seq![a]),
            decreases alphabets@.len() - i,
        {
            let mut w: Vec<char> = Vec::new();
            w.push(alphabets[i]);
            proof {
                lemma_words_push(e_suffixes@, w);
                assert(w@ =~= seq![alphabets@[i as int]]);
            }
            e_suffixes.push(w);
            i += 1;
            assert(words(e_suffixes@) =~= seq![Seq::<char>::empty()] + alphabets@.take(i as int).map_values(|a: char| seq![a]));
        }
        assert(alphabets@.take(alphabets@.len() as int) =~= alphabets@);
        proof {
            let es = words(e_suffixes@);
            assert forall|x: int, y: int| 0 <= x < es.len() && 0 <= y < es.len() && x != y
                implies es[x] != es[y] by {
                if x > 0 && y > 0 {
                    assert(es[x] == seq![alphabets@[x - 1]]);
                    assert(es[y] == seq![alphabets@[y - 1]]);
                    assert(es[x][0] == alphabets@[x - 1]);
                    assert(es[y][0] == alphabets@[y - 1]);
                } else if x == 0 {
                    assert(es[y].len() == 1);
                } else {
                    assert(es[x].len() == 1);
                }
            }
        }
        let mut s_prefixes: Vec<Vec<char>> = Vec::new();
        s_prefixes.push(Vec::new());
        let r = ObservationTable { alphabets, s_prefixes, e_suffixes, rows: Vec::new(), table: Vec::new() };
        assert(r.prefixes() =~= seq![Seq::<char>::empty()]);
        r
    }

    /// S·Σ, prefix by prefix and symbol by symbol.
    fn get_sa(&self) -> (r: Vec<Vec<char>>)
        ensures
            words(r@) == sa_seq(self.prefixes(), self.alphabet()),
    {
        let ghost s = self.prefixes();
        let ghost sigma = self.alphabet();
        let mut sa: Vec<Vec<char>> = Vec::new();
        let mut i: usize = 0;
        while i < self.s_prefixes.len()
            invariant
                s == self.prefixes(),
                sigma == self.alphabet(),
                i <= s.len(),
                words(sa@) == sa_seq(s.take(i as int), sigma),
            decreases s.len() - i,
        {
            let mut j: usize = 0;
            while j < self.alphabets.len()
                invariant
                    s == self.prefixes(),
                    sigma == self.alphabet(),
                    i < s.len(),
                    j <= sigma.len(),
                    words(sa@) == sa_seq(s.take(i as int), sigma) + ext(s[i as int], sigma.take(j as int)),
                decreases sigma.len() - j,
            {
                let w = concat_vec_elem(self.s_prefixes[i].as_slice(), &self.alphabets[j]);
                proof {
                    lemma_words_push(sa@, w);
                }
                sa.push(w);
                j += 1;
                assert(words(sa@) =~= sa_seq(s.take(i as int), sigma) + ext(s[i as int], sigma.take(j as int)));
            }
            proof {
                assert(sigma.take(sigma.len() as int) =~= sigma);
                assert(s.take(i as int + 1).drop_last() =~= s.take(i as int));
            }
            i += 1;
        }
        assert(s.take(s.len() as int) =~= s);
        sa
    }

    /// The row labels: S, then S·Σ.
    fn get_rows(&self) -> (r: Vec<Vec<char>>)
        ensures
            words(r@) == self.prefixes() + sa_seq(self.prefixes(), self.alphabet()),
    {
        let mut rows: Vec<Vec<char>> = Vec::new();
        let mut i: usize = 0;
        while i < self.s_prefixes.len()
            invariant
                i <= self.prefixes().len(),
                words(rows@) == self.prefixes().take(i as int),
            decreases self.prefixes().len() - i,
        {
            let w = copy_word(self.s_prefixes[i].as_slice());
            proof {
                lemma_words_push(rows@, w);
            }
            rows.push(w);
            i += 1;
            assert(words(rows@) =~= self.prefixes().take(i as int));
        }
        let mut sa = self.get_sa();
        let ghost r0 = rows@;
        let ghost sa0 = sa@;
        rows.append(&mut sa);
        assert(self.prefixes().take(self.prefixes().len() as int) =~= self.prefixes());
        assert(words(rows@) =~= words(r0) + words(sa0));
        rows
    }

    /// The suffixes E.
    fn get_columns(&self) -> (r: Vec<Vec<char>>)
        ensures
            words(r@) == self.suffixes(),
    {
        let mut cols: Vec<Vec<char>> = Vec::new();
        let mut i: usize = 0;
        while i < self.e_suffixes.len()
            invariant
                i <= self.suffixes().len(),
                words(cols@) == self.suffixes().take(i as int),
            decreases self.suffixes().len() - i,
        {
            let w = copy_word(self.e_suffixes[i].as_slice());
            proof {
                lemma_words_push(cols@, w);
            }
            cols.push(w);
            i += 1;
            assert(words(cols@) =~= self.suffixes().take(i as int));
        }
        assert(self.suffixes().take(self.suffixes().len() as int) =~= self.suffixes());
        cols
    }

    /// The position of the row labelled `w`, if there is one.
    fn row_of(&self, w: &Vec<char>) -> (r: Option<usize>)
        requires
            self.entries().len() == self.row_words().len(),
        ensures
            r.is_some() == self.row_words().contains(w@),
            r.is_some() ==> r.unwrap() < self.row_words().len() && self.row_words()[r.unwrap() as int] == w@,
    {
        let mut k: usize = 0;
        while k < self.rows.len()
            invariant
                k <= self.row_words().len(),
                forall|k2: int| 0 <= k2 < k ==> self.row_words()[k2] != w@,
            decreases self.row_words().len() - k,
        {
            if words_eq(&self.rows[k], w) {
                assert(self.row_words()[k as int] == w@);
                return Some(k);
            }
            k += 1;
        }
        None
    }

    /// The answers recorded for `w`, a row of S or of S·Σ.
    fn lookup_sig(&self, w: &Vec<char>, Ghost(m): Ghost<spec_fn(Seq<char>) -> bool>) -> (r: &Vec<bool>)
        requires
            self.filled(m),
            self.prefixes().contains(w@) || in_sa(self.prefixes(), self.alphabet(), w@),
        ensures
            r@ == sig(m, self.suffixes(), w@),
    {
        proof {
            lemma_sa_seq_contains(self.prefixes(), self.alphabet(), w@);
            let s = self.prefixes();
            let sa = sa_seq(s, self.alphabet());
            if s.contains(w@) {
                let k = choose|k: int| 0 <= k < s.len() && s[k] == w@;
                assert((s + sa)[k] == w@);
            } else {
                let k = choose|k: int| 0 <= k < sa.len() && sa[k] == w@;
                assert((s + sa)[s.len() + k] == w@);
            }
        }
        let k = self.row_of(w).unwrap();
        proof {
            assert(self.entries()[k as int] == sig(m, self.suffixes(), self.row_words()[k as int]));
        }
        &self.table[k]
    }

    /// `None` when the table is closed; otherwise an extension `s·a` whose row
    /// signature no prefix has.
    fn is_closed(&self, Ghost(m): Ghost<spec_fn(Seq<char>) -> bool>) -> (r: Option<Vec<char>>)
        requires
            self.filled(m),
        ensures
            r.is_none() == closed(m, self.prefixes(), self.suffixes(), self.alphabet()),
            r.is_some() ==> in_sa(self.prefixes(), self.alphabet(), r.unwrap()@)
                && !represented(m, self.suffixes(), self.prefixes(), r.unwrap()@),
            r.is_some() ==> exists|i: int, j: int|
                0 <= i < self.prefixes().len() && 0 <= j < self.alphabet().len()
                && r.unwrap()@ == #[trigger] self.prefixes()[i].push(self.alphabet()[j])
                && forall|i2: int, j2: int| 0 <= i2 < self.prefixes().len() && 0 <= j2 < self.alphabet().len()
                    && (i2 < i || (i2 == i && j2 < j))
                    ==> represented(m, self.suffixes(), self.prefixes(), #[trigger] self.prefixes()[i2].push(self.alphabet()[j2])),
    {
        let ghost s = self.prefixes();
        let ghost e = self.suffixes();
        let ghost sigma = self.alphabet();
        let mut i: usize = 0;
        while i < self.s_prefixes.len()
            invariant
                self.filled(m),
                s == self.prefixes(),
                e == self.suffixes(),
                sigma == self.alphabet(),
                i <= s.len(),
                forall|i2: int, j2: int| 0 <= i2 < i && 0 <= j2 < sigma.len()
                    ==> represented(m, e, s, #[trigger] s[i2].push(sigma[j2])),
            decreases s.len() - i,
        {
            let mut j: usize = 0;
            while j < self.alphabets.len()
                invariant
                    self.filled(m),
                    s == self.prefixes(),
                    e == self.suffixes(),
                    sigma == self.alphabet(),
                    i < s.len(),
                    j <= sigma.len(),
                    forall|i2: int, j2: int| 0 <= i2 < i && 0 <= j2 < sigma.len()
                        ==> represented(m, e, s, #[trigger] s[i2].push(sigma[j2])),
                    forall|j2: int| 0 <= j2 < j ==> represented(m, e, s, #[trigger] s[i as int].push(sigma[j2])),
                decreases sigma.len() - j,
            {
                let t = concat_vec_elem(self.s_prefixes[i].as_slice(), &self.alphabets[j]);
                assert(t@ == s[i as int].push(sigma[j as int]));
                let t_row = self.lookup_sig(&t, Ghost(m));
                let mut found = false;
                let mut k: usize = 0;
                while k < self.s_prefixes.len() && !found
                    invariant
                        self.filled(m),
                        s == self.prefixes(),
                        e == self.suffixes(),
                        k <= s.len(),
                        t_row@ == sig(m, e, t@),
                        found ==> represented(m, e, s, t@),
                        !found ==> forall|k2: int| 0 <= k2 < k ==> #[trigger] sig(m, e, s[k2]) != sig(m, e, t@),
                    decreases s.len() - k,
                {
                    assert(s.contains(s[k as int]));
                    let s_row = self.lookup_sig(&self.s_prefixes[k], Ghost(m));
                    if bools_eq(s_row, t_row) {
                        found = true;
                    }
                    k += 1;
                }
                if !found {
                    proof {
                        let ti = s[i as int].push(sigma[j as int]);
                        assert(t@ == ti);
                        assert(in_sa(s, sigma, t@));
                        assert(!represented(m, e, s, t@));
                        assert(!represented(m, e, s, ti));
                        assert(forall|i2: int, j2: int| 0 <= i2 < s.len() && 0 <= j2 < sigma.len()
                            && (i2 < i || (i2 == i && j2 < j))
                            ==> represented(m, e, s, #[trigger] s[i2].push(sigma[j2])));
                    }
                    return Some(t);
                }
                j += 1;
            }
            i += 1;
        }
        None
    }

    /// `None` when the table is consistent; otherwise prefixes `s1`, `s2` with
    /// equal rows and a symbol `a` after which their rows differ.
    fn is_consistent(&self, Ghost(m): Ghost<spec_fn(Seq<char>) -> bool>) -> (r: Option<(Vec<char>, Vec<char>, char)>)
        requires
            self.filled(m),
        ensures
            r.is_none() == consistent(m, self.prefixes(), self.suffixes(), self.alphabet()),
            r.is_some() ==> ({
                let (s1, s2, a) = r.unwrap();
                &&& self.prefixes().contains(s1@)
                &&& self.prefixes().contains(s2@)
                &&& self.alphabet().contains(a)
                &&& sig(m, self.suffixes(), s1@) == sig(m, self.suffixes(), s2@)
                &&& sig(m, self.suffixes(), s1@.push(a)) != sig(m, self.suffixes(), s2@.push(a))
                &&& exists|i1: int, i2: int, j: int|
                    0 <= i1 < self.prefixes().len() && 0 <= i2 < self.prefixes().len() && 0 <= j < self.alphabet().len()
                    && #[trigger] self.prefixes()[i1] == s1@ && #[trigger] self.prefixes()[i2] == s2@
                    && #[trigger] self.alphabet()[j] == a
                    && forall|x1: int, x2: int, jj: int|
                        0 <= x1 < self.prefixes().len() && 0 <= x2 < self.prefixes().len() && 0 <= jj < self.alphabet().len()
                        && (x1 < i1 || (x1 == i1 && x2 < i2) || (x1 == i1 && x2 == i2 && jj < j))
                        && sig(m, self.suffixes(), self.prefixes()[x1]) == sig(m, self.suffixes(), self.prefixes()[x2])
                        ==> sig(m, self.suffixes(), #[trigger] self.prefixes()[x1].push(self.alphabet()[jj]))
                            == sig(m, self.suffixes(), #[trigger] self.prefixes()[x2].push(self.alphabet()[jj]))
            }),
    {
        let ghost s = self.prefixes();
        let ghost e = self.suffixes();
        let ghost sigma = self.alphabet();
        let mut i1: usize = 0;
        while i1 < self.s_prefixes.len()
            invariant
                self.filled(m),
                s == self.prefixes(),
                e == self.suffixes(),
                sigma == self.alphabet(),
                i1 <= s.len(),
                forall|x1: int, x2: int, j: int|
                    0 <= x1 < i1 && 0 <= x2 < s.len() && 0 <= j < sigma.len()
                        && sig(m, e, s[x1]) == sig(m, e, s[x2])
                        ==> sig(m, e, #[trigger] s[x1].push(sigma[j])) == sig(m, e, #[trigger] s[x2].push(sigma[j])),
            decreases s.len() - i1,
        {
            assert(s.contains(s[i1 as int]));
            let r1 = self.lookup_sig(&self.s_prefixes[i1], Ghost(m));
            let mut i2: usize = 0;
            while i2 < self.s_prefixes.len()
                invariant
                    self.filled(m),
                    s == self.prefixes(),
                    e == self.suffixes(),
                    sigma == self.alphabet(),
                    i1 < s.len(),
                    i2 <= s.len(),
                    r1@ == sig(m, e, s[i1 as int]),
                    forall|x1: int, x2: int, j: int|
                        0 <= x1 < i1 && 0 <= x2 < s.len() && 0 <= j < sigma.len()
                            && sig(m, e, s[x1]) == sig(m, e, s[x2])
                            ==> sig(m, e, #[trigger] s[x1].push(sigma[j])) == sig(m, e, #[trigger] s[x2].push(sigma[j])),
                    forall|x2: int, j: int|
                        0 <= x2 < i2 && 0 <= j < sigma.len()
                            && sig(m, e, s[i1 as int]) == sig(m, e, s[x2])
                            ==> sig(m, e, #[trigger] s[i1 as int].push(sigma[j])) == sig(m, e, #[trigger] s[x2].push(sigma[j])),
                decreases s.len() - i2,
            {
                assert(s.contains(s[i2 as int]));
                let r2 = self.lookup_sig(&self.s_prefixes[i2], Ghost(m));
                if bools_eq(r1, r2) {
                    let mut j: usize = 0;
                    while j < self.alphabets.len()
                        invariant
                            self.filled(m),
                            s == self.prefixes(),
                            e == self.suffixes(),
                            sigma == self.alphabet(),
                            i1 < s.len(),
                            i2 < s.len(),
                            j <= sigma.len(),
                            sig(m, e, s[i1 as int]) == sig(m, e, s[i2 as int]),
                            forall|x1: int, x2: int, jj: int|
                                0 <= x1 < i1 && 0 <= x2 < s.len() && 0 <= jj < sigma.len()
                                    && sig(m, e, s[x1]) == sig(m, e, s[x2])
                                    ==> sig(m, e, #[trigger] s[x1].push(sigma[jj])) == sig(m, e, #[trigger] s[x2].push(sigma[jj])),
                            forall|x2: int, jj: int|
                                0 <= x2 < i2 && 0 <= jj < sigma.len()
                                    && sig(m, e, s[i1 as int]) == sig(m, e, s[x2])
                                    ==> sig(m, e, #[trigger] s[i1 as int].push(sigma[jj])) == sig(m, e, #[trigger] s[x2].push(sigma[jj])),
                            forall|j2: int| 0 <= j2 < j
                                ==> sig(m, e, #[trigger] s[i1 as int].push(sigma[j2])) == sig(m, e, s[i2 as int].push(sigma[j2])),
                        decreases sigma.len() - j,
                    {
                        let w1 = concat_vec_elem(self.s_prefixes[i1].as_slice(), &self.alphabets[j]);
                        let w2 = concat_vec_elem(self.s_prefixes[i2].as_slice(), &self.alphabets[j]);
                        assert(in_sa(s, sigma, w1@)) by {
                            assert(w1@ == s[i1 as int].push(sigma[j as int]));
                        }
                        assert(in_sa(s, sigma, w2@)) by {
                            assert(w2@ == s[i2 as int].push(sigma[j as int]));
                        }
                        let a1 = self.lookup_sig(&w1, Ghost(m));
                        let a2 = self.lookup_sig(&w2, Ghost(m));
                        if !bools_eq(a1, a2) {
                            let a = self.alphabets[j];
                            let p1 = copy_word(self.s_prefixes[i1].as_slice());
                            let p2 = copy_word(self.s_prefixes[i2].as_slice());
                            proof {
                                assert(s[i1 as int] == p1@);
                                assert(s[i2 as int] == p2@);
                                assert(sigma[j as int] == a);
                                assert forall|x1: int, x2: int, jj: int|
                                    0 <= x1 < s.len() && 0 <= x2 < s.len() && 0 <= jj < sigma.len()
                                    && (x1 < i1 || (x1 == i1 && x2 < i2) || (x1 == i1 && x2 == i2 && jj < j))
                                    && sig(m, e, s[x1]) == sig(m, e, s[x2])
                                    implies sig(m, e, #[trigger] s[x1].push(sigma[jj])) == sig(m, e, #[trigger] s[x2].push(sigma[jj])) by {
                                    if x1 == i1 && x2 == i2 {
                                        assert(sig(m, e, s[i1 as int].push(sigma[jj])) == sig(m, e, s[i2 as int].push(sigma[jj])));
                                    }
                                }
                            }
                            return Some((p1, p2, a));
                        }
                        j += 1;
                    }
                }
                i2 += 1;
            }
            i1 += 1;
        }
        None
    }

    /// Records a refresh: the row labels and their answers.
    fn update(&mut self, rows: Vec<Vec<char>>, table: Vec<Vec<bool>>)
        requires
            rows@.len() == table@.len(),
        ensures
            final(self).prefixes() == old(self).prefixes(),
            final(self).suffixes() == old(self).suffixes(),
            final(self).alphabet() == old(self).alphabet(),
            old(self).wf() ==> final(self).wf(),
            final(self).row_words() == words(rows@),
            final(self).entries() == table@.map_values(|r: Vec<bool>| r@),
    {
        self.rows = rows;
        self.table = table;
    }

    /// Adds `w` to S unless it is there already.
    fn add_prefix(&mut self, w: Vec<char>)
        ensures
            final(self).prefixes() == if old(self).prefixes().contains(w@) {
                old(self).prefixes()
            } else {
                old(self).prefixes().push(w@)
            },
            final(self).suffixes() == old(self).suffixes(),
            final(self).alphabet() == old(self).alphabet(),
            old(self).wf() ==> final(self).wf(),
    {
        let mut k: usize = 0;
        while k < self.s_prefixes.len()
            invariant
                k <= self.prefixes().len(),
                forall|k2: int| 0 <= k2 < k ==> self.prefixes()[k2] != w@,
            decreases self.prefixes().len() - k,
        {
            if words_eq(&self.s_prefixes[k], &w) {
                assert(self.prefixes()[k as int] == w@);
                return;
            }
            k += 1;
        }
        proof {
            lemma_words_push(self.s_prefixes@, w);
        }
        let ghost p0 = self.prefixes();
        self.s_prefixes.push(w);
        proof {
            assert(!p0.contains(w@));
            assert forall|x: int, y: int| 0 <= x < self.prefixes().len() && 0 <= y < self.prefixes().len() && x != y
                && old(self).wf() implies self.prefixes()[x] != self.prefixes()[y] by {
                if x == p0.len() {
                    assert(p0[y] == self.prefixes()[y]);
                } else if y == p0.len() {
                    assert(p0[x] == self.prefixes()[x]);
                }
            }
        }
    }

    /// Adds `w` to E unless it is there already.
    fn add_suffix(&mut self, w: Vec<char>)
        ensures
            final(self).suffixes() == if old(self).suffixes().contains(w@) {
                old(self).suffixes()
            } else {
                old(self).suffixes().push(w@)
            },
            final(self).prefixes() == old(self).prefixes(),
            final(self).alphabet() == old(self).alphabet(),
            old(self).wf() ==> final(self).wf(),
    {
        let mut k: usize = 0;
        while k < self.e_suffixes.len()
            invariant
                k <= self.suffixes().len(),
                forall|k2: int| 0 <= k2 < k ==> self.suffixes()[k2] != w@,
            decreases self.suffixes().len() - k,
        {
            if words_eq(&self.e_suffixes[k], &w) {
                assert(self.suffixes()[k as int] == w@);
                return;
            }
            k += 1;
        }
        proof {
            lemma_words_push(self.e_suffixes@, w);
        }
        let ghost p0 = self.suffixes();
        self.e_suffixes.push(w);
        proof {
            assert(!p0.contains(w@));
            assert forall|x: int, y: int| 0 <= x < self.suffixes().len() && 0 <= y < self.suffixes().len() && x != y
                && old(self).wf() implies self.suffixes()[x] != self.suffixes()[y] by {
                if x == p0.len() {
                    assert(p0[y] == self.suffixes()[y]);
                } else if y == p0.len() {
                    assert(p0[x] == self.suffixes()[x]);
                }
            }
        }
    }

    /// Positions in S of one prefix per distinct row signature, the first
    /// prefix (the empty word) first.
    fn choose_reps(&self, Ghost(m): Ghost<spec_fn(Seq<char>) -> bool>) -> (r: Vec<usize>)
        requires
            self.filled(m),
            self.wf(),
        ensures
            r@.len() > 0,
            r@[0] == 0,
            forall|q: int| 0 <= q < r@.len() ==> #[trigger] r@[q] < self.prefixes().len(),
            forall|q1: int, q2: int| 0 <= q1 < r@.len() && 0 <= q2 < r@.len()
                && sig(m, self.suffixes(), self.prefixes()[#[trigger] r@[q1] as int])
                    == sig(m, self.suffixes(), self.prefixes()[#[trigger] r@[q2] as int]) ==> q1 == q2,
            forall|i: int| 0 <= i < self.prefixes().len()
                ==> covered(m, self.suffixes(), self.prefixes(), r@, #[trigger] self.prefixes()[i]),
    {
        let ghost s = self.prefixes();
        let ghost e = self.suffixes();
        let mut reps: Vec<usize> = Vec::new();
        let mut i: usize = 0;
        while i < self.s_prefixes.len()
            invariant
                self.filled(m),
                self.wf(),
                s == self.prefixes(),
                e == self.suffixes(),
                i <= s.len(),
                i > 0 ==> reps@.len() > 0 && reps@[0] == 0,
                forall|q: int| 0 <= q < reps@.len() ==> #[trigger] reps@[q] < i,
                forall|q1: int, q2: int| 0 <= q1 < reps@.len() && 0 <= q2 < reps@.len()
                    && sig(m, e, s[#[trigger] reps@[q1] as int]) == sig(m, e, s[#[trigger] reps@[q2] as int]) ==> q1 == q2,
                forall|i2: int| 0 <= i2 < i ==> covered(m, e, s, reps@, #[trigger] s[i2]),
            decreases s.len() - i,
        {
            assert(s.contains(s[i as int]));
            let si = self.lookup_sig(&self.s_prefixes[i], Ghost(m));
            let mut found = false;
            let mut k: usize = 0;
            while k < reps.len() && !found
                invariant
                    self.filled(m),
                    s == self.prefixes(),
                    e == self.suffixes(),
                    i < s.len(),
                    k <= reps@.len(),
                    forall|q: int| 0 <= q < reps@.len() ==> #[trigger] reps@[q] < i,
                    si@ == sig(m, e, s[i as int]),
                    found ==> covered(m, e, s, reps@, s[i as int]),
                    !found ==> forall|q: int| 0 <= q < k ==> sig(m, e, s[#[trigger] reps@[q] as int]) != sig(m, e, s[i as int]),
                decreases reps@.len() - k,
            {
                assert(s.contains(s[reps@[k as int] as int]));
                let rk = self.lookup_sig(&self.s_prefixes[reps[k]], Ghost(m));
                if bools_eq(rk, si) {
                    found = true;
                }
                k += 1;
            }
            if !found {
                let ghost old_reps = reps@;
                reps.push(i);
                proof {
                    assert(reps@[old_reps.len() as int] == i);
                    assert forall|i2: int| 0 <= i2 <= i implies covered(m, e, s, reps@, #[trigger] s[i2]) by {
                        if i2 < i {
                            let q = choose|q: int| 0 <= q < old_reps.len() && sig(m, e, s[#[trigger] old_reps[q] as int]) == sig(m, e, s[i2]);
                            assert(reps@[q] == old_reps[q]);
                        } else {
                            assert(reps@[old_reps.len() as int] == i);
                        }
                    }
                }
            } else {
                proof {
                    assert forall|i2: int| 0 <= i2 <= i implies covered(m, e, s, reps@, #[trigger] s[i2]) by {
                        if i2 < i {
                        } else {
                            assert(covered(m, e, s, reps@, s[i as int]));
                        }
                    }
                }
            }
            i += 1;
        }
        reps
    }

    /// The position in `reps` of the prefix whose row signature is that of `w`.
    fn find_rep(&self, reps: &Vec<usize>, w: &Vec<char>, Ghost(m): Ghost<spec_fn(Seq<char>) -> bool>) -> (r: usize)
        requires
            self.filled(m),
            forall|q: int| 0 <= q < reps@.len() ==> #[trigger] reps@[q] < self.prefixes().len(),
            covered(m, self.suffixes(), self.prefixes(), reps@, w@),
            self.prefixes().contains(w@) || in_sa(self.prefixes(), self.alphabet(), w@),
        ensures
            r < reps@.len(),
            sig(m, self.suffixes(), self.prefixes()[reps@[r as int] as int]) == sig(m, self.suffixes(), w@),
    {
        let ghost s = self.prefixes();
        let ghost e = self.suffixes();
        let wi = self.lookup_sig(w, Ghost(m));
        let mut k: usize = 0;
        while k < reps.len()
            invariant
                self.filled(m),
                s == self.prefixes(),
                e == self.suffixes(),
                forall|q: int| 0 <= q < reps@.len() ==> #[trigger] reps@[q] < s.len(),
                covered(m, e, s, reps@, w@),
                k <= reps@.len(),
                wi@ == sig(m, e, w@),
                forall|q: int| 0 <= q < k ==> sig(m, e, s[#[trigger] reps@[q] as int]) != sig(m, e, w@),
            decreases reps@.len() - k,
        {
            assert(s.contains(s[reps@[k as int] as int]));
            let rk = self.lookup_sig(&self.s_prefixes[reps[k]], Ghost(m));
            if bools_eq(rk, wi) {
                return k;
            }
            k += 1;
        }
        proof {
            let q = choose|q: int| 0 <= q < reps@.len() && sig(m, e, s[#[trigger] reps@[q] as int]) == sig(m, e, w@);
        }
        0
    }

    /// The hypothesis state named by the prefix at `reps[q]`, with its transitions.
    #[verifier::rlimit(40)]
    fn build_state(&self, reps: &Vec<usize>, q: usize, Ghost(m): Ghost<spec_fn(Seq<char>) -> bool>) -> (r: DfaState)
        requires
            self.filled(m),
            self.wf(),
            closed(m, self.prefixes(), self.suffixes(), self.alphabet()),
            q < reps@.len(),
            forall|q2: int| 0 <= q2 < reps@.len() ==> #[trigger] reps@[q2] < self.prefixes().len(),
            forall|i: int| 0 <= i < self.prefixes().len()
                ==> covered(m, self.suffixes(), self.prefixes(), reps@, #[trigger] self.prefixes()[i]),
        ensures
            r.wf(),
            r.id() == self.prefixes()[reps@[q as int] as int],
            state_ok(m, self.suffixes(), self.alphabet(), rep_set(self.prefixes(), reps@), r.id(), state_view(r)),
    {
        let ghost s = self.prefixes();
        let ghost e = self.suffixes();
        let ghost sigma = self.alphabet();
        let ghost dom = rep_set(s, reps@);
        let p = reps[q];
        let ghost id = s[p as int];
        assert(s.contains(id));
        let row = self.lookup_sig(&self.s_prefixes[p], Ghost(m));
        assert(id + e[0] =~= id);
        let mut st = DfaState::new(copy_word(self.s_prefixes[p].as_slice()), row[0]);
        let mut j: usize = 0;
        while j < self.alphabets.len()
            invariant
                self.filled(m),
                s == self.prefixes(),
                e == self.suffixes(),
                sigma == self.alphabet(),
                dom == rep_set(s, reps@),
                closed(m, s, e, sigma),
                p < s.len(),
                id == s[p as int],
                forall|q2: int| 0 <= q2 < reps@.len() ==> #[trigger] reps@[q2] < s.len(),
                forall|i: int| 0 <= i < s.len() ==> covered(m, e, s, reps@, #[trigger] s[i]),
                j <= sigma.len(),
                st.wf(),
                st.id() == id,
                st.accepting() == m(id),
                forall|a: char| #[trigger] st.trans().contains_key(a) ==> sigma.contains(a),
                forall|j2: int| 0 <= j2 < j ==> #[trigger] st.trans().contains_key(sigma[j2]),
                forall|a: char| #[trigger] st.trans().contains_key(a)
                    ==> dom.contains(st.trans()[a]) && sig(m, e, st.trans()[a]) == sig(m, e, id.push(a)),
            decreases sigma.len() - j,
        {
            let a = self.alphabets[j];
            let t = concat_vec_elem(self.s_prefixes[p].as_slice(), &a);
            proof {
                assert(t@ == s[p as int].push(sigma[j as int]));
                assert(in_sa(s, sigma, t@));
                assert(represented(m, e, s, t@));
                let k = choose|k: int| 0 <= k < s.len() && #[trigger] sig(m, e, s[k]) == sig(m, e, t@);
                assert(covered(m, e, s, reps@, s[k]));
                let q2 = choose|q2: int| 0 <= q2 < reps@.len() && sig(m, e, s[#[trigger] reps@[q2] as int]) == sig(m, e, s[k]);
                assert(sig(m, e, s[reps@[q2] as int]) == sig(m, e, t@));
            }
            let r = self.find_rep(reps, &t, Ghost(m));
            let target = copy_word(self.s_prefixes[reps[r]].as_slice());
            proof {
                assert(dom.contains(target@));
                assert(sigma.contains(a)) by {
                    assert(sigma[j as int] == a);
                }
            }
            st.set_transition(a, target);
            j += 1;
        }
        st
    }

    /// The answers recorded in the row labelled `w`, one per suffix, if such a
    /// row is there.
    pub fn row_answers(&self, w: &Vec<char>) -> (r: Option<&Vec<bool>>)
        requires
            self.wf(),
        ensures
            r.is_some() == self.row_words().contains(w@),
            r.is_some() ==> exists|k: int| 0 <= k < self.row_words().len()
                && #[trigger] self.row_words()[k] == w@ && r.unwrap()@ == self.entries()[k],
    {
        match self.row_of(w) {
            Some(k) => {
                assert(self.entries()[k as int] == self.table@[k as int]@);
                Some(&self.table[k])
            },
            None => None,
        }
    }

    /// The prefixes S.
    pub fn get_prefixes(&self) -> (r: &Vec<Vec<char>>)
        ensures
            words(r@) == self.prefixes(),
    {
        &self.s_prefixes
    }

    /// The suffixes E.
    pub fn get_suffixes(&self) -> (r: &Vec<Vec<char>>)
        ensures
            words(r@) == self.suffixes(),
    {
        &self.e_suffixes
    }
}

/// The words `s[reps[q]]` chosen to name the states.
pub open spec fn rep_set(s: Seq<Seq<char>>, reps: Seq<usize>) -> Set<Seq<char>> {
    Set::new(|w: Seq<char>| exists|q: int| 0 <= q < reps.len() && w == s[#[trigger] reps[q] as int])
}

/// Some chosen prefix has the row signature of `w`.
pub open spec fn covered(m: spec_fn(Seq<char>) -> bool, e: Seq<Seq<char>>, s: Seq<Seq<char>>, reps: Seq<usize>, w: Seq<char>) -> bool {
    exists|q: int| 0 <= q < reps.len() && sig(m, e, s[#[trigger] reps[q] as int]) == sig(m, e, w)
}

/// What a hypothesis state named `id` records: it accepts when `id` is in the
/// language, it has a transition on exactly the symbols of the alphabet, and each
/// leads to a state of `dom` whose row signature is that of `id·a`.
pub open spec fn state_ok(
    m: spec_fn(Seq<char>) -> bool,
    e: Seq<Seq<char>>,
    sigma: Seq<char>,
    dom: Set<Seq<char>>,
    id: Seq<char>,
    v: (bool, Map<char, Seq<char>>),
) -> bool {
    &&& v.0 == m(id)
    &&& forall|a: char| #[trigger] v.1.contains_key(a) ==> sigma.contains(a)
    &&& forall|j: int| 0 <= j < sigma.len() ==> #[trigger] v.1.contains_key(sigma[j])
    &&& forall|a: char| #[trigger] v.1.contains_key(a)
        ==> dom.contains(v.1[a]) && sig(m, e, v.1[a]) == sig(m, e, id.push(a))
}

/// Some word of `dom` has the row signature of `w`.
pub open spec fn has_state_for(dom: Set<Seq<char>>, m: spec_fn(Seq<char>) -> bool, e: Seq<Seq<char>>, w: Seq<char>) -> bool {
    exists|id: Seq<char>| #[trigger] dom.contains(id) && sig(m, e, id) == sig(m, e, w)
}

/// `h` is the automaton of a closed, consistent table: one state per row
/// signature of S, named by a prefix, with the empty word's state initial, and a
/// total, deterministic transition function that follows the table.
pub open spec fn is_hypothesis(
    h: Automaton,
    m: spec_fn(Seq<char>) -> bool,
    s: Seq<Seq<char>>,
    e: Seq<Seq<char>>,
    sigma: Seq<char>,
) -> bool {
    &&& h.wf()
    &&& h.initial() == Seq::<char>::empty()
    &&& h.graph().contains_key(h.initial())
    &&& forall|id: Seq<char>| #[trigger] h.graph().contains_key(id)
        ==> s.contains(id) && state_ok(m, e, sigma, h.graph().dom(), id, h.graph()[id])
    &&& forall|i: int| 0 <= i < s.len() ==> has_state_for(h.graph().dom(), m, e, #[trigger] s[i])
    &&& forall|id1: Seq<char>, id2: Seq<char>|
        #[trigger] h.graph().contains_key(id1) && #[trigger] h.graph().contains_key(id2)
            && sig(m, e, id1) == sig(m, e, id2) ==> id1 == id2
}

/// Every word of `a` stands at the same place in `b`: `b` extends `a`.
pub open spec fn grows(a: Seq<Seq<char>>, b: Seq<Seq<char>>) -> bool {
    a.len() <= b.len() && forall|i: int| 0 <= i < a.len() ==> a[i] == b[i]
}

/// After a refresh the table is total over the current S and E: every word of
/// S ∪ S·Σ labels a row, and that row holds the answer for the word followed by
/// each suffix.
pub proof fn lemma_filled_total(t: ObservationTable, m: spec_fn(Seq<char>) -> bool, w: Seq<char>)
    requires
        t.filled(m),
        t.prefixes().contains(w) || in_sa(t.prefixes(), t.alphabet(), w),
    ensures
        exists|k: int| 0 <= k < t.row_words().len() && #[trigger] t.row_words()[k] == w
            && t.entries()[k].len() == t.suffixes().len()
            && forall|j: int| 0 <= j < t.suffixes().len() ==> t.entries()[k][j] == m(w + t.suffixes()[j]),
{
    let s = t.prefixes();
    let sa = sa_seq(s, t.alphabet());
    lemma_sa_seq_contains(s, t.alphabet(), w);
    let k = if s.contains(w) {
        choose|k: int| 0 <= k < s.len() && s[k] == w
    } else {
        let k2 = choose|k: int| 0 <= k < sa.len() && sa[k] == w;
        s.len() + k2
    };
    assert((s + sa)[k] == w);
    assert(t.entries()[k] == sig(m, t.suffixes(), t.row_words()[k]));
}

/// Refreshing is deterministic: two tables filled through the same language
/// with the same S, E and alphabet have the same rows and the same answers, so
/// refreshing again without changing S or E leaves the table as it was.
pub proof fn lemma_fill_idempotent(t1: ObservationTable, t2: ObservationTable, m: spec_fn(Seq<char>) -> bool)
    requires
        t1.filled(m),
        t2.filled(m),
        t1.prefixes() == t2.prefixes(),
        t1.suffixes() == t2.suffixes(),
        t1.alphabet() == t2.alphabet(),
    ensures
        t1.row_words() == t2.row_words(),
        t1.entries() == t2.entries(),
{
    assert(t1.entries() =~= t2.entries());
}

/// In a hypothesis every state has exactly one transition on each symbol of the
/// alphabet, and it leads to a state of the automaton.
pub proof fn lemma_hypothesis_total(
    h: Automaton,
    m: spec_fn(Seq<char>) -> bool,
    s: Seq<Seq<char>>,
    e: Seq<Seq<char>>,
    sigma: Seq<char>,
    id: Seq<char>,
    a: char,
)
    requires
        is_hypothesis(h, m, s, e, sigma),
        h.graph().contains_key(id),
        sigma.contains(a),
    ensures
        h.graph()[id].1.contains_key(a),
        h.graph().contains_key(h.graph()[id].1[a]),
{
    let j = choose|j: int| 0 <= j < sigma.len() && sigma[j] == a;
    assert(state_ok(m, e, sigma, h.graph().dom(), id, h.graph()[id]));
    assert(h.graph()[id].1.contains_key(sigma[j]));
}

/// S after adding the words of `cs` in order, each unless it is there already.
pub open spec fn add_all(s: Seq<Seq<char>>, cs: Seq<Seq<char>>) -> Seq<Seq<char>>
    decreases cs.len(),
{
    if cs.len() == 0 {
        s
    } else {
        let s1 = add_all(s, cs.drop_last());
        if s1.contains(cs.last()) {
            s1
        } else {
            s1.push(cs.last())
        }
    }
}

/// Adding words to S keeps every earlier prefix in its place.
proof fn lemma_add_all_grows(s: Seq<Seq<char>>, cs: Seq<Seq<char>>)
    ensures
        grows(s, add_all(s, cs)),
    decreases cs.len(),
{
    if cs.len() > 0 {
        lemma_add_all_grows(s, cs.drop_last());
    }
}

/// Why a learning run stopped without a hypothesis that the teacher accepted.
#[derive(Debug, Clone, Copy, PartialEq, Eq, Structural)]
pub enum LearnError {
    /// The equivalence query answered neither acceptance nor counterexamples.
    UnexpectedResponse,
    /// The run used up its budget of refreshes and rounds.
    BudgetExhausted,
}

/// Drives L*: fills the table through the teacher, repairs it until closed and
/// consistent, and offers hypotheses until one is accepted.
pub struct Learner<T: Teacher> {
    observation_table: ObservationTable,
    teacher: T,
    spent: Ghost<nat>,
}

impl<T: Teacher> Learner<T> {
    /// The teacher's language.
    pub closed spec fn oracle(&self) -> spec_fn(Seq<char>) -> bool {
        |w: Seq<char>| self.teacher.member(w)
    }

    pub closed spec fn table(&self) -> ObservationTable {
        self.observation_table
    }

    /// Budget units spent so far: one per refresh round and one per repair.
    pub closed spec fn steps(&self) -> nat {
        self.spent@
    }

    pub fn new(alphabets: Vec<char>, teacher: T) -> (r: Self)
        requires
            alphabets@.no_duplicates(),
        ensures
            forall|w: Seq<char>| #[trigger] (r.oracle())(w) == teacher.member(w),
            r.steps() == 0,
            r.table().row_words().len() == 0,
            r.table().wf(),
            r.table().alphabet() == alphabets@,
            r.table().prefixes() == seq![Seq::<char>::empty()],
            r.table().suffixes() == seq![Seq::<char>::empty()] + alphabets@.map_values(|a: char| seq![a]),
    {
        Learner { observation_table: ObservationTable::new(alphabets), teacher, spent: Ghost(0) }
    }

    /// The observation table.
    pub fn observation_table(&self) -> (r: &ObservationTable)
        ensures
            *r == self.table(),
    {
        &self.observation_table
    }

    /// Refreshes every entry: for each row of S then S·Σ and each suffix, asks
    /// the teacher about the row followed by the suffix.
    pub fn update_observation_table(&mut self)
        requires
            old(self).table().wf(),
        ensures
            final(self).table().filled(final(self).oracle()),
            final(self).oracle() == old(self).oracle(),
            final(self).steps() == old(self).steps(),
            final(self).table().prefixes() == old(self).table().prefixes(),
            final(self).table().suffixes() == old(self).table().suffixes(),
            final(self).table().alphabet() == old(self).table().alphabet(),
            final(self).table().wf(),
    {
        let ghost m = self.oracle();
        let rows = self.observation_table.get_rows();
        let columns = self.observation_table.get_columns();
        let ghost e = words(columns@);
        let ghost rw = words(rows@);
        let mut table: Vec<Vec<bool>> = Vec::new();
        let mut i: usize = 0;
        while i < rows.len()
            invariant
                m == self.oracle(),
                e == words(columns@),
                rw == words(rows@),
                i <= rw.len(),
                table@.len() == i,
                forall|k: int| 0 <= k < i ==> (#[trigger] table@[k])@ == sig(m, e, rw[k]),
            decreases rw.len() - i,
        {
            let mut row: Vec<bool> = Vec::new();
            let mut j: usize = 0;
            while j < columns.len()
                invariant
                    m == self.oracle(),
                    e == words(columns@),
                    rw == words(rows@),
                    i < rw.len(),
                    j <= e.len(),
                    row@.len() == j,
                    forall|j2: int| 0 <= j2 < j ==> row@[j2] == m(rw[i as int] + e[j2]),
                decreases e.len() - j,
            {
                let c = concat_vecs(rows[i].as_slice(), columns[j].as_slice());
                let answer = self.teacher.membership_query(c);
                row.push(answer);
                j += 1;
            }
            assert(row@ =~= sig(m, e, rw[i as int]));
            table.push(row);
            i += 1;
        }
        let ghost tb = table@;
        self.observation_table.update(rows, table);
        assert(self.table().entries() =~= tb.map_values(|r: Vec<bool>| r@));
    }

    /// Builds the hypothesis of a closed table: one state per distinct row
    /// signature of S, named by its first prefix, accepting when that prefix is
    /// in the language, with the transition on `a` from the state of `s` going to
    /// the state whose signature is that of `s·a`.
    pub fn gen_hypothesis(&self) -> (h: Automaton)
        requires
            self.table().filled(self.oracle()),
            self.table().wf(),
            closed(self.oracle(), self.table().prefixes(), self.table().suffixes(), self.table().alphabet()),
        ensures
            is_hypothesis(h, self.oracle(), self.table().prefixes(), self.table().suffixes(), self.table().alphabet()),
    {
        let ghost m = self.oracle();
        let ghost s = self.table().prefixes();
        let ghost e = self.table().suffixes();
        let ghost sigma = self.table().alphabet();
        let tbl = &self.observation_table;
        let reps = tbl.choose_reps(Ghost(m));
        let ghost dom = rep_set(s, reps@);
        let st0 = tbl.build_state(&reps, 0, Ghost(m));
        let ghost id0 = st0.id();
        let mut h = Automaton::new(st0);
        proof {
            assert(h.graph().dom() =~= rep_set(s, reps@.take(1))) by {
                assert(reps@.take(1)[0] == reps@[0]);
                assert forall|w: Seq<char>| rep_set(s, reps@.take(1)).contains(w) implies w == id0 by {
                    let q = choose|q: int| 0 <= q < reps@.take(1).len() && w == s[#[trigger] reps@.take(1)[q] as int];
                }
                assert(rep_set(s, reps@.take(1)).contains(id0));
            }
        }
        let mut q: usize = 1;
        while q < reps.len()
            invariant
                tbl == &self.observation_table,
                tbl.filled(m),
                tbl.wf(),
                s == tbl.prefixes(),
                e == tbl.suffixes(),
                sigma == tbl.alphabet(),
                closed(m, s, e, sigma),
                dom == rep_set(s, reps@),
                1 <= q <= reps@.len(),
                reps@[0] == 0,
                forall|q2: int| 0 <= q2 < reps@.len() ==> #[trigger] reps@[q2] < s.len(),
                forall|q1: int, q2: int| 0 <= q1 < reps@.len() && 0 <= q2 < reps@.len()
                    && sig(m, e, s[#[trigger] reps@[q1] as int]) == sig(m, e, s[#[trigger] reps@[q2] as int]) ==> q1 == q2,
                forall|i: int| 0 <= i < s.len() ==> covered(m, e, s, reps@, #[trigger] s[i]),
                h.wf(),
                h.initial() == Seq::<char>::empty(),
                h.graph().dom() == rep_set(s, reps@.take(q as int)),
                forall|id: Seq<char>| #[trigger] h.graph().contains_key(id)
                    ==> state_ok(m, e, sigma, dom, id, h.graph()[id]),
            decreases reps@.len() - q,
        {
            let st = tbl.build_state(&reps, q, Ghost(m));
            let ghost idq = st.id();
            let ghost g0 = h.graph();
            proof {
                if g0.contains_key(idq) {
                    assert(rep_set(s, reps@.take(q as int)).contains(idq));
                    let q2 = choose|q2: int| 0 <= q2 < reps@.take(q as int).len() && idq == s[#[trigger] reps@.take(q as int)[q2] as int];
                    assert(reps@.take(q as int)[q2] == reps@[q2]);
                    assert(false);
                }
            }
            h.add_state(st);
            proof {
                let t0 = reps@.take(q as int);
                let t1 = reps@.take(q as int + 1);
                assert forall|w: Seq<char>| #[trigger] rep_set(s, t1).contains(w) == g0.insert(idq, state_view(st)).dom().contains(w) by {
                    if rep_set(s, t1).contains(w) {
                        let q2 = choose|q2: int| 0 <= q2 < t1.len() && w == s[#[trigger] t1[q2] as int];
                        if q2 < q {
                            assert(t0[q2] == t1[q2]);
                            assert(rep_set(s, t0).contains(w));
                        }
                    }
                    if w == idq {
                        assert(t1[q as int] == reps@[q as int]);
                    } else if g0.contains_key(w) {
                        let q2 = choose|q2: int| 0 <= q2 < t0.len() && w == s[#[trigger] t0[q2] as int];
                        assert(t0[q2] == t1[q2]);
                    }
                }
                assert(h.graph().dom() =~= rep_set(s, t1));
            }
            q += 1;
        }
        proof {
            assert(reps@.take(reps@.len() as int) =~= reps@);
            assert(h.graph().dom() == dom);
            assert(h.graph().contains_key(h.initial())) by {
                assert(s[reps@[0] as int] == Seq::<char>::empty());
                assert(dom.contains(s[reps@[0] as int]));
            }
            assert forall|id: Seq<char>| #[trigger] h.graph().contains_key(id) implies s.contains(id) by {
                let q2 = choose|q2: int| 0 <= q2 < reps@.len() && id == s[#[trigger] reps@[q2] as int];
                assert(s[reps@[q2] as int] == id);
            }
            assert forall|i: int| 0 <= i < s.len() implies has_state_for(h.graph().dom(), m, e, #[trigger] s[i]) by {
                assert(covered(m, e, s, reps@, s[i]));
                let q2 = choose|q2: int| 0 <= q2 < reps@.len() && sig(m, e, s[#[trigger] reps@[q2] as int]) == sig(m, e, s[i]);
                assert(dom.contains(s[reps@[q2] as int]));
            }
            assert forall|id1: Seq<char>, id2: Seq<char>|
                #[trigger] h.graph().contains_key(id1) && #[trigger] h.graph().contains_key(id2)
                    && sig(m, e, id1) == sig(m, e, id2) implies id1 == id2 by {
                let q1 = choose|q1: int| 0 <= q1 < reps@.len() && id1 == s[#[trigger] reps@[q1] as int];
                let q2 = choose|q2: int| 0 <= q2 < reps@.len() && id2 == s[#[trigger] reps@[q2] as int];
            }
        }
        h
    }

    /// A suffix that tells apart `s1·a` and `s2·a`: `a` followed by a suffix
    /// on whose column their rows differ.
    fn distinguishing_suffix(&self, s1: &Vec<char>, s2: &Vec<char>, a: char) -> (r: Vec<char>)
        requires
            self.table().filled(self.oracle()),
            self.table().prefixes().contains(s1@),
            self.table().prefixes().contains(s2@),
            self.table().alphabet().contains(a),
            sig(self.oracle(), self.table().suffixes(), s1@.push(a))
                != sig(self.oracle(), self.table().suffixes(), s2@.push(a)),
        ensures
            exists|c: int| 0 <= c < self.table().suffixes().len()
                && r@ == seq![a] + #[trigger] self.table().suffixes()[c]
                && self.oracle()(s1@.push(a) + self.table().suffixes()[c])
                    != self.oracle()(s2@.push(a) + self.table().suffixes()[c]),
    {
        let ghost m = self.oracle();
        let ghost s = self.table().prefixes();
        let ghost e = self.table().suffixes();
        let ghost sigma = self.table().alphabet();
        let tbl = &self.observation_table;
        let w1 = concat_vec_elem(s1.as_slice(), &a);
        let w2 = concat_vec_elem(s2.as_slice(), &a);
        proof {
            let i1 = choose|i: int| 0 <= i < s.len() && s[i] == s1@;
            let i2 = choose|i: int| 0 <= i < s.len() && s[i] == s2@;
            let j = choose|j: int| 0 <= j < sigma.len() && sigma[j] == a;
            assert(w1@ == s[i1].push(sigma[j]));
            assert(w2@ == s[i2].push(sigma[j]));
        }
        let r1 = tbl.lookup_sig(&w1, Ghost(m));
        let r2 = tbl.lookup_sig(&w2, Ghost(m));
        let mut c: usize = 0;
        while c < tbl.e_suffixes.len()
            invariant
                tbl == &self.observation_table,
                e == tbl.suffixes(),
                e == self.table().suffixes(),
                m == self.oracle(),
                w1@ == s1@.push(a),
                w2@ == s2@.push(a),
                c <= e.len(),
                r1@ == sig(m, e, w1@),
                r2@ == sig(m, e, w2@),
                r1@ != r2@,
                forall|c2: int| 0 <= c2 < c ==> r1@[c2] == r2@[c2],
            decreases e.len() - c,
        {
            if r1[c] != r2[c] {
                let mut head: Vec<char> = Vec::new();
                head.push(a);
                let r = concat_vecs(head.as_slice(), tbl.e_suffixes[c].as_slice());
                proof {
                    assert(head@ =~= seq![a]);
                    assert(r@ == seq![a] + e[c as int]);
                    assert(r1@[c as int] == m(w1@ + e[c as int]));
                    assert(r2@[c as int] == m(w2@ + e[c as int]));
                }
                return r;
            }
            c += 1;
        }
        proof {
            assert(r1@ =~= r2@);
        }
        Vec::new()
    }

    /// One step of repair on a refreshed table. When the table is consistent and
    /// closed, nothing changes and the result is `true`. Otherwise the result is
    /// `false` and, after the change, the table is refreshed:
    /// - on inconsistency (the first witness `s1`, `s2`, `a`, see
    ///   `is_consistent`), E gains the new column `a·e` for a suffix `e` on which
    ///   the rows of `s1·a` and `s2·a` differ;
    /// - else on non-closedness, S gains the extension `t` that `is_closed` found.
    pub fn repair(&mut self) -> (r: bool)
        requires
            old(self).table().filled(old(self).oracle()),
            old(self).table().wf(),
        ensures
            final(self).oracle() == old(self).oracle(),
            final(self).steps() == old(self).steps(),
            final(self).table().wf(),
            final(self).table().filled(final(self).oracle()),
            final(self).table().alphabet() == old(self).table().alphabet(),
            ({
                let m = old(self).oracle();
                let t0 = old(self).table();
                let ok_c = consistent(m, t0.prefixes(), t0.suffixes(), t0.alphabet());
                let ok_d = closed(m, t0.prefixes(), t0.suffixes(), t0.alphabet());
                &&& r == (ok_c && ok_d)
                &&& r ==> final(self).table() == t0
                &&& !ok_c ==> final(self).table().prefixes() == t0.prefixes()
                    && exists|s1: Seq<char>, s2: Seq<char>, a: char, c: int|
                        t0.prefixes().contains(s1) && t0.prefixes().contains(s2) && t0.alphabet().contains(a)
                        && sig(m, t0.suffixes(), s1) == sig(m, t0.suffixes(), s2)
                        && 0 <= c < t0.suffixes().len()
                        && m(s1.push(a) + t0.suffixes()[c]) != m(s2.push(a) + t0.suffixes()[c])
                        && #[trigger] final(self).table().suffixes() == t0.suffixes().push(seq![a] + t0.suffixes()[c])
                &&& ok_c && !ok_d ==> final(self).table().suffixes() == t0.suffixes()
                    && exists|t: Seq<char>| in_sa(t0.prefixes(), t0.alphabet(), t)
                        && !represented(m, t0.suffixes(), t0.prefixes(), t)
                        && #[trigger] final(self).table().prefixes() == t0.prefixes().push(t)
            }),
    {
        let ghost m = self.oracle();
        let ghost t0 = self.table();
        match self.observation_table.is_consistent(Ghost(m)) {
            Some((s1, s2, a)) => {
                let suffix = self.distinguishing_suffix(&s1, &s2, a);
                proof {
                    let e = t0.suffixes();
                    let c = choose|c: int| 0 <= c < e.len()
                        && suffix@ == seq![a] + #[trigger] e[c]
                        && m(s1@.push(a) + e[c]) != m(s2@.push(a) + e[c]);
                    if e.contains(suffix@) {
                        let k = choose|k: int| 0 <= k < e.len() && e[k] == suffix@;
                        assert(s1@ + e[k] =~= s1@.push(a) + e[c]);
                        assert(s2@ + e[k] =~= s2@.push(a) + e[c]);
                        assert(sig(m, e, s1@)[k] == sig(m, e, s2@)[k]);
                        assert(false);
                    }
                }
                self.observation_table.add_suffix(suffix);
                self.update_observation_table();
                false
            },
            None => {
                match self.observation_table.is_closed(Ghost(m)) {
                    Some(t) => {
                        proof {
                            if t0.prefixes().contains(t@) {
                                let k = choose|k: int| 0 <= k < t0.prefixes().len() && t0.prefixes()[k] == t@;
                                assert(sig(m, t0.suffixes(), t0.prefixes()[k]) == sig(m, t0.suffixes(), t@));
                                assert(false);
                            }
                        }
                        self.observation_table.add_prefix(t);
                        self.update_observation_table();
                        false
                    },
                    None => true,
                }
            },
        }
    }

    /// Runs L*: refreshes the table, repairs it until it is closed and
    /// consistent, builds a hypothesis and asks the teacher about it; adds the
    /// counterexamples to S and starts over, until the teacher accepts.
    ///
    /// Repairs go through `repair`: on inconsistency the added suffix is `a·e`,
    /// the symbol that exposed it followed by a column on which the two extended
    /// rows differ, so E always gains a new column. Each round (its refresh) and
    /// each repair spends one unit of `max_steps`, counted in `steps()`; the run
    /// stops with `BudgetExhausted` once none is left. An automaton returned
    /// with `Ok` is the one the teacher accepted, and so accepts exactly the
    /// teacher's language.
    pub fn learn(&mut self, max_steps: usize) -> (r: Result<Automaton, LearnError>)
        requires
            old(self).table().wf(),
        ensures
            final(self).oracle() == old(self).oracle(),
            final(self).table().wf(),
            final(self).table().alphabet() == old(self).table().alphabet(),
            grows(old(self).table().prefixes(), final(self).table().prefixes()),
            grows(old(self).table().suffixes(), final(self).table().suffixes()),
            max_steps == 0 ==> r == Err::<Automaton, LearnError>(LearnError::BudgetExhausted),
            final(self).steps() <= old(self).steps() + max_steps,
            r == Err::<Automaton, LearnError>(LearnError::BudgetExhausted)
                ==> final(self).steps() == old(self).steps() + max_steps,
            r matches Ok(h) ==> forall|w: Seq<char>| accepts(h, w) == (final(self).oracle())(w),
            r.is_ok() ==> ({
                let t = final(self).table();
                let m = final(self).oracle();
                &&& t.filled(m)
                &&& closed(m, t.prefixes(), t.suffixes(), t.alphabet())
                &&& consistent(m, t.prefixes(), t.suffixes(), t.alphabet())
                &&& is_hypothesis(r.unwrap(), m, t.prefixes(), t.suffixes(), t.alphabet())
            }),
    {
        let ghost m = self.oracle();
        let ghost s0 = self.table().prefixes();
        let ghost e0 = self.table().suffixes();
        let ghost sigma = self.table().alphabet();
        let mut fuel = max_steps;
        loop
            invariant
                m == self.oracle(),
                m == old(self).oracle(),
                sigma == old(self).table().alphabet(),
                s0 == old(self).table().prefixes(),
                e0 == old(self).table().suffixes(),
                self.table().wf(),
                self.table().alphabet() == sigma,
                grows(s0, self.table().prefixes()),
                grows(e0, self.table().suffixes()),
                fuel <= max_steps,
                self.steps() + fuel == old(self).steps() + max_steps,
            decreases fuel,
        {
            if fuel == 0 {
                return Err(LearnError::BudgetExhausted);
            }
            fuel -= 1;
            self.spent = Ghost(self.spent@ + 1);
            let ghost f0 = fuel;
            self.update_observation_table();
            let mut stable = false;
            while !stable
                invariant
                    m == self.oracle(),
                    m == old(self).oracle(),
                    sigma == old(self).table().alphabet(),
                    s0 == old(self).table().prefixes(),
                    e0 == old(self).table().suffixes(),
                    self.table().wf(),
                    self.table().alphabet() == sigma,
                    self.table().filled(m),
                    grows(s0, self.table().prefixes()),
                    grows(e0, self.table().suffixes()),
                    fuel <= f0,
                    f0 < max_steps,
                    self.steps() + fuel == old(self).steps() + max_steps,
                    stable ==> closed(m, self.table().prefixes(), self.table().suffixes(), sigma),
                    stable ==> consistent(m, self.table().prefixes(), self.table().suffixes(), sigma),
                decreases fuel as int * 2 + if stable { 0int } else { 1int },
            {
                if fuel == 0 {
                    let fine = self.observation_table.is_consistent(Ghost(m)).is_none()
                        && self.observation_table.is_closed(Ghost(m)).is_none();
                    if !fine {
                        return Err(LearnError::BudgetExhausted);
                    }
                    stable = true;
                } else {
                    stable = self.repair();
                    if !stable {
                        fuel -= 1;
                        self.spent = Ghost(self.spent@ + 1);
                    }
                }
            }
            let hypothesis = self.gen_hypothesis();
            let copy = hypothesis.duplicate();
            let ghost cg = copy;
            let verdict = self.teacher.validate_hypothesis(copy);
            let ghost v = verdict;
            proof {
                if v == Ok::<bool, Vec<Vec<char>>>(true) {
                    assert forall|w: Seq<char>| accepts(hypothesis, w) == m(w) by {
                        assert(accepts(cg, w) == self.teacher.member(w));
                    }
                }
            }
            let ghost t_before = self.table();
            proof {
                if verdict is Err {
                    lemma_add_all_grows(t_before.prefixes(), words(verdict->Err_0@));
                }
            }
            match self.handle_verdict(hypothesis, verdict) {
                Some(done) => {
                    proof {
                        if v is Ok {
                            if v->Ok_0 {
                                assert(v == Ok::<bool, Vec<Vec<char>>>(true));
                            } else {
                                assert(v == Ok::<bool, Vec<Vec<char>>>(false));
                            }
                        }
                    }
                    return done;
                },
                None => {},
            }
        }
    }

    /// Acts on the teacher's answer to an equivalence query about `hypothesis`:
    /// acceptance ends the run with it, counterexamples are added to S (each
    /// word as it is, not its prefixes) and the run goes on (`None`), and any
    /// other answer ends the run with `UnexpectedResponse`.
    pub fn handle_verdict(&mut self, hypothesis: Automaton, verdict: Result<bool, Vec<Vec<char>>>) -> (r: Option<
        Result<Automaton, LearnError>,
    >)
        ensures
            final(self).oracle() == old(self).oracle(),
            final(self).steps() == old(self).steps(),
            final(self).table().suffixes() == old(self).table().suffixes(),
            final(self).table().alphabet() == old(self).table().alphabet(),
            old(self).table().wf() ==> final(self).table().wf(),
            verdict == Ok::<bool, Vec<Vec<char>>>(true) ==> r == Some(Ok::<Automaton, LearnError>(hypothesis)),
            verdict == Ok::<bool, Vec<Vec<char>>>(false) ==> r == Some(Err::<Automaton, LearnError>(LearnError::UnexpectedResponse)),
            verdict.is_ok() ==> final(self).table() == old(self).table(),
            r matches Some(Ok(h)) ==> h == hypothesis && verdict == Ok::<bool, Vec<Vec<char>>>(true),
            verdict.is_err() ==> r.is_none()
                && final(self).table().prefixes() == add_all(old(self).table().prefixes(), words(verdict->Err_0@)),
    {
        match verdict {
            Ok(true) => Some(Ok(hypothesis)),
            Ok(false) => Some(Err(LearnError::UnexpectedResponse)),
            Err(counterexamples) => {
                let ghost s0 = self.table().prefixes();
                let ghost cs = words(counterexamples@);
                let mut k: usize = 0;
                while k < counterexamples.len()
                    invariant
                        cs == words(counterexamples@),
                        s0 == old(self).table().prefixes(),
                        k <= cs.len(),
                        self.oracle() == old(self).oracle(),
                        self.steps() == old(self).steps(),
                        self.table().suffixes() == old(self).table().suffixes(),
                        self.table().alphabet() == old(self).table().alphabet(),
                        old(self).table().wf() ==> self.table().wf(),
                        self.table().prefixes() == add_all(s0, cs.take(k as int)),
                    decreases cs.len() - k,
                {
                    let w = copy_word(counterexamples[k].as_slice());
                    self.observation_table.add_prefix(w);
                    proof {
                        assert(cs.take(k as int + 1).drop_last() =~= cs.take(k as int));
                    }
                    k += 1;
                }
                assert(cs.take(cs.len() as int) =~= cs);
                None
            },
        }
    }
}

} // verus!
