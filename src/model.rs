use vstd::prelude::*;

use crate::token::{Sym, Token};

verus! {

/// The map that an association list stands for: a later pair overrides an earlier one.
pub open spec fn assoc<K, V>(s: Seq<(K, V)>) -> Map<K, V>
    decreases s.len(),
{
    if s.len() == 0 {
        Map::empty()
    } else {
        assoc(s.drop_last()).insert(s.last().0, s.last().1)
    }
}

/// No key occurs twice in the association list.
pub open spec fn unique_keys<K, V>(s: Seq<(K, V)>) -> bool {
    forall|i: int, j: int| 0 <= i < j < s.len() ==> s[i].0 != s[j].0
}

pub proof fn lemma_assoc_get<K, V>(s: Seq<(K, V)>, i: int)
    requires
        unique_keys(s),
        0 <= i < s.len(),
    ensures
        assoc(s).contains_key(s[i].0),
        assoc(s)[s[i].0] == s[i].1,
    decreases s.len(),
{
    if i < s.len() - 1 {
        lemma_assoc_get(s.drop_last(), i);
    }
}

pub proof fn lemma_assoc_absent<K, V>(s: Seq<(K, V)>, k: K)
    requires
        forall|i: int| 0 <= i < s.len() ==> s[i].0 != k,
    ensures
        !assoc(s).contains_key(k),
    decreases s.len(),
{
    if s.len() > 0 {
        lemma_assoc_absent(s.drop_last(), k);
    }
}

pub proof fn lemma_assoc_update<K, V>(s: Seq<(K, V)>, i: int, v: V)
    requires
        unique_keys(s),
        0 <= i < s.len(),
    ensures
        assoc(s.update(i, (s[i].0, v))) == assoc(s).insert(s[i].0, v),
        unique_keys(s.update(i, (s[i].0, v))),
    decreases s.len(),
{
    let t = s.update(i, (s[i].0, v));
    if i == s.len() - 1 {
        assert(t.drop_last() =~= s.drop_last());
        assert(assoc(t) =~= assoc(s).insert(s[i].0, v));
    } else {
        lemma_assoc_update(s.drop_last(), i, v);
        assert(t.drop_last() =~= s.drop_last().update(i, (s[i].0, v)));
        assert(assoc(t) =~= assoc(s).insert(s[i].0, v));
    }
}

pub proof fn lemma_assoc_push<K, V>(s: Seq<(K, V)>, p: (K, V))
    requires
        unique_keys(s),
        forall|i: int| 0 <= i < s.len() ==> s[i].0 != p.0,
    ensures
        assoc(s.push(p)) == assoc(s).insert(p.0, p.1),
        unique_keys(s.push(p)),
{
    assert(s.push(p).drop_last() =~= s);
}

/// Rows of a table, as the specifications see them.
pub type RowsView = Seq<(Sym, Seq<(Sym, u32)>)>;

/// A word token holds at least one character.
pub open spec fn word_nonempty(t: Sym) -> bool {
    t matches Sym::Word(w) ==> w.len() > 0
}

/// Sources are never the end marker, destinations never the start marker, and no word is
/// empty.
pub open spec fn rows_valid(rs: RowsView) -> bool {
    forall|i: int|
        0 <= i < rs.len() ==> (#[trigger] rs[i]).0 != Sym::End && word_nonempty(rs[i].0) && forall|
            j: int,
        |
            0 <= j < rs[i].1.len() ==> (#[trigger] rs[i].1[j]).0 != Sym::Start && word_nonempty(
                rs[i].1[j].0,
            )
}

/// What a list of (destination, count) pairs says, in spec terms.
pub open spec fn entries_view(v: Seq<(Token, u32)>) -> Seq<(Sym, u32)> {
    v.map_values(|p: (Token, u32)| (p.0@, p.1))
}

/// A well-formed list of successors: not empty, each destination once, each count positive.
pub open spec fn entries_wf(e: Seq<(Sym, u32)>) -> bool {
    &&& e.len() > 0
    &&& unique_keys(e)
    &&& forall|j: int| 0 <= j < e.len() ==> e[j].1 > 0
}

/// A well-formed table: each source once, each successor list well formed.
pub open spec fn rows_wf(rows: Seq<(Sym, Seq<(Sym, u32)>)>) -> bool {
    &&& unique_keys(rows)
    &&& forall|i: int| 0 <= i < rows.len() ==> entries_wf(#[trigger] rows[i].1)
}

/// The transition table that a list of rows stands for.
pub open spec fn table(rows: Seq<(Sym, Seq<(Sym, u32)>)>) -> Map<Sym, Map<Sym, u32>> {
    assoc(row_maps(rows))
}

/// Each row with its successor list read as a map.
pub open spec fn row_maps(rows: Seq<(Sym, Seq<(Sym, u32)>)>) -> Seq<(Sym, Map<Sym, u32>)> {
    rows.map_values(|r: (Sym, Seq<(Sym, u32)>)| (r.0, assoc(r.1)))
}

proof fn lemma_row_maps_unique(rows: Seq<(Sym, Seq<(Sym, u32)>)>)
    requires
        unique_keys(rows),
    ensures
        unique_keys(row_maps(rows)),
{
}


/// How often `b` was seen right after `a`.
pub open spec fn count(m: Map<Sym, Map<Sym, u32>>, a: Sym, b: Sym) -> nat {
    if m.contains_key(a) && m[a].contains_key(b) {
        m[a][b] as nat
    } else {
        0
    }
}

/// One more observation of `b` after `a`; a count that has reached the top of `u32` stays there.
pub open spec fn bump(m: Map<Sym, Map<Sym, u32>>, a: Sym, b: Sym) -> Map<Sym, Map<Sym, u32>> {
    let inner = if m.contains_key(a) {
        m[a]
    } else {
        Map::empty()
    };
    let c = count(m, a, b);
    m.insert(a, inner.insert(b, if c < u32::MAX { (c + 1) as u32 } else { u32::MAX }))
}

/// The successors seen after one source token, with their counts.
pub struct Transitions {
    pub from: Token,
    pub next: Vec<(Token, u32)>,
}

impl Transitions {
    pub open spec fn row(&self) -> (Sym, Seq<(Sym, u32)>) {
        (self.from@, entries_view(self.next@))
    }
}

/// The learned chain: for each source token, the tokens seen after it and how often.
pub struct MarkovModel {
    pub rows: Vec<Transitions>,
}

impl View for MarkovModel {
    type V = Map<Sym, Map<Sym, u32>>;

    open spec fn view(&self) -> Map<Sym, Map<Sym, u32>> {
        table(self.rows_view())
    }
}

/// Where `b` stands among the destinations of `v`, if anywhere.
pub fn find_entry(v: &Vec<(Token, u32)>, b: &Token) -> (r: Option<usize>)
    ensures
        match r {
            Some(j) => j < v.len() && v@[j as int].0@ == b@,
            None => forall|j: int| 0 <= j < v.len() ==> v@[j].0@ != b@,
        },
{
    let mut j: usize = 0;
    while j < v.len()
        invariant
            j <= v.len(),
            forall|k: int| 0 <= k < j ==> v@[k].0@ != b@,
        decreases v.len() - j,
    {
        if v[j].0.same(b) {
            return Some(j);
        }
        j += 1;
    }
    None
}

impl MarkovModel {
    pub open spec fn rows_view(&self) -> Seq<(Sym, Seq<(Sym, u32)>)> {
        self.rows@.map_values(|r: Transitions| r.row())
    }

    pub open spec fn wf(&self) -> bool {
        rows_wf(self.rows_view())
    }

    /// The empty table.
    pub fn new() -> (r: MarkovModel)
        ensures
            r.wf(),
            r@ == Map::<Sym, Map<Sym, u32>>::empty(),
            rows_valid(r.rows_view()),
    {
        let r = MarkovModel { rows: Vec::new() };
        assert(r.rows_view() =~= Seq::empty());
        assert(table(r.rows_view()) =~= Map::empty());
        r
    }

    /// Counts one more observation of `b` right after `a`.
    pub fn add_pair(&mut self, a: &Token, b: &Token)
        requires
            old(self).wf(),
        ensures
            final(self).wf(),
            final(self)@ == bump(old(self)@, a@, b@),
            rows_valid(old(self).rows_view()) && a@ != Sym::End && word_nonempty(a@) && b@
                != Sym::Start && word_nonempty(b@) ==> rows_valid(final(self).rows_view()),
    {
        let ghost rv = self.rows_view();
        proof {
            lemma_row_maps_unique(rv);
        }
        match self.find_row(a) {
            Some(i) => {
                let ghost e = rv[i as int].1;
                assert(entries_wf(e));
                match find_entry(&self.rows[i].next, b) {
                    Some(j) => {
                        let c = self.rows[i].next[j].1;
                        let nc = if c < u32::MAX { c + 1 } else { c };
                        self.rows[i].next[j].1 = nc;
                        proof {
                            let e2 = e.update(j as int, (b@, nc));
                            assert(entries_view(self.rows@[i as int].next@) =~= e2);
                            assert(self.rows_view() =~= rv.update(i as int, (a@, e2)));
                            lemma_assoc_get(e, j as int);
                            lemma_assoc_update(e, j as int, nc);
                            lemma_assoc_get(row_maps(rv), i as int);
                            lemma_assoc_update(row_maps(rv), i as int, assoc(e2));
                            assert(row_maps(self.rows_view()) =~= row_maps(rv).update(
                                i as int,
                                (a@, assoc(e2)),
                            ));
                            assert(self@ =~= bump(old(self)@, a@, b@));
                        }
                    },
                    None => {
                        self.rows[i].next.push((b.duplicate(), 1));
                        proof {
                            let e2 = e.push((b@, 1u32));
                            assert(entries_view(self.rows@[i as int].next@) =~= e2);
                            assert(self.rows_view() =~= rv.update(i as int, (a@, e2)));
                            lemma_assoc_absent(e, b@);
                            lemma_assoc_push(e, (b@, 1u32));
                            lemma_assoc_get(row_maps(rv), i as int);
                            lemma_assoc_update(row_maps(rv), i as int, assoc(e2));
                            assert(row_maps(self.rows_view()) =~= row_maps(rv).update(
                                i as int,
                                (a@, assoc(e2)),
                            ));
                            assert(self@ =~= bump(old(self)@, a@, b@));
                        }
                    },
                }
            },
            None => {
                let mut next: Vec<(Token, u32)> = Vec::new();
                next.push((b.duplicate(), 1));
                self.rows.push(Transitions { from: a.duplicate(), next });
                proof {
                    let e2 = seq![(b@, 1u32)];
                    assert(entries_view(next@) =~= e2);
                    assert(self.rows_view() =~= rv.push((a@, e2)));
                    assert(e2.drop_last() =~= Seq::<(Sym, u32)>::empty());
                    assert(assoc(e2.drop_last()) == Map::<Sym, u32>::empty());
                    assert(e2.last() == (b@, 1u32));
                    assert(assoc(e2) =~= Map::<Sym, u32>::empty().insert(b@, 1u32));
                    lemma_assoc_absent(row_maps(rv), a@);
                    lemma_assoc_push(row_maps(rv), (a@, assoc(e2)));
                    assert(row_maps(self.rows_view()) =~= row_maps(rv).push((a@, assoc(e2))));
                    assert(self@ =~= bump(old(self)@, a@, b@));
                }
            },
        }
    }

    /// The successors of `a` with their counts, if `a` was ever seen as a source.
    pub fn successors(&self, a: &Token) -> (r: Option<&Vec<(Token, u32)>>)
        requires
            self.wf(),
        ensures
            r is Some <==> self@.contains_key(a@),
            r matches Some(v) ==> entries_wf(entries_view(v@)) && self@[a@] == assoc(
                entries_view(v@),
            ),
    {
        proof {
            lemma_row_maps_unique(self.rows_view());
        }
        match self.find_row(a) {
            Some(i) => {
                proof {
                    lemma_assoc_get(row_maps(self.rows_view()), i as int);
                    assert(entries_wf(self.rows_view()[i as int].1));
                }
                Some(&self.rows[i].next)
            },
            None => {
                proof {
                    lemma_assoc_absent(row_maps(self.rows_view()), a@);
                }
                None
            },
        }
    }

    /// Whether `a` was ever seen as a source.
    pub fn contains(&self, a: &Token) -> (r: bool)
        requires
            self.wf(),
        ensures
            r == self@.contains_key(a@),
    {
        self.successors(a).is_some()
    }

    /// How often `b` was seen right after `a`.
    pub fn count(&self, a: &Token, b: &Token) -> (r: u32)
        requires
            self.wf(),
        ensures
            r == count(self@, a@, b@),
    {
        match self.successors(a) {
            Some(v) => match find_entry(v, b) {
                Some(j) => {
                    proof {
                        lemma_assoc_get(entries_view(v@), j as int);
                    }
                    v[j].1
                },
                None => {
                    proof {
                        lemma_assoc_absent(entries_view(v@), b@);
                    }
                    0
                },
            },
            None => 0,
        }
    }

    /// A copy of the table.
    pub fn duplicate(&self) -> (r: MarkovModel)
        ensures
            r.rows_view() == self.rows_view(),
            r@ == self@,
    {
        let mut rows: Vec<Transitions> = Vec::new();
        let mut i: usize = 0;
        while i < self.rows.len()
            invariant
                i <= self.rows.len(),
                rows@.len() == i,
                forall|k: int| 0 <= k < i ==> (#[trigger] rows@[k]).row() == self.rows@[k].row(),
            decreases self.rows.len() - i,
        {
            let src = &self.rows[i].next;
            let mut next: Vec<(Token, u32)> = Vec::new();
            let mut j: usize = 0;
            while j < src.len()
                invariant
                    j <= src.len(),
                    next@.len() == j,
                    forall|k: int|
                        0 <= k < j ==> (#[trigger] next@[k]).0@ == src@[k].0@ && next@[k].1
                            == src@[k].1,
                decreases src.len() - j,
            {
                next.push((src[j].0.duplicate(), src[j].1));
                j += 1;
            }
            assert(entries_view(next@) =~= entries_view(src@));
            rows.push(Transitions { from: self.rows[i].from.duplicate(), next });
            i += 1;
        }
        let r = MarkovModel { rows };
        assert(r.rows_view() =~= self.rows_view());
        r
    }

    /// Where the row of source `a` stands, if there is one.
    fn find_row(&self, a: &Token) -> (r: Option<usize>)
        ensures
            match r {
                Some(i) => i < self.rows.len() && self.rows@[i as int].from@ == a@,
                None => forall|i: int| 0 <= i < self.rows.len() ==> self.rows@[i].from@ != a@,
            },
    {
        let mut i: usize = 0;
        while i < self.rows.len()
            invariant
                i <= self.rows.len(),
                forall|k: int| 0 <= k < i ==> self.rows@[k].from@ != a@,
            decreases self.rows.len() - i,
        {
            if self.rows[i].from.same(a) {
                return Some(i);
            }
            i += 1;
        }
        None
    }
}

} // verus!
