use vstd::prelude::*;

use crate::codec::{decode_model, decode_rows};
use crate::builder::{learned, stream};
use crate::error::MarkovError;
use crate::model::{bump, count};
use crate::model::{entries_view, lemma_assoc_get, MarkovModel};
use crate::token::{Sym, Token};
use rand::seq::IndexedRandom;

verus! {

/// Relies on rand's `IndexedRandom::choose_weighted` with the thread-local generator: it picks
/// one pair with probability proportional to its weight and never one of weight zero; it fails
/// only on an empty list, a zero total or a total that overflows.
#[verifier::external_body]
fn choose_weighted_index(items: &Vec<(usize, u128)>) -> (r: Option<usize>)
    ensures
        r matches Some(k) ==> exists|i: int|
            0 <= i < items.len() && items@[i].0 == k && items@[i].1 > 0,
        (items.len() > 0 && items@[0].1 > 0 && forall|i: int|
            0 <= i < items.len() ==> items@[i].1 <= u32::MAX) ==> r is Some,
{
    items.choose_weighted(&mut rand::rng(), |p| p.1).ok().map(|p| p.0)
}

/// Whether the table holds the transition from `a` to `b`.
pub open spec fn has_edge(m: Map<Sym, Map<Sym, u32>>, a: Sym, b: Sym) -> bool {
    m.contains_key(a) && m[a].contains_key(b)
}

/// Whether a walk may stop at `t`: it has no successors, or one of them is a marker rather
/// than a word.
pub open spec fn may_stop(m: Map<Sym, Map<Sym, u32>>, t: Sym) -> bool {
    !m.contains_key(t) || m[t].contains_key(Sym::End) || m[t].contains_key(Sym::Start)
}

/// The tokens that a generation from `start` visits when it outputs `words`.
pub open spec fn walk(start: Sym, words: Seq<Seq<char>>) -> Seq<Sym> {
    let ws = words.map_values(|w: Seq<char>| Sym::Word(w));
    if start is Word {
        ws
    } else {
        seq![start] + ws
    }
}

/// Whether each step of `p` is a transition of the table.
pub open spec fn is_path(m: Map<Sym, Map<Sym, u32>>, p: Seq<Sym>) -> bool {
    forall|k: int| 0 <= k < p.len() - 1 ==> has_edge(m, #[trigger] p[k], p[k + 1])
}

/// Walks a transition table from a current token.
pub struct MarkovGenerator {
    pub current: Token,
    pub model: Option<MarkovModel>,
}

impl Default for MarkovGenerator {
    fn default() -> (r: MarkovGenerator)
        ensures
            r.wf(),
            r.current@ == Sym::Start,
            r.model is None,
    {
        MarkovGenerator::new()
    }
}

impl MarkovGenerator {
    pub open spec fn wf(&self) -> bool {
        self.model matches Some(m) ==> m.wf()
    }

    /// A generator at the start marker with no table.
    pub fn new() -> (r: MarkovGenerator)
        ensures
            r.wf(),
            r.current@ == Sym::Start,
            r.model is None,
    {
        MarkovGenerator { current: Token::Bos, model: None }
    }

    /// A generator at the start marker over `model`.
    pub fn from_model(model: MarkovModel) -> (r: MarkovGenerator)
        requires
            model.wf(),
        ensures
            r.wf(),
            r.current@ == Sym::Start,
            r.model == Some(model),
    {
        MarkovGenerator { current: Token::Bos, model: Some(model) }
    }

    /// A generator at the start marker over the table that `data` encodes in the byte form of
    /// `encode_model`; fails with `Decode` where `data` is no such encoding.
    pub fn from_bincode(data: &[u8]) -> (r: Result<MarkovGenerator, MarkovError>)
        ensures
            match decode_rows(data@) {
                Some(rs) => r matches Ok(g) && g.wf() && g.current@ == Sym::Start && (
                g.model matches Some(m) && m.rows_view() == rs),
                None => r == Err::<MarkovGenerator, MarkovError>(MarkovError::Decode),
            },
    {
        match decode_model(data) {
            Ok(model) => Ok(MarkovGenerator { current: Token::Bos, model: Some(model) }),
            Err(e) => Err(e),
        }
    }

    /// Replaces the table; the current token stays.
    pub fn set_model(&mut self, model: MarkovModel)
        requires
            model.wf(),
        ensures
            final(self).wf(),
            final(self).model == Some(model),
            final(self).current == old(self).current,
    {
        self.model = Some(model);
    }

    /// A copy of the table, if there is one.
    pub fn get_data(&self) -> (r: Option<MarkovModel>)
        requires
            self.wf(),
        ensures
            r is Some <==> self.model is Some,
            r matches Some(m) ==> m.wf() && m@ == self.model->Some_0@ && m.rows_view()
                == self.model->Some_0.rows_view(),
    {
        match &self.model {
            Some(m) => Some(m.duplicate()),
            None => None,
        }
    }

    /// Moves to the start marker (`None`) or to a word that the table holds as a source.
    pub fn set_start(&mut self, token: Option<String>) -> (r: Result<(), MarkovError>)
        requires
            old(self).wf(),
        ensures
            final(self).wf(),
            final(self).model == old(self).model,
            match token {
                None => r is Ok && final(self).current@ == Sym::Start,
                Some(w) => {
                    let known = old(self).model matches Some(m) && m@.contains_key(Sym::Word(w@));
                    &&& (r is Ok <==> known)
                    &&& known ==> final(self).current@ == Sym::Word(w@)
                    &&& !known ==> r == Err::<(), MarkovError>(MarkovError::UnknownSeed)
                        && final(self).current == old(self).current
                },
            },
    {
        match token {
            None => {
                self.current = Token::Bos;
                Ok(())
            },
            Some(w) => {
                let t = Token::Word(w);
                let known = match &self.model {
                    Some(m) => m.contains(&t),
                    None => false,
                };
                if known {
                    self.current = t;
                    Ok(())
                } else {
                    Err(MarkovError::UnknownSeed)
                }
            },
        }
    }

    /// One weighted step from the current token: the end marker where the table has no
    /// successors for it, else a successor drawn in proportion to its count, which becomes
    /// the current token.
    fn generate_next(&mut self) -> (r: Result<Token, MarkovError>)
        requires
            old(self).wf(),
        ensures
            final(self).model == old(self).model,
            old(self).model is None ==> r == Err::<Token, MarkovError>(
                MarkovError::UninitializedModel,
            ) && final(self).current == old(self).current,
            old(self).model matches Some(m) ==> r matches Ok(t) && if m@.contains_key(
                old(self).current@,
            ) {
                has_edge(m@, old(self).current@, t@) && final(self).current@ == t@
            } else {
                t@ == Sym::End && final(self).current == old(self).current
            },
    {
        let next = match &self.model {
            None => {
                return Err(MarkovError::UninitializedModel);
            },
            Some(m) => match m.successors(&self.current) {
                None => {
                    return Ok(Token::Eos);
                },
                Some(v) => {
                    let ghost e = entries_view(v@);
                    let mut items: Vec<(usize, u128)> = Vec::new();
                    let mut j: usize = 0;
                    while j < v.len()
                        invariant
                            j <= v.len(),
                            items@.len() == j,
                            e == entries_view(v@),
                            forall|k: int|
                                0 <= k < j ==> (#[trigger] items@[k]).0 == k && items@[k].1
                                    == v@[k].1 as u128,
                        decreases v.len() - j,
                    {
                        items.push((j, v[j].1 as u128));
                        j += 1;
                    }
                    assert(e[0].1 > 0);
                    match choose_weighted_index(&items) {
                        Some(k) => {
                            proof {
                                lemma_assoc_get(e, k as int);
                            }
                            v[k].0.duplicate()
                        },
                        None => {
                            return Ok(Token::Eos);
                        },
                    }
                },
            },
        };
        self.current = next.duplicate();
        Ok(next)
    }

    /// Walks the table from the current token until the end marker is drawn or the current
    /// token has no successors, and returns the words visited, the current one first when it
    /// is a word. Afterwards the generator is back at the start marker.
    pub fn generate(&mut self) -> (r: Result<Vec<String>, MarkovError>)
        requires
            old(self).wf(),
        ensures
            final(self).wf(),
            final(self).model == old(self).model,
            old(self).model is None ==> r == Err::<Vec<String>, MarkovError>(
                MarkovError::UninitializedModel,
            ) && final(self).current == old(self).current,
            old(self).model matches Some(m) ==> r matches Ok(out) && {
                let p = walk(old(self).current@, out@.map_values(|w: String| w@));
                &&& final(self).current@ == Sym::Start
                &&& p.len() > 0 && p[0] == old(self).current@
                &&& is_path(m@, p)
                &&& out@.len() < usize::MAX ==> may_stop(m@, p.last())
            },
    {
        if self.model.is_none() {
            return Err(MarkovError::UninitializedModel);
        }
        let ghost m = self.model->Some_0@;
        let ghost start = self.current@;
        let mut text: Vec<String> = Vec::new();
        if let Token::Word(w) = &self.current {
            text.push(w.clone());
        }
        let mut done = false;
        assert(walk(start, text@.map_values(|w: String| w@)).last() == self.current@);
        while !done && text.len() < usize::MAX
            invariant
                self.wf(),
                self.model matches Some(mm) && mm@ == m,
                self.model == old(self).model,
                text@.len() > 0 || !(start is Word),
                ({
                    let p = walk(start, text@.map_values(|w: String| w@));
                    &&& p.len() > 0 && p[0] == start
                    &&& is_path(m, p)
                    &&& !done ==> p.last() == self.current@
                    &&& done ==> may_stop(m, p.last())
                }),
            decreases (if done { 0int } else { 1int }) + usize::MAX - text@.len(),
        {
            let ghost walked = walk(start, text@.map_values(|w: String| w@));
            let next = self.generate_next();
            match next {
                Ok(Token::Word(w)) => {
                    let ghost t = Sym::Word(w@);
                    text.push(w);
                    proof {
                        let extended = walk(start, text@.map_values(|w: String| w@));
                        assert(extended =~= walked.push(t));
                        assert(forall|k: int| 0 <= k < walked.len() ==> extended[k] == walked[k]);
                        assert(is_path(m, extended));
                    }
                },
                _ => {
                    done = true;
                },
            }
        }
        self.current = Token::Bos;
        Ok(text)
    }
}


/// No symbol occurs twice in `s`.
pub open spec fn distinct(s: Seq<Sym>) -> bool {
    forall|i: int, j: int| 0 <= i < j < s.len() ==> s[i] != s[j]
}

/// Each symbol of `s` but the last leads to the next one, and nothing else is a source.
pub open spec fn is_chain(m: Map<Sym, Map<Sym, u32>>, s: Seq<Sym>) -> bool {
    &&& forall|k: int|
        0 <= k < s.len() - 1 ==> #[trigger] m.contains_key(s[k]) && m[s[k]] == Map::<
            Sym,
            u32,
        >::empty().insert(s[k + 1], 1u32)
    &&& forall|x: Sym| #[trigger]
        m.contains_key(x) ==> exists|k: int| 0 <= k < s.len() - 1 && s[k] == x
}

proof fn lemma_learned_chain(s: Seq<Sym>)
    requires
        distinct(s),
    ensures
        is_chain(learned(Map::empty(), s), s),
    decreases s.len(),
{
    let e = Map::<Sym, Map<Sym, u32>>::empty();
    if s.len() >= 2 {
        let t = s.drop_last();
        lemma_learned_chain(t);
        let m = learned(e, t);
        let n = s.len();
        assert(!m.contains_key(s[n - 2]));
        assert(count(m, s[n - 2], s[n - 1]) == 0);
        let m2 = learned(e, s);
        assert(m2 == bump(m, s[n - 2], s[n - 1]));
        assert forall|k: int| 0 <= k < s.len() - 1 implies #[trigger] m2.contains_key(s[k])
            && m2[s[k]] == Map::<Sym, u32>::empty().insert(s[k + 1], 1u32) by {
            if k < n - 2 {
                assert(t[k] == s[k] && t[k + 1] == s[k + 1]);
            }
        }
        assert forall|x: Sym| #[trigger] m2.contains_key(x) implies exists|k: int|
            0 <= k < s.len() - 1 && s[k] == x by {
            if x != s[n - 2] {
                let k = choose|k: int| 0 <= k < t.len() - 1 && t[k] == x;
                assert(s[k] == x);
            }
        }
    } else {
        assert(learned(e, s) == e);
    }
}

proof fn lemma_path_prefix(m: Map<Sym, Map<Sym, u32>>, s: Seq<Sym>, p: Seq<Sym>, k: int)
    requires
        is_chain(m, s),
        distinct(s),
        s.len() >= 2,
        s.last() == Sym::End,
        p.len() > 0,
        p[0] == s[0],
        is_path(m, p),
        forall|i: int| 1 <= i < p.len() ==> (#[trigger] p[i]) is Word,
        0 <= k < p.len(),
    ensures
        p[k] == s[k],
        k < s.len() - 1,
    decreases k,
{
    if k > 0 {
        lemma_path_prefix(m, s, p, k - 1);
        assert(has_edge(m, p[k - 1], p[k]));
        assert(m.contains_key(s[k - 1]));
        assert(p[k] is Word);
    }
}

/// A table learned from one text whose words are pairwise distinct has a single walk: every
/// generation over it that stops where it may stop outputs exactly the text's words.
pub proof fn lemma_single_text_walk(words: Seq<Seq<char>>, out: Seq<Seq<char>>)
    requires
        forall|i: int, j: int| 0 <= i < j < words.len() ==> words[i] != words[j],
        is_path(learned(Map::empty(), stream(words)), walk(Sym::Start, out)),
        may_stop(learned(Map::empty(), stream(words)), walk(Sym::Start, out).last()),
    ensures
        out == words,
{
    let s = stream(words);
    let m = learned(Map::empty(), s);
    let p = walk(Sym::Start, out);
    assert forall|i: int, j: int| 0 <= i < j < s.len() implies s[i] != s[j] by {
        if 0 < i && j < s.len() - 1 {
            assert(s[i] == Sym::Word(words[i - 1]) && s[j] == Sym::Word(words[j - 1]));
        }
    }
    lemma_learned_chain(s);
    assert forall|i: int| 1 <= i < p.len() implies (#[trigger] p[i]) is Word by {
        assert(p[i] == Sym::Word(out[i - 1]));
    }
    let l = p.len() as int;
    lemma_path_prefix(m, s, p, l - 1);
    assert(m.contains_key(s[l - 1]));
    assert(s[l] == Sym::End || s[l] == Sym::Start);
    assert(s[l] != s[0]);
    assert(l == s.len() - 1);
    assert forall|i: int| 0 <= i < out.len() implies out[i] == words[i] by {
        lemma_path_prefix(m, s, p, i + 1);
        assert(p[i + 1] == Sym::Word(out[i]));
        assert(s[i + 1] == Sym::Word(words[i]));
    }
    assert(out =~= words);
}

} // verus!
