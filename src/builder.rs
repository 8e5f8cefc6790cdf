use vstd::prelude::*;

use crate::model::{bump, count, rows_valid, MarkovModel};
use crate::token::{Sym, Token};
use litsea::segmenter::Segmenter;

verus! {

#[verifier::external_type_specification]
#[verifier::external_body]
pub struct ExSegmenter(Segmenter);

/// Relies on litsea's `Segmenter::segment`: the words of a sentence, in order, which together
/// cover the sentence exactly; none for an empty sentence.
#[verifier::external_body]
fn segment(segmenter: &Segmenter, text: &str) -> (r: Vec<String>)
    ensures
        word_views(r@).flatten() == text@,
        text@.len() == 0 ==> r@.len() == 0,
{
    segmenter.segment(text)
}

/// The token stream of a text split into `words`: the start marker, the words, the end marker.
pub open spec fn stream(words: Seq<Seq<char>>) -> Seq<Sym> {
    seq![Sym::Start] + words.map_values(|w: Seq<char>| Sym::Word(w)) + seq![Sym::End]
}

/// The words of a tokenizer's output, as character sequences.
pub open spec fn word_views(words: Seq<String>) -> Seq<Seq<char>> {
    words.map_values(|w: String| w@)
}

/// The table after counting every adjacent pair of `s`, from left to right.
pub open spec fn learned(m: Map<Sym, Map<Sym, u32>>, s: Seq<Sym>) -> Map<Sym, Map<Sym, u32>>
    decreases s.len(),
{
    if s.len() < 2 {
        m
    } else {
        bump(learned(m, s.drop_last()), s[s.len() - 2], s.last())
    }
}

/// The table after learning several tokenized texts, one after the other.
pub open spec fn learned_texts(m: Map<Sym, Map<Sym, u32>>, texts: Seq<Seq<Seq<char>>>) -> Map<
    Sym,
    Map<Sym, u32>,
>
    decreases texts.len(),
{
    if texts.len() == 0 {
        m
    } else {
        learned(learned_texts(m, texts.drop_last()), stream(texts.last()))
    }
}

/// How many times `b` stands right after `a` in `s`.
pub open spec fn pairs(s: Seq<Sym>, a: Sym, b: Sym) -> nat
    decreases s.len(),
{
    if s.len() < 2 {
        0
    } else {
        pairs(s.drop_last(), a, b) + if s[s.len() - 2] == a && s.last() == b {
            1nat
        } else {
            0nat
        }
    }
}

/// Accumulates a transition table from texts.
pub struct MarkovBuilder {
    pub segmenter: Segmenter,
    pub model: MarkovModel,
}

impl View for MarkovBuilder {
    type V = Map<Sym, Map<Sym, u32>>;

    open spec fn view(&self) -> Map<Sym, Map<Sym, u32>> {
        self.model@
    }
}

impl MarkovBuilder {
    pub open spec fn wf(&self) -> bool {
        self.model.wf()
    }

    /// A builder with an empty table that splits texts with `segmenter`.
    pub fn from_segmenter(segmenter: Segmenter) -> (r: MarkovBuilder)
        ensures
            r.wf(),
            r@ == Map::<Sym, Map<Sym, u32>>::empty(),
            rows_valid(r.model.rows_view()),
    {
        MarkovBuilder { segmenter, model: MarkovModel::new() }
    }

    /// Counts each adjacent pair of the stream start, `words`, end.
    pub fn learn_tokens(&mut self, words: &Vec<String>)
        requires
            old(self).wf(),
        ensures
            final(self).wf(),
            final(self)@ == learned(old(self)@, stream(word_views(words@))),
            rows_valid(old(self).model.rows_view()) && (forall|i: int|
                0 <= i < words@.len() ==> (#[trigger] words@[i])@.len() > 0) ==> rows_valid(
                final(self).model.rows_view(),
            ),
    {
        let ghost s = stream(word_views(words@));
        let ghost m0 = self@;
        let mut prev = Token::Bos;
        let mut i: usize = 0;
        assert(s.take(1) =~= seq![Sym::Start]);
        while i < words.len()
            invariant
                i <= words.len(),
                s == stream(word_views(words@)),
                self.wf(),
                prev@ == s[i as int],
                self@ == learned(m0, s.take(i + 1)),
                prev@ != Sym::End,
                prev@ matches Sym::Word(w) ==> w.len() > 0 || !(forall|k: int|
                    0 <= k < words@.len() ==> (#[trigger] words@[k])@.len() > 0),
                rows_valid(old(self).model.rows_view()) && (forall|k: int|
                    0 <= k < words@.len() ==> (#[trigger] words@[k])@.len() > 0) ==> rows_valid(
                    self.model.rows_view(),
                ),
            decreases words.len() - i,
        {
            let w = Token::Word(words[i].clone());
            self.model.add_pair(&prev, &w);
            proof {
                assert(s.take(i + 2).drop_last() =~= s.take(i + 1));
                assert(s[i + 1] == w@);
            }
            prev = w;
            i += 1;
        }
        self.model.add_pair(&prev, &Token::Eos);
        proof {
            assert(s.take(i + 2).drop_last() =~= s.take(i + 1));
            assert(s.take(i + 2) =~= s);
        }
    }

    /// Splits `text` into words and counts each adjacent pair of start, words, end.
    pub fn learn_one(&mut self, text: &str)
        requires
            old(self).wf(),
        ensures
            final(self).wf(),
            exists|words: Seq<Seq<char>>|
                words.flatten() == text@ && final(self)@ == learned(
                    old(self)@,
                    #[trigger] stream(words),
                ),
            text@.len() == 0 ==> final(self)@ == bump(old(self)@, Sym::Start, Sym::End),
    {
        let words = segment(&self.segmenter, text);
        self.learn_tokens(&words);
        proof {
            let ws = word_views(words@);
            assert(final(self)@ == learned(old(self)@, stream(ws)));
            if text@.len() == 0 {
                lemma_learn_empty(old(self)@);
                assert(ws =~= Seq::<Seq<char>>::empty());
            }
        }
    }

    /// Learns each text in turn.
    pub fn learn_many(&mut self, texts: &[String])
        requires
            old(self).wf(),
        ensures
            final(self).wf(),
            exists|ws: Seq<Seq<Seq<char>>>|
                #![trigger learned_texts(old(self)@, ws)]
                ws.len() == texts@.len() && final(self)@ == learned_texts(old(self)@, ws) && (
                forall|k: int|
                    0 <= k < ws.len() ==> (#[trigger] ws[k]).flatten() == texts@[k]@ && (
                    texts@[k]@.len() == 0 ==> ws[k].len() == 0)),
    {
        let ghost m0 = self@;
        let ghost mut ws: Seq<Seq<Seq<char>>> = Seq::empty();
        let mut i: usize = 0;
        while i < texts.len()
            invariant
                i <= texts@.len(),
                self.wf(),
                ws.len() == i,
                self@ == learned_texts(m0, ws),
                forall|k: int|
                    0 <= k < ws.len() ==> (#[trigger] ws[k]).flatten() == texts@[k]@ && (
                    texts@[k]@.len() == 0 ==> ws[k].len() == 0),
            decreases texts@.len() - i,
        {
            let words = segment(&self.segmenter, texts[i].as_str());
            self.learn_tokens(&words);
            proof {
                let ws2 = ws.push(word_views(words@));
                assert(ws2.drop_last() =~= ws);
                assert(ws2[i as int] == word_views(words@));
                ws = ws2;
            }
            i += 1;
        }
    }

    /// The table learned so far.
    pub fn build(self) -> (r: MarkovModel)
        requires
            self.wf(),
        ensures
            r.wf(),
            r@ == self@,
            r.rows_view() == self.model.rows_view(),
    {
        self.model
    }
}

/// Learning a text with no words counts the start marker followed by the end marker, and
/// nothing else.
pub proof fn lemma_learn_empty(m: Map<Sym, Map<Sym, u32>>)
    ensures
        learned(m, stream(Seq::empty())) == bump(m, Sym::Start, Sym::End),
{
    let s = stream(Seq::empty());
    assert(s =~= seq![Sym::Start, Sym::End]);
    assert(s.drop_last().len() == 1);
    assert(learned(m, s.drop_last()) == m);
    assert(s[s.len() - 2] == Sym::Start && s.last() == Sym::End);
}

proof fn lemma_count_bump(m: Map<Sym, Map<Sym, u32>>, x: Sym, y: Sym, a: Sym, b: Sym)
    ensures
        count(bump(m, x, y), a, b) == if a == x && b == y {
            if count(m, a, b) < u32::MAX {
                count(m, a, b) + 1
            } else {
                count(m, a, b)
            }
        } else {
            count(m, a, b)
        },
{
}

/// Learning a token stream adds to each count the number of times its pair occurs in the
/// stream, as long as the sum fits in a `u32`.
pub proof fn lemma_learned_count(m: Map<Sym, Map<Sym, u32>>, s: Seq<Sym>, a: Sym, b: Sym)
    requires
        count(m, a, b) + pairs(s, a, b) <= u32::MAX,
    ensures
        count(learned(m, s), a, b) == count(m, a, b) + pairs(s, a, b),
    decreases s.len(),
{
    if s.len() >= 2 {
        lemma_learned_count(m, s.drop_last(), a, b);
        lemma_count_bump(learned(m, s.drop_last()), s[s.len() - 2], s.last(), a, b);
    }
}

/// Learning the same text twice adds twice what learning it once adds to every count, and
/// leaves a pair that the text does not hold at its prior count (counts saturate at the top
/// of `u32`, so the sum must fit).
pub proof fn lemma_learn_twice(m: Map<Sym, Map<Sym, u32>>, words: Seq<Seq<char>>, a: Sym, b: Sym)
    requires
        count(m, a, b) + 2 * pairs(stream(words), a, b) <= u32::MAX,
    ensures
        count(learned(learned(m, stream(words)), stream(words)), a, b) == count(m, a, b) + 2 * (
        count(learned(m, stream(words)), a, b) - count(m, a, b)),
        pairs(stream(words), a, b) == 0 ==> count(
            learned(learned(m, stream(words)), stream(words)),
            a,
            b,
        ) == count(m, a, b),
{
    let s = stream(words);
    lemma_learned_count(m, s, a, b);
    lemma_learned_count(learned(m, s), s, a, b);
}

} // verus!
