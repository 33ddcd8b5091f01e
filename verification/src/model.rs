//! The bigram perplexity model: one unigram table and one bigram table,
//! immutable once built, and the scoring pipeline over them.
//!
//! Scoring a sentence tokenizes it and walks the tokens left to right with a
//! synthetic previous word `#` at the start. For each token it looks up the
//! bigram entry `"<prev> <token>"` and the unigram entry of the token, a
//! missing entry counting as zero. The pair of looked-up bit patterns per
//! token is everything the perplexity formula consumes; the numeric
//! evaluation of those pairs lives with the caller.

use vstd::prelude::*;

use crate::table::ProbTable;
use crate::tokenizer::lower_of;
use crate::tokenizer::spec_tokenize;
use crate::tokenizer::tokenize;

verus! {

/// The per-token lookup results for a token sequence, walked left to right:
/// for each token, the bigram value stored under `prev + " " + token` and the
/// unigram value stored under the token, each zero — the pattern of positive
/// zero — when absent.
pub open spec fn spec_terms(
    bigrams: Map<Seq<char>, u64>,
    unigrams: Map<Seq<char>, u64>,
    prev: Seq<char>,
    toks: Seq<Seq<char>>,
) -> Seq<(u64, u64)>
    decreases toks.len(),
{
    if toks.len() == 0 {
        Seq::empty()
    } else {
        let w = toks[0];
        let key = prev + seq![' '] + w;
        let b = if bigrams.contains_key(key) {
            bigrams[key]
        } else {
            0u64
        };
        let u = if unigrams.contains_key(w) {
            unigrams[w]
        } else {
            0u64
        };
        seq![(b, u)] + spec_terms(bigrams, unigrams, w, toks.skip(1))
    }
}

/// The lookup pairs of a whole sentence: its tokens walked from the sentence
/// start sentinel `#`.
pub open spec fn spec_sentence_terms(
    bigrams: Map<Seq<char>, u64>,
    unigrams: Map<Seq<char>, u64>,
    sentence: Seq<char>,
) -> Seq<(u64, u64)> {
    spec_terms(bigrams, unigrams, seq!['#'], spec_tokenize(lower_of(sentence)))
}

/// A bigram perplexity model: a unigram table and a bigram table, read-only
/// once built.
pub struct BigramPerplexityModel {
    unigrams: ProbTable,
    bigrams: ProbTable,
}

impl BigramPerplexityModel {
    /// Both tables are well formed.
    pub closed spec fn wf(&self) -> bool {
        self.unigrams.wf() && self.bigrams.wf()
    }

    /// The unigram mapping.
    pub closed spec fn unigrams_map(&self) -> Map<Seq<char>, u64> {
        self.unigrams@
    }

    /// The bigram mapping.
    pub closed spec fn bigrams_map(&self) -> Map<Seq<char>, u64> {
        self.bigrams@
    }

    /// A model with empty tables.
    pub fn new() -> (m: BigramPerplexityModel)
        ensures
            m.wf(),
            m.unigrams_map() == Map::<Seq<char>, u64>::empty(),
            m.bigrams_map() == Map::<Seq<char>, u64>::empty(),
    {
        BigramPerplexityModel { unigrams: ProbTable::new(), bigrams: ProbTable::new() }
    }

    /// The model built from two loaded tables. The model is a function of
    /// the two tables alone: in whichever order they were produced, equal
    /// tables give an equal model.
    pub fn from_tables(unigrams: ProbTable, bigrams: ProbTable) -> (m: BigramPerplexityModel)
        requires
            unigrams.wf(),
            bigrams.wf(),
        ensures
            m.wf(),
            m.unigrams_map() == unigrams@,
            m.bigrams_map() == bigrams@,
    {
        BigramPerplexityModel { unigrams, bigrams }
    }

    /// The per-token inputs of the sentence's perplexity: the sentence is
    /// lowercased and tokenized, and each token contributes its bigram and
    /// unigram lookup, in token order. An empty sentence contributes
    /// nothing.
    pub fn sentence_terms(&self, sentence: &str) -> (r: Vec<(u64, u64)>)
        requires
            self.wf(),
        ensures
            r@ == spec_sentence_terms(self.bigrams_map(), self.unigrams_map(), sentence@),
            r@.len() == spec_tokenize(lower_of(sentence@)).len(),
            sentence@.len() == 0 ==> r@.len() == 0,
    {
        let toks = tokenize(sentence);
        let ghost ts = toks.deep_view();
        let ghost bm = self.bigrams_map();
        let ghost um = self.unigrams_map();
        let mut prev: String = "#".to_owned();
        proof {
            reveal_strlit("#");
            assert(prev@ =~= seq!['#']);
            assert(ts.skip(0) =~= ts);
        }
        let mut r: Vec<(u64, u64)> = Vec::new();
        let n = toks.len();
        let mut i: usize = 0;
        while i < n
            invariant
                i <= n,
                n == toks@.len(),
                ts == toks.deep_view(),
                self.wf(),
                bm == self.bigrams_map(),
                um == self.unigrams_map(),
                r@ + spec_terms(bm, um, prev@, ts.skip(i as int)) == spec_terms(
                    bm,
                    um,
                    seq!['#'],
                    ts,
                ),
            decreases n - i,
        {
            let word = &toks[i];
            let ghost prev_old = prev@;
            let mut key = prev;
            key.append(" ");
            key.append(word.as_str());
            proof {
                reveal_strlit(" ");
                assert(" "@ =~= seq![' ']);
                assert(ts.skip(i as int)[0] == ts[i as int]);
                assert(ts[i as int] == toks@[i as int]@);
                assert(key@ =~= prev_old + seq![' '] + word@);
            }
            let b = self.bigrams.get_or_zero(&key);
            let u = self.unigrams.get_or_zero(word);
            let ghost pre = r@;
            r.push((b, u));
            prev = word.clone();
            proof {
                assert(ts.skip(i as int).skip(1) =~= ts.skip(i as int + 1));
                assert(spec_terms(bm, um, prev_old, ts.skip(i as int)) == seq![(b, u)]
                    + spec_terms(bm, um, word@, ts.skip(i as int + 1)));
                assert(r@ =~= pre.push((b, u)));
                assert(pre.push((b, u)) =~= pre + seq![(b, u)]);
                assert(pre + seq![(b, u)] + spec_terms(bm, um, word@, ts.skip(i as int + 1)) =~= pre
                    + (seq![(b, u)] + spec_terms(bm, um, word@, ts.skip(i as int + 1))));
            }
            i = i + 1;
        }
        proof {
            assert(ts.skip(n as int) =~= Seq::<Seq<char>>::empty());
            assert(r@ + Seq::<(u64, u64)>::empty() =~= r@);
            lemma_terms_len(bm, um, seq!['#'], ts);
        }
        r
    }
}

/// Each token contributes exactly one pair: the per-token inputs are as many
/// as the tokens, the count the perplexity mean divides by.
pub proof fn lemma_terms_len(
    bigrams: Map<Seq<char>, u64>,
    unigrams: Map<Seq<char>, u64>,
    prev: Seq<char>,
    toks: Seq<Seq<char>>,
)
    ensures
        spec_terms(bigrams, unigrams, prev, toks).len() == toks.len(),
    decreases toks.len(),
{
    if toks.len() > 0 {
        lemma_terms_len(bigrams, unigrams, toks[0], toks.skip(1));
    }
}

/// Scoring reads the sentence only through its lowercase form: sentences
/// with the same lowercase form have the same per-token inputs, against any
/// model.
pub proof fn lemma_case_insensitive(
    bigrams: Map<Seq<char>, u64>,
    unigrams: Map<Seq<char>, u64>,
    s1: Seq<char>,
    s2: Seq<char>,
)
    requires
        lower_of(s1) == lower_of(s2),
    ensures
        spec_sentence_terms(bigrams, unigrams, s1) == spec_sentence_terms(bigrams, unigrams, s2),
{
}

/// Model construction is deterministic in the two tables: whichever load
/// finished first, models built from equal unigram and bigram mappings give
/// every sentence the same per-token inputs.
pub proof fn lemma_construction_equivalent(
    m1: BigramPerplexityModel,
    m2: BigramPerplexityModel,
    sentence: Seq<char>,
)
    requires
        m1.unigrams_map() == m2.unigrams_map(),
        m1.bigrams_map() == m2.bigrams_map(),
    ensures
        spec_sentence_terms(m1.bigrams_map(), m1.unigrams_map(), sentence) == spec_sentence_terms(
            m2.bigrams_map(),
            m2.unigrams_map(),
            sentence,
        ),
{
}

} // verus!
