//! Sentence tokenization.
//!
//! A sentence is lowercased, every punctuation character of a fixed set is
//! set apart as a token of its own, and the remaining text is split on runs
//! of ASCII whitespace; empty fragments are discarded.

use vstd::prelude::*;

verus! {

/// The fixed punctuation set. Each of these characters always becomes a
/// standalone token, separated from adjacent text.
pub open spec fn is_punct(c: char) -> bool {
    c == ',' || c == ';' || c == ':' || c == '.' || c == '!' || c == '?' || c == '¿' || c == '¡'
        || c == '(' || c == ')' || c == '<' || c == '>' || c == '=' || c == '"' || c == '\''
        || c == '`'
}

/// ASCII whitespace: the separators that token splitting discards.
pub open spec fn is_ascii_ws(c: char) -> bool {
    c == ' ' || c == '\t' || c == '\n' || c == '\r' || c == '\u{c}'
}

fn punct_char(c: char) -> (b: bool)
    ensures
        b == is_punct(c),
{
    c == ',' || c == ';' || c == ':' || c == '.' || c == '!' || c == '?' || c == '¿' || c == '¡'
        || c == '(' || c == ')' || c == '<' || c == '>' || c == '=' || c == '"' || c == '\''
        || c == '`'
}

fn ws_char(c: char) -> (b: bool)
    ensures
        b == is_ascii_ws(c),
{
    c == ' ' || c == '\t' || c == '\n' || c == '\r' || c == '\u{c}'
}

/// A partial token: emitted as a singleton sequence when non-empty, and
/// dropped when empty.
pub open spec fn emit(cur: Seq<char>) -> Seq<Seq<char>> {
    if cur.len() == 0 {
        Seq::empty()
    } else {
        seq![cur]
    }
}

/// The token scan: `cur` holds the word characters read since the last cut.
/// Whitespace cuts and is dropped, a punctuation character cuts and stands
/// alone, and any other character extends the current word.
pub open spec fn token_scan(s: Seq<char>, cur: Seq<char>) -> Seq<Seq<char>>
    decreases s.len(),
{
    if s.len() == 0 {
        emit(cur)
    } else if is_ascii_ws(s[0]) {
        emit(cur) + token_scan(s.skip(1), Seq::empty())
    } else if is_punct(s[0]) {
        emit(cur) + seq![seq![s[0]]] + token_scan(s.skip(1), Seq::empty())
    } else {
        token_scan(s.skip(1), cur.push(s[0]))
    }
}

/// The tokens of `s`: the result of surrounding every punctuation character
/// with spaces, splitting on ASCII whitespace, and discarding the empty
/// fragments.
pub open spec fn spec_tokenize(s: Seq<char>) -> Seq<Seq<char>> {
    token_scan(s, Seq::empty())
}

/// The space insertion around one character: a punctuation character gains a
/// space on either side, any other character stands as itself.
pub open spec fn pad_char(c: char) -> Seq<char> {
    if is_punct(c) {
        seq![' ', c, ' ']
    } else {
        seq![c]
    }
}

/// The text with every punctuation character surrounded by spaces.
pub open spec fn spec_pad(s: Seq<char>) -> Seq<char>
    decreases s.len(),
{
    if s.len() == 0 {
        Seq::empty()
    } else {
        pad_char(s[0]) + spec_pad(s.skip(1))
    }
}

/// The whitespace split scan: whitespace cuts and is dropped, any other
/// character extends the current fragment, and empty fragments are dropped.
pub open spec fn ws_scan(s: Seq<char>, cur: Seq<char>) -> Seq<Seq<char>>
    decreases s.len(),
{
    if s.len() == 0 {
        emit(cur)
    } else if is_ascii_ws(s[0]) {
        emit(cur) + ws_scan(s.skip(1), Seq::empty())
    } else {
        ws_scan(s.skip(1), cur.push(s[0]))
    }
}

/// Splitting on runs of ASCII whitespace, discarding empty fragments.
pub open spec fn spec_split_ws(s: Seq<char>) -> Seq<Seq<char>> {
    ws_scan(s, Seq::empty())
}

proof fn lemma_scan_pad(s: Seq<char>, cur: Seq<char>)
    ensures
        token_scan(s, cur) == ws_scan(spec_pad(s), cur),
    decreases s.len(),
{
    if s.len() == 0 {
    } else {
        let c = s[0];
        let rest = spec_pad(s.skip(1));
        if is_ascii_ws(c) {
            lemma_scan_pad(s.skip(1), Seq::empty());
            assert(spec_pad(s) == seq![c] + rest);
            assert((seq![c] + rest)[0] == c);
            assert((seq![c] + rest).skip(1) =~= rest);
        } else if is_punct(c) {
            lemma_scan_pad(s.skip(1), Seq::empty());
            assert(spec_pad(s) == seq![' ', c, ' '] + rest);
            let p1 = seq![' ', c, ' '] + rest;
            let p2 = seq![c, ' '] + rest;
            let p3 = seq![' '] + rest;
            assert(p1[0] == ' ');
            assert(p1.skip(1) =~= p2);
            assert(ws_scan(p1, cur) == emit(cur) + ws_scan(p2, Seq::empty()));
            assert(p2[0] == c);
            assert(p2.skip(1) =~= p3);
            assert(ws_scan(p2, Seq::empty()) == ws_scan(p3, Seq::<char>::empty().push(c)));
            assert(p3[0] == ' ');
            assert(p3.skip(1) =~= rest);
            assert(Seq::<char>::empty().push(c) =~= seq![c]);
            assert(ws_scan(p3, seq![c]) == emit(seq![c]) + ws_scan(rest, Seq::empty()));
            assert(emit(seq![c]) =~= seq![seq![c]]);
            assert(emit(cur) + (seq![seq![c]] + ws_scan(rest, Seq::empty())) =~= emit(cur)
                + seq![seq![c]] + ws_scan(rest, Seq::empty()));
        } else {
            lemma_scan_pad(s.skip(1), cur.push(c));
            assert(spec_pad(s) == seq![c] + rest);
            assert((seq![c] + rest)[0] == c);
            assert((seq![c] + rest).skip(1) =~= rest);
        }
    }
}

/// Tokenization is exactly the algorithm it abbreviates: surround every
/// punctuation character with spaces, split on ASCII whitespace, and discard
/// the empty fragments.
pub proof fn lemma_tokenize_is_pad_and_split(s: Seq<char>)
    ensures
        spec_tokenize(s) == spec_split_ws(spec_pad(s)),
{
    lemma_scan_pad(s, Seq::empty());
}

/// The Unicode lowercase form of `s`, as `str::to_lowercase` computes it.
pub uninterp spec fn lower_of(s: Seq<char>) -> Seq<char>;

/// Relies on str::to_lowercase: the Unicode lowercase mapping, a function of
/// the characters alone; an empty string stays empty.
#[verifier::external_body]
fn lowercase(s: &str) -> (r: String)
    ensures
        r@ == lower_of(s@),
        s@.len() == 0 ==> r@.len() == 0,
{
    s.to_lowercase()
}

/// A run of word characters starting at `a` and ending at the cut `j` is
/// scanned into one token holding exactly those characters.
proof fn lemma_scan_word(s: Seq<char>, a: int, j: int, cur: Seq<char>)
    requires
        0 <= a <= j <= s.len(),
        forall|k: int| a <= k < j ==> !is_ascii_ws(s[k]) && !is_punct(s[k]),
        j == s.len() || is_ascii_ws(s[j]) || is_punct(s[j]),
    ensures
        token_scan(s.skip(a), cur) == emit(cur + s.subrange(a, j)) + token_scan(
            s.skip(j),
            Seq::empty(),
        ),
    decreases j - a,
{
    if a == j {
        assert(cur + s.subrange(a, j) =~= cur);
        if j == s.len() {
            assert(s.skip(j) =~= Seq::<char>::empty());
            assert(token_scan(s.skip(j), Seq::empty()) =~= Seq::<Seq<char>>::empty());
            assert(emit(cur) + Seq::<Seq<char>>::empty() =~= emit(cur));
        } else {
            assert(s.skip(j)[0] == s[j]);
            assert(emit(Seq::<char>::empty()) =~= Seq::<Seq<char>>::empty());
            if is_ascii_ws(s[j]) {
                assert(token_scan(s.skip(j), cur) == emit(cur) + token_scan(
                    s.skip(j).skip(1),
                    Seq::empty(),
                ));
                assert(token_scan(s.skip(j), Seq::empty()) =~= token_scan(
                    s.skip(j).skip(1),
                    Seq::empty(),
                ));
            } else {
                assert(token_scan(s.skip(j), cur) == emit(cur) + seq![seq![s[j]]] + token_scan(
                    s.skip(j).skip(1),
                    Seq::empty(),
                ));
                assert(token_scan(s.skip(j), Seq::empty()) =~= seq![seq![s[j]]] + token_scan(
                    s.skip(j).skip(1),
                    Seq::empty(),
                ));
            }
        }
    } else {
        assert(s.skip(a)[0] == s[a]);
        assert(s.skip(a).skip(1) =~= s.skip(a + 1));
        assert(token_scan(s.skip(a), cur) == token_scan(s.skip(a + 1), cur.push(s[a])));
        lemma_scan_word(s, a + 1, j, cur.push(s[a]));
        assert(cur.push(s[a]) + s.subrange(a + 1, j) =~= cur + s.subrange(a, j));
    }
}

/// Every token the scan produces is non-empty.
proof fn lemma_scan_nonempty(s: Seq<char>, cur: Seq<char>)
    ensures
        forall|k: int|
            0 <= k < token_scan(s, cur).len() ==> #[trigger] token_scan(s, cur)[k].len() > 0,
    decreases s.len(),
{
    if s.len() == 0 {
    } else if is_ascii_ws(s[0]) {
        lemma_scan_nonempty(s.skip(1), Seq::empty());
        let e = emit(cur);
        let rest = token_scan(s.skip(1), Seq::empty());
        assert(token_scan(s, cur) == e + rest);
        assert forall|k: int|
            0 <= k < token_scan(s, cur).len() implies #[trigger] token_scan(s, cur)[k].len()
            > 0 by {
            if k < e.len() {
                assert(token_scan(s, cur)[k] == cur);
            } else {
                assert(token_scan(s, cur)[k] == rest[k - e.len()]);
            }
        }
    } else if is_punct(s[0]) {
        lemma_scan_nonempty(s.skip(1), Seq::empty());
        let e = emit(cur) + seq![seq![s[0]]];
        let rest = token_scan(s.skip(1), Seq::empty());
        assert(token_scan(s, cur) == e + rest);
        assert forall|k: int|
            0 <= k < token_scan(s, cur).len() implies #[trigger] token_scan(s, cur)[k].len()
            > 0 by {
            if k < e.len() {
                if k < emit(cur).len() {
                    assert(e[k] == cur);
                } else {
                    assert(e[k] == seq![s[0]]);
                }
                assert(token_scan(s, cur)[k] == e[k]);
            } else {
                assert(token_scan(s, cur)[k] == rest[k - e.len()]);
            }
        }
    } else {
        lemma_scan_nonempty(s.skip(1), cur.push(s[0]));
        assert(token_scan(s, cur) == token_scan(s.skip(1), cur.push(s[0])));
    }
}

/// Every token of a tokenized sentence is a non-empty string.
pub proof fn lemma_tokens_nonempty(s: Seq<char>)
    ensures
        forall|k: int|
            0 <= k < spec_tokenize(s).len() ==> #[trigger] spec_tokenize(s)[k].len() > 0,
{
    lemma_scan_nonempty(s, Seq::empty());
}

/// Lowercases the sentence and cuts it into tokens: each punctuation
/// character of the fixed set stands alone, ASCII whitespace separates and is
/// dropped, and every other maximal run of characters is one token, in the
/// order of appearance.
pub fn tokenize(sentence: &str) -> (tokens: Vec<String>)
    ensures
        tokens.deep_view() == spec_tokenize(lower_of(sentence@)),
        sentence@.len() == 0 ==> tokens@.len() == 0,
{
    let low = lowercase(sentence);
    let ghost ls = low@;
    let n = low.as_str().unicode_len();
    let mut tokens: Vec<String> = Vec::new();
    let mut i: usize = 0;
    proof {
        assert(ls.skip(0) =~= ls);
        assert(tokens.deep_view() =~= Seq::<Seq<char>>::empty());
        assert(Seq::<Seq<char>>::empty() + token_scan(ls, Seq::empty()) =~= token_scan(
            ls,
            Seq::empty(),
        ));
    }
    while i < n
        invariant
            i <= n,
            n == ls.len(),
            low@ == ls,
            tokens.deep_view() + token_scan(ls.skip(i as int), Seq::empty()) == token_scan(
                ls,
                Seq::empty(),
            ),
        decreases n - i,
    {
        let c = low.as_str().get_char(i);
        assert(ls.skip(i as int)[0] == ls[i as int]);
        if ws_char(c) {
            proof {
                assert(ls.skip(i as int).skip(1) =~= ls.skip(i as int + 1));
                assert(token_scan(ls.skip(i as int), Seq::empty()) =~= token_scan(
                    ls.skip(i as int + 1),
                    Seq::empty(),
                ));
            }
            i = i + 1;
        } else if punct_char(c) {
            let ghost pre = tokens.deep_view();
            let t = low.as_str().substring_char(i, i + 1).to_owned();
            tokens.push(t);
            proof {
                assert(t@ =~= seq![ls[i as int]]);
                assert(tokens.deep_view() =~= pre.push(t@));
                assert(ls.skip(i as int).skip(1) =~= ls.skip(i as int + 1));
                assert(token_scan(ls.skip(i as int), Seq::empty()) =~= seq![seq![ls[i as int]]]
                    + token_scan(ls.skip(i as int + 1), Seq::empty()));
                assert(pre.push(t@) + token_scan(ls.skip(i as int + 1), Seq::empty()) =~= pre
                    + token_scan(ls.skip(i as int), Seq::empty()));
            }
            i = i + 1;
        } else {
            let start = i;
            let ghost pre = tokens.deep_view();
            let mut j: usize = i + 1;
            loop
                invariant
                    start < j <= n,
                    n == ls.len(),
                    low@ == ls,
                    forall|k: int| start <= k < j ==> !is_ascii_ws(ls[k]) && !is_punct(ls[k]),
                ensures
                    start < j <= n,
                    forall|k: int| start <= k < j ==> !is_ascii_ws(ls[k]) && !is_punct(ls[k]),
                    j == n || is_ascii_ws(ls[j as int]) || is_punct(ls[j as int]),
                decreases n - j,
            {
                if j >= n {
                    break ;
                }
                let c2 = low.as_str().get_char(j);
                if ws_char(c2) {
                    break ;
                }
                if punct_char(c2) {
                    break ;
                }
                j = j + 1;
            }
            let t = low.as_str().substring_char(start, j).to_owned();
            tokens.push(t);
            proof {
                lemma_scan_word(ls, start as int, j as int, Seq::empty());
                assert(Seq::<char>::empty() + ls.subrange(start as int, j as int) =~= ls.subrange(
                    start as int,
                    j as int,
                ));
                assert(t@ =~= ls.subrange(start as int, j as int));
                assert(t@.len() > 0);
                assert(emit(t@) =~= seq![t@]);
                assert(tokens.deep_view() =~= pre.push(t@));
                assert(pre.push(t@) + token_scan(ls.skip(j as int), Seq::empty()) =~= pre
                    + token_scan(ls.skip(start as int), Seq::empty()));
            }
            i = j;
        }
    }
    proof {
        assert(ls.skip(n as int) =~= Seq::<char>::empty());
        assert(token_scan(ls.skip(n as int), Seq::empty()) =~= Seq::<Seq<char>>::empty());
        assert(tokens.deep_view() + Seq::<Seq<char>>::empty() =~= tokens.deep_view());
        assert(tokens.deep_view().len() == tokens@.len());
    }
    tokens
}

} // verus!
