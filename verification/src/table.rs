//! Probability tables and the line format they are loaded from.
//!
//! Each line of a table file is `<key> <probability>`: the probability is the
//! last whitespace-separated field, and everything before the last space is
//! the key, which may itself contain spaces (a bigram key holds two words).
//! A line without a space is recorded under the empty key. Probability values
//! are carried as the 64-bit patterns of their numeric encoding; the caller
//! parses the numeric field and hands the pattern in.

use vstd::prelude::*;

verus! {

/// Split of a line at its last space: the part before it (the key) and the
/// part after it (the numeric field). A line without a space splits into an
/// empty key and the whole line as the numeric field.
pub open spec fn spec_split_line(s: Seq<char>) -> (Seq<char>, Seq<char>)
    decreases s.len(),
{
    if s.len() == 0 {
        (Seq::empty(), Seq::empty())
    } else if s.last() == ' ' {
        (s.drop_last(), Seq::empty())
    } else {
        let (k, n) = spec_split_line(s.drop_last());
        (k, n.push(s.last()))
    }
}

/// The key part of a line: everything before the last space.
pub open spec fn spec_key_of(s: Seq<char>) -> Seq<char> {
    spec_split_line(s).0
}

/// The numeric field of a line: everything after the last space.
pub open spec fn spec_num_of(s: Seq<char>) -> Seq<char> {
    spec_split_line(s).1
}

/// A line whose last space stands at `p` splits into the part before `p` and
/// the part after `p`.
proof fn lemma_split_line_at(s: Seq<char>, p: int)
    requires
        0 <= p < s.len(),
        s[p] == ' ',
        forall|k: int| p < k < s.len() ==> s[k] != ' ',
    ensures
        spec_split_line(s) == (s.take(p), s.skip(p + 1)),
    decreases s.len(),
{
    if p == s.len() - 1 {
        assert(s.last() == ' ');
        assert(s.drop_last() =~= s.take(p));
        assert(s.skip(p + 1) =~= Seq::<char>::empty());
    } else {
        assert(s.last() != ' ');
        lemma_split_line_at(s.drop_last(), p);
        assert(s.drop_last().take(p) =~= s.take(p));
        assert(s.drop_last().skip(p + 1).push(s.last()) =~= s.skip(p + 1));
    }
}

/// A line without any space splits into an empty key and the whole line.
proof fn lemma_split_line_no_space(s: Seq<char>)
    requires
        forall|k: int| 0 <= k < s.len() ==> s[k] != ' ',
    ensures
        spec_split_line(s) == (Seq::<char>::empty(), s),
    decreases s.len(),
{
    if s.len() == 0 {
        assert(spec_split_line(s) == (Seq::<char>::empty(), Seq::<char>::empty()));
    } else {
        assert(s.last() != ' ');
        lemma_split_line_no_space(s.drop_last());
        assert(s.drop_last().push(s.last()) =~= s);
    }
}

/// For a well-formed line `<key> <value>` whose value field holds no space,
/// the split recovers the key and the value exactly — also when the key
/// itself contains spaces, as a bigram key does.
pub proof fn lemma_split_well_formed_line(key: Seq<char>, value: Seq<char>)
    requires
        forall|k: int| 0 <= k < value.len() ==> value[k] != ' ',
    ensures
        spec_key_of(key + seq![' '] + value) == key,
        spec_num_of(key + seq![' '] + value) == value,
{
    let s = key + seq![' '] + value;
    let p = key.len() as int;
    assert(s[p] == ' ');
    assert forall|k: int| p < k < s.len() implies s[k] != ' ' by {
        assert(s[k] == value[k - p - 1]);
    }
    lemma_split_line_at(s, p);
    assert(s.take(p) =~= key);
    assert(s.skip(p + 1) =~= value);
}

/// Splits a line at its last space: the key before it, the numeric field
/// after it. A line without a space yields an empty key and the whole line
/// as the numeric field.
pub fn split_line(line: &str) -> (r: (String, String))
    ensures
        r.0@ == spec_key_of(line@),
        r.1@ == spec_num_of(line@),
{
    let n = line.unicode_len();
    let mut p: usize = n;
    let mut found = false;
    loop
        invariant
            n == line@.len(),
            0 <= p <= n,
            !found ==> forall|k: int| p <= k < n ==> line@[k] != ' ',
            found ==> p < n && line@[p as int] == ' ' && forall|k: int|
                p < k < n ==> line@[k] != ' ',
        ensures
            !found ==> forall|k: int| 0 <= k < n ==> line@[k] != ' ',
            found ==> p < n && line@[p as int] == ' ' && forall|k: int|
                p < k < n ==> line@[k] != ' ',
            n == line@.len(),
        decreases p + 1,
    {
        if found {
            break ;
        }
        if p == 0 {
            break ;
        }
        let c = line.get_char(p - 1);
        if c == ' ' {
            p = p - 1;
            found = true;
            break ;
        }
        p = p - 1;
    }
    if found {
        let key = line.substring_char(0, p).to_owned();
        let num = line.substring_char(p + 1, n).to_owned();
        proof {
            lemma_split_line_at(line@, p as int);
            assert(key@ =~= line@.take(p as int));
            assert(num@ =~= line@.skip(p as int + 1));
        }
        (key, num)
    } else {
        let key = String::new();
        let num = line.substring_char(0, n).to_owned();
        proof {
            lemma_split_line_no_space(line@);
            assert(num@ =~= line@);
        }
        (key, num)
    }
}

/// The key parts of a file's lines, in line order.
pub open spec fn spec_keys_of(lines: Seq<Seq<char>>) -> Seq<Seq<char>> {
    Seq::new(lines.len(), |i: int| spec_key_of(lines[i]))
}

/// The numeric fields of a file's lines, in line order.
pub open spec fn spec_nums_of(lines: Seq<Seq<char>>) -> Seq<Seq<char>> {
    Seq::new(lines.len(), |i: int| spec_num_of(lines[i]))
}

/// Splits every line of a file into its key and its numeric field, in line
/// order.
pub fn split_lines(lines: &Vec<String>) -> (r: (Vec<String>, Vec<String>))
    ensures
        r.0.deep_view() == spec_keys_of(lines.deep_view()),
        r.1.deep_view() == spec_nums_of(lines.deep_view()),
{
    let mut keys: Vec<String> = Vec::new();
    let mut nums: Vec<String> = Vec::new();
    let n = lines.len();
    let mut i: usize = 0;
    while i < n
        invariant
            i <= n,
            n == lines@.len(),
            keys.deep_view() == spec_keys_of(lines.deep_view().take(i as int)),
            nums.deep_view() == spec_nums_of(lines.deep_view().take(i as int)),
        decreases n - i,
    {
        let ghost pre_k = keys.deep_view();
        let ghost pre_n = nums.deep_view();
        let (key, num) = split_line(lines[i].as_str());
        keys.push(key);
        nums.push(num);
        proof {
            assert(lines@[i as int]@ == lines.deep_view()[i as int]);
            assert(keys.deep_view() =~= pre_k.push(key@));
            assert(nums.deep_view() =~= pre_n.push(num@));
            assert(keys.deep_view() =~= spec_keys_of(lines.deep_view().take(i as int + 1)));
            assert(nums.deep_view() =~= spec_nums_of(lines.deep_view().take(i as int + 1)));
        }
        i = i + 1;
    }
    proof {
        assert(lines.deep_view().take(n as int) =~= lines.deep_view());
        assert(keys.deep_view() =~= spec_keys_of(lines.deep_view()));
        assert(nums.deep_view() =~= spec_nums_of(lines.deep_view()));
    }
    (keys, nums)
}

/// No two entries share a key.
pub open spec fn unique_keys(es: Seq<(Seq<char>, u64)>) -> bool {
    forall|i: int, j: int| 0 <= i < j < es.len() ==> es[i].0 != es[j].0
}

/// The mapping a sequence of entries stands for: entries are added in order,
/// a later entry overriding an earlier one of the same key.
pub open spec fn table_map(es: Seq<(Seq<char>, u64)>) -> Map<Seq<char>, u64>
    decreases es.len(),
{
    if es.len() == 0 {
        Map::empty()
    } else {
        table_map(es.drop_last()).insert(es.last().0, es.last().1)
    }
}

/// A key is in the mapping exactly when some entry holds it.
proof fn lemma_table_map_contains(es: Seq<(Seq<char>, u64)>, key: Seq<char>)
    ensures
        table_map(es).contains_key(key) <==> exists|i: int|
            0 <= i < es.len() && es[i].0 == key,
    decreases es.len(),
{
    if es.len() == 0 {
    } else {
        lemma_table_map_contains(es.drop_last(), key);
        if es.last().0 == key {
            assert(es[es.len() - 1].0 == key);
        } else if table_map(es).contains_key(key) {
            let i = choose|i: int| 0 <= i < es.drop_last().len() && es.drop_last()[i].0 == key;
            assert(es[i].0 == key);
        } else if exists|i: int| 0 <= i < es.len() && es[i].0 == key {
            let i = choose|i: int| 0 <= i < es.len() && es[i].0 == key;
            assert(i < es.len() - 1);
            assert(es.drop_last()[i].0 == key);
        }
    }
}

/// With unique keys, the mapping sends each entry's key to that entry's
/// value.
proof fn lemma_table_map_get(es: Seq<(Seq<char>, u64)>, i: int)
    requires
        unique_keys(es),
        0 <= i < es.len(),
    ensures
        table_map(es).contains_key(es[i].0),
        table_map(es)[es[i].0] == es[i].1,
    decreases es.len(),
{
    if i == es.len() - 1 {
    } else {
        assert(es[i].0 != es.last().0);
        assert(forall|a: int, b: int|
            0 <= a < b < es.drop_last().len() ==> es.drop_last()[a].0 != es.drop_last()[b].0);
        lemma_table_map_get(es.drop_last(), i);
        assert(es.drop_last()[i] == es[i]);
    }
}

/// With unique keys, replacing the entry of a key changes the mapping as an
/// insert of that key does.
proof fn lemma_table_map_update(es: Seq<(Seq<char>, u64)>, i: int, value: u64)
    requires
        unique_keys(es),
        0 <= i < es.len(),
    ensures
        table_map(es.update(i, (es[i].0, value))) == table_map(es).insert(es[i].0, value),
    decreases es.len(),
{
    let key = es[i].0;
    let up = es.update(i, (key, value));
    if i == es.len() - 1 {
        assert(up.drop_last() =~= es.drop_last());
        assert(up.last() == (key, value));
        assert(table_map(es.drop_last()).insert(key, es[i].1).insert(key, value)
            =~= table_map(es.drop_last()).insert(key, value));
    } else {
        assert(key != es.last().0);
        assert(forall|a: int, b: int|
            0 <= a < b < es.drop_last().len() ==> es.drop_last()[a].0 != es.drop_last()[b].0);
        assert(es.drop_last()[i] == es[i]);
        lemma_table_map_update(es.drop_last(), i, value);
        assert(up.drop_last() =~= es.drop_last().update(i, (key, value)));
        assert(up.last() == es.last());
        assert(table_map(es.drop_last()).insert(key, value).insert(es.last().0, es.last().1)
            =~= table_map(es.drop_last()).insert(es.last().0, es.last().1).insert(key, value));
    }
}

/// With unique keys, the mapping holds exactly as many entries as the
/// sequence.
proof fn lemma_table_map_len(es: Seq<(Seq<char>, u64)>)
    requires
        unique_keys(es),
    ensures
        table_map(es).dom().finite(),
        table_map(es).dom().len() == es.len(),
    decreases es.len(),
{
    broadcast use vstd::set::group_set_axioms;

    if es.len() == 0 {
        assert(table_map(es).dom() =~= Set::<Seq<char>>::empty());
    } else {
        assert(forall|a: int, b: int|
            0 <= a < b < es.drop_last().len() ==> es.drop_last()[a].0 != es.drop_last()[b].0);
        lemma_table_map_len(es.drop_last());
        lemma_table_map_contains(es.drop_last(), es.last().0);
        assert(forall|i: int| 0 <= i < es.len() - 1 ==> es.drop_last()[i] == es[i]);
        assert(!table_map(es.drop_last()).contains_key(es.last().0));
        assert(table_map(es).dom() =~= table_map(es.drop_last()).dom().insert(es.last().0));
    }
}

/// The failure of a table load: the numeric field of the line at index
/// `line` is not a valid floating-point literal.
#[derive(Clone, Copy, Debug, PartialEq, Eq, Structural)]
pub struct NumericParseError {
    pub line: usize,
}

/// The mapping built from parallel sequences of keys and parsed probability
/// values, entry by entry in order, a later entry overriding an earlier one
/// of the same key. Meaningful when every value parsed.
pub open spec fn spec_table_of(keys: Seq<Seq<char>>, probs: Seq<Option<u64>>) -> Map<
    Seq<char>,
    u64,
>
    decreases keys.len(),
{
    if keys.len() == 0 {
        Map::empty()
    } else {
        spec_table_of(keys.drop_last(), probs.drop_last()).insert(
            keys.last(),
            probs.last().unwrap(),
        )
    }
}

/// A probability table: a mapping from a text key to the 64-bit pattern of
/// its probability value. Keys are unique; insertion order is irrelevant.
#[derive(Debug)]
pub struct ProbTable {
    entries: Vec<(String, u64)>,
}

impl View for ProbTable {
    type V = Map<Seq<char>, u64>;

    closed spec fn view(&self) -> Map<Seq<char>, u64> {
        table_map(self.entries.deep_view())
    }
}

impl ProbTable {
    /// The table's representation holds each key at most once.
    pub closed spec fn wf(&self) -> bool {
        unique_keys(self.entries.deep_view())
    }

    /// An empty table.
    pub fn new() -> (t: ProbTable)
        ensures
            t.wf(),
            t@ == Map::<Seq<char>, u64>::empty(),
    {
        let t = ProbTable { entries: Vec::new() };
        proof {
            assert(t.entries.deep_view() =~= Seq::<(Seq<char>, u64)>::empty());
        }
        t
    }

    /// The number of entries the table holds.
    pub fn len(&self) -> (n: usize)
        requires
            self.wf(),
        ensures
            n == self@.dom().len(),
    {
        proof {
            lemma_table_map_len(self.entries.deep_view());
        }
        self.entries.len()
    }

    /// Adds an entry, replacing the value of a key already present.
    pub fn insert(&mut self, key: String, value: u64)
        requires
            old(self).wf(),
        ensures
            final(self).wf(),
            final(self)@ == old(self)@.insert(key@, value),
    {
        let n = self.entries.len();
        let mut i: usize = 0;
        while i < n
            invariant
                i <= n,
                n == self.entries.len(),
                *self == *old(self),
                self.wf(),
                forall|k: int| 0 <= k < i ==> self.entries.deep_view()[k].0 != key@,
            decreases n - i,
        {
            if self.entries[i].0 == key {
                let ghost es = self.entries.deep_view();
                proof {
                    lemma_table_map_update(es, i as int, value);
                }
                self.entries.set(i, (key, value));
                proof {
                    assert(self.entries.deep_view() =~= es.update(
                        i as int,
                        (es[i as int].0, value),
                    ));
                }
                return ;
            }
            i = i + 1;
        }
        let ghost es = self.entries.deep_view();
        self.entries.push((key, value));
        proof {
            assert(self.entries.deep_view() =~= es.push((key@, value)));
            assert(self.entries.deep_view().drop_last() =~= es);
        }
    }

    /// The value stored under a key, or zero — the pattern of positive zero —
    /// when the key is absent. A missing key is a normal condition.
    pub fn get_or_zero(&self, key: &String) -> (r: u64)
        requires
            self.wf(),
        ensures
            r == if self@.contains_key(key@) {
                self@[key@]
            } else {
                0u64
            },
    {
        let n = self.entries.len();
        let mut i: usize = 0;
        while i < n
            invariant
                i <= n,
                n == self.entries.len(),
                self.wf(),
                forall|k: int| 0 <= k < i ==> self.entries.deep_view()[k].0 != key@,
            decreases n - i,
        {
            if self.entries[i].0 == *key {
                proof {
                    lemma_table_map_get(self.entries.deep_view(), i as int);
                }
                return self.entries[i].1;
            }
            i = i + 1;
        }
        proof {
            lemma_table_map_contains(self.entries.deep_view(), key@);
        }
        0
    }
}

/// Builds a table from the keys of a file's lines and the parsed values of
/// their numeric fields, in line order. The load fails on the first value
/// that did not parse, and succeeds exactly when every value parsed; no
/// partial table is returned.
pub fn load_table(keys: &Vec<String>, probs: &Vec<Option<u64>>) -> (r: Result<
    ProbTable,
    NumericParseError,
>)
    requires
        keys@.len() == probs@.len(),
    ensures
        match r {
            Ok(t) => {
                &&& t.wf()
                &&& t@ == spec_table_of(keys.deep_view(), probs@)
                &&& forall|i: int| 0 <= i < probs@.len() ==> probs@[i] is Some
            },
            Err(e) => {
                &&& e.line < probs@.len()
                &&& probs@[e.line as int] is None
                &&& forall|i: int| 0 <= i < e.line ==> probs@[i] is Some
            },
        },
{
    let n = keys.len();
    let mut t = ProbTable::new();
    let mut i: usize = 0;
    proof {
        assert(keys.deep_view().take(0) =~= Seq::<Seq<char>>::empty());
        assert(probs@.take(0) =~= Seq::<Option<u64>>::empty());
    }
    while i < n
        invariant
            i <= n,
            n == keys@.len(),
            n == probs@.len(),
            t.wf(),
            t@ == spec_table_of(keys.deep_view().take(i as int), probs@.take(i as int)),
            forall|k: int| 0 <= k < i ==> probs@[k] is Some,
        decreases n - i,
    {
        match probs[i] {
            Some(p) => {
                let ghost pre = t@;
                t.insert(keys[i].clone(), p);
                proof {
                    let dk = keys.deep_view();
                    assert(dk.take(i as int + 1).drop_last() =~= dk.take(i as int));
                    assert(probs@.take(i as int + 1).drop_last() =~= probs@.take(i as int));
                    assert(dk.take(i as int + 1).last() == dk[i as int]);
                    assert(dk[i as int] == keys@[i as int]@);
                    assert(probs@.take(i as int + 1).last() == probs@[i as int]);
                }
            },
            None => {
                return Err(NumericParseError { line: i });
            },
        }
        i = i + 1;
    }
    proof {
        assert(keys.deep_view().take(n as int) =~= keys.deep_view());
        assert(probs@.take(n as int) =~= probs@);
    }
    Ok(t)
}

/// Loading a single well-formed line `<key> <value>` — the value field free
/// of spaces, the key possibly holding spaces of its own — yields the table
/// with exactly the one entry sending that key to the parsed value.
pub proof fn lemma_load_single_line(key: Seq<char>, value: Seq<char>, bits: u64)
    requires
        forall|k: int| 0 <= k < value.len() ==> value[k] != ' ',
    ensures
        spec_table_of(seq![spec_key_of(key + seq![' '] + value)], seq![Some(bits)])
            == Map::<Seq<char>, u64>::empty().insert(key, bits),
{
    lemma_split_well_formed_line(key, value);
    let ks = seq![spec_key_of(key + seq![' '] + value)];
    let ps = seq![Some(bits)];
    assert(ks.drop_last() =~= Seq::<Seq<char>>::empty());
    assert(ps.drop_last() =~= Seq::<Option<u64>>::empty());
    assert(ks.last() == key);
    assert(ps.last() == Some(bits));
    assert(ps.last().unwrap() == bits);
    assert(spec_table_of(ks.drop_last(), ps.drop_last()) == Map::<Seq<char>, u64>::empty());
    assert(spec_table_of(ks, ps) == spec_table_of(ks.drop_last(), ps.drop_last()).insert(
        ks.last(),
        ps.last().unwrap(),
    ));
}

} // verus!
