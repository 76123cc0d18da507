use vstd::prelude::*;
use crate::text::{clean_line, cleaned, is_clean_line};
use crate::vocab::{in_vocab, is_in_vocab, spec_itos, spec_stoi, stoi, END_PAD, START_PAD, VOCAB_SIZE};

verus! {

/// Whether every character of `s` belongs to the vocabulary.
pub open spec fn all_in_vocab(s: Seq<char>) -> bool {
    forall|i: int| 0 <= i < s.len() ==> in_vocab(#[trigger] s[i])
}

/// A cleaned line between the start and the end symbol.
pub open spec fn padded(c: Seq<char>) -> Seq<char> {
    seq![START_PAD] + c + seq![END_PAD]
}

/// The bigram pairs of a cleaned line: the index of each symbol of the
/// padded line together with the index of the symbol after it.
pub open spec fn line_pairs(c: Seq<char>) -> Seq<(usize, usize)> {
    let p = padded(c);
    Seq::new(
        (p.len() - 1) as nat,
        |i: int| (spec_stoi(p[i]) as usize, spec_stoi(p[i + 1]) as usize),
    )
}

/// Whether both symbols of every pair lie inside the vocabulary.
pub open spec fn valid_pairs(d: Seq<(usize, usize)>) -> bool {
    forall|i: int| 0 <= i < d.len() ==> (#[trigger] d[i]).0 < VOCAB_SIZE && d[i].1 < VOCAB_SIZE
}

/// The pairs of a line of vocabulary symbols name vocabulary symbols only.
pub proof fn lemma_line_pairs_in_range(c: Seq<char>)
    requires
        all_in_vocab(c),
    ensures
        valid_pairs(line_pairs(c)),
{
    let p = padded(c);
    assert forall|i: int| 0 <= i < p.len() implies in_vocab(#[trigger] p[i]) by {
        if 1 <= i < p.len() - 1 {
            assert(p[i] == c[i - 1]);
        }
    }
    assert forall|i: int| 0 <= i < line_pairs(c).len() implies (#[trigger] line_pairs(c)[i]).0
        < VOCAB_SIZE && line_pairs(c)[i].1 < VOCAB_SIZE by {
        assert(in_vocab(p[i]));
        assert(in_vocab(p[i + 1]));
    }
}

/// The pairs of a cleaned, non-empty line: one more pair than the line has
/// symbols; they chain, each pair's second symbol being the next pair's
/// first; the first pair opens with the start symbol and the last closes
/// with the end symbol; the start symbol never closes a pair and the end
/// symbol never opens one; and no space follows the start symbol or
/// precedes the end symbol.
pub proof fn lemma_line_pairs_shape(c: Seq<char>)
    requires
        c.len() > 0,
        all_in_vocab(c),
        is_clean_line(c),
    ensures
        line_pairs(c).len() == c.len() + 1,
        line_pairs(c)[0].0 == spec_stoi(START_PAD),
        line_pairs(c)[c.len() as int].1 == spec_stoi(END_PAD),
        forall|i: int|
            0 <= i < c.len() ==> (#[trigger] line_pairs(c)[i]).1 == line_pairs(c)[i + 1].0,
        forall|i: int|
            0 <= i <= c.len() ==> (#[trigger] line_pairs(c)[i]).0 != spec_stoi(END_PAD)
                && line_pairs(c)[i].1 != spec_stoi(START_PAD),
        line_pairs(c)[0].1 != spec_stoi(' '),
        line_pairs(c)[c.len() as int].0 != spec_stoi(' '),
{
    let p = padded(c);
    let l = line_pairs(c);
    assert(p[0] == START_PAD);
    assert(p[c.len() as int + 1] == END_PAD);
    assert forall|i: int| 1 <= i <= c.len() implies #[trigger] p[i] == c[i - 1] && in_vocab(p[i])
        && p[i] != START_PAD && p[i] != END_PAD by {
        assert(p[i] == c[i - 1]);
        assert(in_vocab(c[i - 1]));
    }
    assert forall|i: int| 0 <= i <= c.len() implies (#[trigger] l[i]).0 != spec_stoi(END_PAD)
        && l[i].1 != spec_stoi(START_PAD) by {
        if i >= 1 {
            assert(p[i] == c[i - 1]);
        }
        if i + 1 <= c.len() {
            assert(p[i + 1] == c[i]);
        }
    }
    assert(p[1] == c[0]);
    assert(p[c.len() as int] == c[c.len() - 1]);
}

/// Whether a pair may stand in the loaded data: both symbols lie in the
/// vocabulary, the end symbol never opens a pair and the start symbol never
/// closes one, and no pair is (start, end), (start, space) or (space, end).
pub open spec fn pair_ok(p: (usize, usize)) -> bool {
    &&& p.0 < VOCAB_SIZE && p.1 < VOCAB_SIZE
    &&& p.0 != 29 && p.1 != 28
    &&& p != (28usize, 29usize) && p != (28usize, 27usize) && p != (27usize, 29usize)
}

/// Whether `d` has the shape of loaded data: every pair may stand there,
/// consecutive pairs chain (the second symbol of one is the first of the
/// next) except where one line ends and the next begins, and the data
/// begins with the start symbol and ends with the end symbol.
pub open spec fn well_formed_data(d: Seq<(usize, usize)>) -> bool {
    &&& forall|k: int| 0 <= k < d.len() ==> pair_ok(#[trigger] d[k])
    &&& forall|k: int|
        0 <= k < d.len() - 1 ==> (#[trigger] d[k]).1 == d[k + 1].0 || (d[k].1 == 29 && d[k + 1].0
            == 28)
    &&& d.len() > 0 ==> d[0].0 == 28 && d[d.len() - 1].1 == 29
}

/// The pairs of a cleaned, non-empty line of vocabulary symbols have the
/// shape of loaded data.
pub proof fn lemma_line_pairs_well_formed(c: Seq<char>)
    requires
        c.len() > 0,
        all_in_vocab(c),
        is_clean_line(c),
    ensures
        well_formed_data(line_pairs(c)),
{
    lemma_line_pairs_shape(c);
    lemma_line_pairs_in_range(c);
    let p = padded(c);
    let l = line_pairs(c);
    assert forall|i: int| 1 <= i <= c.len() implies spec_stoi(#[trigger] p[i]) <= 27 && (spec_stoi(p[i]) == 27 <==> p[i] == ' ') by {
        assert(p[i] == c[i - 1]);
        assert(in_vocab(c[i - 1]));
    }
    assert forall|k: int| 0 <= k < l.len() implies pair_ok(#[trigger] l[k]) by {
        if k >= 1 {
            assert(spec_stoi(p[k]) <= 27);
        }
        if k + 1 <= c.len() {
            assert(spec_stoi(p[k + 1]) <= 27);
        }
        assert(p[1] == c[0]);
        assert(p[c.len() as int] == c[c.len() - 1]);
    }
}

/// Appending the pairs of a further line to loaded data keeps its shape.
pub proof fn lemma_well_formed_append(d1: Seq<(usize, usize)>, d2: Seq<(usize, usize)>)
    requires
        well_formed_data(d1),
        well_formed_data(d2),
    ensures
        well_formed_data(d1 + d2),
{
    let d = d1 + d2;
    assert forall|k: int| 0 <= k < d.len() implies pair_ok(#[trigger] d[k]) by {
        if k < d1.len() {
            assert(d[k] == d1[k]);
        } else {
            assert(d[k] == d2[k - d1.len()]);
        }
    }
    assert forall|k: int| 0 <= k < d.len() - 1 implies (#[trigger] d[k]).1 == d[k + 1].0 || (d[k].1
        == 29 && d[k + 1].0 == 28) by {
        if k + 1 < d1.len() {
            assert(d[k] == d1[k] && d[k + 1] == d1[k + 1]);
        } else if k >= d1.len() {
            assert(d[k] == d2[k - d1.len()] && d[k + 1] == d2[k + 1 - d1.len()]);
        } else {
            assert(d[k] == d1[k] && d[k + 1] == d2[0]);
        }
    }
    if d.len() > 0 {
        if d1.len() > 0 {
            assert(d[0] == d1[0]);
        } else {
            assert(d[0] == d2[0]);
        }
        if d2.len() > 0 {
            assert(d[d.len() - 1] == d2[d2.len() - 1]);
        } else {
            assert(d[d.len() - 1] == d1[d1.len() - 1]);
        }
    }
}

/// Calls `String`'s `FromIterator<char>` to make a string of the characters of `v`.
#[verifier::external_body]
fn string_from_chars(v: &Vec<char>) -> (r: String)
    ensures
        r@ == v@,
{
    v.iter().collect()
}

/// The bigram pairs of a text: each pair holds the index of a symbol and
/// the index of the symbol that follows it.
pub struct DataLoader {
    pub encoded_data: Vec<(usize, usize)>,
}

impl DataLoader {
    /// The symbol with index `n`.
    pub fn decode(n: usize) -> (r: char)
        requires
            n < VOCAB_SIZE,
        ensures
            r == spec_itos(n as int),
    {
        if n == 0 {
            '.'
        } else if n == 27 {
            ' '
        } else if n == 28 {
            '^'
        } else if n == 29 {
            '$'
        } else {
            ((n as u8) + 96) as char
        }
    }
}

impl DataLoader {
    /// The index of each symbol of `line`, in order.
    pub fn encode(line: String) -> (r: Vec<usize>)
        requires
            forall|i: int| 0 <= i < line@.len() ==> in_vocab(#[trigger] line@[i]),
        ensures
            r@.len() == line@.len(),
            forall|i: int| 0 <= i < line@.len() ==> r@[i] == spec_stoi(#[trigger] line@[i]),
    {
        let mut result: Vec<usize> = Vec::new();
        for c in iter: line.as_str().chars()
            invariant
                iter.seq() == line@,
                forall|i: int| 0 <= i < line@.len() ==> in_vocab(#[trigger] line@[i]),
                result@.len() == iter.index(),
                forall|i: int| 0 <= i < result@.len() ==> result@[i] == spec_stoi(#[trigger] line@[i]),
        {
            result.push(stoi(c));
        }
        result
    }
}

impl DataLoader {
    /// The number of whole batches of `BATCH_SIZE` pairs that the data holds.
    pub fn total_steps<const BATCH_SIZE: usize>(&self) -> (r: usize)
        requires
            BATCH_SIZE > 0,
        ensures
            r == self.encoded_data@.len() / (BATCH_SIZE as nat),
    {
        self.encoded_data.len() / BATCH_SIZE
    }

    /// The symbols of batch number `step_count`: the pairs from
    /// `BATCH_SIZE * step_count` on, `BATCH_SIZE` of them, split into the
    /// inputs (first of each pair) and the targets (second of each pair).
    pub fn batch_tokens<const BATCH_SIZE: usize>(&self, step_count: usize) -> (r: (
        Vec<usize>,
        Vec<usize>,
    ))
        requires
            BATCH_SIZE * step_count + BATCH_SIZE <= self.encoded_data@.len(),
        ensures
            r.0@.len() == BATCH_SIZE,
            r.1@.len() == BATCH_SIZE,
            forall|i: int|
                0 <= i < BATCH_SIZE ==> r.0@[i] == self.encoded_data@[BATCH_SIZE * step_count
                    + i].0 && r.1@[i] == self.encoded_data@[BATCH_SIZE * step_count + i].1,
    {
        let len = self.encoded_data.len();
        assert(BATCH_SIZE * step_count + BATCH_SIZE <= len);
        let from_idx = BATCH_SIZE * step_count;
        let to_idx = from_idx + BATCH_SIZE;
        let mut x: Vec<usize> = Vec::new();
        let mut y: Vec<usize> = Vec::new();
        for idx in from_idx..to_idx
            invariant
                from_idx == BATCH_SIZE * step_count,
                to_idx == from_idx + BATCH_SIZE,
                to_idx <= self.encoded_data@.len(),
                x@.len() == idx - from_idx,
                y@.len() == idx - from_idx,
                forall|i: int|
                    0 <= i < idx - from_idx ==> x@[i] == self.encoded_data@[from_idx + i].0
                        && y@[i] == self.encoded_data@[from_idx + i].1,
        {
            let pair = self.encoded_data[idx];
            x.push(pair.0);
            y.push(pair.1);
        }
        (x, y)
    }
}

/// Every step below `total_steps` names a batch that lies wholly inside the
/// data, so `batch_tokens` accepts it.
pub proof fn lemma_steps_in_range(len: nat, batch_size: nat, step: nat)
    requires
        batch_size > 0,
        step < len / batch_size,
    ensures
        batch_size * step + batch_size <= len,
{
    assert(batch_size * step + batch_size <= len) by (nonlinear_arith)
        requires
            batch_size > 0,
            step < len / batch_size,
    {
        assert(batch_size * (len / batch_size) <= len);
        assert(batch_size * step + batch_size == batch_size * (step + 1));
        assert(step + 1 <= len / batch_size);
        assert(batch_size * (step + 1) <= batch_size * (len / batch_size));
    }
}

impl DataLoader {
    /// A loader that holds no pairs yet.
    pub fn new() -> (r: DataLoader)
        ensures
            r.encoded_data@ == Seq::<(usize, usize)>::empty(),
            well_formed_data(r.encoded_data@),
    {
        DataLoader { encoded_data: Vec::new() }
    }

    /// Takes in one line as it was read, `line` being appended to the text
    /// still `pending` from earlier lines. The whole pending text is cleaned;
    /// where nothing is left it stays pending and the line adds no pair.
    /// Otherwise the cleaned text, between the start and the end symbol, is
    /// encoded, its bigram pairs are appended to the data and nothing is
    /// pending any more. Returns `false`, and appends nothing, where the
    /// cleaned text holds a character outside the vocabulary.
    pub fn feed_line(&mut self, pending: &mut String, line: &str) -> (ok: bool)
        ensures
            ({
                let c = cleaned(old(pending)@ + line@);
                &&& ok == (c.len() == 0 || all_in_vocab(c))
                &&& is_clean_line(c)
                &&& well_formed_data(old(self).encoded_data@) ==> well_formed_data(
                    final(self).encoded_data@,
                )
                &&& (c.len() == 0 || !ok) ==> final(pending)@ == old(pending)@ + line@
                    && final(self).encoded_data@ == old(self).encoded_data@
                &&& (c.len() > 0 && ok) ==> final(pending)@ == Seq::<char>::empty()
                    && final(self).encoded_data@ == old(self).encoded_data@ + line_pairs(c)
            }),
    {
        pending.append(line);
        let c = clean_line(pending.as_str());
        if c.len() == 0 {
            return true;
        }
        let mut k: usize = 0;
        while k < c.len()
            invariant
                k <= c@.len(),
                forall|i: int| 0 <= i < k ==> in_vocab(#[trigger] c@[i]),
                c@ == cleaned(old(pending)@ + line@),
                is_clean_line(c@),
                pending@ == old(pending)@ + line@,
                self.encoded_data@ == old(self).encoded_data@,
            decreases c@.len() - k,
        {
            if !is_in_vocab(c[k]) {
                assert(!all_in_vocab(c@)) by {
                    assert(!in_vocab(c@[k as int]));
                }
                return false;
            }
            k = k + 1;
        }
        let mut chars: Vec<char> = Vec::new();
        chars.push(START_PAD);
        let mut k: usize = 0;
        while k < c.len()
            invariant
                k <= c@.len(),
                chars@ == seq![START_PAD] + c@.subrange(0, k as int),
            decreases c@.len() - k,
        {
            chars.push(c[k]);
            assert(chars@ =~= seq![START_PAD] + c@.subrange(0, k + 1));
            k = k + 1;
        }
        chars.push(END_PAD);
        assert(chars@ =~= padded(c@));
        let padded_line = string_from_chars(&chars);
        let encoded_line = Self::encode(padded_line);
        let ghost old_data = self.encoded_data@;
        let ghost pairs = line_pairs(c@);
        let mut i: usize = 0;
        while i < encoded_line.len() - 1
            invariant
                encoded_line@.len() == c@.len() + 2,
                forall|j: int|
                    0 <= j < encoded_line@.len() ==> encoded_line@[j] == spec_stoi(
                        #[trigger] padded(c@)[j],
                    ),
                pairs == line_pairs(c@),
                i <= encoded_line@.len() - 1,
                self.encoded_data@ == old_data + pairs.subrange(0, i as int),
            decreases encoded_line@.len() - 1 - i,
        {
            self.encoded_data.push((encoded_line[i], encoded_line[i + 1]));
            assert(self.encoded_data@ =~= old_data + pairs.subrange(0, i + 1));
            i = i + 1;
        }
        assert(pairs.subrange(0, i as int) =~= pairs);
        proof {
            if well_formed_data(old_data) {
                lemma_line_pairs_well_formed(c@);
                lemma_well_formed_append(old_data, pairs);
            }
        }
        *pending = String::new();
        true
    }
}

} // verus!
