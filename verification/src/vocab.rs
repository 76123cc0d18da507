use vstd::prelude::*;

verus! {

/// Number of symbols in the vocabulary.
pub const VOCAB_SIZE: usize = 30;

/// Symbol put in front of every line.
pub const START_PAD: char = '^';

/// Symbol put behind every line.
pub const END_PAD: char = '$';

/// Whether `c` is a lower-case ASCII letter.
pub open spec fn is_lower_ascii(c: char) -> bool {
    97 <= (c as int) <= 122
}

/// The vocabulary: '.', the letters 'a' to 'z', ' ', the start and the end symbol.
pub open spec fn in_vocab(c: char) -> bool {
    c == '.' || c == ' ' || c == START_PAD || c == END_PAD || is_lower_ascii(c)
}

/// The index of a vocabulary symbol: '.' is 0, 'a'..'z' are 1..26, ' ' is 27,
/// the start symbol 28 and the end symbol 29.
pub open spec fn spec_stoi(c: char) -> int {
    if c == '.' {
        0
    } else if c == ' ' {
        27
    } else if c == START_PAD {
        28
    } else if c == END_PAD {
        29
    } else {
        (c as int) - 96
    }
}

/// The symbol with a given index (the inverse of `spec_stoi`).
pub open spec fn spec_itos(n: int) -> char {
    if n == 0 {
        '.'
    } else if n == 27 {
        ' '
    } else if n == 28 {
        START_PAD
    } else if n == 29 {
        END_PAD
    } else {
        (n + 96) as char
    }
}

/// The index of the vocabulary symbol `c`.
pub fn stoi(c: char) -> (r: usize)
    requires
        in_vocab(c),
    ensures
        r == spec_stoi(c),
        r < VOCAB_SIZE,
{
    if c == '.' {
        0
    } else if c == ' ' {
        27
    } else if c == START_PAD {
        28
    } else if c == END_PAD {
        29
    } else {
        (c as usize) - 96
    }
}

/// Whether `c` belongs to the vocabulary.
pub fn is_in_vocab(c: char) -> (r: bool)
    ensures
        r == in_vocab(c),
{
    c == '.' || c == ' ' || c == START_PAD || c == END_PAD || ('a' <= c && c <= 'z')
}

/// Decoding an encoded symbol gives the symbol back.
pub proof fn lemma_decode_encode(c: char)
    requires
        in_vocab(c),
    ensures
        0 <= spec_stoi(c) < VOCAB_SIZE,
        spec_itos(spec_stoi(c)) == c,
{
}

/// Every index below the vocabulary size decodes to a vocabulary symbol,
/// and encoding that symbol gives the index back.
pub proof fn lemma_encode_decode(n: int)
    requires
        0 <= n < VOCAB_SIZE,
    ensures
        in_vocab(spec_itos(n)),
        spec_stoi(spec_itos(n)) == n,
{
}

/// The indices follow the table: '.' is 0, the letters keep alphabetical
/// order from 'a' at 1 to 'z' at 26, ' ' is 27, the start symbol 28 and
/// the end symbol 29.
pub proof fn lemma_vocab_order()
    ensures
        spec_stoi('.') == 0,
        spec_stoi('a') == 1,
        spec_stoi('z') == 26,
        spec_stoi(' ') == 27,
        spec_stoi(START_PAD) == 28,
        spec_stoi(END_PAD) == 29,
        forall|c1: char, c2: char|
            is_lower_ascii(c1) && is_lower_ascii(c2) && (c1 as int) < (c2 as int) ==> #[trigger] spec_stoi(
                c1,
            ) < #[trigger] spec_stoi(c2),
        forall|c: char| is_lower_ascii(c) ==> 1 <= #[trigger] spec_stoi(c) <= 26,
{
}

} // verus!
