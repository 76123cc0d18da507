use vstd::prelude::*;

verus! {

/// What `str::to_lowercase` returns for a string with the given characters.
pub uninterp spec fn lowercase_of(s: Seq<char>) -> Seq<char>;

/// What `char::is_alphabetic` returns: whether `c` has the Unicode
/// Alphabetic property.
pub uninterp spec fn is_alphabetic_char(c: char) -> bool;

/// Whether `c` has the Unicode White_Space property: U+0009 to U+000D,
/// U+0020, U+0085, U+00A0, U+1680, U+2000 to U+200A, U+2028, U+2029,
/// U+202F, U+205F and U+3000.
pub open spec fn is_whitespace_char(c: char) -> bool {
    let x = c as int;
    ||| 0x09 <= x <= 0x0d
    ||| x == 0x20
    ||| x == 0x85
    ||| x == 0xa0
    ||| x == 0x1680
    ||| 0x2000 <= x <= 0x200a
    ||| x == 0x2028
    ||| x == 0x2029
    ||| x == 0x202f
    ||| x == 0x205f
    ||| x == 0x3000
}

/// The ASCII lower-case of `c`: 'A'..'Z' become 'a'..'z', every other
/// character stays.
pub open spec fn ascii_lower(c: char) -> char {
    if 65 <= (c as int) <= 90 {
        ((c as int) + 32) as char
    } else {
        c
    }
}

/// Whether `c` is an ASCII letter, upper or lower case.
pub open spec fn is_ascii_letter(c: char) -> bool {
    (65 <= (c as int) <= 90) || (97 <= (c as int) <= 122)
}

/// Calls `str::to_lowercase` and hands back the characters of the result.
/// Stated beyond the name: on a string of ASCII characters it maps 'A'..'Z'
/// to 'a'..'z' and keeps every other character. Unicode case mapping of
/// other characters is not stated.
#[verifier::external_body]
fn lowercase_chars(s: &str) -> (r: Vec<char>)
    ensures
        r@ == lowercase_of(s@),
        (forall|i: int| 0 <= i < s@.len() ==> (#[trigger] s@[i] as int) < 128) ==> r@.len()
            == s@.len() && forall|i: int| 0 <= i < s@.len() ==> #[trigger] r@[i] == ascii_lower(s@[i]),
{
    s.to_lowercase().chars().collect()
}

/// Calls `char::is_alphabetic`. Its documentation defines it by the Unicode
/// Alphabetic property, which on ASCII holds exactly of the letters; on other
/// characters the result is only named.
#[verifier::external_body]
fn char_is_alphabetic(c: char) -> (r: bool)
    ensures
        r == is_alphabetic_char(c),
        (c as int) < 128 ==> (r <==> is_ascii_letter(c)),
{
    c.is_alphabetic()
}

/// Calls `char::is_whitespace`, which holds exactly of the characters with
/// the Unicode White_Space property.
#[verifier::external_body]
fn char_is_whitespace(c: char) -> (r: bool)
    ensures
        r == is_whitespace_char(c),
{
    c.is_whitespace()
}

/// Whether the text cleaning keeps `c`: letters, spaces and full stops.
pub open spec fn keeps(c: char) -> bool {
    is_alphabetic_char(c) || c == ' ' || c == '.'
}

/// The characters of `s` that the cleaning keeps, in order.
pub open spec fn kept(s: Seq<char>) -> Seq<char>
    decreases s.len(),
{
    if s.len() == 0 {
        Seq::empty()
    } else if keeps(s.last()) {
        kept(s.drop_last()).push(s.last())
    } else {
        kept(s.drop_last())
    }
}

/// Whether every character of `s` is ASCII.
pub open spec fn all_ascii(s: Seq<char>) -> bool {
    forall|i: int| 0 <= i < s.len() ==> (#[trigger] s[i] as int) < 128
}

/// The characters of an ASCII text that the cleaning keeps: letters,
/// spaces and full stops.
pub open spec fn kept_ascii(s: Seq<char>) -> Seq<char>
    decreases s.len(),
{
    if s.len() == 0 {
        Seq::empty()
    } else if is_ascii_letter(s.last()) || s.last() == ' ' || s.last() == '.' {
        kept_ascii(s.drop_last()).push(s.last())
    } else {
        kept_ascii(s.drop_last())
    }
}

/// `s` without its leading whitespace.
pub open spec fn trim_start(s: Seq<char>) -> Seq<char>
    decreases s.len(),
{
    if s.len() > 0 && is_whitespace_char(s[0]) {
        trim_start(s.drop_first())
    } else {
        s
    }
}

/// `s` without its trailing whitespace.
pub open spec fn trim_end(s: Seq<char>) -> Seq<char>
    decreases s.len(),
{
    if s.len() > 0 && is_whitespace_char(s.last()) {
        trim_end(s.drop_last())
    } else {
        s
    }
}

/// `s` without leading and trailing whitespace, as `str::trim` gives it.
pub open spec fn trimmed(s: Seq<char>) -> Seq<char> {
    trim_end(trim_start(s))
}

/// A raw line as the loader cleans it: lower-cased, reduced to letters,
/// spaces and full stops, and trimmed.
pub open spec fn cleaned(raw: Seq<char>) -> Seq<char> {
    trimmed(kept(lowercase_of(raw)))
}

/// Trimming removes characters at the two ends only: the result is the
/// slice of `s` between the leading and the trailing whitespace, the
/// characters cut away are all whitespace, and the slice neither begins nor
/// ends with whitespace.
pub proof fn lemma_trimmed_is_inner_slice(s: Seq<char>)
    ensures
        exists|i: int, j: int|
            0 <= i <= j <= s.len() && trimmed(s) == s.subrange(i, j) && (forall|k: int|
                0 <= k < i ==> is_whitespace_char(#[trigger] s[k])) && (forall|k: int|
                j <= k < s.len() ==> is_whitespace_char(#[trigger] s[k])) && (i < j ==> !is_whitespace_char(s[i])
                && !is_whitespace_char(s[j - 1])),
{
    let i = lemma_trim_start_slice(s);
    let t = s.subrange(i, s.len() as int);
    let j = lemma_trim_end_slice(t);
    assert(trimmed(s) == t.subrange(0, j));
    assert(t.subrange(0, j) =~= s.subrange(i, i + j));
    assert forall|k: int| i + j <= k < s.len() implies is_whitespace_char(#[trigger] s[k]) by {
        assert(s[k] == t[k - i]);
    }
    if j > 0 {
        assert(s[i] == t[0]);
        assert(s[i + j - 1] == t[j - 1]);
    }
}

proof fn lemma_trim_start_slice(s: Seq<char>) -> (i: int)
    ensures
        0 <= i <= s.len(),
        trim_start(s) == s.subrange(i, s.len() as int),
        forall|k: int| 0 <= k < i ==> is_whitespace_char(#[trigger] s[k]),
        i < s.len() ==> !is_whitespace_char(s[i]),
    decreases s.len(),
{
    if s.len() > 0 && is_whitespace_char(s[0]) {
        let i0 = lemma_trim_start_slice(s.drop_first());
        assert(s.drop_first().subrange(i0, s.len() - 1) =~= s.subrange(i0 + 1, s.len() as int));
        assert forall|k: int| 0 <= k < i0 + 1 implies is_whitespace_char(#[trigger] s[k]) by {
            if k > 0 {
                assert(s[k] == s.drop_first()[k - 1]);
            }
        }
        if i0 + 1 < s.len() {
            assert(s[i0 + 1] == s.drop_first()[i0]);
        }
        i0 + 1
    } else {
        assert(s.subrange(0, s.len() as int) =~= s);
        0
    }
}

proof fn lemma_trim_end_slice(s: Seq<char>) -> (j: int)
    ensures
        0 <= j <= s.len(),
        trim_end(s) == s.subrange(0, j),
        forall|k: int| j <= k < s.len() ==> is_whitespace_char(#[trigger] s[k]),
        j > 0 ==> !is_whitespace_char(s[j - 1]),
    decreases s.len(),
{
    if s.len() > 0 && is_whitespace_char(s.last()) {
        let j0 = lemma_trim_end_slice(s.drop_last());
        assert(s.drop_last().subrange(0, j0) =~= s.subrange(0, j0));
        assert forall|k: int| j0 <= k < s.len() implies is_whitespace_char(#[trigger] s[k]) by {
            if k < s.len() - 1 {
                assert(s[k] == s.drop_last()[k]);
            }
        }
        if j0 > 0 {
            assert(s[j0 - 1] == s.drop_last()[j0 - 1]);
        }
        j0
    } else {
        assert(s.subrange(0, s.len() as int) =~= s);
        s.len() as int
    }
}

/// Every character that the cleaning keeps is a letter, a space or a full
/// stop; every such character of the input is kept; nothing is added.
pub proof fn lemma_kept_exactly(s: Seq<char>)
    ensures
        kept(s).len() <= s.len(),
        forall|k: int|
            0 <= k < kept(s).len() ==> is_alphabetic_char(#[trigger] kept(s)[k]) || kept(s)[k] == ' '
                || kept(s)[k] == '.',
        forall|k: int| 0 <= k < kept(s).len() ==> s.contains(#[trigger] kept(s)[k]),
        forall|j: int|
            0 <= j < s.len() && (is_alphabetic_char(#[trigger] s[j]) || s[j] == ' ' || s[j] == '.')
                ==> kept(s).contains(s[j]),
    decreases s.len(),
{
    if s.len() > 0 {
        let r = kept(s.drop_last());
        lemma_kept_exactly(s.drop_last());
        assert forall|k: int| 0 <= k < kept(s).len() implies s.contains(#[trigger] kept(s)[k]) by {
            if k < r.len() {
                assert(kept(s)[k] == r[k]);
                let m = choose|m: int| 0 <= m < s.drop_last().len() && s.drop_last()[m] == r[k];
                assert(s[m] == r[k]);
            } else {
                assert(kept(s)[k] == s.last());
                assert(s[s.len() - 1] == s.last());
            }
        }
        assert forall|j: int|
            0 <= j < s.len() && (is_alphabetic_char(#[trigger] s[j]) || s[j] == ' ' || s[j] == '.')
                implies kept(s).contains(s[j]) by {
            if j == s.len() - 1 {
                assert(kept(s)[kept(s).len() - 1] == s[j]);
            } else {
                assert(s.drop_last()[j] == s[j]);
                let m = choose|m: int| 0 <= m < r.len() && r[m] == s[j];
                assert(kept(s)[m] == s[j]);
            }
        }
    }
}

/// On ASCII text the cleaning keeps exactly the letters, spaces and full
/// stops: each kept character is one, and each one of the input is kept.
pub proof fn lemma_kept_ascii_exactly(s: Seq<char>)
    ensures
        kept_ascii(s).len() <= s.len(),
        forall|k: int|
            0 <= k < kept_ascii(s).len() ==> is_ascii_letter(#[trigger] kept_ascii(s)[k])
                || kept_ascii(s)[k] == ' ' || kept_ascii(s)[k] == '.',
        forall|j: int|
            0 <= j < s.len() && (is_ascii_letter(#[trigger] s[j]) || s[j] == ' ' || s[j] == '.')
                ==> kept_ascii(s).contains(s[j]),
    decreases s.len(),
{
    if s.len() > 0 {
        let r = kept_ascii(s.drop_last());
        lemma_kept_ascii_exactly(s.drop_last());
        assert forall|j: int|
            0 <= j < s.len() && (is_ascii_letter(#[trigger] s[j]) || s[j] == ' ' || s[j] == '.')
                implies kept_ascii(s).contains(s[j]) by {
            if j == s.len() - 1 {
                assert(kept_ascii(s)[kept_ascii(s).len() - 1] == s[j]);
            } else {
                assert(s.drop_last()[j] == s[j]);
                let m = choose|m: int| 0 <= m < r.len() && r[m] == s[j];
                assert(kept_ascii(s)[m] == s[j]);
            }
        }
    }
}

proof fn lemma_trim_start_skip(s: Seq<char>, i: int)
    requires
        0 <= i < s.len(),
        is_whitespace_char(s[i]),
    ensures
        trim_start(s.subrange(i, s.len() as int)) == trim_start(s.subrange(i + 1, s.len() as int)),
{
    let t = s.subrange(i, s.len() as int);
    assert(t.drop_first() =~= s.subrange(i + 1, s.len() as int));
}

proof fn lemma_trim_end_skip(s: Seq<char>, i: int, j: int)
    requires
        0 <= i < j <= s.len(),
        is_whitespace_char(s[j - 1]),
    ensures
        trim_end(s.subrange(i, j)) == trim_end(s.subrange(i, j - 1)),
{
    let t = s.subrange(i, j);
    assert(t.drop_last() =~= s.subrange(i, j - 1));
}

/// Whether `c` is a possible cleaned line: it holds neither the start nor
/// the end symbol, and it neither begins nor ends with a space.
pub open spec fn is_clean_line(c: Seq<char>) -> bool {
    &&& forall|i: int| 0 <= i < c.len() ==> #[trigger] c[i] != '^' && c[i] != '$'
    &&& c.len() > 0 ==> c[0] != ' ' && c.last() != ' '
}

/// The characters of `v` without leading and trailing whitespace.
pub fn trim_whitespace(v: &Vec<char>) -> (r: Vec<char>)
    ensures
        r@ == trimmed(v@),
        exists|i: int, j: int|
            0 <= i <= j <= v@.len() && r@ == v@.subrange(i, j) && (forall|k: int|
                0 <= k < i ==> is_whitespace_char(#[trigger] v@[k])) && (forall|k: int|
                j <= k < v@.len() ==> is_whitespace_char(#[trigger] v@[k])),
        forall|k: int| 0 <= k < r@.len() ==> exists|m: int| 0 <= m < v@.len() && #[trigger] r@[k] == v@[m],
        r@.len() > 0 ==> r@[0] != ' ' && r@.last() != ' ',
{
    proof {
        lemma_trimmed_is_inner_slice(v@);
    }
    let n = v.len();
    let mut i: usize = 0;
    assert(v@.subrange(0, n as int) =~= v@);
    while i < n && char_is_whitespace(v[i])
        invariant
            n == v@.len(),
            i <= n,
            trim_start(v@) == trim_start(v@.subrange(i as int, n as int)),
        decreases n - i,
    {
        proof {
            lemma_trim_start_skip(v@, i as int);
        }
        i = i + 1;
    }
    let ghost start = v@.subrange(i as int, n as int);
    assert(trim_start(v@) == start);
    let mut j: usize = n;
    while j > i && char_is_whitespace(v[j - 1])
        invariant
            n == v@.len(),
            i <= j <= n,
            start == v@.subrange(i as int, n as int),
            trim_end(start) == trim_end(v@.subrange(i as int, j as int)),
        decreases j - i,
    {
        proof {
            lemma_trim_end_skip(v@, i as int, j as int);
        }
        j = j - 1;
    }
    assert(trim_end(v@.subrange(i as int, j as int)) == v@.subrange(i as int, j as int));
    let mut r: Vec<char> = Vec::new();
    let mut k: usize = i;
    while k < j
        invariant
            n == v@.len(),
            i <= k <= j <= n,
            r@ == v@.subrange(i as int, k as int),
        decreases j - k,
    {
        r.push(v[k]);
        assert(r@ =~= v@.subrange(i as int, k + 1));
        k = k + 1;
    }
    assert forall|q: int| 0 <= q < r@.len() implies exists|m: int| 0 <= m < v@.len() && #[trigger] r@[q] == v@[m] by {
        assert(r@[q] == v@[i + q]);
    }
    r
}

/// The characters of `v` that the cleaning keeps.
pub fn keep_symbols(v: &Vec<char>) -> (r: Vec<char>)
    ensures
        r@ == kept(v@),
        all_ascii(v@) ==> r@ == kept_ascii(v@),
        forall|k: int|
            0 <= k < r@.len() ==> is_alphabetic_char(#[trigger] r@[k]) || r@[k] == ' ' || r@[k] == '.',
        forall|k: int| 0 <= k < r@.len() ==> #[trigger] r@[k] != '^' && r@[k] != '$',
{
    proof {
        lemma_kept_exactly(v@);
    }
    let mut r: Vec<char> = Vec::new();
    let mut i: usize = 0;
    assert(v@.subrange(0, 0) =~= Seq::<char>::empty());
    while i < v.len()
        invariant
            i <= v@.len(),
            r@ == kept(v@.subrange(0, i as int)),
            all_ascii(v@) ==> r@ == kept_ascii(v@.subrange(0, i as int)),
            forall|k: int| 0 <= k < r@.len() ==> #[trigger] r@[k] != '^' && r@[k] != '$',
        decreases v@.len() - i,
    {
        let c = v[i];
        let ghost pre = v@.subrange(0, i as int);
        assert(v@.subrange(0, i + 1).drop_last() =~= pre);
        assert(v@.subrange(0, i + 1).last() == c);
        if char_is_alphabetic(c) || c == ' ' || c == '.' {
            r.push(c);
        }
        i = i + 1;
    }
    assert(v@.subrange(0, v@.len() as int) =~= v@);
    r
}

/// A raw line, cleaned as the loader does: lower-cased, reduced to letters,
/// spaces and full stops, and trimmed.
pub fn clean_line(raw: &str) -> (r: Vec<char>)
    ensures
        r@ == cleaned(raw@),
        is_clean_line(r@),
        all_ascii(raw@) ==> r@ == trimmed(kept_ascii(raw@.map_values(|c: char| ascii_lower(c)))),
{
    let lowered = lowercase_chars(raw);
    proof {
        if all_ascii(raw@) {
            assert(lowered@ =~= raw@.map_values(|c: char| ascii_lower(c)));
            assert(all_ascii(lowered@));
        }
    }
    clean_lowered(&lowered)
}

/// Already lower-cased characters, cleaned as the loader does: reduced to
/// letters, spaces and full stops, and trimmed.
pub fn clean_lowered(lowered: &Vec<char>) -> (r: Vec<char>)
    ensures
        r@ == trimmed(kept(lowered@)),
        all_ascii(lowered@) ==> r@ == trimmed(kept_ascii(lowered@)),
        forall|k: int|
            0 <= k < r@.len() ==> is_alphabetic_char(#[trigger] r@[k]) || r@[k] == ' ' || r@[k] == '.',
        is_clean_line(r@),
{
    let filtered = keep_symbols(lowered);
    let r = trim_whitespace(&filtered);
    assert forall|i: int| 0 <= i < r@.len() implies #[trigger] r@[i] != '^' && r@[i] != '$' by {
        let m = choose|m: int| 0 <= m < filtered@.len() && r@[i] == filtered@[m];
        assert(filtered@[m] != '^');
    }
    assert forall|k: int| 0 <= k < r@.len() implies is_alphabetic_char(#[trigger] r@[k]) || r@[k] == ' '
        || r@[k] == '.' by {
        let m = choose|m: int| 0 <= m < filtered@.len() && r@[k] == filtered@[m];
        assert(is_alphabetic_char(filtered@[m]) || filtered@[m] == ' ' || filtered@[m] == '.');
    }
    r
}

} // verus!
