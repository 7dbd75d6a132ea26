//! Text as a sequence of characters.

use vstd::prelude::*;

verus! {

// ---------------------------------------------------------------------------
// Characters
// ---------------------------------------------------------------------------

/// The characters with the Unicode property `White_Space`.
pub open spec fn is_space(c: char) -> bool {
    ||| '\u{9}' <= c <= '\u{d}'
    ||| c == '\u{20}'
    ||| c == '\u{85}'
    ||| c == '\u{a0}'
    ||| c == '\u{1680}'
    ||| '\u{2000}' <= c <= '\u{200a}'
    ||| c == '\u{2028}'
    ||| c == '\u{2029}'
    ||| c == '\u{202f}'
    ||| c == '\u{205f}'
    ||| c == '\u{3000}'
}

/// Whether `c` has the Unicode property `White_Space`.
pub fn space(c: char) -> (r: bool)
    ensures
        r == is_space(c),
{
    ('\u{9}' <= c && c <= '\u{d}') || c == '\u{20}' || c == '\u{85}' || c == '\u{a0}' || c
        == '\u{1680}' || ('\u{2000}' <= c && c <= '\u{200a}') || c == '\u{2028}' || c == '\u{2029}'
        || c == '\u{202f}' || c == '\u{205f}' || c == '\u{3000}'
}

/// ASCII white space: space, tab, line feed, form feed, carriage return.
pub open spec fn is_ascii_space(c: char) -> bool {
    c == ' ' || c == '\t' || c == '\n' || c == '\u{c}' || c == '\r'
}

pub fn ascii_space(c: char) -> (r: bool)
    ensures
        r == is_ascii_space(c),
{
    c == ' ' || c == '\t' || c == '\n' || c == '\u{c}' || c == '\r'
}

/// The lower case of an ASCII capital; any other character as it is.
pub open spec fn ascii_lower(c: char) -> char {
    if 'A' <= c <= 'Z' {
        (c as u32 + 32) as char
    } else {
        c
    }
}

pub fn to_ascii_lower(c: char) -> (r: char)
    ensures
        r == ascii_lower(c),
{
    if 'A' <= c && c <= 'Z' {
        (c as u8 + 32) as char
    } else {
        c
    }
}

/// How many bytes UTF-8 takes for `c`.
pub open spec fn utf8_len(c: char) -> nat {
    if (c as u32) < 0x80 {
        1
    } else if (c as u32) < 0x800 {
        2
    } else if (c as u32) < 0x10000 {
        3
    } else {
        4
    }
}

pub fn char_bytes(c: char) -> (r: usize)
    ensures
        r == utf8_len(c),
{
    let n: u32 = c as u32;
    if n < 0x80 {
        1
    } else if n < 0x800 {
        2
    } else if n < 0x10000 {
        3
    } else {
        4
    }
}

// ---------------------------------------------------------------------------
// Strings
// ---------------------------------------------------------------------------

/// `String::push`: the character stands at the end.
pub assume_specification[ String::push ](s: &mut String, c: char)
    ensures
        final(s)@ == old(s)@.push(c),
;

/// The characters of a string.
pub fn chars_of(s: &str) -> (r: Vec<char>)
    ensures
        r@ == s@,
{
    let mut out: Vec<char> = Vec::new();
    for c in it: s.chars()
        invariant
            out@ == it.seq().take(it.index()),
            it.seq() == s@,
    {
        out.push(c);
        assert(out@ =~= it.seq().take(it.index() + 1));
    }
    assert(out@ =~= s@);
    out
}

/// The characters between two places, as a string.
pub fn string_of(v: &[char], lo: usize, hi: usize) -> (r: String)
    requires
        lo <= hi <= v@.len(),
    ensures
        r@ == v@.subrange(lo as int, hi as int),
{
    let mut out: String = String::new();
    let mut i: usize = lo;
    assert(out@ =~= v@.subrange(lo as int, lo as int));
    while i < hi
        invariant
            lo <= i <= hi <= v@.len(),
            out@ == v@.subrange(lo as int, i as int),
        decreases hi - i,
    {
        out.push(v[i]);
        assert(out@ =~= v@.subrange(lo as int, i + 1));
        i = i + 1;
    }
    out
}

/// All the characters, as a string.
pub fn string_of_all(v: &Vec<char>) -> (r: String)
    ensures
        r@ == v@,
{
    let r = string_of(v.as_slice(), 0, v.len());
    assert(v@.subrange(0, v@.len() as int) =~= v@);
    r
}

// ---------------------------------------------------------------------------
// Trimming
// ---------------------------------------------------------------------------

/// Without the white space in front.
pub open spec fn trimmed_start(s: Seq<char>) -> Seq<char>
    decreases s.len(),
{
    if s.len() > 0 && is_space(s[0]) {
        trimmed_start(s.drop_first())
    } else {
        s
    }
}

/// Without the white space at the end.
pub open spec fn trimmed_end(s: Seq<char>) -> Seq<char>
    decreases s.len(),
{
    if s.len() > 0 && is_space(s.last()) {
        trimmed_end(s.drop_last())
    } else {
        s
    }
}

/// Without the white space at either end.
pub open spec fn trimmed(s: Seq<char>) -> Seq<char> {
    trimmed_end(trimmed_start(s))
}

pub fn trim_start(s: &[char]) -> (r: &[char])
    ensures
        r@ == trimmed_start(s@),
{
    let n: usize = s.len();
    let mut i: usize = 0;
    assert(s@.skip(0) =~= s@);
    while i < n && space(s[i])
        invariant
            n == s@.len(),
            i <= n,
            trimmed_start(s@) == trimmed_start(s@.skip(i as int)),
        decreases n - i,
    {
        assert(s@.skip(i as int).drop_first() =~= s@.skip(i + 1));
        i = i + 1;
    }
    assert(s@.subrange(i as int, n as int) =~= s@.skip(i as int));
    vstd::slice::slice_subrange(s, i, n)
}

pub fn trim_end(s: &[char]) -> (r: &[char])
    ensures
        r@ == trimmed_end(s@),
{
    let mut n: usize = s.len();
    assert(s@.take(n as int) =~= s@);
    while n > 0 && space(s[n - 1])
        invariant
            n <= s@.len(),
            trimmed_end(s@) == trimmed_end(s@.take(n as int)),
        decreases n,
    {
        assert(s@.take(n as int).drop_last() =~= s@.take(n - 1));
        n = n - 1;
    }
    assert(s@.subrange(0, n as int) =~= s@.take(n as int));
    vstd::slice::slice_subrange(s, 0, n)
}

pub fn trim(s: &[char]) -> (r: &[char])
    ensures
        r@ == trimmed(s@),
{
    trim_end(trim_start(s))
}

// ---------------------------------------------------------------------------
// Searching
// ---------------------------------------------------------------------------

/// `pat` stands in `s` at `i`.
pub open spec fn occurs_at(s: Seq<char>, pat: Seq<char>, i: int) -> bool {
    0 <= i && i + pat.len() <= s.len() && s.subrange(i, i + pat.len()) == pat
}

/// The first place at or after `from` where `pat` stands in `s`.
pub open spec fn found_at(s: Seq<char>, pat: Seq<char>, from: int) -> Option<int>
    decreases s.len() + 1 - from,
{
    if from < 0 || from + pat.len() > s.len() {
        None
    } else if occurs_at(s, pat, from) {
        Some(from)
    } else {
        found_at(s, pat, from + 1)
    }
}

/// The first place at or after `from` that holds `c`.
pub open spec fn char_at(s: Seq<char>, c: char, from: int) -> Option<int>
    decreases s.len() - from,
{
    if from < 0 || from >= s.len() {
        None
    } else if s[from] == c {
        Some(from)
    } else {
        char_at(s, c, from + 1)
    }
}

/// What `found_at` says of the places before the one it names.
pub proof fn lemma_found_at(s: Seq<char>, pat: Seq<char>, from: int)
    requires
        0 <= from,
    ensures
        match found_at(s, pat, from) {
            Some(i) => from <= i && occurs_at(s, pat, i) && forall|j: int|
                from <= j < i ==> !#[trigger] occurs_at(s, pat, j),
            None => forall|j: int| from <= j ==> !#[trigger] occurs_at(s, pat, j),
        },
    decreases s.len() + 1 - from,
{
    if from + pat.len() > s.len() {
    } else if occurs_at(s, pat, from) {
    } else {
        lemma_found_at(s, pat, from + 1);
    }
}

/// What `char_at` says of the places before the one it names.
pub proof fn lemma_char_at(s: Seq<char>, c: char, from: int)
    requires
        0 <= from,
    ensures
        match char_at(s, c, from) {
            Some(i) => from <= i < s.len() && s[i] == c && forall|j: int|
                from <= j < i ==> #[trigger] s[j] != c,
            None => forall|j: int| from <= j < s.len() ==> #[trigger] s[j] != c,
        },
    decreases s.len() - from,
{
    if from >= s.len() {
    } else if s[from] == c {
    } else {
        lemma_char_at(s, c, from + 1);
    }
}

fn stands_at(s: &[char], pat: &[char], i: usize) -> (r: bool)
    requires
        i + pat@.len() <= s@.len(),
    ensures
        r == occurs_at(s@, pat@, i as int),
{
    let n: usize = pat.len();
    let end: usize = s.len();
    let mut k: usize = 0;
    while k < n
        invariant
            n == pat@.len(),
            end == s@.len(),
            i + n <= end,
            k <= n,
            forall|j: int| 0 <= j < k ==> s@[i + j] == pat@[j],
        decreases n - k,
    {
        if s[i + k] != pat[k] {
            assert(s@.subrange(i as int, i + n)[k as int] != pat@[k as int]);
            return false;
        }
        k = k + 1;
    }
    assert(s@.subrange(i as int, i + n) =~= pat@);
    true
}

pub fn find(s: &[char], pat: &[char], from: usize) -> (r: Option<usize>)
    ensures
        r matches Some(i) ==> found_at(s@, pat@, from as int) == Some(i as int) && i + pat@.len()
            <= s@.len(),
        r is None ==> found_at(s@, pat@, from as int) is None,
{
    let n: usize = s.len();
    let m: usize = pat.len();
    if m > n || from > n - m {
        return None;
    }
    let mut i: usize = from;
    while i <= n - m
        invariant
            n == s@.len(),
            m == pat@.len(),
            m <= n,
            from <= i <= n - m + 1,
            found_at(s@, pat@, from as int) == found_at(s@, pat@, i as int),
        decreases n - m + 1 - i,
    {
        if stands_at(s, pat, i) {
            return Some(i);
        }
        if i == n - m {
            assert(found_at(s@, pat@, i + 1) is None);
            return None;
        }
        i = i + 1;
    }
    None
}

pub fn find_char(s: &[char], c: char, from: usize) -> (r: Option<usize>)
    ensures
        r matches Some(i) ==> char_at(s@, c, from as int) == Some(i as int) && i < s@.len(),
        r is None ==> char_at(s@, c, from as int) is None,
{
    let n: usize = s.len();
    let mut i: usize = from;
    while i < n
        invariant
            n == s@.len(),
            from <= i,
            char_at(s@, c, from as int) == char_at(s@, c, i as int),
        decreases n - i,
    {
        if s[i] == c {
            return Some(i);
        }
        i = i + 1;
    }
    None
}

/// `s` begins with `pat`.
pub open spec fn begins(s: Seq<char>, pat: Seq<char>) -> bool {
    occurs_at(s, pat, 0)
}

/// `s` ends with `pat`.
pub open spec fn finishes(s: Seq<char>, pat: Seq<char>) -> bool {
    pat.len() <= s.len() && s.skip(s.len() - pat.len()) == pat
}

pub fn starts_with(s: &[char], pat: &[char]) -> (r: bool)
    ensures
        r == begins(s@, pat@),
{
    if pat.len() > s.len() {
        false
    } else {
        stands_at(s, pat, 0)
    }
}

pub fn ends_with(s: &[char], pat: &[char]) -> (r: bool)
    ensures
        r == finishes(s@, pat@),
{
    if pat.len() > s.len() {
        false
    } else {
        let k: usize = s.len() - pat.len();
        assert(s@.subrange(k as int, k + pat@.len()) =~= s@.skip(k as int));
        stands_at(s, pat, k)
    }
}

/// `pat` stands somewhere in `s`.
pub open spec fn holds(s: Seq<char>, pat: Seq<char>) -> bool {
    exists|i: int| #[trigger] occurs_at(s, pat, i)
}

pub fn contains(s: &[char], pat: &[char]) -> (r: bool)
    ensures
        r == holds(s@, pat@),
{
    proof {
        lemma_found_at(s@, pat@, 0);
    }
    match find(s, pat, 0) {
        Some(i) => {
            assert(occurs_at(s@, pat@, i as int));
            true
        },
        None => {
            assert forall|i: int| !#[trigger] occurs_at(s@, pat@, i) by {}
            false
        },
    }
}

/// The same characters.
pub fn same(a: &[char], b: &[char]) -> (r: bool)
    ensures
        r == (a@ == b@),
{
    if a.len() != b.len() {
        return false;
    }
    let r = stands_at(a, b, 0);
    assert(a@.subrange(0, b@.len() as int) =~= a@);
    r
}

/// `s` is one of the words.
pub open spec fn among(s: Seq<char>, list: Seq<&str>) -> bool {
    exists|i: int| 0 <= i < list.len() && s == #[trigger] list[i]@
}

pub fn is_one_of(s: &[char], list: &[&str]) -> (r: bool)
    ensures
        r == among(s@, list@),
{
    let n: usize = list.len();
    let mut i: usize = 0;
    while i < n
        invariant
            n == list@.len(),
            i <= n,
            forall|j: int| 0 <= j < i ==> s@ != #[trigger] list@[j]@,
        decreases n - i,
    {
        let word = chars_of(list[i]);
        if same(s, word.as_slice()) {
            assert(s@ == list@[i as int]@);
            return true;
        }
        i = i + 1;
    }
    false
}

/// Lower case, for the ASCII letters alone.
pub open spec fn ascii_lowered(s: Seq<char>) -> Seq<char> {
    s.map_values(|c: char| ascii_lower(c))
}

pub fn to_ascii_lowered(s: &[char]) -> (r: Vec<char>)
    ensures
        r@ == ascii_lowered(s@),
{
    let mut out: Vec<char> = Vec::new();
    let n: usize = s.len();
    let mut i: usize = 0;
    while i < n
        invariant
            n == s@.len(),
            i <= n,
            out@ == ascii_lowered(s@.take(i as int)),
        decreases n - i,
    {
        out.push(to_ascii_lower(s[i]));
        i = i + 1;
        assert(out@ =~= ascii_lowered(s@.take(i as int)));
    }
    assert(s@.take(n as int) =~= s@);
    out
}

// ---------------------------------------------------------------------------
// Bytes
// ---------------------------------------------------------------------------

/// How many bytes UTF-8 takes for `s`.
pub open spec fn byte_len(s: Seq<char>) -> nat
    decreases s.len(),
{
    if s.len() == 0 {
        0
    } else {
        byte_len(s.drop_last()) + utf8_len(s.last())
    }
}

/// As many of the first characters as fit in `max` bytes.
pub open spec fn fitting(s: Seq<char>, max: nat) -> Seq<char>
    decreases s.len(),
{
    if byte_len(s) <= max || s.len() == 0 {
        s
    } else {
        fitting(s.drop_last(), max)
    }
}

pub proof fn lemma_byte_len_take(s: Seq<char>, i: int)
    requires
        0 <= i < s.len(),
    ensures
        byte_len(s.take(i + 1)) == byte_len(s.take(i)) + utf8_len(s[i]),
{
    assert(s.take(i + 1).drop_last() =~= s.take(i));
}

pub proof fn lemma_byte_len_monotone(s: Seq<char>, i: int, j: int)
    requires
        0 <= i <= j <= s.len(),
    ensures
        byte_len(s.take(i)) + (j - i) <= byte_len(s.take(j)) <= byte_len(s.take(i)) + 4 * (j - i),
    decreases j - i,
{
    if i < j {
        lemma_byte_len_monotone(s, i, j - 1);
        lemma_byte_len_take(s, j - 1);
    }
}

proof fn lemma_fitting_is(s: Seq<char>, max: nat, i: int)
    requires
        0 <= i <= s.len(),
        byte_len(s.take(i)) <= max,
        i < s.len() ==> byte_len(s.take(i + 1)) > max,
    ensures
        fitting(s, max) == s.take(i),
    decreases s.len(),
{
    assert(s.take(s.len() as int) =~= s);
    if i < s.len() {
        lemma_byte_len_monotone(s, i + 1, s.len() as int);
        let t = s.drop_last();
        assert(t.take(i) =~= s.take(i));
        if i < t.len() {
            assert(t.take(i + 1) =~= s.take(i + 1));
        }
        lemma_fitting_is(t, max, i);
    }
}

/// As many of the first characters as fit in `max` bytes.
pub fn fit(s: &[char], max: usize) -> (r: &[char])
    ensures
        r@ == fitting(s@, max as nat),
{
    let n: usize = s.len();
    let mut used: usize = 0;
    let mut i: usize = 0;
    assert(s@.take(0) =~= Seq::<char>::empty());
    while i < n
        invariant
            n == s@.len(),
            i <= n,
            used <= max,
            used == byte_len(s@.take(i as int)),
        decreases n - i,
    {
        let k: usize = char_bytes(s[i]);
        proof {
            lemma_byte_len_take(s@, i as int);
        }
        if k > max - used {
            proof {
                lemma_fitting_is(s@, max as nat, i as int);
                assert(s@.subrange(0, i as int) =~= s@.take(i as int));
            }
            return vstd::slice::slice_subrange(s, 0, i);
        }
        used = used + k;
        i = i + 1;
    }
    proof {
        lemma_fitting_is(s@, max as nat, n as int);
        assert(s@.take(n as int) =~= s@);
    }
    s
}

/// How many bytes UTF-8 takes for `s`, stopping at `u32::MAX`.
pub fn byte_size(s: &[char]) -> (r: u32)
    ensures
        r == (if byte_len(s@) > u32::MAX {
            u32::MAX as nat
        } else {
            byte_len(s@)
        }),
{
    let n: usize = s.len();
    let mut used: u32 = 0;
    let mut i: usize = 0;
    assert(s@.take(0) =~= Seq::<char>::empty());
    assert(s@.take(n as int) =~= s@);
    while i < n
        invariant
            n == s@.len(),
            i <= n,
            used == byte_len(s@.take(i as int)),
            s@.take(n as int) == s@,
        decreases n - i,
    {
        let k: u32 = char_bytes(s[i]) as u32;
        proof {
            lemma_byte_len_take(s@, i as int);
            lemma_byte_len_monotone(s@, i + 1, n as int);
        }
        if used > u32::MAX - k {
            return u32::MAX;
        }
        used = used + k;
        i = i + 1;
    }
    used
}

/// The same text.
pub fn eq_text(a: &str, b: &str) -> (r: bool)
    ensures
        r == (a@ == b@),
{
    let x = chars_of(a);
    let y = chars_of(b);
    same(x.as_slice(), y.as_slice())
}

// ---------------------------------------------------------------------------
// Numbers
// ---------------------------------------------------------------------------

/// The value of a digit in a base up to 16.
pub open spec fn digit_value(c: char, base: int) -> Option<int> {
    let d = if '0' <= c <= '9' {
        c as int - '0' as int
    } else if 'a' <= c <= 'f' {
        c as int - 'a' as int + 10
    } else if 'A' <= c <= 'F' {
        c as int - 'A' as int + 10
    } else {
        base
    };
    if d < base {
        Some(d)
    } else {
        None
    }
}

/// The number that some digits spell, if they are all digits.
pub open spec fn digits_value(s: Seq<char>, base: int) -> Option<int>
    decreases s.len(),
{
    if s.len() == 0 {
        Some(0int)
    } else {
        match (digits_value(s.drop_last(), base), digit_value(s.last(), base)) {
            (Some(n), Some(d)) => Some(n * base + d),
            _ => None,
        }
    }
}

/// The number a text spells: digits, at least one, with a sign in front or
/// not. A minus is taken only where `signed` is set.
pub open spec fn spelled(s: Seq<char>, base: int, signed: bool) -> Option<int> {
    let plus = s.len() > 0 && s[0] == '+';
    let minus = signed && s.len() > 0 && s[0] == '-';
    let digits = if plus || minus {
        s.drop_first()
    } else {
        s
    };
    if digits.len() == 0 {
        None
    } else {
        match digits_value(digits, base) {
            Some(n) => if minus {
                Some(-n)
            } else {
                Some(n)
            },
            None => None,
        }
    }
}

proof fn lemma_digits_monotone(s: Seq<char>, base: int, i: int, j: int)
    requires
        2 <= base <= 16,
        0 <= i <= j <= s.len(),
        digits_value(s.take(j), base) is Some,
    ensures
        digits_value(s.take(i), base) is Some,
        0 <= digits_value(s.take(i), base)->0 <= digits_value(s.take(j), base)->0,
    decreases j,
{
    if j > 0 {
        assert(s.take(j).drop_last() =~= s.take(j - 1));
        lemma_digits_monotone(s, base, if i < j {
            i
        } else {
            j - 1
        }, j - 1);
        let n = digits_value(s.take(j - 1), base)->0;
        assert(n <= n * base) by (nonlinear_arith)
            requires
                n >= 0,
                base >= 2,
        ;
    }
}

fn digit(c: char, base: u64) -> (r: Option<u64>)
    requires
        2 <= base <= 16,
    ensures
        match r {
            Some(d) => digit_value(c, base as int) == Some(d as int) && d < base,
            None => digit_value(c, base as int) is None,
        },
{
    let n: u64 = c as u32 as u64;
    let d: u64 = if '0' <= c && c <= '9' {
        n - 48
    } else if 'a' <= c && c <= 'f' {
        n - 97 + 10
    } else if 'A' <= c && c <= 'F' {
        n - 65 + 10
    } else {
        base
    };
    if d < base {
        Some(d)
    } else {
        None
    }
}

/// The number that some digits spell, if they are all digits and it is no more
/// than `max`.
fn read_digits(s: &[char], base: u64, max: u64) -> (r: Option<u64>)
    requires
        2 <= base <= 16,
    ensures
        match r {
            Some(n) => digits_value(s@, base as int) == Some(n as int) && n <= max,
            None => match digits_value(s@, base as int) {
                Some(n) => n > max,
                None => true,
            },
        },
{
    let len: usize = s.len();
    let mut n: u64 = 0;
    let mut i: usize = 0;
    assert(s@.take(0) =~= Seq::<char>::empty());
    assert(s@.take(len as int) =~= s@);
    while i < len
        invariant
            2 <= base <= 16,
            len == s@.len(),
            i <= len,
            n <= max,
            s@.take(len as int) == s@,
            digits_value(s@.take(i as int), base as int) == Some(n as int),
        decreases len - i,
    {
        assert(s@.take(i + 1).drop_last() =~= s@.take(i as int));
        match digit(s[i], base) {
            None => {
                proof {
                    if digits_value(s@, base as int) is Some {
                        lemma_digits_monotone(s@, base as int, i + 1, len as int);
                    }
                }
                return None;
            },
            Some(d) => {
                assert(n as int * base as int <= 0xffff_ffff_ffff_ffff * 16) by (nonlinear_arith)
                    requires
                        0 <= n <= 0xffff_ffff_ffff_ffff,
                        0 <= base <= 16,
                ;
                let next: u128 = (n as u128) * (base as u128) + (d as u128);
                if next > max as u128 {
                    proof {
                        if digits_value(s@, base as int) is Some {
                            lemma_digits_monotone(s@, base as int, i + 1, len as int);
                        }
                    }
                    return None;
                }
                n = next as u64;
            },
        }
        i = i + 1;
    }
    Some(n)
}

/// The number that a text spells in decimal, if it fits in 64 bits.
pub fn parse_i64(s: &[char]) -> (r: Option<i64>)
    ensures
        match r {
            Some(n) => spelled(s@, 10, true) == Some(n as int),
            None => match spelled(s@, 10, true) {
                Some(n) => n < i64::MIN || n > i64::MAX,
                None => true,
            },
        },
{
    let n: usize = s.len();
    let minus = n > 0 && s[0] == '-';
    let plus = n > 0 && s[0] == '+';
    let digits: &[char] = if minus || plus {
        slice_from(s, 1)
    } else {
        s
    };
    if digits.len() == 0 {
        return None;
    }
    let max: u64 = if minus {
        0x8000_0000_0000_0000
    } else {
        0x7fff_ffff_ffff_ffff
    };
    match read_digits(digits, 10, max) {
        None => None,
        Some(v) => if minus {
            if v == 0x8000_0000_0000_0000 {
                Some(i64::MIN)
            } else {
                Some(-(v as i64))
            }
        } else {
            Some(v as i64)
        },
    }
}

/// The number that a text spells, if it fits in 32 bits.
pub fn parse_u32(s: &[char], base: u64) -> (r: Option<u32>)
    requires
        2 <= base <= 16,
    ensures
        match r {
            Some(n) => spelled(s@, base as int, false) == Some(n as int),
            None => match spelled(s@, base as int, false) {
                Some(n) => n > u32::MAX,
                None => true,
            },
        },
{
    let n: usize = s.len();
    let plus = n > 0 && s[0] == '+';
    let digits: &[char] = if plus {
        slice_from(s, 1)
    } else {
        s
    };
    if digits.len() == 0 {
        return None;
    }
    match read_digits(digits, base, 0xffff_ffff) {
        None => None,
        Some(v) => Some(v as u32),
    }
}

/// The number that a text spells in decimal without a minus, if it fits in 64
/// bits.
pub fn parse_u64(s: &[char]) -> (r: Option<u64>)
    ensures
        match r {
            Some(n) => spelled(s@, 10, false) == Some(n as int),
            None => match spelled(s@, 10, false) {
                Some(n) => n > u64::MAX,
                None => true,
            },
        },
{
    let n: usize = s.len();
    let plus = n > 0 && s[0] == '+';
    let digits: &[char] = if plus {
        slice_from(s, 1)
    } else {
        s
    };
    if digits.len() == 0 {
        return None;
    }
    assert(plus ==> digits@ =~= s@.drop_first());
    read_digits(digits, 10, u64::MAX)
}

/// What follows the first `i` characters.
pub fn slice_from(s: &[char], i: usize) -> (r: &[char])
    requires
        i <= s@.len(),
    ensures
        r@ == s@.skip(i as int),
{
    assert(s@.subrange(i as int, s@.len() as int) =~= s@.skip(i as int));
    vstd::slice::slice_subrange(s, i, s.len())
}

/// The character of a digit.
pub open spec fn digit_char(d: nat) -> char {
    (48 + d) as char
}

/// A number in decimal.
pub open spec fn decimal(n: nat) -> Seq<char>
    decreases n,
{
    if n < 10 {
        seq![digit_char(n)]
    } else {
        decimal(n / 10).push(digit_char(n % 10))
    }
}

/// Put a number at the end of a string, in decimal.
pub fn push_decimal(out: &mut String, n: u64)
    ensures
        final(out)@ == old(out)@ + decimal(n as nat),
    decreases n,
{
    let ghost before = out@;
    if n >= 10 {
        push_decimal(out, n / 10);
    }
    let d: u8 = (n % 10) as u8;
    out.push((48 + d) as char);
    assert(out@ =~= before + decimal(n as nat));
}

// ---------------------------------------------------------------------------
// Laws
// ---------------------------------------------------------------------------

/// `pat` stands in `s` at `at`, and nowhere between `from` and there.
pub open spec fn stands_first(s: Seq<char>, pat: Seq<char>, from: int, at: int) -> bool {
    &&& from <= at
    &&& occurs_at(s, pat, at)
    &&& forall|j: int| from <= j < at ==> !#[trigger] occurs_at(s, pat, j)
}

/// `pat` stands nowhere in `s` from `from` on.
pub open spec fn stands_nowhere(s: Seq<char>, pat: Seq<char>, from: int) -> bool {
    forall|j: int| from <= j ==> !#[trigger] occurs_at(s, pat, j)
}

/// Whether `s` holds the letters of `pat`, one by one, from place `i` on.
pub open spec fn reads_at(s: Seq<char>, pat: Seq<char>, i: int) -> bool {
    i + pat.len() <= s.len() && forall|k: int| 0 <= k < pat.len() ==> s[i + k] == #[trigger] pat[k]
}

/// What is found is there, letter by letter, and it is the first that is.
pub proof fn law_the_first_is_found(s: Seq<char>, pat: Seq<char>, from: int)
    requires
        0 <= from,
    ensures
        match found_at(s, pat, from) {
            Some(i) => from <= i && reads_at(s, pat, i) && forall|j: int|
                from <= j < i ==> !#[trigger] reads_at(s, pat, j),
            None => forall|j: int| from <= j ==> !#[trigger] reads_at(s, pat, j),
        },
        holds(s, pat) <==> exists|j: int| 0 <= j && #[trigger] reads_at(s, pat, j),
        begins(s, pat) <==> reads_at(s, pat, 0),
{
    lemma_found_at(s, pat, from);
    assert forall|j: int| 0 <= j implies occurs_at(s, pat, j) == #[trigger] reads_at(s, pat, j) by {
        if occurs_at(s, pat, j) {
            assert forall|k: int| 0 <= k < pat.len() implies s[j + k] == #[trigger] pat[k] by {
                assert(s.subrange(j, j + pat.len())[k] == s[j + k]);
            }
        }
        if reads_at(s, pat, j) {
            assert(s.subrange(j, j + pat.len()) =~= pat);
        }
    }
    assert(reads_at(s, pat, 0) == occurs_at(s, pat, 0));
    if holds(s, pat) {
        let j = choose|j: int| #[trigger] occurs_at(s, pat, j);
        assert(reads_at(s, pat, j));
    }
    if exists|j: int| 0 <= j && #[trigger] reads_at(s, pat, j) {
        let j = choose|j: int| 0 <= j && #[trigger] reads_at(s, pat, j);
        assert(occurs_at(s, pat, j));
    }
}

proof fn lemma_trimmed_start_splits(s: Seq<char>) -> (n: int)
    ensures
        0 <= n <= s.len(),
        trimmed_start(s) == s.skip(n),
        forall|i: int| 0 <= i < n ==> is_space(#[trigger] s[i]),
        n < s.len() ==> !is_space(s[n]),
    decreases s.len(),
{
    if s.len() > 0 && is_space(s[0]) {
        let m = lemma_trimmed_start_splits(s.drop_first());
        assert(s.drop_first().skip(m) =~= s.skip(m + 1));
        assert forall|i: int| 0 <= i < m + 1 implies is_space(#[trigger] s[i]) by {
            if i > 0 {
                assert(s.drop_first()[i - 1] == s[i]);
            }
        }
        m + 1
    } else {
        assert(s.skip(0) =~= s);
        0
    }
}

proof fn lemma_trimmed_end_splits(s: Seq<char>) -> (n: int)
    ensures
        0 <= n <= s.len(),
        trimmed_end(s) == s.take(n),
        forall|i: int| n <= i < s.len() ==> is_space(#[trigger] s[i]),
        n > 0 ==> !is_space(s[n - 1]),
    decreases s.len(),
{
    if s.len() > 0 && is_space(s.last()) {
        let m = lemma_trimmed_end_splits(s.drop_last());
        assert(s.drop_last().take(m) =~= s.take(m));
        assert forall|i: int| m <= i < s.len() implies is_space(#[trigger] s[i]) by {
            if i < s.len() - 1 {
                assert(s.drop_last()[i] == s[i]);
            }
        }
        m
    } else {
        assert(s.take(s.len() as int) =~= s);
        s.len() as int
    }
}

/// Trimming takes white space from both ends, all of it and nothing else.
pub proof fn law_only_white_space_is_trimmed(s: Seq<char>) -> (cut: (int, int))
    ensures
        0 <= cut.0 <= cut.1 <= s.len(),
        trimmed(s) == s.subrange(cut.0, cut.1),
        forall|i: int|
            0 <= i < cut.0 || cut.1 <= i < s.len() ==> is_space(#[trigger] s[i]),
        cut.0 < cut.1 ==> !is_space(s[cut.0]) && !is_space(s[cut.1 - 1]),
{
    let a = lemma_trimmed_start_splits(s);
    let t = s.skip(a);
    let b = lemma_trimmed_end_splits(t);
    assert(t.take(b) =~= s.subrange(a, a + b));
    assert forall|i: int| 0 <= i < a || a + b <= i < s.len() implies is_space(#[trigger] s[i]) by {
        if i >= a {
            assert(t[i - a] == s[i]);
        }
    }
    if b > 0 {
        assert(t[b - 1] == s[a + b - 1]);
    }
    (a, a + b)
}

/// A space, a tab and the ends of lines are white space; letters, digits and
/// what else can be seen in ASCII are not.
pub proof fn law_white_space_is_what_is_not_seen(c: char)
    ensures
        c == ' ' || c == '\t' || c == '\n' || c == '\r' ==> is_space(c) && is_ascii_space(c),
        '!' <= c <= '~' ==> !is_space(c) && !is_ascii_space(c),
        is_ascii_space(c) ==> is_space(c),
{
}

/// Lower case moves the capitals from A to Z by thirty-two, and leaves all else
/// where it is.
pub proof fn law_capitals_are_lowered(s: Seq<char>, i: int)
    requires
        0 <= i < s.len(),
    ensures
        ascii_lowered(s).len() == s.len(),
        'A' <= s[i] <= 'Z' ==> ascii_lowered(s)[i] as int == s[i] as int + 32,
        !('A' <= s[i] <= 'Z') ==> ascii_lowered(s)[i] == s[i],
{
}

/// A text fits that has no more bytes than allowed. Of one that does not, as
/// many characters are kept as fit.
pub proof fn law_texts_are_cut_to_fit(s: Seq<char>, max: nat) -> (n: int)
    ensures
        0 <= n <= s.len(),
        fitting(s, max) == s.take(n),
        byte_len(s.take(n)) <= max,
        n < s.len() ==> byte_len(s.take(n + 1)) > max,
    decreases s.len(),
{
    if byte_len(s) <= max || s.len() == 0 {
        assert(s.take(s.len() as int) =~= s);
        s.len() as int
    } else {
        let n = law_texts_are_cut_to_fit(s.drop_last(), max);
        assert(s.drop_last().take(n) =~= s.take(n));
        if n < s.len() - 1 {
            assert(s.drop_last().take(n + 1) =~= s.take(n + 1));
        } else {
            assert(s.take(n + 1) =~= s);
        }
        n
    }
}

/// An ASCII character has one byte, and each text as many as its parts.
pub proof fn law_bytes_add_up(a: Seq<char>, b: Seq<char>)
    ensures
        byte_len(a + b) == byte_len(a) + byte_len(b),
        (forall|i: int| 0 <= i < a.len() ==> (#[trigger] a[i]) as u32 <= 127) ==> byte_len(a)
            == a.len(),
        a.len() <= byte_len(a) <= 4 * a.len(),
    decreases a.len() + b.len(),
{
    if b.len() > 0 {
        law_bytes_add_up(a, b.drop_last());
        assert((a + b).drop_last() =~= a + b.drop_last());
    } else {
        assert(a + b =~= a);
        if a.len() > 0 {
            let front = a.drop_last();
            law_bytes_add_up(front, b);
            assert(a[a.len() - 1] == a.last());
            assert(forall|i: int| 0 <= i < front.len() ==> front[i] == a[i]);
        }
    }
}

/// A number is spelled by its decimal digits.
pub proof fn law_decimals_spell_their_number(n: nat)
    ensures
        spelled(decimal(n), 10, false) == Some(n as int),
        spelled(seq!['+'] + decimal(n), 10, false) == Some(n as int),
        spelled(seq!['-'] + decimal(n), 10, true) == Some(-(n as int)),
        spelled(seq!['-'] + decimal(n), 10, false) is None,
{
    lemma_decimal_value(n);
    let d = decimal(n);
    assert((seq!['+'] + d).drop_first() =~= d);
    assert((seq!['-'] + d).drop_first() =~= d);
    lemma_bad_digit(seq!['-'] + d, 0);
}

proof fn lemma_decimal_value(n: nat)
    ensures
        decimal(n).len() > 0,
        '0' <= decimal(n)[0] <= '9',
        digits_value(decimal(n), 10) == Some(n as int),
    decreases n,
{
    let none = Seq::<char>::empty();
    assert(digits_value(none, 10) == Some(0int));
    assert(decimal(n).last() == digit_char(n % 10));
    assert(digit_value(digit_char(n % 10), 10) == Some((n % 10) as int));
    if n < 10 {
        assert(decimal(n).drop_last() =~= none);
    } else {
        lemma_decimal_value(n / 10);
        assert(decimal(n).drop_last() =~= decimal(n / 10));
    }
}

proof fn lemma_bad_digit(s: Seq<char>, i: int)
    requires
        0 <= i < s.len(),
        digit_value(s[i], 10) is None,
    ensures
        digits_value(s, 10) is None,
    decreases s.len(),
{
    if i < s.len() - 1 {
        assert(s.drop_last()[i] == s[i]);
        lemma_bad_digit(s.drop_last(), i);
    }
}

/// One more digit makes a number as many times as large as the base, and the
/// digit more. Letters are digits from ten on.
pub proof fn law_digits_have_places(s: Seq<char>, c: char, base: int)
    requires
        base == 10 || base == 16,
    ensures
        '0' <= c <= '9' ==> digits_value(s.push(c), base) == (match digits_value(s, base) {
            Some(n) => Some(n * base + (c as int - 48)),
            None => None,
        }),
        base == 16 && 'a' <= c <= 'f' ==> digits_value(s.push(c), base) == (match digits_value(
            s,
            base,
        ) {
            Some(n) => Some(n * base + (c as int - 97 + 10)),
            None => None,
        }),
        base == 16 && 'A' <= c <= 'F' ==> digits_value(s.push(c), base) == (match digits_value(
            s,
            base,
        ) {
            Some(n) => Some(n * base + (c as int - 65 + 10)),
            None => None,
        }),
        base == 10 && !('0' <= c <= '9') ==> digits_value(s.push(c), base) is None,
        digits_value(seq![], base) == Some(0int),
{
    assert(s.push(c).drop_last() =~= s);
}
/// A decimal has a digit at least, and nothing but digits.
pub proof fn law_decimals_are_digits(n: nat)
    ensures
        decimal(n).len() > 0,
        forall|i: int| 0 <= i < decimal(n).len() ==> '0' <= #[trigger] decimal(n)[i] <= '9',
        n > 0 ==> decimal(n)[0] != '0',
    decreases n,
{
    if n >= 10 {
        law_decimals_are_digits(n / 10);
    }
}
} // verus!
