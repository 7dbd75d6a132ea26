//! Cleaning wikitext and finding the `[[wikilinks]]` in it.
//!
//! What counts as a link is an editorial decision:
//!
//! * HTML comments and `<nowiki>` are always removed: they do not render, so
//!   links inside them are not links that a reader could ever click.
//! * `{{templates}}` and `<ref>` bodies are kept unless asked otherwise.
//! * Citation sections (References, External links and the like) are cut
//!   unless asked otherwise. `See also` is kept: those links are curated.

use crate::text::{
    among, ascii_lowered, ascii_space, char_at, chars_of, find, find_char, found_at, holds, is_ascii_space, is_one_of,
    lemma_char_at, lemma_found_at, occurs_at, same, string_of_all, to_ascii_lower,
    stands_first, stands_nowhere, to_ascii_lowered, ascii_lower,
};
use crate::titles::before;
use vstd::prelude::*;
use vstd::slice::slice_subrange;

verus! {

#[derive(Clone, Copy)]
pub struct CleanOpts {
    pub strip_templates: bool,
    pub strip_refs: bool,
    pub cut_citation_sections: bool,
}

impl Default for CleanOpts {
    fn default() -> (r: Self)
        ensures
            !r.strip_templates,
            !r.strip_refs,
            r.cut_citation_sections,
    {
        CleanOpts { strip_templates: false, strip_refs: false, cut_citation_sections: true }
    }
}

// ---------------------------------------------------------------------------
// Comments
// ---------------------------------------------------------------------------

pub open spec fn comment_open() -> Seq<char> {
    seq!['<', '!', '-', '-']
}

pub open spec fn comment_close() -> Seq<char> {
    seq!['-', '-', '>']
}

/// What is left from place `i` on without `<!-- ... -->`. A comment that does
/// not end takes the rest with it.
pub open spec fn without_comments(s: Seq<char>, i: int) -> Seq<char>
    decreases s.len() - i,
    via without_comments_decreases
{
    match found_at(s, comment_open(), i) {
        None => s.skip(i),
        Some(start) => s.subrange(i, start) + match found_at(s, comment_close(), start + 4) {
            Some(end) => without_comments(s, end + 3),
            None => seq![],
        },
    }
}

#[via_fn]
proof fn without_comments_decreases(s: Seq<char>, i: int) {
    if i >= 0 {
        lemma_found_at(s, comment_open(), i);
        if found_at(s, comment_open(), i) is Some {
            let start = found_at(s, comment_open(), i)->0;
            lemma_found_at(s, comment_close(), start + 4);
        }
    }
}

fn append_range(out: &mut Vec<char>, s: &[char], lo: usize, hi: usize)
    requires
        lo <= hi <= s@.len(),
    ensures
        final(out)@ == old(out)@ + s@.subrange(lo as int, hi as int),
{
    let ghost given = out@;
    let mut i: usize = lo;
    assert(given + s@.subrange(lo as int, lo as int) =~= given);
    while i < hi
        invariant
            lo <= i <= hi <= s@.len(),
            out@ == given + s@.subrange(lo as int, i as int),
        decreases hi - i,
    {
        out.push(s[i]);
        i = i + 1;
        assert(out@ =~= given + s@.subrange(lo as int, i as int));
    }
}

/// Remove `<!-- ... -->`. A comment that does not end takes the rest with it.
pub fn strip_comments(s: &[char]) -> (r: Vec<char>)
    ensures
        r@ == without_comments(s@, 0),
{
    let open = vec!['<', '!', '-', '-'];
    let close = vec!['-', '-', '>'];
    assert(open@ =~= comment_open());
    assert(close@ =~= comment_close());
    let n: usize = s.len();
    let mut out: Vec<char> = Vec::new();
    let mut i: usize = 0;
    assert(out@ + without_comments(s@, 0) =~= without_comments(s@, 0));
    loop
        invariant
            n == s@.len(),
            open@ == comment_open(),
            close@ == comment_close(),
            i <= n,
            out@ + without_comments(s@, i as int) == without_comments(s@, 0),
        decreases n - i,
    {
        proof {
            lemma_found_at(s@, comment_open(), i as int);
        }
        match find(s, open.as_slice(), i) {
            None => {
                append_range(&mut out, s, i, n);
                assert(s@.subrange(i as int, n as int) =~= s@.skip(i as int));
                return out;
            },
            Some(start) => {
                let ghost before = out@;
                append_range(&mut out, s, i, start);
                proof {
                    lemma_found_at(s@, comment_close(), start + 4);
                }
                match find(s, close.as_slice(), start + 4) {
                    Some(end) => {
                        proof {
                            assert(out@ + without_comments(s@, end + 3) =~= before
                                + without_comments(s@, i as int));
                        }
                        i = end + 3;
                    },
                    None => {
                        assert(out@ + Seq::<char>::empty() =~= out@);
                        assert(out@ =~= before + without_comments(s@, i as int));
                        return out;
                    },
                }
            },
        }
    }
}

// ---------------------------------------------------------------------------
// Elements
// ---------------------------------------------------------------------------

/// What can follow the name of a tag.
pub open spec fn ends_tag_name(c: char) -> bool {
    is_ascii_space(c) || c == '>' || c == '/'
}

/// The first opening tag at or after `from` in a lower case text. The name must
/// end there: `<ref>` counts as `ref` and `<references/>` does not.
pub open spec fn open_tag_at(low: Seq<char>, tag: Seq<char>, from: int) -> Option<int>
    decreases low.len() - from,
    via open_tag_at_decreases
{
    let needle = seq!['<'] + tag;
    match found_at(low, needle, from) {
        None => None,
        Some(at) => if at + needle.len() >= low.len() {
            None
        } else if ends_tag_name(low[at + needle.len()]) {
            Some(at)
        } else {
            open_tag_at(low, tag, at + 1)
        },
    }
}

#[via_fn]
proof fn open_tag_at_decreases(low: Seq<char>, tag: Seq<char>, from: int) {
    if from >= 0 {
        lemma_found_at(low, seq!['<'] + tag, from);
    }
}

proof fn lemma_open_tag_at(low: Seq<char>, tag: Seq<char>, from: int)
    requires
        0 <= from,
    ensures
        open_tag_at(low, tag, from) matches Some(at) ==> from <= at < low.len(),
    decreases low.len() - from,
{
    let needle = seq!['<'] + tag;
    lemma_found_at(low, needle, from);
    if found_at(low, needle, from) is Some {
        let at = found_at(low, needle, from)->0;
        if at + needle.len() < low.len() && !ends_tag_name(low[at + needle.len()]) {
            lemma_open_tag_at(low, tag, at + 1);
        }
    }
}

/// Without the ASCII white space at the end.
pub open spec fn ascii_trimmed_end(s: Seq<char>) -> Seq<char>
    decreases s.len(),
{
    if s.len() > 0 && is_ascii_space(s.last()) {
        ascii_trimmed_end(s.drop_last())
    } else {
        s
    }
}

/// The tag that ends at `gt` closes itself.
pub open spec fn closes_itself(s: Seq<char>, gt: int) -> bool {
    let t = ascii_trimmed_end(s.take(gt));
    t.len() > 0 && t.last() == '/'
}

/// What is left from place `i` on without `<tag ...>...</tag>` and
/// `<tag ... />`, whatever the case of the tag's name. An element that does not
/// end takes the rest with it.
pub open spec fn without_element(s: Seq<char>, tag: Seq<char>, i: int) -> Seq<char>
    decreases s.len() - i,
    via without_element_decreases
{
    let low = ascii_lowered(s);
    match open_tag_at(low, tag, i) {
        None => s.skip(i),
        Some(start) => s.subrange(i, start) + match char_at(s, '>', start) {
            None => seq![],
            Some(gt) => if closes_itself(s, gt) {
                without_element(s, tag, gt + 1)
            } else {
                match found_at(low, seq!['<', '/'] + tag, gt + 1) {
                    None => seq![],
                    Some(close) => match char_at(s, '>', close) {
                        None => seq![],
                        Some(end) => without_element(s, tag, end + 1),
                    },
                }
            },
        },
    }
}

#[via_fn]
proof fn without_element_decreases(s: Seq<char>, tag: Seq<char>, i: int) {
    let low = ascii_lowered(s);
    if i >= 0 {
        lemma_open_tag_at(low, tag, i);
        if open_tag_at(low, tag, i) is Some {
            let start = open_tag_at(low, tag, i)->0;
            lemma_char_at(s, '>', start);
            if char_at(s, '>', start) is Some {
                let gt = char_at(s, '>', start)->0;
                lemma_found_at(low, seq!['<', '/'] + tag, gt + 1);
                if found_at(low, seq!['<', '/'] + tag, gt + 1) is Some {
                    let close = found_at(low, seq!['<', '/'] + tag, gt + 1)->0;
                    lemma_char_at(s, '>', close);
                }
            }
        }
    } else {
        assert(found_at(low, seq!['<'] + tag, i) is None);
    }
}

fn find_open_tag(low: &[char], tag: &[char], from: usize) -> (r: Option<usize>)
    requires
        from <= low@.len(),
    ensures
        r matches Some(at) ==> open_tag_at(low@, tag@, from as int) == Some(at as int),
        r is None ==> open_tag_at(low@, tag@, from as int) is None,
{
    let mut needle: Vec<char> = vec!['<'];
    append_range(&mut needle, tag, 0, tag.len());
    assert(needle@ =~= seq!['<'] + tag@);
    let n: usize = low.len();
    let k: usize = needle.len();
    let mut i: usize = from;
    loop
        invariant
            n == low@.len(),
            k == needle@.len(),
            needle@ == seq!['<'] + tag@,
            from <= i <= n,
            open_tag_at(low@, tag@, from as int) == open_tag_at(low@, tag@, i as int),
        decreases n - i,
    {
        proof {
            lemma_found_at(low@, needle@, i as int);
        }
        match find(low, needle.as_slice(), i) {
            None => {
                return None;
            },
            Some(at) => {
                let after: usize = at + k;
                if after >= n {
                    return None;
                }
                let c: char = low[after];
                if ascii_space(c) || c == '>' || c == '/' {
                    return Some(at);
                }
                i = at + 1;
            },
        }
    }
}

fn self_closing(s: &[char], gt: usize) -> (r: bool)
    requires
        gt <= s@.len(),
    ensures
        r == closes_itself(s@, gt as int),
{
    let mut k: usize = gt;
    while k > 0 && ascii_space(s[k - 1])
        invariant
            k <= gt <= s@.len(),
            ascii_trimmed_end(s@.take(gt as int)) == ascii_trimmed_end(s@.take(k as int)),
        decreases k,
    {
        assert(s@.take(k as int).drop_last() =~= s@.take(k - 1));
        k = k - 1;
    }
    k > 0 && s[k - 1] == '/'
}

/// Remove `<tag ...>...</tag>` and self-closing `<tag ... />`, whatever the
/// case. `tag` is in lower case.
pub fn strip_element(s: &[char], tag: &[char]) -> (r: Vec<char>)
    ensures
        r@ == without_element(s@, tag@, 0),
{
    let low_text = to_ascii_lowered(s);
    let low: &[char] = low_text.as_slice();
    let mut close: Vec<char> = vec!['<', '/'];
    append_range(&mut close, tag, 0, tag.len());
    assert(close@ =~= seq!['<', '/'] + tag@);
    let n: usize = s.len();
    let mut out: Vec<char> = Vec::new();
    let mut i: usize = 0;
    assert(out@ + without_element(s@, tag@, 0) =~= without_element(s@, tag@, 0));
    loop
        invariant
            n == s@.len(),
            low@ == ascii_lowered(s@),
            close@ == seq!['<', '/'] + tag@,
            i <= n,
            out@ + without_element(s@, tag@, i as int) == without_element(s@, tag@, 0),
        decreases n - i,
    {
        proof {
            lemma_open_tag_at(low@, tag@, i as int);
        }
        let start: usize = match find_open_tag(low, tag, i) {
            None => {
                append_range(&mut out, s, i, n);
                assert(s@.subrange(i as int, n as int) =~= s@.skip(i as int));
                return out;
            },
            Some(start) => start,
        };
        let ghost before = out@;
        append_range(&mut out, s, i, start);
        proof {
            lemma_char_at(s@, '>', start as int);
            assert(out@ + Seq::<char>::empty() =~= out@);
        }
        let gt: usize = match find_char(s, '>', start) {
            None => {
                return out;
            },
            Some(gt) => gt,
        };
        if self_closing(s, gt) {
            assert(out@ + without_element(s@, tag@, gt + 1) =~= before + without_element(
                s@,
                tag@,
                i as int,
            ));
            i = gt + 1;
        } else {
            proof {
                lemma_found_at(low@, close@, gt + 1);
            }
            let c: usize = match find(low, close.as_slice(), gt + 1) {
                None => {
                    return out;
                },
                Some(c) => c,
            };
            proof {
                lemma_char_at(s@, '>', c as int);
            }
            let end: usize = match find_char(s, '>', c) {
                None => {
                    return out;
                },
                Some(end) => end,
            };
            assert(out@ + without_element(s@, tag@, end + 1) =~= before + without_element(
                s@,
                tag@,
                i as int,
            ));
            i = end + 1;
        }
    }
}

// ---------------------------------------------------------------------------
// Templates
// ---------------------------------------------------------------------------

/// What is left from place `i` on without `{{ ... }}`, where `depth` templates
/// are open. What does not end takes the rest with it.
pub open spec fn without_templates(s: Seq<char>, i: int, depth: nat) -> Seq<char>
    decreases s.len() - i,
{
    if i + 1 >= s.len() {
        if depth == 0 {
            s.skip(i)
        } else {
            seq![]
        }
    } else if s[i] == '{' && s[i + 1] == '{' {
        without_templates(s, i + 2, depth + 1)
    } else if s[i] == '}' && s[i + 1] == '}' && depth > 0 {
        without_templates(s, i + 2, (depth - 1) as nat)
    } else if depth == 0 {
        seq![s[i]] + without_templates(s, i + 1, depth)
    } else {
        without_templates(s, i + 1, depth)
    }
}

/// Remove `{{ ... }}`, honouring nesting. Tables (`{| ... |}`) are kept.
pub fn strip_templates(s: &[char]) -> (r: Vec<char>)
    ensures
        r@ == without_templates(s@, 0, 0),
{
    let n: usize = s.len();
    let mut out: Vec<char> = Vec::new();
    let mut depth: usize = 0;
    let mut i: usize = 0;
    assert(out@ + without_templates(s@, 0, 0) =~= without_templates(s@, 0, 0));
    while i < n && i + 1 < n
        invariant
            n == s@.len(),
            i <= n,
            depth <= i,
            out@ + without_templates(s@, i as int, depth as nat) == without_templates(s@, 0, 0),
        decreases n - i,
    {
        if s[i] == '{' && s[i + 1] == '{' {
            depth = depth + 1;
            i = i + 2;
        } else if s[i] == '}' && s[i + 1] == '}' && depth > 0 {
            depth = depth - 1;
            i = i + 2;
        } else {
            if depth == 0 {
                let ghost before = out@;
                out.push(s[i]);
                assert(out@ + without_templates(s@, i + 1, 0) =~= before + without_templates(
                    s@,
                    i as int,
                    0,
                ));
            }
            i = i + 1;
        }
    }
    if depth == 0 {
        append_range(&mut out, s, i, n);
        assert(s@.subrange(i as int, n as int) =~= s@.skip(i as int));
    } else {
        assert(out@ + Seq::<char>::empty() =~= out@);
    }
    out
}

// ---------------------------------------------------------------------------
// Citation sections
// ---------------------------------------------------------------------------

/// The titles of citation sections.
pub open spec fn citation_titles() -> Seq<&'static str> {
    seq![
        "references",
        "external links",
        "further reading",
        "notes",
        "bibliography",
        "sources",
        "citations",
        "footnotes",
    ]
}

/// Lower case for comparing section titles. Besides the capitals, two letters
/// have the same fold as an ASCII letter: the long s and the kelvin sign.
pub open spec fn folded(c: char) -> char {
    if c == '\u{17f}' {
        's'
    } else if c == '\u{212a}' {
        'k'
    } else {
        ascii_lower(c)
    }
}

pub open spec fn folded_all(s: Seq<char>) -> Seq<char> {
    s.map_values(|c: char| folded(c))
}

pub open spec fn is_gap(c: char) -> bool {
    c == ' ' || c == '\t'
}

/// How many characters `s` begins with that are a gap.
pub open spec fn gaps_in_front(s: Seq<char>) -> int
    decreases s.len(),
{
    if s.len() > 0 && is_gap(s[0]) {
        1 + gaps_in_front(s.drop_first())
    } else {
        0
    }
}

pub open spec fn gaps_at_end(s: Seq<char>) -> int
    decreases s.len(),
{
    if s.len() > 0 && is_gap(s.last()) {
        1 + gaps_at_end(s.drop_last())
    } else {
        0
    }
}

/// How many equals signs `s` begins with.
pub open spec fn equals_in_front(s: Seq<char>) -> int
    decreases s.len(),
{
    if s.len() > 0 && s[0] == '=' {
        1 + equals_in_front(s.drop_first())
    } else {
        0
    }
}

pub open spec fn equals_at_end(s: Seq<char>) -> int
    decreases s.len(),
{
    if s.len() > 0 && s.last() == '=' {
        1 + equals_at_end(s.drop_last())
    } else {
        0
    }
}

/// Without the gaps at either end.
pub open spec fn ungapped(s: Seq<char>) -> Seq<char> {
    let t = s.skip(gaps_in_front(s));
    t.take(t.len() - gaps_at_end(t))
}

/// A heading `== Title ==` of a citation section: at least two equals signs on
/// either side, and gaps anywhere around.
pub open spec fn is_citation_heading(line: Seq<char>) -> bool {
    let t = ungapped(line);
    let a = equals_in_front(t);
    let u = t.skip(a);
    let b = equals_at_end(u);
    let title = folded_all(ungapped(u.take(u.len() - b)));
    &&& a >= 2
    &&& b >= 2
    &&& among(title, citation_titles())
}

/// Where the line that begins at `i` ends.
pub open spec fn line_end(s: Seq<char>, i: int) -> int {
    match char_at(s, '\n', i) {
        Some(e) => e,
        None => s.len() as int,
    }
}

/// Where the first citation heading begins, of the lines from `i` on.
pub open spec fn citation_at(s: Seq<char>, i: int) -> Option<int>
    decreases s.len() - i,
    via citation_at_decreases
{
    let e = line_end(s, i);
    if is_citation_heading(s.subrange(i, e)) {
        Some(i)
    } else if e >= s.len() {
        None
    } else {
        citation_at(s, e + 1)
    }
}

#[via_fn]
proof fn citation_at_decreases(s: Seq<char>, i: int) {
    if i >= 0 {
        lemma_char_at(s, '\n', i);
    }
}

/// Up to the first citation section.
pub open spec fn without_citations(s: Seq<char>) -> Seq<char> {
    match citation_at(s, 0) {
        Some(i) => s.take(i),
        None => s,
    }
}

fn skip_gaps(s: &[char]) -> (r: &[char])
    ensures
        r@ == ungapped(s@),
{
    let n: usize = s.len();
    let mut lo: usize = 0;
    assert(s@.skip(0) =~= s@);
    while lo < n && (s[lo] == ' ' || s[lo] == '\t')
        invariant
            n == s@.len(),
            lo <= n,
            gaps_in_front(s@) == lo + gaps_in_front(s@.skip(lo as int)),
        decreases n - lo,
    {
        assert(s@.skip(lo as int).drop_first() =~= s@.skip(lo + 1));
        lo = lo + 1;
    }
    let ghost t = s@.skip(lo as int);
    let mut hi: usize = n;
    assert(t.take(t.len() as int) =~= t);
    while hi > lo && (s[hi - 1] == ' ' || s[hi - 1] == '\t')
        invariant
            n == s@.len(),
            lo <= hi <= n,
            t == s@.skip(lo as int),
            gaps_at_end(t) == (n - hi) + gaps_at_end(t.take(hi - lo)),
        decreases hi,
    {
        assert(t.take(hi - lo).drop_last() =~= t.take(hi - lo - 1));
        assert(t.take(hi - lo).last() == s@[hi - 1]);
        hi = hi - 1;
    }
    assert(s@.subrange(lo as int, hi as int) =~= t.take(hi - lo));
    if hi > lo {
        assert(t.take(hi - lo).last() == s@[hi - 1]);
    }
    slice_subrange(s, lo, hi)
}

fn fold(c: char) -> (r: char)
    ensures
        r == folded(c),
{
    if c == '\u{17f}' {
        's'
    } else if c == '\u{212a}' {
        'k'
    } else {
        to_ascii_lower(c)
    }
}

fn fold_all(s: &[char]) -> (r: Vec<char>)
    ensures
        r@ == folded_all(s@),
{
    let mut out: Vec<char> = Vec::new();
    let n: usize = s.len();
    let mut i: usize = 0;
    while i < n
        invariant
            n == s@.len(),
            i <= n,
            out@ == folded_all(s@.take(i as int)),
        decreases n - i,
    {
        out.push(fold(s[i]));
        i = i + 1;
        assert(out@ =~= folded_all(s@.take(i as int)));
    }
    assert(s@.take(n as int) =~= s@);
    out
}

fn citation_heading(line: &[char]) -> (r: bool)
    ensures
        r == is_citation_heading(line@),
{
    let t = skip_gaps(line);
    let n: usize = t.len();
    let mut a: usize = 0;
    assert(t@.skip(0) =~= t@);
    while a < n && t[a] == '='
        invariant
            n == t@.len(),
            a <= n,
            equals_in_front(t@) == a + equals_in_front(t@.skip(a as int)),
        decreases n - a,
    {
        assert(t@.skip(a as int).drop_first() =~= t@.skip(a + 1));
        a = a + 1;
    }
    let ghost u = t@.skip(a as int);
    let mut hi: usize = n;
    assert(u.take(u.len() as int) =~= u);
    while hi > a && t[hi - 1] == '='
        invariant
            n == t@.len(),
            a <= hi <= n,
            u == t@.skip(a as int),
            equals_at_end(u) == (n - hi) + equals_at_end(u.take(hi - a)),
        decreases hi,
    {
        assert(u.take(hi - a).drop_last() =~= u.take(hi - a - 1));
        assert(u.take(hi - a).last() == t@[hi - 1]);
        hi = hi - 1;
    }
    if hi > a {
        assert(u.take(hi - a).last() == t@[hi - 1]);
    }
    if a < 2 || n - hi < 2 {
        return false;
    }
    assert(t@.subrange(a as int, hi as int) =~= u.take(hi - a));
    let inner = skip_gaps(slice_subrange(t, a, hi));
    let title = fold_all(inner);
    let list: [&str; 8] = [
        "references",
        "external links",
        "further reading",
        "notes",
        "bibliography",
        "sources",
        "citations",
        "footnotes",
    ];
    assert(list@ =~= citation_titles());
    is_one_of(title.as_slice(), list.as_slice())
}

/// Cut the text at its first citation section.
pub fn cut_citations(s: &[char]) -> (r: Vec<char>)
    ensures
        r@ == without_citations(s@),
{
    let n: usize = s.len();
    let mut out: Vec<char> = Vec::new();
    let mut i: usize = 0;
    loop
        invariant
            n == s@.len(),
            i <= n,
            out@.len() == 0,
            citation_at(s@, 0) == citation_at(s@, i as int),
        decreases n - i,
    {
        proof {
            lemma_char_at(s@, '\n', i as int);
        }
        let e: usize = match find_char(s, '\n', i) {
            Some(e) => e,
            None => n,
        };
        if citation_heading(slice_subrange(s, i, e)) {
            append_range(&mut out, s, 0, i);
            assert(out@ =~= s@.take(i as int));
            return out;
        }
        if e >= n {
            append_range(&mut out, s, 0, n);
            assert(out@ =~= s@);
            return out;
        }
        i = e + 1;
    }
}

// ---------------------------------------------------------------------------
// All of it
// ---------------------------------------------------------------------------

/// The text that links are taken from.
pub open spec fn cleaned(s: Seq<char>, opts: CleanOpts) -> Seq<char> {
    let a = without_element(without_comments(s, 0), "nowiki"@, 0);
    let b = if opts.strip_refs {
        without_element(a, "ref"@, 0)
    } else {
        a
    };
    let c = if opts.strip_templates {
        without_templates(b, 0, 0)
    } else {
        b
    };
    if opts.cut_citation_sections {
        without_citations(c)
    } else {
        c
    }
}

/// Cleans wikitext.
pub struct Cleaner {}

impl Cleaner {
    pub fn new() -> (r: Self) {
        Cleaner {  }
    }

    /// The text that links are taken from.
    pub fn clean(&self, src: &str, opts: &CleanOpts) -> (r: String)
        ensures
            r@ == cleaned(src@, *opts),
    {
        let chars = chars_of(src);
        let out = self.clean_chars(chars.as_slice(), opts);
        string_of_all(&out)
    }

    /// `clean`, on characters.
    pub fn clean_chars(&self, src: &[char], opts: &CleanOpts) -> (r: Vec<char>)
        ensures
            r@ == cleaned(src@, *opts),
    {
        let a = strip_comments(src);
        let nowiki = chars_of("nowiki");
        let mut b = strip_element(a.as_slice(), nowiki.as_slice());
        if opts.strip_refs {
            let tag = chars_of("ref");
            b = strip_element(b.as_slice(), tag.as_slice());
        }
        if opts.strip_templates {
            b = strip_templates(b.as_slice());
        }
        if opts.cut_citation_sections {
            b = cut_citations(b.as_slice());
        }
        b
    }
}

impl Default for Cleaner {
    fn default() -> (r: Self) {
        Cleaner::new()
    }
}

// ---------------------------------------------------------------------------
// Links
// ---------------------------------------------------------------------------

pub open spec fn link_open() -> Seq<char> {
    seq!['[', '[']
}

pub open spec fn link_close() -> Seq<char> {
    seq![']', ']']
}

/// The targets of the `[[wikilinks]]` from place `i` on. Of a link within a
/// link, only the inner counts.
pub open spec fn link_targets(s: Seq<char>, i: int) -> Seq<Seq<char>>
    decreases s.len() - i,
    via link_targets_decreases
{
    match found_at(s, link_open(), i) {
        None => seq![],
        Some(open) => match found_at(s, link_close(), open + 2) {
            None => seq![],
            Some(close) => match found_at(s.take(close), link_open(), open + 2) {
                Some(inner) => link_targets(s, inner),
                None => {
                    let target = before(s.subrange(open + 2, close), '|');
                    let rest = link_targets(s, close + 2);
                    if target.len() > 0 {
                        seq![target] + rest
                    } else {
                        rest
                    }
                },
            },
        },
    }
}

#[via_fn]
proof fn link_targets_decreases(s: Seq<char>, i: int) {
    if i >= 0 {
        lemma_found_at(s, link_open(), i);
        if found_at(s, link_open(), i) is Some {
            let open = found_at(s, link_open(), i)->0;
            lemma_found_at(s, link_close(), open + 2);
            if found_at(s, link_close(), open + 2) is Some {
                let close = found_at(s, link_close(), open + 2)->0;
                lemma_found_at(s.take(close), link_open(), open + 2);
            }
        }
    }
}

/// The characters of each text.
pub open spec fn rows_of(v: Seq<Vec<char>>) -> Seq<Seq<char>> {
    Seq::new(v.len(), |i: int| v[i]@)
}

/// The target of every `[[wikilink]]`, in order.
///
/// Display text after `|` is left out. Nested constructs such as
/// `[[File:x.jpg|thumb|see [[Paris]]]]` yield the inner link, which is the one
/// a reader can click.
pub fn links_in(s: &[char]) -> (r: Vec<Vec<char>>)
    ensures
        rows_of(r@) == link_targets(s@, 0),
{
    let open_mark = vec!['[', '['];
    let close_mark = vec![']', ']'];
    assert(open_mark@ =~= link_open());
    assert(close_mark@ =~= link_close());
    let n: usize = s.len();
    let mut out: Vec<Vec<char>> = Vec::new();
    let mut i: usize = 0;
    assert(rows_of(out@) + link_targets(s@, 0) =~= link_targets(s@, 0));
    loop
        invariant
            n == s@.len(),
            open_mark@ == link_open(),
            close_mark@ == link_close(),
            i <= n,
            rows_of(out@) + link_targets(s@, i as int) == link_targets(s@, 0),
        decreases n - i,
    {
        proof {
            lemma_found_at(s@, link_open(), i as int);
            assert(rows_of(out@) + Seq::<Seq<char>>::empty() =~= rows_of(out@));
        }
        let open: usize = match find(s, open_mark.as_slice(), i) {
            None => {
                return out;
            },
            Some(open) => open,
        };
        proof {
            lemma_found_at(s@, link_close(), open + 2);
        }
        let close: usize = match find(s, close_mark.as_slice(), open + 2) {
            None => {
                return out;
            },
            Some(close) => close,
        };
        let upto = slice_subrange(s, 0, close);
        assert(upto@ =~= s@.take(close as int));
        proof {
            lemma_found_at(s@.take(close as int), link_open(), open + 2);
        }
        match find(upto, open_mark.as_slice(), open + 2) {
            Some(inner) => {
                i = inner;
            },
            None => {
                let body = slice_subrange(s, open + 2, close);
                let end: usize = match find_char(body, '|', 0) {
                    Some(p) => p,
                    None => body.len(),
                };
                assert(before(body@, '|') =~= body@.subrange(0, end as int));
                let ghost head = rows_of(out@);
                if end > 0 {
                    let mut target: Vec<char> = Vec::new();
                    append_range(&mut target, body, 0, end);
                    assert(target@ =~= before(body@, '|'));
                    out.push(target);
                    assert(rows_of(out@) =~= head.push(target@));
                    assert(head.push(target@) + link_targets(s@, close + 2) =~= head + (seq![
                        target@,
                    ] + link_targets(s@, close + 2)));
                }
                i = close + 2;
            },
        }
    }
}

/// The target of every `[[wikilink]]`, in order, as strings.
pub fn for_each_link(text: &str) -> (r: Vec<String>)
    ensures
        crate::graph::texts(r@) == link_targets(text@, 0),
{
    let chars = chars_of(text);
    let rows = links_in(chars.as_slice());
    let mut out: Vec<String> = Vec::new();
    let n: usize = rows.len();
    let mut i: usize = 0;
    while i < n
        invariant
            n == rows@.len(),
            i <= n,
            out@.len() == i,
            forall|k: int| 0 <= k < i ==> #[trigger] out@[k]@ == rows@[k]@,
        decreases n - i,
    {
        out.push(string_of_all(&rows[i]));
        i = i + 1;
    }
    assert(crate::graph::texts(out@) =~= rows_of(rows@));
    out
}

// ---------------------------------------------------------------------------
// Laws
// ---------------------------------------------------------------------------

proof fn lemma_without_comments_len(s: Seq<char>, i: int)
    requires
        0 <= i <= s.len(),
    ensures
        without_comments(s, i).len() <= s.len() - i,
    decreases s.len() - i,
{
    lemma_found_at(s, comment_open(), i);
    if found_at(s, comment_open(), i) is Some {
        let start = found_at(s, comment_open(), i)->0;
        lemma_found_at(s, comment_close(), start + 4);
        if found_at(s, comment_close(), start + 4) is Some {
            let end = found_at(s, comment_close(), start + 4)->0;
            lemma_without_comments_len(s, end + 3);
        }
    }
}

proof fn lemma_without_element_len(s: Seq<char>, tag: Seq<char>, i: int)
    requires
        0 <= i <= s.len(),
    ensures
        without_element(s, tag, i).len() <= s.len() - i,
    decreases s.len() - i,
{
    let low = ascii_lowered(s);
    lemma_open_tag_at(low, tag, i);
    if open_tag_at(low, tag, i) is Some {
        let start = open_tag_at(low, tag, i)->0;
        lemma_char_at(s, '>', start);
        if char_at(s, '>', start) is Some {
            let gt = char_at(s, '>', start)->0;
            if closes_itself(s, gt) {
                lemma_without_element_len(s, tag, gt + 1);
            } else {
                lemma_found_at(low, seq!['<', '/'] + tag, gt + 1);
                if found_at(low, seq!['<', '/'] + tag, gt + 1) is Some {
                    let close = found_at(low, seq!['<', '/'] + tag, gt + 1)->0;
                    lemma_char_at(s, '>', close);
                    if char_at(s, '>', close) is Some {
                        lemma_without_element_len(s, tag, char_at(s, '>', close)->0 + 1);
                    }
                }
            }
        }
    }
}

proof fn lemma_without_templates_len(s: Seq<char>, i: int, depth: nat)
    requires
        0 <= i <= s.len(),
    ensures
        without_templates(s, i, depth).len() <= s.len() - i,
    decreases s.len() - i,
{
    if i + 1 < s.len() {
        lemma_without_templates_len(s, i + 2, depth + 1);
        if depth > 0 {
            lemma_without_templates_len(s, i + 2, (depth - 1) as nat);
        }
        lemma_without_templates_len(s, i + 1, depth);
    }
}

proof fn lemma_citation_at(s: Seq<char>, i: int)
    requires
        0 <= i <= s.len(),
    ensures
        citation_at(s, i) matches Some(k) ==> i <= k <= s.len(),
    decreases s.len() - i,
{
    lemma_char_at(s, '\n', i);
    let e = line_end(s, i);
    if !is_citation_heading(s.subrange(i, e)) && e < s.len() {
        lemma_citation_at(s, e + 1);
    }
}

/// Cleaning never makes a text longer.
pub proof fn lemma_cleaned_no_longer(s: Seq<char>, opts: CleanOpts)
    ensures
        cleaned(s, opts).len() <= s.len(),
{
    lemma_without_comments_len(s, 0);
    let x = without_comments(s, 0);
    lemma_without_element_len(x, "nowiki"@, 0);
    let a = without_element(x, "nowiki"@, 0);
    lemma_without_element_len(a, "ref"@, 0);
    let b = if opts.strip_refs {
        without_element(a, "ref"@, 0)
    } else {
        a
    };
    lemma_without_templates_len(b, 0, 0);
    let c = if opts.strip_templates {
        without_templates(b, 0, 0)
    } else {
        b
    };
    lemma_citation_at(c, 0);
}

/// A link target is never empty and holds no pipe, and neither the marks that
/// open a link nor those that close one.
pub proof fn law_targets_are_plain(s: Seq<char>, i: int, k: int)
    requires
        0 <= i <= s.len(),
        0 <= k < link_targets(s, i).len(),
    ensures
        link_targets(s, i)[k].len() > 0,
        !link_targets(s, i)[k].contains('|'),
        !holds(link_targets(s, i)[k], link_open()),
        !holds(link_targets(s, i)[k], link_close()),
    decreases s.len() - i,
{
    lemma_found_at(s, link_open(), i);
    let open = found_at(s, link_open(), i)->0;
    lemma_found_at(s, link_close(), open + 2);
    let close = found_at(s, link_close(), open + 2)->0;
    lemma_found_at(s.take(close), link_open(), open + 2);
    match found_at(s.take(close), link_open(), open + 2) {
        Some(inner) => {
            law_targets_are_plain(s, inner, k);
        },
        None => {
            let body = s.subrange(open + 2, close);
            let target = before(body, '|');
            let rest = link_targets(s, close + 2);
            if target.len() > 0 && k == 0 {
                lemma_char_at(body, '|', 0);
                assert(link_targets(s, i)[0] == target);
                assert forall|j: int| 0 <= j < target.len() implies target[j] != '|' by {
                    assert(target[j] == body[j]);
                }
                assert forall|j: int| !#[trigger] occurs_at(target, link_open(), j) by {
                    if occurs_at(target, link_open(), j) {
                        let part = s.take(close).subrange(open + 2 + j, open + 4 + j);
                        assert(part =~= target.subrange(j, j + 2));
                        assert(occurs_at(s.take(close), link_open(), open + 2 + j));
                    }
                }
                assert forall|j: int| !#[trigger] occurs_at(target, link_close(), j) by {
                    if occurs_at(target, link_close(), j) {
                        let part = s.subrange(open + 2 + j, open + 4 + j);
                        assert(part =~= target.subrange(j, j + 2));
                        assert(occurs_at(s, link_close(), open + 2 + j));
                    }
                }
            } else {
                let j = if target.len() > 0 {
                    k - 1
                } else {
                    k
                };
                law_targets_are_plain(s, close + 2, j);
                assert(link_targets(s, i)[k] == rest[j]);
            }
        },
    }
}

/// No line that is left after cutting is the heading of a citation section.
pub proof fn law_citations_are_cut(s: Seq<char>, i: int, k: int)
    requires
        0 <= i <= s.len(),
        citation_at(s, i) == Some(k),
    ensures
        i <= k <= s.len(),
        is_citation_heading(s.subrange(k, line_end(s, k))),
        forall|j: int|
            #![trigger s.subrange(j, line_end(s, j))]
            i <= j < k && (j == i || s[j - 1] == '\n') ==> !is_citation_heading(
                s.subrange(j, line_end(s, j)),
            ),
    decreases s.len() - i,
{
    lemma_char_at(s, '\n', i);
    let e = line_end(s, i);
    if !is_citation_heading(s.subrange(i, e)) {
        law_citations_are_cut(s, e + 1, k);
        assert forall|j: int|
            #![trigger s.subrange(j, line_end(s, j))]
            i <= j < k && (j == i || s[j - 1] == '\n') implies !is_citation_heading(
            s.subrange(j, line_end(s, j)),
        ) by {
            if i < j <= e {
                assert(s[j - 1] != '\n');
            }
        }
    }
}

proof fn lemma_no_open_no_change(s: Seq<char>, i: int)
    requires
        0 <= i <= s.len(),
        !holds(s, comment_open()),
    ensures
        without_comments(s, i) == s.skip(i),
{
    lemma_found_at(s, comment_open(), i);
}

/// A text without comments, tags or section headings to remove stays as it is.
pub proof fn law_plain_text_is_kept(s: Seq<char>)
    requires
        !holds(s, comment_open()),
        !s.contains('<'),
        citation_at(s, 0) is None,
    ensures
        cleaned(
            s,
            CleanOpts { strip_templates: false, strip_refs: true, cut_citation_sections: true },
        ) == s,
{
    lemma_no_open_no_change(s, 0);
    assert(s.skip(0) =~= s);
    lemma_no_tag_no_change(s, "nowiki"@);
    lemma_no_tag_no_change(s, "ref"@);
}

proof fn lemma_no_tag_no_change(s: Seq<char>, tag: Seq<char>)
    requires
        !s.contains('<'),
    ensures
        without_element(s, tag, 0) == s,
{
    let low = ascii_lowered(s);
    let needle = seq!['<'] + tag;
    lemma_found_at(low, needle, 0);
    if found_at(low, needle, 0) is Some {
        let at = found_at(low, needle, 0)->0;
        assert(low.subrange(at, at + needle.len())[0] == needle[0]);
        assert(low[at] == '<');
        assert(ascii_lower(s[at]) == '<');
        assert(s[at] == '<');
        assert(s.contains('<'));
    }
    assert(s.skip(0) =~= s);
}

proof fn lemma_first_is(s: Seq<char>, pat: Seq<char>, from: int, at: int)
    requires
        0 <= from,
        stands_first(s, pat, from, at),
    ensures
        found_at(s, pat, from) == Some(at),
{
    lemma_found_at(s, pat, from);
    let f = found_at(s, pat, from);
    assert(f is Some);
    if f->0 < at {
        assert(!occurs_at(s, pat, f->0));
    }
}

proof fn lemma_first_char_is(s: Seq<char>, c: char, from: int, at: int)
    requires
        0 <= from <= at < s.len(),
        s[at] == c,
        forall|j: int| from <= j < at ==> #[trigger] s[j] != c,
    ensures
        char_at(s, c, from) == Some(at),
{
    lemma_char_at(s, c, from);
}

/// The letters that open a `nowiki` element.
spec fn nowiki_mark() -> Seq<char> {
    seq!['<', 'n', 'o', 'w', 'i', 'k', 'i']
}

proof fn lemma_no_nowiki_no_change(s: Seq<char>)
    requires
        !holds(ascii_lowered(s), seq!['<', 'n', 'o', 'w', 'i', 'k', 'i']),
    ensures
        without_element(s, "nowiki"@, 0) == s,
{
    reveal_strlit("nowiki");
    let low = ascii_lowered(s);
    let needle = seq!['<'] + "nowiki"@;
    assert(needle =~= nowiki_mark());
    lemma_found_at(low, needle, 0);
    assert(found_at(low, needle, 0) is None);
    assert(s.skip(0) =~= s);
}

/// With every option off, a text comes out as it went in, unless it holds a
/// comment or a `nowiki` element. Other tags, references among them, templates
/// and headings stay, and so do the links in them.
pub proof fn law_nothing_else_is_removed(s: Seq<char>, opts: CleanOpts)
    requires
        !opts.strip_refs,
        !opts.strip_templates,
        !opts.cut_citation_sections,
        !holds(s, seq!['<', '!', '-', '-']),
        !holds(ascii_lowered(s), seq!['<', 'n', 'o', 'w', 'i', 'k', 'i']),
    ensures
        cleaned(s, opts) == s,
        link_targets(cleaned(s, opts), 0) == link_targets(s, 0),
{
    lemma_no_open_no_change(s, 0);
    assert(s.skip(0) =~= s);
    lemma_no_nowiki_no_change(s);
}

/// Each option asks for one thing. Comments and `nowiki` elements always go;
/// references go only where they are to be stripped, templates only where they
/// are, and the end of the page only where it is to be cut.
pub proof fn law_each_option_does_one_thing(s: Seq<char>, opts: CleanOpts)
    requires
        !holds(s, seq!['<', '!', '-', '-']),
        !holds(ascii_lowered(s), seq!['<', 'n', 'o', 'w', 'i', 'k', 'i']),
    ensures
        opts.strip_refs && !opts.strip_templates && !opts.cut_citation_sections ==> cleaned(s, opts)
            == without_element(s, seq!['r', 'e', 'f'], 0),
        !opts.strip_refs && opts.strip_templates && !opts.cut_citation_sections ==> cleaned(s, opts)
            == without_templates(s, 0, 0),
        !opts.strip_refs && !opts.strip_templates && opts.cut_citation_sections ==> cleaned(s, opts)
            == s.take(cleaned(s, opts).len() as int) && (cleaned(s, opts).len() < s.len() ==> {
            let n = cleaned(s, opts).len() as int;
            (n == 0 || s[n - 1] == '\n') && is_citation_heading(s.subrange(n, line_end(s, n)))
        }),
{
    lemma_no_open_no_change(s, 0);
    assert(s.skip(0) =~= s);
    lemma_no_nowiki_no_change(s);
    reveal_strlit("ref");
    assert("ref"@ =~= seq!['r', 'e', 'f']);
    lemma_citation_starts_line(s, 0);
    if citation_at(s, 0) is None {
        assert(s.take(s.len() as int) =~= s);
    }
}

proof fn lemma_citation_starts_line(s: Seq<char>, i: int)
    requires
        0 <= i <= s.len(),
        i == 0 || s[i - 1] == '\n',
    ensures
        match citation_at(s, i) {
            Some(n) => {
                &&& i <= n <= s.len()
                &&& n == 0 || s[n - 1] == '\n'
                &&& is_citation_heading(s.subrange(n, line_end(s, n)))
            },
            None => true,
        },
    decreases s.len() - i,
{
    lemma_char_at(s, '\n', i);
    let e = line_end(s, i);
    if !is_citation_heading(s.subrange(i, e)) && e < s.len() {
        lemma_citation_starts_line(s, e + 1);
    }
}

/// A text with a link to `target` inside a reference, and no link before it.
pub open spec fn link_in_reference(
    front: Seq<char>,
    attrs: Seq<char>,
    target: Seq<char>,
    back: Seq<char>,
) -> Seq<char> {
    front + seq!['<', 'r', 'e', 'f'] + attrs + seq!['>', '[', '['] + target + seq![']', ']'] + back
}

/// A reference is no reason to drop a link. Unless references are to be
/// stripped, a link inside one is a link of the page, provided that nothing else
/// takes it: no comment, no `nowiki` element, no template that is to go, and no
/// heading that ends the page.
#[verifier::rlimit(60)]
pub proof fn law_links_in_references_count(
    front: Seq<char>,
    attrs: Seq<char>,
    target: Seq<char>,
    back: Seq<char>,
    opts: CleanOpts,
)
    requires
        !opts.strip_refs,
        !front.contains('['),
        !attrs.contains('['),
        target.len() > 0,
        !target.contains('['),
        !target.contains(']'),
        !target.contains('|'),
        ({
            let s = link_in_reference(front, attrs, target, back);
            &&& !holds(s, seq!['<', '!', '-', '-'])
            &&& !holds(ascii_lowered(s), seq!['<', 'n', 'o', 'w', 'i', 'k', 'i'])
            &&& opts.strip_templates ==> !s.contains('{')
            &&& opts.cut_citation_sections ==> citation_at(s, 0) is None
        }),
    ensures
        cleaned(link_in_reference(front, attrs, target, back), opts) == link_in_reference(
            front,
            attrs,
            target,
            back,
        ),
        link_targets(
            cleaned(link_in_reference(front, attrs, target, back), opts),
            0,
        ).contains(target),
{
    let s = link_in_reference(front, attrs, target, back);
    lemma_no_open_no_change(s, 0);
    assert(s.skip(0) =~= s);
    lemma_no_nowiki_no_change(s);
    if opts.strip_templates {
        law_text_without_templates_stays(s, 0, 0);
    }
    let p = front.len() as int + 4 + attrs.len() + 1;
    let q = p + 2 + target.len();
    let open = seq!['[', '['];
    let close = seq![']', ']'];
    let t = s.take(q);
    assert(s.subrange(p, p + 2) =~= open);
    assert(s.subrange(q, q + 2) =~= close);
    assert forall|j: int| 0 <= j < p implies !#[trigger] occurs_at(s, open, j) by {
        assert(s[j] != '[') by {
            if j < front.len() {
                assert(s[j] == front[j]);
            } else if front.len() + 4 <= j < front.len() + 4 + attrs.len() {
                assert(s[j] == attrs[j - front.len() - 4]);
            }
        }
        if occurs_at(s, open, j) {
            assert(s.subrange(j, j + 2)[0] == s[j]);
        }
    }
    assert forall|j: int| p + 2 <= j < q implies #[trigger] s[j] != '[' && s[j] != ']' by {
        assert(s[j] == target[j - p - 2]);
    }
    assert forall|j: int| p + 2 <= j < q implies !#[trigger] occurs_at(s, close, j) by {
        if occurs_at(s, close, j) {
            assert(s.subrange(j, j + 2)[0] == s[j]);
        }
    }
    assert forall|j: int| p + 2 <= j implies !#[trigger] occurs_at(t, open, j) by {
        if occurs_at(t, open, j) {
            assert(t.subrange(j, j + 2)[0] == s[j]);
        }
    }
    law_links_are_read(s, 0, p, q);
    let inside = s.subrange(p + 2, q);
    assert(inside =~= target);
    assert(inside.take(target.len() as int) =~= target);
    let rest = link_targets(s, q + 2);
    assert((seq![target] + rest)[0] == target);
}

/// The first pair of brackets with no pair inside is a link, and its target is
/// what stands before the first bar; the next link is looked for behind it.
#[verifier::rlimit(60)]
pub proof fn law_links_are_read(s: Seq<char>, i: int, p: int, q: int)
    requires
        0 <= i,
        stands_first(s, seq!['[', '['], i, p),
        stands_first(s, seq![']', ']'], p + 2, q),
        stands_nowhere(s.take(q), seq!['[', '['], p + 2),
    ensures
        ({
            let inside = s.subrange(p + 2, q);
            forall|bar: int|
                0 <= bar <= inside.len() && (bar == inside.len() || inside[bar] == '|') && (
                forall|k: int| 0 <= k < bar ==> #[trigger] inside[k] != '|')
                    ==> link_targets(s, i) == (if bar > 0 {
                    seq![#[trigger] inside.take(bar)] + link_targets(s, q + 2)
                } else {
                    link_targets(s, q + 2)
                })
        }),
{
    let inside = s.subrange(p + 2, q);
    lemma_link_is_read(s, i, p, q);
    assert forall|bar: int|
        0 <= bar <= inside.len() && (bar == inside.len() || inside[bar] == '|') && (forall|k: int|
            0 <= k < bar ==> #[trigger] inside[k] != '|') implies link_targets(s, i) == (if bar > 0 {
        seq![#[trigger] inside.take(bar)] + link_targets(s, q + 2)
    } else {
        link_targets(s, q + 2)
    }) by {
        lemma_before_bar(inside, bar);
    }
}

proof fn lemma_before_bar(inside: Seq<char>, bar: int)
    requires
        0 <= bar <= inside.len(),
        bar == inside.len() || inside[bar] == '|',
        forall|k: int| 0 <= k < bar ==> #[trigger] inside[k] != '|',
    ensures
        before(inside, '|') == inside.take(bar),
{
    lemma_char_at(inside, '|', 0);
    assert(inside.take(inside.len() as int) =~= inside);
}

proof fn lemma_link_is_read(s: Seq<char>, i: int, p: int, q: int)
    requires
        0 <= i,
        stands_first(s, seq!['[', '['], i, p),
        stands_first(s, seq![']', ']'], p + 2, q),
        stands_nowhere(s.take(q), seq!['[', '['], p + 2),
    ensures
        ({
            let target = before(s.subrange(p + 2, q), '|');
            let rest = link_targets(s, q + 2);
            link_targets(s, i) == (if target.len() > 0 {
                seq![target] + rest
            } else {
                rest
            })
        }),
{
    lemma_first_is(s, seq!['[', '['], i, p);
    lemma_first_is(s, seq![']', ']'], p + 2, q);
    lemma_found_at(s.take(q), seq!['[', '['], p + 2);
}

/// Brackets that open inside brackets come first: of links in a link the inner
/// ones are read. Without two brackets that open, or without two that close
/// them, there is no link.
pub proof fn law_inner_links_are_read(s: Seq<char>, i: int, p: int, q: int, inner: int)
    requires
        0 <= i,
        inner + 2 <= q,
        stands_first(s, seq!['[', '['], i, p),
        stands_first(s, seq!['[', '['], p + 2, inner),
        stands_first(s, seq![']', ']'], p + 2, q),
    ensures
        link_targets(s, i) == link_targets(s, inner),
{
    lemma_first_is(s, seq!['[', '['], i, p);
    lemma_first_is(s, seq![']', ']'], p + 2, q);
    let t = s.take(q);
    let open = seq!['[', '['];
    assert(t.subrange(inner, inner + 2) =~= s.subrange(inner, inner + 2));
    assert forall|j: int| p + 2 <= j < inner implies !#[trigger] occurs_at(t, open, j) by {
        assert(!occurs_at(s, open, j));
        assert(t.subrange(j, j + 2) =~= s.subrange(j, j + 2));
    }
    lemma_first_is(t, seq!['[', '['], p + 2, inner);
}

/// Without brackets that open there is no link, and none either where nothing
/// closes the first.
pub proof fn law_open_brackets_are_no_link(s: Seq<char>, i: int)
    requires
        0 <= i,
    ensures
        stands_nowhere(s, seq!['[', '['], i) ==> link_targets(s, i).len() == 0,
        stands_nowhere(s, seq![']', ']'], i) ==> link_targets(s, i).len() == 0,
{
    lemma_found_at(s, seq!['[', '['], i);
    if found_at(s, seq!['[', '['], i) is Some {
        lemma_found_at(s, seq![']', ']'], found_at(s, seq!['[', '['], i)->0 + 2);
    }
}

/// A comment goes from its opening mark to the end of the first closing mark
/// behind it; what stands before it stays, and what stands behind it is read
/// on. A comment that nothing closes takes the rest.
pub proof fn law_comments_go(s: Seq<char>, i: int, p: int)
    requires
        0 <= i,
        stands_first(s, seq!['<', '!', '-', '-'], i, p),
    ensures
        forall|q: int|
            stands_first(s, seq!['-', '-', '>'], p + 4, q) ==> without_comments(s, i)
                == s.subrange(i, p) + #[trigger] without_comments(s, q + 3),
        stands_nowhere(s, seq!['-', '-', '>'], p + 4) ==> without_comments(s, i) == s.subrange(
            i,
            p,
        ),
{
    lemma_first_is(s, seq!['<', '!', '-', '-'], i, p);
    assert forall|q: int| stands_first(s, seq!['-', '-', '>'], p + 4, q) implies without_comments(
        s,
        i,
    ) == s.subrange(i, p) + #[trigger] without_comments(s, q + 3) by {
        lemma_first_is(s, seq!['-', '-', '>'], p + 4, q);
    }
    lemma_found_at(s, seq!['-', '-', '>'], p + 4);
    assert(s.subrange(i, p) + Seq::<char>::empty() =~= s.subrange(i, p));
}

/// A tag opens where its name stands behind a bracket, in capitals or not, and
/// white space, a slash or the closing bracket follows.
pub open spec fn opens_tag(s: Seq<char>, tag: Seq<char>, p: int) -> bool {
    &&& 0 <= p && p + 1 + tag.len() < s.len()
    &&& s[p] == '<'
    &&& forall|k: int| 0 <= k < tag.len() ==> ascii_lower(s[p + 1 + k]) == #[trigger] tag[k]
    &&& ({
        let c = s[p + 1 + tag.len()];
        c == ' ' || c == '\t' || c == '\n' || c == '\r' || c == '\u{c}' || c == '>' || c == '/'
    })
}

/// What the tag that closes an element begins with.
pub open spec fn closing_tag(tag: Seq<char>) -> Seq<char> {
    seq!['<', '/'] + tag
}

proof fn lemma_first_tag_is(s: Seq<char>, tag: Seq<char>, i: int, p: int)
    requires
        0 <= i <= p,
        opens_tag(s, tag, p),
        forall|j: int| i <= j < p ==> !#[trigger] opens_tag(s, tag, j),
    ensures
        open_tag_at(ascii_lowered(s), tag, i) == Some(p),
    decreases p - i,
{
    let low = ascii_lowered(s);
    let needle = seq!['<'] + tag;
    lemma_tag_reads(s, tag, p);
    lemma_found_at(low, needle, i);
    let at = found_at(low, needle, i);
    assert(at is Some && at->0 <= p);
    if at->0 < p {
        let a = at->0;
        if ends_tag_name(low[a + needle.len()]) {
            lemma_reads_tag(s, tag, a);
            assert(!opens_tag(s, tag, a));
        }
        lemma_first_tag_is(s, tag, a + 1, p);
    }
}

proof fn lemma_tag_reads(s: Seq<char>, tag: Seq<char>, p: int)
    requires
        opens_tag(s, tag, p),
    ensures
        occurs_at(ascii_lowered(s), seq!['<'] + tag, p),
        ends_tag_name(ascii_lowered(s)[p + 1 + tag.len()]),
{
    let low = ascii_lowered(s);
    let needle = seq!['<'] + tag;
    assert forall|k: int| 0 <= k < needle.len() implies low[p + k] == #[trigger] needle[k] by {
        if k > 0 {
            assert(needle[k] == tag[k - 1]);
            assert(ascii_lower(s[p + 1 + (k - 1)]) == tag[k - 1]);
        }
    }
    assert(low.subrange(p, p + needle.len()) =~= needle);
}

proof fn lemma_reads_tag(s: Seq<char>, tag: Seq<char>, p: int)
    requires
        0 <= p,
        p + 1 + tag.len() < s.len(),
        occurs_at(ascii_lowered(s), seq!['<'] + tag, p),
        ends_tag_name(ascii_lowered(s)[p + 1 + tag.len()]),
    ensures
        opens_tag(s, tag, p),
{
    let low = ascii_lowered(s);
    let needle = seq!['<'] + tag;
    let sub = low.subrange(p, p + needle.len());
    assert(sub[0] == needle[0]);
    assert(low[p] == ascii_lower(s[p]));
    assert forall|k: int| 0 <= k < tag.len() implies ascii_lower(s[p + 1 + k]) == #[trigger] tag[k] by {
        assert(sub[k + 1] == needle[k + 1]);
    }
}

/// An element goes from its opening tag to the end of the first closing tag
/// behind it; one whose opening tag ends in a slash goes with that tag. What
/// stands before it stays, and what stands behind it is read on.
pub proof fn law_elements_go(s: Seq<char>, tag: Seq<char>, i: int, p: int, gt: int)
    requires
        0 <= i <= p < gt < s.len(),
        opens_tag(s, tag, p),
        forall|j: int| i <= j < p ==> !#[trigger] opens_tag(s, tag, j),
        s[gt] == '>',
        forall|j: int| p <= j < gt ==> #[trigger] s[j] != '>',
    ensures
        s[gt - 1] == '/' ==> without_element(s, tag, i) == s.subrange(i, p) + without_element(
            s,
            tag,
            gt + 1,
        ),
        s[gt - 1] != '/' && !is_ascii_space(s[gt - 1]) ==> forall|c: int, e: int|
            gt < c < e < s.len() && #[trigger] stands_first(
                ascii_lowered(s),
                closing_tag(tag),
                gt + 1,
                c,
            ) && #[trigger] s[e] == '>' && (forall|j: int| c <= j < e ==> #[trigger] s[j] != '>')
                ==> without_element(s, tag, i) == s.subrange(i, p) + without_element(s, tag, e + 1),
        s[gt - 1] != '/' && !is_ascii_space(s[gt - 1]) && stands_nowhere(
            ascii_lowered(s),
            closing_tag(tag),
            gt + 1,
        ) ==> without_element(s, tag, i) == s.subrange(i, p),
{
    lemma_first_tag_is(s, tag, i, p);
    lemma_first_char_is(s, '>', p, gt);
    let t = s.take(gt);
    assert(t.last() == s[gt - 1]);
    assert(!is_ascii_space(s[gt - 1]) ==> ascii_trimmed_end(t) == t);
    let low = ascii_lowered(s);
    let close = closing_tag(tag);
    assert forall|c: int, e: int|
        gt < c < e < s.len() && #[trigger] stands_first(low, close, gt + 1, c) && #[trigger] s[e]
            == '>' && (forall|j: int| c <= j < e ==> #[trigger] s[j] != '>') && s[gt - 1] != '/'
            && !is_ascii_space(s[gt - 1]) implies without_element(s, tag, i) == s.subrange(i, p)
        + without_element(s, tag, e + 1) by {
        lemma_first_is(low, close, gt + 1, c);
        lemma_first_char_is(s, '>', c, e);
    }
    lemma_found_at(low, close, gt + 1);
    assert(s.subrange(i, p) + Seq::<char>::empty() =~= s.subrange(i, p));
}

/// A text without the tag keeps everything.
pub proof fn law_other_elements_stay(s: Seq<char>, tag: Seq<char>, i: int)
    requires
        0 <= i <= s.len(),
        forall|j: int| i <= j ==> !#[trigger] opens_tag(s, tag, j),
    ensures
        without_element(s, tag, i) == s.skip(i),
{
    lemma_no_such_tag(s, tag, i);
}

proof fn lemma_no_such_tag(s: Seq<char>, tag: Seq<char>, i: int)
    requires
        0 <= i,
        forall|j: int| i <= j ==> !#[trigger] opens_tag(s, tag, j),
    ensures
        open_tag_at(ascii_lowered(s), tag, i) is None,
    decreases s.len() + 1 - i,
{
    let low = ascii_lowered(s);
    let needle = seq!['<'] + tag;
    lemma_found_at(low, needle, i);
    let at = found_at(low, needle, i);
    if at is Some && at->0 + needle.len() < low.len() {
        let a = at->0;
        if ends_tag_name(low[a + needle.len()]) {
            lemma_reads_tag(s, tag, a);
            assert(!opens_tag(s, tag, a));
        }
        lemma_no_such_tag(s, tag, a + 1);
    }
}

/// A template goes with its braces, together with the templates in it: from
/// the braces that open it to those that close as many as were opened.
pub proof fn law_templates_go(s: Seq<char>, i: int, depth: nat, p: int)
    requires
        0 <= i <= p,
        p + 1 < s.len(),
        s[p] == s[p + 1],
        s[p] == '{' || s[p] == '}' && depth > 0,
        forall|j: int| i <= j < p ==> (#[trigger] s[j]) != '{' && (s[j] != '}' || depth == 0),
    ensures
        without_templates(s, i, depth) == (if depth == 0 {
            s.subrange(i, p)
        } else {
            seq![]
        }) + without_templates(
            s,
            p + 2,
            if s[p] == '{' {
                depth + 1
            } else {
                (depth - 1) as nat
            },
        ),
    decreases p - i,
{
    if i < p {
        law_templates_go(s, i + 1, depth, p);
        assert(s[i] != '{');
        if depth == 0 {
            assert(s.subrange(i, p) =~= seq![s[i]] + s.subrange(i + 1, p));
            let rest = without_templates(s, p + 2, depth + 1);
            assert(seq![s[i]] + (s.subrange(i + 1, p) + rest) =~= s.subrange(i, p) + rest);
        }
    } else {
        let rest = without_templates(
            s,
            p + 2,
            if s[p] == '{' {
                depth + 1
            } else {
                (depth - 1) as nat
            },
        );
        assert(s.subrange(i, p) =~= Seq::<char>::empty());
        assert(Seq::<char>::empty() + rest =~= rest);
    }
}

/// A text without two opening braces in a row keeps everything, closing braces
/// too. A template that is not closed takes the rest.
pub proof fn law_text_without_templates_stays(s: Seq<char>, i: int, depth: nat)
    requires
        0 <= i <= s.len(),
        forall|j: int|
            i <= j < s.len() - 1 && #[trigger] s[j] == '{' ==> s[j + 1] != '{',
    ensures
        depth == 0 ==> without_templates(s, i, depth) == s.skip(i),
        depth > 0 && (forall|j: int| i <= j < s.len() ==> #[trigger] s[j] != '}')
            ==> without_templates(s, i, depth) == Seq::<char>::empty(),
    decreases s.len() - i,
{
    if i + 1 < s.len() {
        law_text_without_templates_stays(s, i + 1, depth);
        assert(s[i] == '{' ==> s[i + 1] != '{');
        assert(seq![s[i]] + s.skip(i + 1) =~= s.skip(i));
    }
}
/// Nothing but spaces and tabs.
pub open spec fn all_gaps(s: Seq<char>) -> bool {
    forall|i: int| 0 <= i < s.len() ==> #[trigger] s[i] == ' ' || s[i] == '\t'
}

/// Nothing but equals signs.
pub open spec fn all_equals(s: Seq<char>) -> bool {
    forall|i: int| 0 <= i < s.len() ==> #[trigger] s[i] == '='
}

proof fn lemma_gaps_then(g: Seq<char>, t: Seq<char>)
    requires
        all_gaps(g),
        t.len() > 0 ==> !is_gap(t[0]),
    ensures
        gaps_in_front(g + t) == g.len(),
    decreases g.len(),
{
    if g.len() > 0 {
        lemma_gaps_then(g.drop_first(), t);
        assert((g + t).drop_first() =~= g.drop_first() + t);
        assert(g[0] == ' ' || g[0] == '\t');
    } else {
        assert(g + t =~= t);
    }
}

proof fn lemma_then_gaps(t: Seq<char>, g: Seq<char>)
    requires
        all_gaps(g),
        t.len() > 0 ==> !is_gap(t.last()),
    ensures
        gaps_at_end(t + g) == g.len(),
    decreases g.len(),
{
    if g.len() > 0 {
        lemma_then_gaps(t, g.drop_last());
        assert((t + g).drop_last() =~= t + g.drop_last());
        assert(g[g.len() - 1] == ' ' || g[g.len() - 1] == '\t');
    } else {
        assert(t + g =~= t);
    }
}

proof fn lemma_equals_then(a: Seq<char>, t: Seq<char>)
    requires
        all_equals(a),
        t.len() > 0 ==> t[0] != '=',
    ensures
        equals_in_front(a + t) == a.len(),
    decreases a.len(),
{
    if a.len() > 0 {
        lemma_equals_then(a.drop_first(), t);
        assert((a + t).drop_first() =~= a.drop_first() + t);
        assert(a[0] == '=');
    } else {
        assert(a + t =~= t);
    }
}

proof fn lemma_then_equals(t: Seq<char>, a: Seq<char>)
    requires
        all_equals(a),
        t.len() > 0 ==> t.last() != '=',
    ensures
        equals_at_end(t + a) == a.len(),
    decreases a.len(),
{
    if a.len() > 0 {
        lemma_then_equals(t, a.drop_last());
        assert((t + a).drop_last() =~= t + a.drop_last());
        assert(a[a.len() - 1] == '=');
    } else {
        assert(t + a =~= t);
    }
}

proof fn lemma_ungapped_is(g: Seq<char>, t: Seq<char>, h: Seq<char>)
    requires
        all_gaps(g),
        all_gaps(h),
        t.len() > 0,
        !is_gap(t[0]),
        !is_gap(t.last()),
    ensures
        ungapped(g + t + h) == t,
{
    assert(g + t + h =~= g + (t + h));
    assert((t + h)[0] == t[0]);
    lemma_gaps_then(g, t + h);
    assert((g + (t + h)).skip(g.len() as int) =~= t + h);
    lemma_then_gaps(t, h);
    assert((t + h).take(t.len() as int) =~= t);
}

/// A heading ends the article if its title, in capitals or not, is one of the
/// eight that citations stand under, whatever its level and whatever spaces and
/// tabs stand around. A heading with another title does not.
#[verifier::rlimit(60)]
pub proof fn law_citation_headings(
    gaps: (Seq<char>, Seq<char>, Seq<char>, Seq<char>),
    left: Seq<char>,
    right: Seq<char>,
    title: Seq<char>,
)
    requires
        all_gaps(gaps.0),
        all_gaps(gaps.1),
        all_gaps(gaps.2),
        all_gaps(gaps.3),
        all_equals(left),
        all_equals(right),
        left.len() > 0,
        right.len() > 0,
        title.len() > 0,
        title[0] != ' ' && title[0] != '\t' && title[0] != '=',
        title.last() != ' ' && title.last() != '\t' && title.last() != '=',
        forall|i: int| 0 <= i < title.len() ==> (#[trigger] title[i]) as u32 <= 127,
    ensures
        is_citation_heading(
            gaps.0 + (left + (gaps.1 + title + gaps.2) + right) + gaps.3,
        ) <==> left.len() >= 2 && right.len() >= 2 && ({
            let low = ascii_lowered(title);
            ||| low == "references"@
            ||| low == "external links"@
            ||| low == "further reading"@
            ||| low == "notes"@
            ||| low == "bibliography"@
            ||| low == "sources"@
            ||| low == "citations"@
            ||| low == "footnotes"@
        }),
{
    lemma_heading_parts(gaps, left, right, title);
    assert(folded_all(title) =~= ascii_lowered(title));
    lemma_citation_titles(ascii_lowered(title));
}

proof fn lemma_citation_titles(low: Seq<char>)
    ensures
        among(low, citation_titles()) <==> {
            ||| low == "references"@
            ||| low == "external links"@
            ||| low == "further reading"@
            ||| low == "notes"@
            ||| low == "bibliography"@
            ||| low == "sources"@
            ||| low == "citations"@
            ||| low == "footnotes"@
        },
{
    let names = citation_titles();
    assert(names[0] == "references");
    assert(names[1] == "external links");
    assert(names[2] == "further reading");
    assert(names[3] == "notes");
    assert(names[4] == "bibliography");
    assert(names[5] == "sources");
    assert(names[6] == "citations");
    assert(names[7] == "footnotes");
}

proof fn lemma_heading_parts(
    gaps: (Seq<char>, Seq<char>, Seq<char>, Seq<char>),
    left: Seq<char>,
    right: Seq<char>,
    title: Seq<char>,
)
    requires
        all_gaps(gaps.0),
        all_gaps(gaps.1),
        all_gaps(gaps.2),
        all_gaps(gaps.3),
        all_equals(left),
        all_equals(right),
        left.len() > 0,
        right.len() > 0,
        title.len() > 0,
        title[0] != ' ' && title[0] != '\t' && title[0] != '=',
        title.last() != ' ' && title.last() != '\t' && title.last() != '=',
    ensures
        is_citation_heading(gaps.0 + (left + (gaps.1 + title + gaps.2) + right) + gaps.3)
            <==> left.len() >= 2 && right.len() >= 2 && among(folded_all(title), citation_titles()),
{
    let mid = gaps.1 + title + gaps.2;
    let t = left + mid + right;
    let line = gaps.0 + t + gaps.3;
    assert(t[0] == left[0]);
    assert(t.last() == right[right.len() - 1]);
    lemma_ungapped_is(gaps.0, t, gaps.3);
    assert(t =~= left + (mid + right));
    assert((mid + right)[0] == mid[0]);
    assert(mid[0] != '=') by {
        if gaps.1.len() > 0 {
            assert(mid[0] == gaps.1[0]);
        } else {
            assert(mid[0] == title[0]);
        }
    }
    lemma_equals_then(left, mid + right);
    let u = t.skip(left.len() as int);
    assert(u =~= mid + right);
    assert(mid.last() != '=') by {
        if gaps.2.len() > 0 {
            assert(mid.last() == gaps.2[gaps.2.len() - 1]);
        } else {
            assert(mid.last() == title.last());
        }
    }
    lemma_then_equals(mid, right);
    assert(u.take(u.len() - right.len()) =~= mid);
    lemma_ungapped_is(gaps.1, title, gaps.2);
}

/// A heading that ends the article has two equals signs in a row on its line.
pub proof fn law_headings_have_equals_signs(line: Seq<char>)
    requires
        !holds(line, seq!['=', '=']),
    ensures
        !is_citation_heading(line),
{
    let n = gaps_in_front(line);
    lemma_gaps_bounds(line);
    lemma_gaps_bounds(line.skip(n));
    let t = ungapped(line);
    if is_citation_heading(line) {
        let a = equals_in_front(t);
        assert(t[0] == '=');
        let rest = t.drop_first();
        assert(equals_in_front(rest) >= 1);
        assert(rest.len() > 0 && rest[0] == '=');
        assert(t[1] == rest[0]);
        assert(line.subrange(n, n + 2) =~= seq!['=', '=']);
        assert(occurs_at(line, seq!['=', '='], n));
    }
}

proof fn lemma_gaps_bounds(line: Seq<char>)
    ensures
        0 <= gaps_in_front(line) <= line.len(),
        0 <= gaps_at_end(line) <= line.len(),
    decreases line.len(),
{
    if line.len() > 0 {
        lemma_gaps_bounds(line.drop_first());
        lemma_gaps_bounds(line.drop_last());
    }
}
/// An element of a text, with a plain opening tag.
pub open spec fn element(tag: Seq<char>, body: Seq<char>) -> Seq<char> {
    seq!['<'] + tag + seq!['>'] + body + (seq!['<', '/'] + tag + seq!['>'])
}

/// A name of nothing but letters from a to z.
pub open spec fn is_tag_name(tag: Seq<char>) -> bool {
    tag.len() > 0 && forall|k: int| 0 <= k < tag.len() ==> 'a' <= #[trigger] tag[k] <= 'z'
}

proof fn lemma_element_goes(front: Seq<char>, tag: Seq<char>, body: Seq<char>, back: Seq<char>)
    requires
        is_tag_name(tag),
        !front.contains('<'),
        !body.contains('<'),
        !back.contains('<'),
    ensures
        without_element(front + element(tag, body) + back, tag, 0) == front + back,
{
    let s = front + element(tag, body) + back;
    let n = tag.len() as int;
    let p = front.len() as int;
    let gt = p + 1 + n;
    let c = gt + 1 + body.len();
    let e = c + 2 + n;
    let low = ascii_lowered(s);
    assert(s[p] == '<' && s[gt] == '>' && s[c] == '<' && s[c + 1] == '/' && s[e] == '>');
    assert forall|k: int| 0 <= k < n implies s[p + 1 + k] == #[trigger] tag[k] && s[c + 2 + k]
        == tag[k] by {}
    assert forall|k: int| 0 <= k < n implies ascii_lower(s[p + 1 + k]) == #[trigger] tag[k] by {
        assert('a' <= tag[k] <= 'z');
    }
    assert(opens_tag(s, tag, p));
    assert forall|j: int| 0 <= j && j != p && j != c && j < s.len() implies #[trigger] s[j] != '<' by {
        if j < p {
            assert(s[j] == front[j]);
        } else if p < j < gt {
            assert(s[j] == tag[j - p - 1]);
        } else if gt < j < c {
            assert(s[j] == body[j - gt - 1]);
        } else if c + 1 < j < e {
            assert(s[j] == tag[j - c - 2]);
        } else if j > e {
            assert(s[j] == back[j - e - 1]);
        }
    }
    assert forall|j: int| p <= j < gt implies #[trigger] s[j] != '>' by {
        if p < j {
            assert(s[j] == tag[j - p - 1]);
        }
    }
    assert forall|j: int| c <= j < e implies #[trigger] s[j] != '>' by {
        if c + 1 < j {
            assert(s[j] == tag[j - c - 2]);
        }
    }
    let close = closing_tag(tag);
    assert(low.subrange(c, c + close.len()) =~= close) by {
        assert forall|k: int| 0 <= k < close.len() implies low[c + k] == #[trigger] close[k] by {
            if k >= 2 {
                assert(close[k] == tag[k - 2]);
                assert(s[c + 2 + (k - 2)] == tag[k - 2]);
                assert('a' <= tag[k - 2] <= 'z');
            }
        }
    }
    assert forall|j: int| gt + 1 <= j < c implies !#[trigger] occurs_at(low, close, j) by {
        if occurs_at(low, close, j) {
            assert(low.subrange(j, j + close.len())[0] == low[j]);
            assert(close[0] == '<');
            assert(low[j] == ascii_lower(s[j]));
        }
    }
    assert(stands_first(low, close, gt + 1, c));
    assert(s[gt - 1] == tag[n - 1]);
    law_elements_go(s, tag, 0, p, gt);
    law_other_elements_stay(s, tag, e + 1);
    assert(s.subrange(0, p) =~= front);
    assert(s.skip(e + 1) =~= back);
}

proof fn lemma_no_such_element(s: Seq<char>, tag: Seq<char>)
    requires
        forall|j: int| 0 <= j ==> !#[trigger] opens_tag(s, tag, j),
    ensures
        without_element(s, tag, 0) == s,
{
    law_other_elements_stay(s, tag, 0);
    assert(s.skip(0) =~= s);
}

proof fn lemma_no_bracket(s: Seq<char>, tag: Seq<char>)
    requires
        !s.contains('<'),
    ensures
        without_comments(s, 0) == s,
        without_element(s, tag, 0) == s,
{
    assert forall|j: int| !#[trigger] occurs_at(s, comment_open(), j) by {
        if occurs_at(s, comment_open(), j) {
            assert(s.subrange(j, j + 4)[0] == s[j]);
            assert(comment_open()[0] == '<');
        }
    }
    lemma_no_open_no_change(s, 0);
    assert(s.skip(0) =~= s);
    lemma_no_such_element(s, tag);
}

/// The text of an element that is no comment holds none, and has no other tag
/// than its own.
proof fn lemma_only_its_tag(
    front: Seq<char>,
    tag: Seq<char>,
    body: Seq<char>,
    back: Seq<char>,
    other: Seq<char>,
)
    requires
        is_tag_name(tag),
        is_tag_name(other),
        tag[0] != other[0],
        !front.contains('<'),
        !body.contains('<'),
        !back.contains('<'),
    ensures
        without_comments(front + element(tag, body) + back, 0) == front + element(tag, body) + back,
        without_element(front + element(tag, body) + back, other, 0) == front + element(tag, body)
            + back,
{
    let s = front + element(tag, body) + back;
    let n = tag.len() as int;
    let p = front.len() as int;
    let gt = p + 1 + n;
    let c = gt + 1 + body.len();
    let e = c + 2 + n;
    assert(s[p + 1] == tag[0] && s[c + 1] == '/');
    assert('a' <= tag[0] <= 'z');
    assert forall|j: int| 0 <= j < s.len() && #[trigger] s[j] == '<' implies s[j + 1] == tag[0]
        || s[j + 1] == '/' by {
        if j < p {
            assert(s[j] == front[j]);
        } else if p < j < gt {
            assert(s[j] == tag[j - p - 1]);
            assert('a' <= tag[j - p - 1] <= 'z');
        } else if gt < j < c {
            assert(s[j] == body[j - gt - 1]);
        } else if c + 1 < j < e {
            assert(s[j] == tag[j - c - 2]);
            assert('a' <= tag[j - c - 2] <= 'z');
        } else if j > e {
            assert(s[j] == back[j - e - 1]);
        }
    }
    assert forall|j: int| !#[trigger] occurs_at(s, comment_open(), j) by {
        if occurs_at(s, comment_open(), j) {
            assert(s.subrange(j, j + 4)[0] == s[j]);
            assert(s.subrange(j, j + 4)[1] == s[j + 1]);
            assert(comment_open()[0] == '<' && comment_open()[1] == '!');
        }
    }
    lemma_no_open_no_change(s, 0);
    assert(s.skip(0) =~= s);
    assert forall|j: int| 0 <= j implies !#[trigger] opens_tag(s, other, j) by {
        if opens_tag(s, other, j) {
            assert(s[j] == '<');
            assert(ascii_lower(s[j + 1 + 0]) == other[0]);
            assert('a' <= other[0] <= 'z');
        }
    }
    lemma_no_such_element(s, other);
}

proof fn lemma_joined_has_no_bracket(a: Seq<char>, b: Seq<char>)
    requires
        !a.contains('<'),
        !b.contains('<'),
    ensures
        !(a + b).contains('<'),
{
    let s = a + b;
    if s.contains('<') {
        let i = choose|i: int| 0 <= i < s.len() && s[i] == '<';
        if i < a.len() {
            assert(a[i] == '<');
        } else {
            assert(b[i - a.len()] == '<');
        }
    }
}

/// What a `nowiki` element holds is no part of the page, whatever the options
/// are.
#[verifier::rlimit(60)]
pub proof fn law_nowiki_elements_always_go(
    front: Seq<char>,
    body: Seq<char>,
    back: Seq<char>,
    opts: CleanOpts,
)
    requires
        !front.contains('<'),
        !body.contains('<'),
        !back.contains('<'),
    ensures
        cleaned(front + element(seq!['n', 'o', 'w', 'i', 'k', 'i'], body) + back, opts) == cleaned(
            front + back,
            opts,
        ),
{
    reveal_strlit("nowiki");
    reveal_strlit("ref");
    let tag = seq!['n', 'o', 'w', 'i', 'k', 'i'];
    assert("nowiki"@ =~= tag);
    assert("ref"@[0] == 'r');
    lemma_only_its_tag(front, tag, body, back, "ref"@);
    lemma_element_goes(front, tag, body, back);
    lemma_joined_has_no_bracket(front, back);
    lemma_no_bracket(front + back, tag);
}

/// What a comment holds is no part of the page, whatever the options are.
pub proof fn law_comments_always_go(
    front: Seq<char>,
    body: Seq<char>,
    back: Seq<char>,
    opts: CleanOpts,
)
    requires
        !front.contains('<'),
        !body.contains('>'),
        !back.contains('<'),
    ensures
        cleaned(
            front + seq!['<', '!', '-', '-'] + body + seq!['-', '-', '>'] + back,
            opts,
        ) == cleaned(front + back, opts),
{
    let open = seq!['<', '!', '-', '-'];
    let close = seq!['-', '-', '>'];
    let s = front + open + body + close + back;
    let p = front.len() as int;
    let q = p + 4 + body.len();
    assert(s.subrange(p, p + 4) =~= open);
    assert(s.subrange(q, q + 3) =~= close);
    assert forall|j: int| 0 <= j < p implies !#[trigger] occurs_at(s, open, j) by {
        if occurs_at(s, open, j) {
            assert(s.subrange(j, j + 4)[0] == s[j]);
            assert(s[j] == front[j]);
        }
    }
    assert forall|j: int| p + 4 <= j < q implies !#[trigger] occurs_at(s, close, j) by {
        if occurs_at(s, close, j) {
            assert(s.subrange(j, j + 3)[2] == s[j + 2]);
            if j + 2 < q {
                assert(s[j + 2] == body[j + 2 - p - 4]);
            }
        }
    }
    assert(stands_first(s, open, 0, p));
    assert(stands_first(s, close, p + 4, q));
    law_comments_go(s, 0, p);
    assert forall|j: int| q + 3 <= j implies !#[trigger] occurs_at(s, open, j) by {
        if occurs_at(s, open, j) {
            assert(s.subrange(j, j + 4)[0] == s[j]);
            assert(s[j] == back[j - q - 3]);
        }
    }
    lemma_found_at(s, open, q + 3);
    assert(without_comments(s, q + 3) == s.skip(q + 3));
    assert(s.skip(q + 3) =~= back);
    assert(s.subrange(0, p) =~= front);
    lemma_joined_has_no_bracket(front, back);
    lemma_no_bracket(front + back, seq!['r', 'e', 'f']);
}

/// What a reference holds is no part of the page where references are to be
/// stripped.
#[verifier::rlimit(60)]
pub proof fn law_references_go_where_asked(
    front: Seq<char>,
    body: Seq<char>,
    back: Seq<char>,
    opts: CleanOpts,
)
    requires
        opts.strip_refs,
        !front.contains('<'),
        !body.contains('<'),
        !back.contains('<'),
    ensures
        cleaned(front + element(seq!['r', 'e', 'f'], body) + back, opts) == cleaned(
            front + back,
            opts,
        ),
{
    reveal_strlit("nowiki");
    reveal_strlit("ref");
    let tag = seq!['r', 'e', 'f'];
    assert("ref"@ =~= tag);
    assert("nowiki"@ =~= seq!['n', 'o', 'w', 'i', 'k', 'i']);
    assert(is_tag_name("nowiki"@));
    lemma_only_its_tag(front, tag, body, back, "nowiki"@);
    lemma_element_goes(front, tag, body, back);
    lemma_joined_has_no_bracket(front, back);
    lemma_no_bracket(front + back, tag);
    lemma_no_bracket(front + back, "nowiki"@);
}

/// What a template holds is no part of the page where templates are to be
/// stripped.
#[verifier::rlimit(60)]
pub proof fn law_templates_go_where_asked(
    front: Seq<char>,
    body: Seq<char>,
    back: Seq<char>,
    opts: CleanOpts,
)
    requires
        opts.strip_templates,
        forall|c: char|
            c == '<' || c == '{' || c == '}' ==> !(#[trigger] front.contains(c)) && !body.contains(c)
                && !back.contains(c),
    ensures
        cleaned(front + seq!['{', '{'] + body + seq!['}', '}'] + back, opts) == cleaned(
            front + back,
            opts,
        ),
{
    let s = front + seq!['{', '{'] + body + seq!['}', '}'] + back;
    let t = front + back;
    let p = front.len() as int;
    let q = p + 2 + body.len();
    assert(!front.contains('<') && !front.contains('{') && !front.contains('}'));
    assert forall|j: int| 0 <= j < p implies #[trigger] s[j] != '{' && s[j] != '<' by {
        assert(s[j] == front[j]);
    }
    assert forall|j: int| p + 2 <= j < q implies #[trigger] s[j] != '{' && s[j] != '}' && s[j]
        != '<' by {
        assert(s[j] == body[j - p - 2]);
    }
    assert forall|j: int| q + 2 <= j < s.len() implies #[trigger] s[j] != '{' && s[j] != '<' by {
        assert(s[j] == back[j - q - 2]);
    }
    assert forall|j: int| 0 <= j < t.len() implies #[trigger] t[j] != '{' && t[j] != '<' by {
        if j < p {
            assert(t[j] == front[j]);
        } else {
            assert(t[j] == back[j - p]);
        }
    }
    assert(!s.contains('<')) by {
        if s.contains('<') {
            let j = choose|j: int| 0 <= j < s.len() && s[j] == '<';
            assert(s[j] == '<');
        }
    }
    assert(!t.contains('<'));
    lemma_no_bracket(s, "nowiki"@);
    lemma_no_bracket(s, "ref"@);
    lemma_no_bracket(t, "nowiki"@);
    lemma_no_bracket(t, "ref"@);
    law_templates_go(s, 0, 0, p);
    law_templates_go(s, p + 2, 1, q);
    law_text_without_templates_stays(s, q + 2, 0);
    law_text_without_templates_stays(t, 0, 0);
    assert(t.skip(0) =~= t);
    assert(s.subrange(0, p) =~= front);
    assert(s.skip(q + 2) =~= back);
    let rest = without_templates(s, q + 2, 0);
    assert(Seq::<char>::empty() + rest =~= rest);
}

/// A slash at the end of an opening tag closes the element, with white space
/// behind it or not; without one it stays open.
pub proof fn law_slashes_close_elements(s: Seq<char>, q: int, gt: int)
    requires
        0 <= q < gt <= s.len(),
        forall|j: int|
            q < j < gt ==> ({
                let c = #[trigger] s[j];
                c == ' ' || c == '\t' || c == '\n' || c == '\r' || c == '\u{c}'
            }),
        s[q] != ' ' && s[q] != '\t' && s[q] != '\n' && s[q] != '\r' && s[q] != '\u{c}',
    ensures
        closes_itself(s, gt) <==> s[q] == '/',
    decreases gt - q,
{
    let t = s.take(gt);
    if q < gt - 1 {
        assert(t.last() == s[gt - 1]);
        assert(t.drop_last() =~= s.take(gt - 1));
        law_slashes_close_elements(s, q, gt - 1);
    } else {
        assert(t.last() == s[q]);
    }
}
/// A line of `s` begins at `n`, and it is a heading that citations stand under.
pub open spec fn citations_begin(s: Seq<char>, n: int) -> bool {
    &&& 0 <= n <= s.len()
    &&& n == 0 || s[n - 1] == '\n'
    &&& is_citation_heading(s.subrange(n, line_end(s, n)))
}

/// Cutting the citations takes what stands from the first heading of theirs on,
/// and nothing else, whatever the other options are.
pub proof fn law_citations_are_cut_where_asked(s: Seq<char>, on: CleanOpts, off: CleanOpts, n: int)
    requires
        on.cut_citation_sections,
        !off.cut_citation_sections,
        on.strip_refs == off.strip_refs,
        on.strip_templates == off.strip_templates,
    ensures
        ({
            let whole = cleaned(s, off);
            let cut = cleaned(s, on);
            &&& cut.len() <= whole.len()
            &&& cut == whole.take(cut.len() as int)
            &&& citations_begin(whole, n) ==> cut.len() <= n
            &&& cut.len() < whole.len() ==> citations_begin(whole, cut.len() as int)
        }),
{
    let whole = cleaned(s, off);
    lemma_citation_starts_line(whole, 0);
    assert(whole.take(whole.len() as int) =~= whole);
    if citations_begin(whole, n) {
        lemma_first_citation(whole, 0, n);
    }
}

proof fn lemma_first_citation(s: Seq<char>, i: int, n: int)
    requires
        0 <= i <= n,
        i == 0 || s[i - 1] == '\n',
        citations_begin(s, n),
    ensures
        citation_at(s, i) matches Some(k) && k <= n,
    decreases s.len() - i,
{
    lemma_char_at(s, '\n', i);
    let e = line_end(s, i);
    if i < n {
        assert(i < s.len());
        assert(e < n) by {
            if e >= n {
                assert(s[n - 1] == '\n');
            }
        }
        if !is_citation_heading(s.subrange(i, e)) {
            lemma_first_citation(s, e + 1, n);
        }
    }
}

/// Templates stay unless they are to be stripped, whatever is said of
/// references: a text without tags comes out as it went in.
pub proof fn law_templates_stay_unless_asked(s: Seq<char>, opts: CleanOpts)
    requires
        !opts.strip_templates,
        !opts.cut_citation_sections,
        !s.contains('<'),
    ensures
        cleaned(s, opts) == s,
{
    lemma_no_bracket(s, "nowiki"@);
    lemma_no_bracket(s, "ref"@);
}
} // verus!
