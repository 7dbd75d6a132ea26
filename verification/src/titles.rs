//! Which titles name the same article.
//!
//! Without this, `[[political philosophy]]`, `[[Political_philosophy]]` and
//! `[[Political philosophy#History]]` would be three articles.

use crate::fx::{add_name, has_name, names_in, no_names};
use crate::text::{
    ascii_lowered, begins, char_at, chars_of, contains, find_char, holds, is_space, lemma_char_at,
    same, space, starts_with, string_of, string_of_all, to_ascii_lowered, trim, trim_start, trimmed,
    trimmed_end, trimmed_start,
};
use crate::unicode::{
    is_lowercase, is_lowercase_letter, lowercase_of, to_lowercase, to_uppercase, uppercase_of,
};
use rustc_hash::FxHashSet;
use vstd::prelude::*;
use vstd::slice::slice_subrange;

verus! {

// ---------------------------------------------------------------------------
// Normal form
// ---------------------------------------------------------------------------

/// What counts as a space in a title.
pub open spec fn is_blank(c: char) -> bool {
    c == '_' || is_space(c)
}

/// Without the colons in front, and the white space after each of them.
pub open spec fn after_colons(s: Seq<char>) -> Seq<char>
    decreases s.len(),
    via after_colons_decreases
{
    if s.len() > 0 && s[0] == ':' {
        after_colons(trimmed_start(s.drop_first()))
    } else {
        s
    }
}

proof fn lemma_trimmed_start_len(s: Seq<char>)
    ensures
        trimmed_start(s).len() <= s.len(),
    decreases s.len(),
{
    if s.len() > 0 && is_space(s[0]) {
        lemma_trimmed_start_len(s.drop_first());
    }
}

#[via_fn]
proof fn after_colons_decreases(s: Seq<char>) {
    if s.len() > 0 {
        lemma_trimmed_start_len(s.drop_first());
    }
}

/// What stands before the first `c`.
pub open spec fn before(s: Seq<char>, c: char) -> Seq<char> {
    match char_at(s, c, 0) {
        Some(i) => s.take(i),
        None => s,
    }
}

/// The words, one space between each two.
pub open spec fn spaced(s: Seq<char>) -> Seq<char>
    decreases s.len(),
{
    if s.len() == 0 {
        seq![]
    } else {
        let r = spaced(s.drop_last());
        let c = s.last();
        if is_blank(c) {
            r
        } else if r.len() > 0 && is_blank(s[s.len() - 2]) {
            r.push(' ').push(c)
        } else {
            r.push(c)
        }
    }
}

/// With a capital first, where the first letter has a capital of one
/// character.
pub open spec fn capitalized(s: Seq<char>) -> Seq<char> {
    if s.len() > 0 && is_lowercase_letter(s[0]) && uppercase_of(s[0]).len() == 1 {
        s.update(0, uppercase_of(s[0])[0])
    } else {
        s
    }
}

/// The words of a title, as they are written.
pub open spec fn words_of(raw: Seq<char>) -> Seq<char> {
    spaced(before(after_colons(trimmed(raw)), '#'))
}

/// The normal form of a title, where it can name an article at all.
pub open spec fn normalized(raw: Seq<char>) -> Option<Seq<char>> {
    let words = words_of(raw);
    if words.len() == 0 {
        None
    } else {
        Some(capitalized(words))
    }
}

proof fn lemma_spaced_take(s: Seq<char>, i: int)
    requires
        0 <= i < s.len(),
    ensures
        spaced(s.take(i + 1)) == ({
            let r = spaced(s.take(i));
            if is_blank(s[i]) {
                r
            } else if r.len() > 0 && is_blank(s[i - 1]) {
                r.push(' ').push(s[i])
            } else {
                r.push(s[i])
            }
        }),
{
    let t = s.take(i + 1);
    assert(t.drop_last() =~= s.take(i));
    assert(t.last() == s[i]);
    if i == 0 {
        assert(s.take(0) =~= Seq::<char>::empty());
    }
}

fn space_out(s: &[char]) -> (r: Vec<char>)
    ensures
        r@ == spaced(s@),
{
    let mut out: Vec<char> = Vec::new();
    let mut pending_space = false;
    let n: usize = s.len();
    let mut i: usize = 0;
    assert(s@.take(0) =~= Seq::<char>::empty());
    while i < n
        invariant
            n == s@.len(),
            i <= n,
            out@ == spaced(s@.take(i as int)),
            pending_space == (out@.len() > 0 && i > 0 && is_blank(s@[i - 1])),
        decreases n - i,
    {
        let c: char = s[i];
        proof {
            lemma_spaced_take(s@, i as int);
        }
        if c == '_' || space(c) {
            pending_space = out.len() > 0;
        } else {
            if pending_space {
                out.push(' ');
                pending_space = false;
            }
            out.push(c);
        }
        i = i + 1;
    }
    assert(s@.take(n as int) =~= s@);
    out
}

/// A title that is written with its capital, or whose capital is one from A to
/// Z. A colon in front is no part of either.
pub open spec fn is_plainly_capitalized(raw: Seq<char>, t: Seq<char>) -> bool {
    t[0] != ':' && (t == words_of(raw) || 'A' <= t[0] <= 'Z')
}

/// Bring a link target or a page title into its canonical form. A form with a
/// plain capital is its own canonical form.
///
/// Nothing for targets that can never name an article: empty ones, and pure
/// anchors like `[[#Section]]`.
pub fn normalize_title(raw: &str) -> (r: Option<String>)
    ensures
        match r {
            Some(t) => normalized(raw@) == Some(t@),
            None => normalized(raw@) is None,
        },
        r matches Some(t) ==> is_plainly_capitalized(raw@, t@) ==> normalized(t@) == Some(t@),
{
    let chars = chars_of(raw);
    normalize_chars(chars.as_slice())
}

/// `normalize_title`, on characters.
pub fn normalize_chars(raw: &[char]) -> (r: Option<String>)
    ensures
        match r {
            Some(t) => normalized(raw@) == Some(t@),
            None => normalized(raw@) is None,
        },
        r matches Some(t) ==> is_plainly_capitalized(raw@, t@) ==> normalized(t@) == Some(t@),
{
    let mut s: &[char] = trim(raw);
    // A leading colon forces a literal link.
    while s.len() > 0 && s[0] == ':'
        invariant
            after_colons(s@) == after_colons(trimmed(raw@)),
        decreases s@.len(),
    {
        let rest = slice_subrange(s, 1, s.len());
        proof {
            assert(rest@ =~= s@.drop_first());
            lemma_trimmed_start_len(rest@);
        }
        s = trim_start(rest);
    }
    // Drop the section anchor.
    let cut: &[char] = match find_char(s, '#', 0) {
        Some(i) => slice_subrange(s, 0, i),
        None => s,
    };
    assert(cut@ =~= before(s@, '#'));
    let mut words = space_out(cut);
    if words.len() == 0 {
        return None;
    }
    // Only capitals of a single character are applied: the upper case of 'ß'
    // is "SS", and those are two articles.
    let first: char = words[0];
    if is_lowercase(first) {
        let upper = to_uppercase(first);
        if upper.len() == 1 {
            words.set(0, upper[0]);
        }
    }
    proof {
        let t = words@;
        if is_plainly_capitalized(raw@, t) {
            law_normal_form(raw@);
            if t != words_of(raw@) {
                assert(uppercase_of(t[0]) =~= seq![t[0]]);
            }
            assert(capitalized(t) =~= t);
            law_normal_form_is_its_own(raw@);
        }
    }
    Some(string_of_all(&words))
}

// ---------------------------------------------------------------------------
// Namespaces
// ---------------------------------------------------------------------------

/// Namespace prefixes that a dump declares.
///
/// This is only a filter to skip a lookup: anything that is not the title of
/// an article is dropped in any case.
pub struct NsPrefixes {
    set: FxHashSet<String>,
}

/// With every space turned into an underscore.
pub open spec fn underscored(s: Seq<char>) -> Seq<char> {
    s.map_values(
        |c: char|
            if c == ' ' {
                '_'
            } else {
                c
            },
    )
}

/// The prefixes that namespace names allow: each name in lower case, with
/// spaces and with underscores.
pub open spec fn prefixes_of(names: Seq<String>) -> Set<Seq<char>>
    decreases names.len(),
{
    if names.len() == 0 {
        Set::empty()
    } else {
        let rest = prefixes_of(names.drop_last());
        let n = names.last()@;
        if n.len() == 0 {
            rest
        } else {
            rest.insert(lowercase_of(n)).insert(underscored(lowercase_of(n)))
        }
    }
}

/// `title` begins with one of the prefixes and a colon.
pub open spec fn has_prefix(prefixes: Set<Seq<char>>, title: Seq<char>) -> bool {
    match char_at(title, ':', 0) {
        Some(i) => prefixes.contains(lowercase_of(trimmed(title.take(i)))),
        None => false,
    }
}

/// The category that `[[Category:..]]` files an article under. What follows a
/// pipe only says how to sort it.
pub open spec fn category_of(title: Seq<char>) -> Option<Seq<char>> {
    match char_at(title, ':', 0) {
        Some(i) => if ascii_lowered(trimmed(title.take(i))) == "category"@ {
            normalized(trimmed(before(title.skip(i + 1), '|')))
        } else {
            None
        },
        None => None,
    }
}

proof fn lemma_nothing_normalized(s: Seq<char>)
    requires
        s.len() == 0,
    ensures
        normalized(s) is None,
{
    assert(trimmed_start(s) == s);
    assert(trimmed_end(s) == s);
    assert(after_colons(s) == s);
    assert(before(s, '#') =~= s);
}

fn underscore(s: &[char]) -> (r: Vec<char>)
    ensures
        r@ == underscored(s@),
{
    let mut out: Vec<char> = Vec::new();
    let n: usize = s.len();
    let mut i: usize = 0;
    while i < n
        invariant
            n == s@.len(),
            i <= n,
            out@ == underscored(s@.take(i as int)),
        decreases n - i,
    {
        let c: char = s[i];
        out.push(
            if c == ' ' {
                '_'
            } else {
                c
            },
        );
        i = i + 1;
        assert(out@ =~= underscored(s@.take(i as int)));
    }
    assert(s@.take(n as int) =~= s@);
    out
}

impl NsPrefixes {
    /// The prefixes, in lower case.
    pub closed spec fn prefixes(&self) -> Set<Seq<char>> {
        names_in(self.set)
    }

    pub fn from_dump(names: &[String]) -> (r: Self)
        ensures
            r.prefixes() == prefixes_of(names@),
    {
        let mut set = no_names();
        let n: usize = names.len();
        let mut i: usize = 0;
        assert(names@.take(0) =~= Seq::<String>::empty());
        while i < n
            invariant
                n == names@.len(),
                i <= n,
                names_in(set) == prefixes_of(names@.take(i as int)),
            decreases n - i,
        {
            let name = &names[i];
            proof {
                assert(names@.take(i + 1).drop_last() =~= names@.take(i as int));
            }
            let chars = chars_of(name.as_str());
            if chars.len() > 0 {
                let lower = to_lowercase(name.as_str());
                let lowered = chars_of(lower.as_str());
                let joined = underscore(lowered.as_slice());
                add_name(&mut set, lower);
                add_name(&mut set, string_of_all(&joined));
            }
            i = i + 1;
        }
        assert(names@.take(n as int) =~= names@);
        NsPrefixes { set }
    }

    /// Whether `title` starts with the prefix of a namespace that holds no
    /// articles.
    pub fn is_foreign(&self, title: &str) -> (r: bool)
        ensures
            r == has_prefix(self.prefixes(), title@),
    {
        let chars = chars_of(title);
        self.is_foreign_chars(chars.as_slice())
    }

    /// `is_foreign`, on characters.
    pub fn is_foreign_chars(&self, title: &[char]) -> (r: bool)
        ensures
            r == has_prefix(self.prefixes(), title@),
    {
        match find_char(title, ':', 0) {
            Some(i) => {
                let prefix = trim(slice_subrange(title, 0, i));
                assert(title@.subrange(0, i as int) =~= title@.take(i as int));
                let name = string_of(prefix, 0, prefix.len());
                assert(prefix@.subrange(0, prefix@.len() as int) =~= prefix@);
                has_name(&self.set, to_lowercase(name.as_str()).as_str())
            },
            None => false,
        }
    }

    /// The category name in `[[Category:Living people]]`.
    pub fn category(&self, title: &str) -> (r: Option<String>)
        ensures
            match r {
                Some(c) => category_of(title@) == Some(c@),
                None => category_of(title@) is None,
            },
    {
        let chars = chars_of(title);
        self.category_chars(chars.as_slice())
    }

    /// `category`, on characters.
    pub fn category_chars(&self, title: &[char]) -> (r: Option<String>)
        ensures
            match r {
                Some(c) => category_of(title@) == Some(c@),
                None => category_of(title@) is None,
            },
    {
        match find_char(title, ':', 0) {
            Some(i) => {
                let prefix = trim(slice_subrange(title, 0, i));
                assert(title@.subrange(0, i as int) =~= title@.take(i as int));
                let word = chars_of("category");
                let lowered = to_ascii_lowered(prefix);
                if !same(lowered.as_slice(), word.as_slice()) {
                    return None;
                }
                let n: usize = title.len();
                let tail = slice_subrange(title, i + 1, n);
                assert(tail@ =~= title@.skip(i + 1));
                let named: &[char] = match find_char(tail, '|', 0) {
                    Some(k) => slice_subrange(tail, 0, k),
                    None => tail,
                };
                assert(named@ =~= before(tail@, '|'));
                let rest = trim(named);
                if rest.len() == 0 {
                    proof {
                        lemma_nothing_normalized(rest@);
                    }
                    return None;
                }
                normalize_chars(rest)
            },
            None => None,
        }
    }
}

// ---------------------------------------------------------------------------
// Maintenance categories
// ---------------------------------------------------------------------------

/// How the names of maintenance categories begin.
pub open spec fn maintenance_prefixes() -> Seq<&'static str> {
    seq![
        "Articles ",
        "All articles",
        "Wikipedia ",
        "CS1 ",
        "Webarchive",
        "Pages ",
        "All pages",
        "Use dmy dates",
        "Use mdy dates",
        "Short description",
        "Commons category",
        "Coordinates ",
        "Official website",
        "Good articles",
        "Featured articles",
        "Redirects ",
        "All redirects",
        "Template ",
        "Interlanguage ",
        "Harv and Sfn",
        "AC with ",
        "Vague or ambiguous",
    ]
}

/// What the names of maintenance categories hold, in lower case.
pub open spec fn maintenance_marks() -> Seq<&'static str> {
    seq![
        "maint:",
        "errors",
        "stub",
        "with unsourced",
        "needing",
        "lacking",
        "from ",
        "dead external links",
        "unreferenced",
        "cleanup",
    ]
}

/// A category that describes the state of an article and not its subject.
pub open spec fn is_maintenance(name: Seq<char>) -> bool {
    ||| exists|i: int|
        0 <= i < maintenance_prefixes().len() && begins(name, #[trigger] maintenance_prefixes()[i]@)
    ||| exists|i: int|
        0 <= i < maintenance_marks().len() && holds(
            lowercase_of(name),
            #[trigger] maintenance_marks()[i]@,
        )
}

fn begins_with_any(name: &[char], list: &[&str]) -> (r: bool)
    ensures
        r == exists|i: int| 0 <= i < list@.len() && begins(name@, #[trigger] list@[i]@),
{
    let n: usize = list.len();
    let mut i: usize = 0;
    while i < n
        invariant
            n == list@.len(),
            i <= n,
            forall|j: int| 0 <= j < i ==> !begins(name@, #[trigger] list@[j]@),
        decreases n - i,
    {
        let word = chars_of(list[i]);
        if starts_with(name, word.as_slice()) {
            assert(begins(name@, list@[i as int]@));
            return true;
        }
        i = i + 1;
    }
    false
}

fn holds_any(name: &[char], list: &[&str]) -> (r: bool)
    ensures
        r == exists|i: int| 0 <= i < list@.len() && holds(name@, #[trigger] list@[i]@),
{
    let n: usize = list.len();
    let mut i: usize = 0;
    while i < n
        invariant
            n == list@.len(),
            i <= n,
            forall|j: int| 0 <= j < i ==> !holds(name@, #[trigger] list@[j]@),
        decreases n - i,
    {
        let word = chars_of(list[i]);
        if contains(name, word.as_slice()) {
            assert(holds(name@, list@[i as int]@));
            return true;
        }
        i = i + 1;
    }
    false
}

/// Whether a category describes the *edit state* of an article rather than its
/// subject.
pub fn is_maintenance_category(name: &str) -> (r: bool)
    ensures
        r == is_maintenance(name@),
{
    let prefixes: [&str; 22] = [
        "Articles ",
        "All articles",
        "Wikipedia ",
        "CS1 ",
        "Webarchive",
        "Pages ",
        "All pages",
        "Use dmy dates",
        "Use mdy dates",
        "Short description",
        "Commons category",
        "Coordinates ",
        "Official website",
        "Good articles",
        "Featured articles",
        "Redirects ",
        "All redirects",
        "Template ",
        "Interlanguage ",
        "Harv and Sfn",
        "AC with ",
        "Vague or ambiguous",
    ];
    let marks: [&str; 10] = [
        "maint:",
        "errors",
        "stub",
        "with unsourced",
        "needing",
        "lacking",
        "from ",
        "dead external links",
        "unreferenced",
        "cleanup",
    ];
    assert(prefixes@ =~= maintenance_prefixes());
    assert(marks@ =~= maintenance_marks());
    let chars = chars_of(name);
    let lower = chars_of(to_lowercase(name).as_str());
    begins_with_any(chars.as_slice(), prefixes.as_slice()) || holds_any(
        lower.as_slice(),
        marks.as_slice(),
    )
}

// ---------------------------------------------------------------------------
// Laws
// ---------------------------------------------------------------------------

spec fn all_spaces(s: Seq<char>) -> bool {
    forall|i: int| 0 <= i < s.len() ==> is_space(#[trigger] s[i])
}

/// A title in normal form: words with one space between each two, and no
/// anchor.
pub open spec fn in_normal_form(t: Seq<char>) -> bool {
    &&& t.len() > 0
    &&& !is_blank(t[0])
    &&& !is_blank(t.last())
    &&& forall|i: int| 0 <= i < t.len() ==> #[trigger] t[i] != '_' && t[i] != '#'
    &&& forall|i: int| 0 <= i < t.len() && is_space(#[trigger] t[i]) ==> t[i] == ' '
    &&& forall|i: int|
        0 <= i < t.len() - 1 && #[trigger] t[i] == ' ' ==> !is_space(t[i + 1])
}

proof fn lemma_trimmed_start_of_spaces(s: Seq<char>)
    requires
        all_spaces(s),
    ensures
        trimmed_start(s) == Seq::<char>::empty(),
    decreases s.len(),
{
    if s.len() > 0 {
        assert(is_space(s[0]));
        assert forall|i: int| 0 <= i < s.drop_first().len() implies is_space(
            #[trigger] s.drop_first()[i],
        ) by {
            assert(s.drop_first()[i] == s[i + 1]);
        }
        lemma_trimmed_start_of_spaces(s.drop_first());
    }
}

/// Trimming the front stops at the latest where `t` begins with something
/// other than a space.
proof fn lemma_trimmed_start_joined(s: Seq<char>, t: Seq<char>)
    requires
        t.len() > 0,
        !is_space(t[0]),
    ensures
        trimmed_start(s + t) == trimmed_start(s) + t,
    decreases s.len(),
{
    if s.len() == 0 {
        assert(s + t =~= t);
        assert(trimmed_start(s) + t =~= t);
    } else if is_space(s[0]) {
        assert((s + t).drop_first() =~= s.drop_first() + t);
        lemma_trimmed_start_joined(s.drop_first(), t);
    }
}

proof fn lemma_trimmed_end_joined(s: Seq<char>, t: Seq<char>)
    requires
        s.len() > 0,
        !is_space(s.last()),
    ensures
        trimmed_end(s + t) == s + trimmed_end(t),
    decreases t.len(),
{
    if t.len() == 0 {
        assert(s + t =~= s);
        assert(s + trimmed_end(t) =~= s);
    } else if is_space(t.last()) {
        assert((s + t).drop_last() =~= s + t.drop_last());
        assert((s + t).last() == t.last());
        lemma_trimmed_end_joined(s, t.drop_last());
    } else {
        assert((s + t).last() == t.last());
    }
}

/// What trimming the end takes away is white space.
proof fn lemma_trimmed_end_splits(s: Seq<char>) -> (w: Seq<char>)
    ensures
        s == trimmed_end(s) + w,
        all_spaces(w),
    decreases s.len(),
{
    if s.len() > 0 && is_space(s.last()) {
        let w = lemma_trimmed_end_splits(s.drop_last());
        let r = w.push(s.last());
        assert(trimmed_end(s) == trimmed_end(s.drop_last()));
        assert(s =~= s.drop_last().push(s.last()));
        assert(s.drop_last().push(s.last()) =~= trimmed_end(s) + r);
        r
    } else {
        assert(s =~= s + Seq::<char>::empty());
        Seq::empty()
    }
}

proof fn lemma_spaced_then_spaces(s: Seq<char>, w: Seq<char>)
    requires
        all_spaces(w),
    ensures
        spaced(s + w) == spaced(s),
    decreases w.len(),
{
    if w.len() == 0 {
        assert(s + w =~= s);
    } else {
        assert(is_space(w[w.len() - 1]));
        assert((s + w).drop_last() =~= s + w.drop_last());
        assert((s + w).last() == w.last());
        assert forall|i: int| 0 <= i < w.drop_last().len() implies is_space(
            #[trigger] w.drop_last()[i],
        ) by {
            assert(w.drop_last()[i] == w[i]);
        }
        lemma_spaced_then_spaces(s, w.drop_last());
    }
}

/// White space at the end makes no difference to the words after the colons.
proof fn lemma_colons_then_spaces(s: Seq<char>, w: Seq<char>)
    requires
        all_spaces(w),
    ensures
        spaced(after_colons(s + w)) == spaced(after_colons(s)),
    decreases s.len(),
{
    if s.len() == 0 {
        assert(s + w =~= w);
        if w.len() > 0 {
            assert(is_space(w[0]));
        }
        assert(after_colons(w) == w);
        lemma_spaced_then_spaces(s, w);
    } else if s[0] == ':' {
        let tail = s.drop_first();
        assert((s + w).drop_first() =~= tail + w);
        if all_spaces(tail) {
            lemma_trimmed_start_of_spaces(tail);
            assert(all_spaces(tail + w));
            lemma_trimmed_start_of_spaces(tail + w);
        } else {
            lemma_trimmed_start_keeps(tail, w);
            lemma_trimmed_start_len(tail);
            lemma_colons_then_spaces(trimmed_start(tail), w);
        }
    } else {
        assert((s + w)[0] == s[0]);
        lemma_spaced_then_spaces(s, w);
    }
}

proof fn lemma_trimmed_start_keeps(s: Seq<char>, t: Seq<char>)
    requires
        !all_spaces(s),
    ensures
        trimmed_start(s + t) == trimmed_start(s) + t,
    decreases s.len(),
{
    if s.len() > 0 {
        assert((s + t)[0] == s[0]);
        if is_space(s[0]) {
            assert((s + t).drop_first() =~= s.drop_first() + t);
            let i = choose|i: int| 0 <= i < s.len() && !is_space(#[trigger] s[i]);
            assert(s.drop_first()[i - 1] == s[i]);
            lemma_trimmed_start_keeps(s.drop_first(), t);
        }
    }
}

proof fn lemma_colons_joined(s: Seq<char>, t: Seq<char>)
    requires
        t.len() > 0,
        !is_space(t[0]),
        t[0] != ':',
    ensures
        after_colons(s + t) == after_colons(s) + t,
    decreases s.len(),
{
    if s.len() == 0 {
        assert(s + t =~= t);
        assert(after_colons(s) + t =~= t);
    } else if s[0] == ':' {
        assert((s + t)[0] == ':');
        assert((s + t).drop_first() =~= s.drop_first() + t);
        lemma_trimmed_start_joined(s.drop_first(), t);
        lemma_trimmed_start_len(s.drop_first());
        lemma_colons_joined(trimmed_start(s.drop_first()), t);
    } else {
        assert((s + t)[0] == s[0]);
    }
}

proof fn lemma_trimmed_start_suffix(s: Seq<char>) -> (k: int)
    ensures
        0 <= k <= s.len(),
        trimmed_start(s) == s.skip(k),
    decreases s.len(),
{
    if s.len() > 0 && is_space(s[0]) {
        let k = lemma_trimmed_start_suffix(s.drop_first());
        assert(s.drop_first().skip(k) =~= s.skip(k + 1));
        k + 1
    } else {
        assert(s.skip(0) =~= s);
        0
    }
}

proof fn lemma_colons_suffix(s: Seq<char>) -> (k: int)
    ensures
        0 <= k <= s.len(),
        after_colons(s) == s.skip(k),
    decreases s.len(),
{
    if s.len() > 0 && s[0] == ':' {
        let t = s.drop_first();
        let a = lemma_trimmed_start_suffix(t);
        lemma_trimmed_start_len(t);
        let b = lemma_colons_suffix(trimmed_start(t));
        assert(t.skip(a).skip(b) =~= s.skip(1 + a + b));
        1 + a + b
    } else {
        assert(s.skip(0) =~= s);
        0
    }
}

/// A section anchor makes no difference: `Foo#History` is `Foo`.
pub proof fn law_anchor_is_dropped(s: Seq<char>, anchor: Seq<char>)
    requires
        !s.contains('#'),
    ensures
        normalized(s + seq!['#'] + anchor) == normalized(s),
{
    let h = seq!['#'];
    let raw = s + h + anchor;
    let u = trimmed_start(s);
    assert(raw =~= s + (h + anchor));
    lemma_trimmed_start_joined(s, h + anchor);
    assert(u + (h + anchor) =~= (u + h) + anchor);
    assert((u + h).last() == '#');
    lemma_trimmed_end_joined(u + h, anchor);
    let b = trimmed_end(anchor);
    assert((u + h) + b =~= u + (h + b));
    lemma_colons_joined(u, h + b);
    let c = after_colons(u);
    let k = lemma_trimmed_start_suffix(s);
    let j = lemma_colons_suffix(u);
    assert forall|i: int| 0 <= i < c.len() implies c[i] != '#' by {
        assert(c[i] == s[i + j + k]);
    }
    let full = c + (h + b);
    lemma_char_at(full, '#', 0);
    assert(full[c.len() as int] == '#');
    assert forall|i: int| 0 <= i < c.len() implies full[i] != '#' by {
        assert(full[i] == c[i]);
    }
    assert(before(full, '#') =~= c);
    let w = lemma_trimmed_end_splits(u);
    lemma_colons_then_spaces(trimmed_end(u), w);
    let d = after_colons(trimmed_end(u));
    let m = lemma_colons_suffix(trimmed_end(u));
    assert forall|i: int| 0 <= i < d.len() implies d[i] != '#' by {
        assert(d[i] == u[i + m]);
        assert(u[i + m] == s[i + m + k]);
    }
    lemma_char_at(d, '#', 0);
    assert(before(d, '#') == d);
}

/// Each character of `s` is that of `t`, or both are a space or an underscore.
pub open spec fn same_but_for_underscores(s: Seq<char>, t: Seq<char>) -> bool {
    &&& s.len() == t.len()
    &&& forall|i: int|
        0 <= i < s.len() ==> #[trigger] s[i] == t[i] || ((s[i] == ' ' || s[i] == '_') && (t[i]
            == ' ' || t[i] == '_'))
}

proof fn lemma_spaced_underscores(s: Seq<char>, t: Seq<char>)
    requires
        same_but_for_underscores(s, t),
    ensures
        spaced(s) == spaced(t),
    decreases s.len(),
{
    if s.len() > 0 {
        let a = s.drop_last();
        let b = t.drop_last();
        assert forall|i: int| 0 <= i < a.len() implies #[trigger] a[i] == b[i] || ((a[i] == ' '
            || a[i] == '_') && (b[i] == ' ' || b[i] == '_')) by {
            assert(a[i] == s[i] && b[i] == t[i]);
        }
        lemma_spaced_underscores(a, b);
        let n = s.len() as int;
        assert(is_blank(s[n - 1]) == is_blank(t[n - 1]));
        if n >= 2 {
            assert(is_blank(s[n - 2]) == is_blank(t[n - 2]));
        } else {
            assert(spaced(a).len() == 0);
        }
    }
}

/// The normal form of a title that starts with an ordinary character.
proof fn lemma_normalized_plain(s: Seq<char>)
    requires
        s.len() > 0,
        !is_space(s[0]),
        s[0] != ':',
    ensures
        normalized(s) == ({
            let words = spaced(before(s, '#'));
            if words.len() == 0 {
                None
            } else {
                Some(capitalized(words))
            }
        }),
{
    assert(trimmed_start(s) == s);
    let w = lemma_trimmed_end_splits(s);
    let e = trimmed_end(s);
    if e.len() == 0 {
        assert(s =~= w);
        assert(is_space(w[0]));
    }
    assert(e[0] == s[0]);
    assert(after_colons(e) == e);
    lemma_char_at(s, '#', 0);
    lemma_char_at(e, '#', 0);
    match char_at(s, '#', 0) {
        Some(i) => {
            if i >= e.len() {
                assert(w[i - e.len()] == s[i]);
                assert(is_space(w[i - e.len()]));
            }
            assert(e[i] == s[i]);
            let j = char_at(e, '#', 0)->0;
            assert(s[j] == e[j]);
            assert(before(e, '#') =~= before(s, '#'));
        },
        None => {
            if char_at(e, '#', 0) is Some {
                let j = char_at(e, '#', 0)->0;
                assert(s[j] == e[j]);
            }
            lemma_spaced_then_spaces(e, w);
        },
    }
}

/// Underscores and spaces are the same: `United_States` is `United States`.
pub proof fn law_underscores_are_spaces(s: Seq<char>, t: Seq<char>)
    requires
        same_but_for_underscores(s, t),
        s.len() > 0,
        !is_blank(s[0]),
        s[0] != ':',
    ensures
        normalized(s) == normalized(t),
{
    assert(t[0] == s[0]);
    lemma_normalized_plain(s);
    lemma_normalized_plain(t);
    lemma_char_at(s, '#', 0);
    lemma_char_at(t, '#', 0);
    match char_at(s, '#', 0) {
        Some(i) => {
            assert(t[i] == '#');
            let j = char_at(t, '#', 0)->0;
            assert(s[j] == '#');
            assert(i == j);
            let a = s.take(i);
            let b = t.take(i);
            assert forall|k: int| 0 <= k < a.len() implies #[trigger] a[k] == b[k] || ((a[k] == ' '
                || a[k] == '_') && (b[k] == ' ' || b[k] == '_')) by {
                assert(a[k] == s[k] && b[k] == t[k]);
            }
            lemma_spaced_underscores(a, b);
        },
        None => {
            if char_at(t, '#', 0) is Some {
                let j = char_at(t, '#', 0)->0;
                assert(s[j] == '#');
            }
            lemma_spaced_underscores(s, t);
        },
    }
}

proof fn lemma_spaced_shape(s: Seq<char>)
    requires
        !s.contains('#'),
    ensures
        spaced(s).len() > 0 ==> in_normal_form(spaced(s)),
    decreases s.len(),
{
    if s.len() > 0 {
        let a = s.drop_last();
        assert forall|i: int| 0 <= i < a.len() implies a[i] != '#' by {
            assert(a[i] == s[i]);
        }
        lemma_spaced_shape(a);
        let r = spaced(a);
        let t = spaced(s);
        assert(s[s.len() - 1] != '#');
        assert forall|i: int| 0 <= i < t.len() implies #[trigger] t[i] != '_' && t[i] != '#' by {
            if i < r.len() {
                assert(t[i] == r[i]);
            }
        }
        assert forall|i: int| 0 <= i < t.len() && is_space(#[trigger] t[i]) implies t[i] == ' ' by {
            if i < r.len() {
                assert(t[i] == r[i]);
            }
        }
        assert forall|i: int| 0 <= i < t.len() - 1 && #[trigger] t[i] == ' ' implies !is_space(
            t[i + 1],
        ) by {
            if i < r.len() {
                assert(t[i] == r[i]);
                if i + 1 < r.len() {
                    assert(t[i + 1] == r[i + 1]);
                } else {
                    assert(r.last() == r[i]);
                }
            }
        }
    }
}

/// A normal form has no anchor and no underscore, no white space at either end
/// and single spaces between words, unless its first letter became something
/// else than a letter as a capital.
pub proof fn law_normal_form(raw: Seq<char>)
    requires
        normalized(raw) is Some,
    ensures
        in_normal_form(words_of(raw)),
        normalized(raw) == Some(capitalized(words_of(raw))),
{
    let c = after_colons(trimmed(raw));
    let b = before(c, '#');
    lemma_char_at(c, '#', 0);
    assert forall|i: int| 0 <= i < b.len() implies b[i] != '#' by {
        assert(b[i] == c[i]);
    }
    lemma_spaced_shape(b);
    assert(in_normal_form(spaced(b)));
}

proof fn lemma_spaced_of_normal(t: Seq<char>)
    requires
        t.len() == 0 || (!is_blank(t[0])),
        forall|i: int| 0 <= i < t.len() ==> #[trigger] t[i] != '_',
        forall|i: int| 0 <= i < t.len() && is_space(#[trigger] t[i]) ==> t[i] == ' ',
        forall|i: int| 0 <= i < t.len() - 1 && #[trigger] t[i] == ' ' ==> !is_space(t[i + 1]),
    ensures
        t.len() > 0 && is_blank(t.last()) ==> spaced(t) == t.drop_last(),
        t.len() == 0 || !is_blank(t.last()) ==> spaced(t) == t,
    decreases t.len(),
{
    if t.len() > 0 {
        let a = t.drop_last();
        assert forall|i: int| 0 <= i < a.len() implies #[trigger] a[i] != '_' by {
            assert(a[i] == t[i]);
        }
        assert forall|i: int| 0 <= i < a.len() && is_space(#[trigger] a[i]) implies a[i] == ' ' by {
            assert(a[i] == t[i]);
        }
        assert forall|i: int| 0 <= i < a.len() - 1 && #[trigger] a[i] == ' ' implies !is_space(
            a[i + 1],
        ) by {
            assert(a[i] == t[i]);
            assert(a[i + 1] == t[i + 1]);
        }
        if a.len() > 0 {
            assert(a[0] == t[0]);
        }
        lemma_spaced_of_normal(a);
        let n = t.len() as int;
        assert(t[n - 1] == t.last());
        if n >= 2 {
            assert(a.last() == t[n - 2]);
            if is_blank(t[n - 2]) {
                assert(t[n - 2] == ' ');
                assert(!is_space(t[n - 1]));
                if n == 2 {
                    assert(t[0] == t[n - 2]);
                }
                assert(spaced(a).push(' ') =~= a);
            }
        }
        assert(a.push(t.last()) =~= t);
    } else {
        assert(spaced(t) =~= t);
    }
}

/// Normalizing a normal form again does no more than to put the capital again.
///
/// A normal form that begins with a colon, as that of `_:Foo` does, is left
/// out: the colon goes the second time.
pub proof fn law_normal_form_is_stable(t: Seq<char>)
    requires
        in_normal_form(t),
        t[0] != ':',
    ensures
        normalized(t) == Some(capitalized(t)),
{
    lemma_normalized_plain(t);
    lemma_char_at(t, '#', 0);
    if char_at(t, '#', 0) is Some {
        let i = char_at(t, '#', 0)->0;
        assert(t[i] != '#');
    }
    lemma_spaced_of_normal(t);
}

/// A normal form is its own normal form.
///
/// Left out is what begins with a colon, as above, and what a capital makes of
/// its first letter that is no letter, or has a capital in its turn.
pub proof fn law_normal_form_is_its_own(raw: Seq<char>)
    requires
        normalized(raw) is Some,
        ({
            let t = normalized(raw)->0;
            t[0] != ':' && t[0] != '#' && !is_blank(t[0]) && capitalized(t) == t
        }),
    ensures
        normalized(normalized(raw)->0) == normalized(raw),
{
    let t = normalized(raw)->0;
    let words = words_of(raw);
    law_normal_form(raw);
    assert forall|i: int| 0 < i < t.len() implies #[trigger] t[i] == words[i] by {}
    assert(in_normal_form(t));
    law_normal_form_is_stable(t);
}

/// Letters that are neither white space nor underscores.
pub open spec fn letters_of(s: Seq<char>) -> Seq<char> {
    s.filter(|c: char| c != '_' && !is_space(c))
}

/// Joining words loses no letter, adds none and keeps their order.
pub proof fn law_names_keep_their_letters(s: Seq<char>)
    ensures
        letters_of(spaced(s)) == letters_of(s),
    decreases s.len(),
{
    let f = |c: char| c != '_' && !is_space(c);
    reveal(Seq::filter);
    if s.len() > 0 {
        law_names_keep_their_letters(s.drop_last());
        let r = spaced(s.drop_last());
        let c = s.last();
        assert(r.push(c).drop_last() =~= r);
        assert(r.push(' ').push(c).drop_last() =~= r.push(' '));
        assert(r.push(' ').drop_last() =~= r);
        assert(is_space(' '));
        assert(r.push(' ').filter(f) =~= r.filter(f));
    }
}

/// Colons in front of a name, with which a link says that it only mentions a
/// page, are no part of it.
pub proof fn law_leading_colons_are_dropped(x: Seq<char>)
    ensures
        normalized(seq![':'] + x) == normalized(x),
{
    let s = seq![':'] + x;
    assert(s[0] == ':');
    assert(trimmed_start(s) == s);
    lemma_trimmed_end_joined(seq![':'], x);
    let y = trimmed_end(x);
    let t = seq![':'] + y;
    assert(t.drop_first() =~= y);
    assert(after_colons(t) == after_colons(trimmed_start(y)));
    lemma_trims_commute(x);
}

proof fn lemma_trimmed_end_of_spaces(w: Seq<char>)
    requires
        all_spaces(w),
    ensures
        trimmed_end(w) == Seq::<char>::empty(),
    decreases w.len(),
{
    if w.len() > 0 {
        assert(is_space(w[w.len() - 1]));
        assert forall|i: int| 0 <= i < w.drop_last().len() implies is_space(
            #[trigger] w.drop_last()[i],
        ) by {
            assert(is_space(w[i]));
        }
        lemma_trimmed_end_of_spaces(w.drop_last());
    }
}

proof fn lemma_trimmed_end_last(s: Seq<char>)
    ensures
        trimmed_end(s).len() > 0 ==> !is_space(trimmed_end(s).last()),
    decreases s.len(),
{
    if s.len() > 0 && is_space(s.last()) {
        lemma_trimmed_end_last(s.drop_last());
    }
}

proof fn lemma_trims_commute(x: Seq<char>)
    ensures
        trimmed_start(trimmed_end(x)) == trimmed_end(trimmed_start(x)),
{
    let y = trimmed_end(x);
    let w = lemma_trimmed_end_splits(x);
    lemma_trimmed_end_last(x);
    if y.len() == 0 {
        assert(x =~= w);
        lemma_trimmed_start_of_spaces(x);
        assert(trimmed_start(y) =~= Seq::<char>::empty());
    } else {
        assert(!is_space(y[y.len() - 1]));
        assert(!all_spaces(y));
        lemma_trimmed_start_keeps(y, w);
        let z = trimmed_start(y);
        lemma_trimmed_start_end(y);
        lemma_trimmed_end_joined(z, w);
        lemma_trimmed_end_of_spaces(w);
        assert(z + Seq::<char>::empty() =~= z);
    }
}

proof fn lemma_trimmed_start_end(y: Seq<char>)
    requires
        y.len() > 0,
        !is_space(y.last()),
    ensures
        trimmed_start(y).len() > 0,
        trimmed_start(y).last() == y.last(),
    decreases y.len(),
{
    if is_space(y[0]) {
        assert(y.drop_first().last() == y.last());
        lemma_trimmed_start_end(y.drop_first());
    }
}

/// A name begins with a capital where its first letter has one, and is
/// otherwise what its words are.
pub proof fn law_only_the_first_letter_changes(raw: Seq<char>)
    ensures
        match normalized(raw) {
            Some(t) => {
                let words = words_of(raw);
                &&& t.len() == words.len() > 0
                &&& forall|i: int| 0 < i < t.len() ==> #[trigger] t[i] == words[i]
                &&& is_lowercase_letter(words[0]) && uppercase_of(words[0]).len() == 1 ==> t[0]
                    == uppercase_of(words[0])[0]
                &&& !is_lowercase_letter(words[0]) || uppercase_of(words[0]).len() != 1 ==> t[0]
                    == words[0]
            },
            None => words_of(raw).len() == 0,
        },
{
}

/// What stands before the first colon of a title names its namespace, in
/// capitals or not and with spaces around or not; a title without a colon is in
/// none.
pub proof fn law_namespaces_stand_before_colons(
    prefixes: Set<Seq<char>>,
    name: Seq<char>,
    rest: Seq<char>,
)
    requires
        !name.contains(':'),
    ensures
        has_prefix(prefixes, name + seq![':'] + rest) <==> prefixes.contains(
            lowercase_of(trimmed(name)),
        ),
        !has_prefix(prefixes, name),
{
    let t = name + seq![':'] + rest;
    lemma_char_at(t, ':', 0);
    lemma_char_at(name, ':', 0);
    let i = char_at(t, ':', 0)->0;
    assert(t[name.len() as int] == ':');
    if i < name.len() {
        assert(t[i] == name[i]);
    }
    assert(t.take(name.len() as int) =~= name);
}

/// A namespace is known by its name in lower case, with spaces or with
/// underscores, and nothing else is one.
pub proof fn law_namespaces_are_the_given_names(names: Seq<String>, p: Seq<char>)
    ensures
        prefixes_of(names).contains(p) <==> exists|i: int|
            0 <= i < names.len() && (#[trigger] names[i])@.len() > 0 && (p == lowercase_of(
                names[i]@,
            ) || p == underscored(lowercase_of(names[i]@))),
    decreases names.len(),
{
    if names.len() > 0 {
        let rest = names.drop_last();
        law_namespaces_are_the_given_names(rest, p);
        let k = names.len() - 1;
        assert(names[k] == names.last());
        assert(forall|i: int| 0 <= i < rest.len() ==> rest[i] == names[i]);
        if prefixes_of(rest).contains(p) {
            let i = choose|i: int|
                0 <= i < rest.len() && (#[trigger] rest[i])@.len() > 0 && (p == lowercase_of(
                    rest[i]@,
                ) || p == underscored(lowercase_of(rest[i]@)));
            assert(names[i] == rest[i]);
        }
    }
}

/// A link into the category namespace names a category, in capitals or not; its
/// sort key, which stands behind a bar, is no part of the name.
pub proof fn law_categories_are_read(name: Seq<char>, category: Seq<char>, key: Seq<char>)
    requires
        !name.contains(':'),
        !category.contains('|'),
    ensures
        ascii_lowered(trimmed(name)) == "category"@ ==> category_of(name + seq![':'] + category)
            == normalized(trimmed(category)) && category_of(
            name + seq![':'] + (category + seq!['|'] + key),
        ) == normalized(trimmed(category)),
        ascii_lowered(trimmed(name)) != "category"@ ==> category_of(name + seq![':'] + category)
            is None,
        category_of(name) is None,
{
    lemma_category_at(name, category);
    lemma_category_at(name, category + seq!['|'] + key);
    lemma_char_at(name, ':', 0);
    lemma_char_at(category, '|', 0);
    let t = category + seq!['|'] + key;
    lemma_char_at(t, '|', 0);
    assert(t[category.len() as int] == '|');
    let i = char_at(t, '|', 0)->0;
    if i < category.len() {
        assert(t[i] == category[i]);
    }
    assert(t.take(category.len() as int) =~= category);
}

proof fn lemma_category_at(name: Seq<char>, rest: Seq<char>)
    requires
        !name.contains(':'),
    ensures
        category_of(name + seq![':'] + rest) == (if ascii_lowered(trimmed(name))
            == "category"@ {
            normalized(trimmed(before(rest, '|')))
        } else {
            None
        }),
{
    let t = name + seq![':'] + rest;
    lemma_char_at(t, ':', 0);
    let i = char_at(t, ':', 0)->0;
    assert(t[name.len() as int] == ':');
    if i < name.len() {
        assert(t[i] == name[i]);
    }
    assert(t.take(name.len() as int) =~= name);
    assert(t.skip(name.len() as int + 1) =~= rest);
}

/// A category is about the upkeep of pages, not about their subjects, if its
/// name begins like one of these or holds one of those words; no other is.
pub proof fn law_upkeep_is_told_by_its_name(name: Seq<char>)
    ensures
        is_maintenance(name) <==> {
            ||| begins(name, "Articles "@)
            ||| begins(name, "All articles"@)
            ||| begins(name, "Wikipedia "@)
            ||| begins(name, "CS1 "@)
            ||| begins(name, "Webarchive"@)
            ||| begins(name, "Pages "@)
            ||| begins(name, "All pages"@)
            ||| begins(name, "Use dmy dates"@)
            ||| begins(name, "Use mdy dates"@)
            ||| begins(name, "Short description"@)
            ||| begins(name, "Commons category"@)
            ||| begins(name, "Coordinates "@)
            ||| begins(name, "Official website"@)
            ||| begins(name, "Good articles"@)
            ||| begins(name, "Featured articles"@)
            ||| begins(name, "Redirects "@)
            ||| begins(name, "All redirects"@)
            ||| begins(name, "Template "@)
            ||| begins(name, "Interlanguage "@)
            ||| begins(name, "Harv and Sfn"@)
            ||| begins(name, "AC with "@)
            ||| begins(name, "Vague or ambiguous"@)
            ||| holds(lowercase_of(name), "maint:"@)
            ||| holds(lowercase_of(name), "errors"@)
            ||| holds(lowercase_of(name), "stub"@)
            ||| holds(lowercase_of(name), "with unsourced"@)
            ||| holds(lowercase_of(name), "needing"@)
            ||| holds(lowercase_of(name), "lacking"@)
            ||| holds(lowercase_of(name), "from "@)
            ||| holds(lowercase_of(name), "dead external links"@)
            ||| holds(lowercase_of(name), "unreferenced"@)
            ||| holds(lowercase_of(name), "cleanup"@)
        },
{
    let p = maintenance_prefixes();
    let m = maintenance_marks();
    assert(p[0] == "Articles ");
    assert(p[1] == "All articles");
    assert(p[2] == "Wikipedia ");
    assert(p[3] == "CS1 ");
    assert(p[4] == "Webarchive");
    assert(p[5] == "Pages ");
    assert(p[6] == "All pages");
    assert(p[7] == "Use dmy dates");
    assert(p[8] == "Use mdy dates");
    assert(p[9] == "Short description");
    assert(p[10] == "Commons category");
    assert(p[11] == "Coordinates ");
    assert(p[12] == "Official website");
    assert(p[13] == "Good articles");
    assert(p[14] == "Featured articles");
    assert(p[15] == "Redirects ");
    assert(p[16] == "All redirects");
    assert(p[17] == "Template ");
    assert(p[18] == "Interlanguage ");
    assert(p[19] == "Harv and Sfn");
    assert(p[20] == "AC with ");
    assert(p[21] == "Vague or ambiguous");
    assert(m[0] == "maint:");
    assert(m[1] == "errors");
    assert(m[2] == "stub");
    assert(m[3] == "with unsourced");
    assert(m[4] == "needing");
    assert(m[5] == "lacking");
    assert(m[6] == "from ");
    assert(m[7] == "dead external links");
    assert(m[8] == "unreferenced");
    assert(m[9] == "cleanup");
}
} // verus!
