//! What a page's templates say about the page.
//!
//! One scan over the raw wikitext collects:
//!
//! * `{{Short description|...}}`, the one-line gloss that editors wrote;
//! * disambiguation templates, which mark pages that are forks;
//! * the first `{{Infobox X`, a rough kind of article;
//! * `{{coord|...}}`, coordinates in the real world;
//! * `{{Featured article}}` and `{{Good article}}`.
//!
//! Whoever reads these treats absence as "unknown", so that a missed template
//! does no harm.

use crate::text::{
    among, ascii_lowered, begins, byte_len, chars_of, ends_with, find, finishes, fit, fitting,
    found_at, holds, is_one_of, occurs_at, stands_first, stands_nowhere, lemma_byte_len_monotone, lemma_found_at, same, starts_with,
    string_of, to_ascii_lowered, trim, trimmed, char_bytes, lemma_byte_len_take,
    contains,
};
use vstd::prelude::*;
use vstd::slice::slice_subrange;

verus! {

/// The page is a disambiguation.
pub const FLAG_DISAMBIG: u32 = 1;

/// The page is a featured article.
pub const FLAG_FEATURED: u32 = 2;

/// The page is a good article.
pub const FLAG_GOOD: u32 = 4;

/// The most bytes of a description.
pub const MAX_DESC: usize = 160;

/// The most bytes of a kind.
pub const MAX_KIND: usize = 40;

/// The most bytes of a template name that is looked at.
pub const MAX_NAME: usize = 64;

/// What the templates of a page say.
#[derive(Debug, PartialEq)]
pub struct Extras {
    pub description: Option<String>,
    pub kind: Option<String>,
    pub flags: u32,
    /// The arguments of each coordinate template, in order.
    pub coords: Vec<String>,
}

/// What the templates of a page say, as a value.
pub struct ExtrasView {
    pub description: Option<Seq<char>>,
    pub kind: Option<Seq<char>>,
    pub flags: u32,
    pub coords: Seq<Seq<char>>,
}

/// The text of a string that may be there.
pub open spec fn text_of(s: Option<String>) -> Option<Seq<char>> {
    match s {
        Some(t) => Some(t@),
        None => None,
    }
}

impl View for Extras {
    type V = ExtrasView;

    open spec fn view(&self) -> ExtrasView {
        ExtrasView {
            description: text_of(self.description),
            kind: text_of(self.kind),
            flags: self.flags,
            coords: crate::graph::texts(self.coords@),
        }
    }
}

/// Nothing found.
pub open spec fn no_extras() -> ExtrasView {
    ExtrasView { description: None, kind: None, flags: 0, coords: seq![] }
}

impl Default for Extras {
    fn default() -> (r: Self)
        ensures
            r@ == no_extras(),
    {
        let r = Extras { description: None, kind: None, flags: 0, coords: Vec::new() };
        assert(r@.coords =~= Seq::<Seq<char>>::empty());
        r
    }
}

// ---------------------------------------------------------------------------
// Templates
// ---------------------------------------------------------------------------

/// The first place at or after `from` with a `|` or a `}`.
pub open spec fn delimiter_at(s: Seq<char>, from: int) -> Option<int>
    decreases s.len() - from,
{
    if from < 0 || from >= s.len() {
        None
    } else if s[from] == '|' || s[from] == '}' {
        Some(from)
    } else {
        delimiter_at(s, from + 1)
    }
}

fn find_delimiter(s: &[char], from: usize) -> (r: Option<usize>)
    ensures
        r matches Some(i) ==> delimiter_at(s@, from as int) == Some(i as int) && from <= i < s@.len(),
        r is None ==> delimiter_at(s@, from as int) is None,
{
    let n: usize = s.len();
    let mut i: usize = from;
    while i < n
        invariant
            n == s@.len(),
            from <= i,
            delimiter_at(s@, from as int) == delimiter_at(s@, i as int),
        decreases n - i,
    {
        if s[i] == '|' || s[i] == '}' {
            return Some(i);
        }
        i = i + 1;
    }
    None
}

/// The first place at or after `from` with a `|` or a `}}`.
pub open spec fn argument_end(s: Seq<char>, from: int) -> Option<int>
    decreases s.len() - from,
{
    if from < 0 || from >= s.len() {
        None
    } else if s[from] == '|' || (s[from] == '}' && from + 1 < s.len() && s[from + 1] == '}') {
        Some(from)
    } else {
        argument_end(s, from + 1)
    }
}

fn find_argument_end(s: &[char], from: usize) -> (r: Option<usize>)
    ensures
        r matches Some(i) ==> argument_end(s@, from as int) == Some(i as int) && from <= i < s@.len(),
        r is None ==> argument_end(s@, from as int) is None,
{
    let n: usize = s.len();
    let mut i: usize = from;
    while i < n
        invariant
            n == s@.len(),
            from <= i,
            argument_end(s@, from as int) == argument_end(s@, i as int),
        decreases n - i,
    {
        if s[i] == '|' || (s[i] == '}' && i + 1 < n && s[i + 1] == '}') {
            return Some(i);
        }
        i = i + 1;
    }
    None
}

/// The first argument of a template: after `|`, up to the next `|` or `}}`.
pub open spec fn first_argument(body: Seq<char>) -> Option<Seq<char>> {
    if body.len() > 0 && body[0] == '|' {
        let end = match argument_end(body, 1) {
            Some(e) => e,
            None => body.len() as int,
        };
        Some(trimmed(body.subrange(1, end)))
    } else {
        None
    }
}

fn first_arg(body: &[char]) -> (r: Option<&[char]>)
    ensures
        match r {
            Some(a) => first_argument(body@) == Some(a@),
            None => first_argument(body@) is None,
        },
{
    if body.len() > 0 && body[0] == '|' {
        let end: usize = match find_argument_end(body, 1) {
            Some(e) => e,
            None => body.len(),
        };
        Some(trim(slice_subrange(body, 1, end)))
    } else {
        None
    }
}

/// What stands before the first `}}`.
pub open spec fn before_close(body: Seq<char>) -> Seq<char> {
    match found_at(body, seq!['}', '}'], 0) {
        Some(i) => body.take(i),
        None => body,
    }
}

pub open spec fn description_names() -> Seq<&'static str> {
    seq!["short description", "shortdesc", "short desc"]
}

pub open spec fn coord_names() -> Seq<&'static str> {
    seq!["coord", "coor"]
}

pub open spec fn featured_names() -> Seq<&'static str> {
    seq!["featured article", "featured list"]
}

pub open spec fn good_names() -> Seq<&'static str> {
    seq!["good article", "ga icon"]
}

pub open spec fn disambiguation_names() -> Seq<&'static str> {
    seq!["disambiguation", "disambig", "disamb", "dab", "dmbox", "hndis", "geodis"]
}

/// What one template adds. The first description and the first kind stay.
pub open spec fn with_template(
    found: ExtrasView,
    name: Seq<char>,
    body: Seq<char>,
) -> ExtrasView {
    if among(name, description_names()) {
        match first_argument(body) {
            Some(arg) => if found.description is None && arg.len() > 0 && ascii_lowered(arg)
                != "none"@ {
                ExtrasView { description: Some(fitting(arg, MAX_DESC as nat)), ..found }
            } else {
                found
            },
            None => found,
        }
    } else if among(name, coord_names()) {
        ExtrasView { coords: found.coords.push(before_close(body)), ..found }
    } else if among(name, featured_names()) {
        ExtrasView { flags: found.flags | FLAG_FEATURED, ..found }
    } else if among(name, good_names()) {
        ExtrasView { flags: found.flags | FLAG_GOOD, ..found }
    } else if among(name, disambiguation_names()) || finishes(name, "disambiguation"@) {
        ExtrasView { flags: found.flags | FLAG_DISAMBIG, ..found }
    } else if found.kind is None && begins(name, "infobox"@) {
        let kind = trimmed(name.skip("infobox"@.len() as int));
        if kind.len() > 0 {
            ExtrasView { kind: Some(fitting(kind, MAX_KIND as nat)), ..found }
        } else {
            found
        }
    } else {
        found
    }
}

/// What the template adds that `rest` begins with, just past its `{{`. Names
/// that are empty or too long are passed over.
pub open spec fn with_opener(found: ExtrasView, rest: Seq<char>) -> ExtrasView {
    match delimiter_at(rest, 0) {
        None => found,
        Some(e) => {
            let name = trimmed(rest.take(e));
            if byte_len(rest.take(e)) > MAX_NAME || name.len() == 0 {
                found
            } else {
                with_template(found, ascii_lowered(name), rest.skip(e))
            }
        },
    }
}

pub open spec fn template_open() -> Seq<char> {
    seq!['{', '{']
}

/// What all templates from place `i` on add.
pub open spec fn with_templates(found: ExtrasView, s: Seq<char>, i: int) -> ExtrasView
    decreases s.len() - i,
    via with_templates_decreases
{
    match found_at(s, template_open(), i) {
        None => found,
        Some(at) => with_templates(with_opener(found, s.skip(at + 2)), s, at + 2),
    }
}

#[via_fn]
proof fn with_templates_decreases(found: ExtrasView, s: Seq<char>, i: int) {
    if i >= 0 {
        lemma_found_at(s, template_open(), i);
    }
}

/// What the title alone says.
pub open spec fn title_extras(title: Seq<char>) -> ExtrasView {
    if finishes(title, " (disambiguation)"@) {
        ExtrasView { flags: FLAG_DISAMBIG, ..no_extras() }
    } else {
        no_extras()
    }
}

fn name_fits(s: &[char]) -> (r: bool)
    ensures
        r == (byte_len(s@) <= MAX_NAME),
{
    let n: usize = s.len();
    let mut used: usize = 0;
    let mut i: usize = 0;
    assert(s@.take(0) =~= Seq::<char>::empty());
    assert(s@.take(n as int) =~= s@);
    while i < n
        invariant
            n == s@.len(),
            i <= n,
            used <= MAX_NAME,
            used == byte_len(s@.take(i as int)),
            s@.take(n as int) == s@,
        decreases n - i,
    {
        proof {
            lemma_byte_len_take(s@, i as int);
            lemma_byte_len_monotone(s@, i + 1, n as int);
        }
        used = used + char_bytes(s[i]);
        if used > MAX_NAME {
            return false;
        }
        i = i + 1;
    }
    true
}

impl Extras {
    fn take_template(&mut self, name: &[char], body: &[char])
        ensures
            final(self)@ == with_template(old(self)@, name@, body@),
    {
        let descriptions: [&str; 3] = ["short description", "shortdesc", "short desc"];
        let coord: [&str; 2] = ["coord", "coor"];
        let featured: [&str; 2] = ["featured article", "featured list"];
        let good: [&str; 2] = ["good article", "ga icon"];
        let disambiguations: [&str; 7] = [
            "disambiguation",
            "disambig",
            "disamb",
            "dab",
            "dmbox",
            "hndis",
            "geodis",
        ];
        assert(descriptions@ =~= description_names());
        assert(coord@ =~= coord_names());
        assert(featured@ =~= featured_names());
        assert(good@ =~= good_names());
        assert(disambiguations@ =~= disambiguation_names());
        let ghost was = self@;
        if is_one_of(name, descriptions.as_slice()) {
            if self.description.is_none() {
                if let Some(arg) = first_arg(body) {
                    let none = chars_of("none");
                    let lowered = to_ascii_lowered(arg);
                    // "none" is how editors say that there is no gloss.
                    if arg.len() > 0 && !same(lowered.as_slice(), none.as_slice()) {
                        let short = fit(arg, MAX_DESC);
                        let text = string_of(short, 0, short.len());
                        assert(text@ =~= short@);
                        self.description = Some(text);
                    }
                }
            }
        } else if is_one_of(name, coord.as_slice()) {
            let close = vec!['}', '}'];
            assert(close@ =~= seq!['}', '}']);
            let end: usize = match find(body, close.as_slice(), 0) {
                Some(e) => e,
                None => body.len(),
            };
            let text = string_of(body, 0, end);
            assert(text@ =~= before_close(body@));
            self.coords.push(text);
            assert(self@.coords =~= was.coords.push(before_close(body@)));
        } else if is_one_of(name, featured.as_slice()) {
            self.flags = self.flags | FLAG_FEATURED;
        } else if is_one_of(name, good.as_slice()) {
            self.flags = self.flags | FLAG_GOOD;
        } else {
            let suffix = chars_of("disambiguation");
            if is_one_of(name, disambiguations.as_slice()) || ends_with(name, suffix.as_slice()) {
                self.flags = self.flags | FLAG_DISAMBIG;
            } else if self.kind.is_none() {
                let prefix = chars_of("infobox");
                if starts_with(name, prefix.as_slice()) {
                    let tail = slice_subrange(name, prefix.len(), name.len());
                    assert(tail@ =~= name@.skip("infobox"@.len() as int));
                    let kind = trim(tail);
                    if kind.len() > 0 {
                        let short = fit(kind, MAX_KIND);
                        let text = string_of(short, 0, short.len());
                        assert(text@ =~= short@);
                        self.kind = Some(text);
                    }
                }
            }
        }
    }
}

/// Scan raw wikitext for what its templates say.
///
/// A title that ends in " (disambiguation)" is a stronger sign than any
/// template.
pub fn extract(text: &str, title: &str) -> (r: Extras)
    ensures
        r@ == with_templates(title_extras(title@), text@, 0),
{
    let chars = chars_of(text);
    let title_chars = chars_of(title);
    extract_chars(chars.as_slice(), title_chars.as_slice())
}

/// `extract`, on characters.
pub fn extract_chars(s: &[char], title: &[char]) -> (r: Extras)
    ensures
        r@ == with_templates(title_extras(title@), s@, 0),
{
    let mut out = Extras::default();
    let suffix = chars_of(" (disambiguation)");
    if ends_with(title, suffix.as_slice()) {
        out.flags = FLAG_DISAMBIG;
    }
    let open = vec!['{', '{'];
    assert(open@ =~= template_open());
    let n: usize = s.len();
    let ghost goal = with_templates(title_extras(title@), s@, 0);
    let mut i: usize = 0;
    loop
        invariant
            n == s@.len(),
            open@ == template_open(),
            i <= n,
            goal == with_templates(title_extras(title@), s@, 0),
            with_templates(out@, s@, i as int) == goal,
        decreases n - i,
    {
        proof {
            lemma_found_at(s@, template_open(), i as int);
        }
        let at: usize = match find(s, open.as_slice(), i) {
            None => {
                return out;
            },
            Some(at) => at,
        };
        i = at + 2;
        let rest = slice_subrange(s, i, n);
        assert(rest@ =~= s@.skip(at + 2));
        if let Some(e) = find_delimiter(rest, 0) {
            let raw = slice_subrange(rest, 0, e);
            assert(raw@ =~= rest@.take(e as int));
            let name = trim(raw);
            if name_fits(raw) && name.len() > 0 {
                let lowered = to_ascii_lowered(name);
                let body = slice_subrange(rest, e, rest.len());
                assert(body@ =~= rest@.skip(e as int));
                out.take_template(lowered.as_slice(), body);
            }
        }
    }
}

// ---------------------------------------------------------------------------
// Coordinates
// ---------------------------------------------------------------------------

/// The coordinates are those of the page and not of something on it.
pub open spec fn is_title_coord(body: Seq<char>) -> bool {
    ||| holds(body, "display=title"@)
    ||| holds(body, "display=t|"@)
    ||| finishes(body, "display=t"@)
}

/// Whether coordinates are those of the page itself.
pub fn coord_is_title(body: &str) -> (r: bool)
    ensures
        r == is_title_coord(body@),
{
    let chars = chars_of(body);
    let long = chars_of("display=title");
    let short = chars_of("display=t|");
    let last = chars_of("display=t");
    contains(chars.as_slice(), long.as_slice()) || contains(chars.as_slice(), short.as_slice())
        || ends_with(chars.as_slice(), last.as_slice())
}

/// The arguments from place `i` on: what stands between pipes, trimmed, empty
/// ones left out.
pub open spec fn arguments(s: Seq<char>, i: int) -> Seq<Seq<char>>
    decreases s.len() - i,
    via arguments_decreases
{
    let end = match crate::text::char_at(s, '|', i) {
        Some(e) => e,
        None => s.len() as int,
    };
    let arg = trimmed(s.subrange(i, end));
    let rest = if end >= s.len() {
        seq![]
    } else {
        arguments(s, end + 1)
    };
    if arg.len() > 0 {
        seq![arg] + rest
    } else {
        rest
    }
}

#[via_fn]
proof fn arguments_decreases(s: Seq<char>, i: int) {
    if i >= 0 {
        crate::text::lemma_char_at(s, '|', i);
    }
}

/// The arguments of a coordinate template.
pub fn coord_arguments(body: &str) -> (r: Vec<String>)
    ensures
        crate::graph::texts(r@) == arguments(body@, 0),
{
    let chars = chars_of(body);
    let s: &[char] = chars.as_slice();
    let n: usize = s.len();
    let mut out: Vec<String> = Vec::new();
    let mut i: usize = 0;
    assert(crate::graph::texts(out@) + arguments(s@, 0) =~= arguments(s@, 0));
    loop
        invariant
            n == s@.len(),
            s@ == body@,
            i <= n,
            crate::graph::texts(out@) + arguments(s@, i as int) == arguments(s@, 0),
        decreases n - i,
    {
        proof {
            crate::text::lemma_char_at(s@, '|', i as int);
        }
        let end: usize = match crate::text::find_char(s, '|', i) {
            Some(e) => e,
            None => n,
        };
        let arg = trim(slice_subrange(s, i, end));
        let ghost head = crate::graph::texts(out@);
        let ghost rest = if end >= s@.len() {
            seq![]
        } else {
            arguments(s@, end + 1)
        };
        if arg.len() > 0 {
            let text = string_of(arg, 0, arg.len());
            assert(text@ =~= arg@);
            out.push(text);
            assert(crate::graph::texts(out@) =~= head.push(arg@));
            assert(head.push(arg@) + rest =~= head + (seq![arg@] + rest));
        }
        if end >= n {
            assert(crate::graph::texts(out@) + Seq::<Seq<char>>::empty() =~= crate::graph::texts(
                out@,
            ));
            return out;
        }
        i = end + 1;
    }
}

/// What an argument of a coordinate template is.
#[derive(Clone, Copy, Debug, PartialEq, Eq, Structural)]
pub enum CoordPart {
    Number,
    North,
    South,
    East,
    West,
    /// Anything else. The arguments that matter end here.
    Other,
}

/// One angle: which arguments hold its degrees, minutes and seconds, and
/// whether it counts backwards.
#[derive(Clone, Copy, Debug, PartialEq, Eq, Structural)]
pub struct Angle {
    pub first: usize,
    pub count: usize,
    pub negative: bool,
}

/// How far the reading of coordinates has come: latitude, longitude, and the
/// numbers since the last compass letter.
pub struct Reading {
    pub lat: Option<Angle>,
    pub lon: Option<Angle>,
    pub first: int,
    pub count: int,
    pub over: bool,
    pub failed: bool,
}

/// The reading of the first `i` arguments.
pub open spec fn reading(parts: Seq<CoordPart>, i: int) -> Reading
    decreases i,
{
    if i <= 0 {
        Reading { lat: None, lon: None, first: 0, count: 0, over: false, failed: false }
    } else {
        let r = reading(parts, i - 1);
        if r.over || r.failed {
            r
        } else {
            let angle = Angle {
                first: r.first as usize,
                count: r.count as usize,
                negative: parts[i - 1] == CoordPart::South || parts[i - 1] == CoordPart::West,
            };
            match parts[i - 1] {
                CoordPart::Number => Reading { count: r.count + 1, ..r },
                CoordPart::North | CoordPart::South => if 1 <= r.count <= 3 {
                    Reading { lat: Some(angle), first: i, count: 0, ..r }
                } else {
                    Reading { failed: true, ..r }
                },
                CoordPart::East | CoordPart::West => if 1 <= r.count <= 3 {
                    Reading { lon: Some(angle), first: i, count: 0, ..r }
                } else {
                    Reading { failed: true, ..r }
                },
                CoordPart::Other => Reading { over: true, ..r },
            }
        }
    }
}

/// Latitude and longitude: each up to a compass letter, or the first two
/// numbers where there is no compass letter.
pub open spec fn coord_angles(parts: Seq<CoordPart>) -> Option<(Angle, Angle)> {
    let r = reading(parts, parts.len() as int);
    if r.failed {
        None
    } else if r.lat is Some && r.lon is Some {
        Some((r.lat->0, r.lon->0))
    } else if r.lat is None && r.lon is None && r.count >= 2 {
        Some(
            (
                Angle { first: r.first as usize, count: 1, negative: false },
                Angle { first: (r.first + 1) as usize, count: 1, negative: false },
            ),
        )
    } else {
        None
    }
}

/// Which arguments of a coordinate template are its latitude and its
/// longitude: decimal (`|40.71|-74.0`) or in degrees, minutes and seconds
/// (`|40|42|46|N|74|0|22|W`).
pub fn read_coord(parts: &[CoordPart]) -> (r: Option<(Angle, Angle)>)
    ensures
        r == coord_angles(parts@),
{
    let n: usize = parts.len();
    let mut lat: Option<Angle> = None;
    let mut lon: Option<Angle> = None;
    let mut first: usize = 0;
    let mut count: usize = 0;
    let mut i: usize = 0;
    while i < n
        invariant
            n == parts@.len(),
            i <= n,
            first + count <= i,
            reading(parts@, i as int) == (Reading {
                lat,
                lon,
                first: first as int,
                count: count as int,
                over: false,
                failed: false,
            }),
        ensures
            first + count <= n,
            ({
                let r = reading(parts@, n as int);
                &&& r.lat == lat
                &&& r.lon == lon
                &&& r.first == first
                &&& r.count == count
                &&& !r.failed
            }),
        decreases n - i,
    {
        let part = parts[i];
        match part {
            CoordPart::Number => {
                count = count + 1;
            },
            CoordPart::Other => {
                proof {
                    lemma_reading_over(parts@, i + 1, n as int);
                }
                break;
            },
            _ => {
                if count < 1 || count > 3 {
                    proof {
                        lemma_reading_over(parts@, i + 1, n as int);
                    }
                    return None;
                }
                let negative = part == CoordPart::South || part == CoordPart::West;
                let angle = Angle { first, count, negative };
                if part == CoordPart::North || part == CoordPart::South {
                    lat = Some(angle);
                } else {
                    lon = Some(angle);
                }
                first = i + 1;
                count = 0;
            },
        }
        i = i + 1;
    }
    match (lat, lon) {
        (Some(a), Some(b)) => Some((a, b)),
        (None, None) => if count >= 2 {
            Some(
                (
                    Angle { first, count: 1, negative: false },
                    Angle { first: first + 1, count: 1, negative: false },
                ),
            )
        } else {
            None
        },
        _ => None,
    }
}

proof fn lemma_reading_over(parts: Seq<CoordPart>, i: int, j: int)
    requires
        0 <= i <= j <= parts.len(),
        reading(parts, i).over || reading(parts, i).failed,
    ensures
        reading(parts, j) == reading(parts, i),
    decreases j,
{
    if i < j {
        lemma_reading_over(parts, i, j - 1);
    }
}

/// One coordinate template, as far as choosing goes: whether its numbers make
/// sense, and whether it is that of the page itself.
#[derive(Clone, Copy, Debug, PartialEq, Eq, Structural)]
pub struct CoordCandidate {
    pub valid: bool,
    pub is_title: bool,
}

/// `i` is the first candidate with valid numbers and, where `title` is set,
/// that of the page.
pub open spec fn is_first_valid(list: Seq<CoordCandidate>, title: bool, i: int) -> bool {
    &&& 0 <= i < list.len()
    &&& list[i].valid
    &&& title ==> list[i].is_title
    &&& forall|j: int| 0 <= j < i ==> !((#[trigger] list[j]).valid && (title ==> list[j].is_title))
}

/// Choose the coordinates of a page: the first that are the page's own, or
/// else the first.
pub fn choose_coord(list: &[CoordCandidate]) -> (r: Option<usize>)
    ensures
        match r {
            Some(i) => is_first_valid(list@, true, i as int) || (is_first_valid(
                list@,
                false,
                i as int,
            ) && forall|j: int|
                0 <= j < list@.len() ==> !((#[trigger] list@[j]).valid && list@[j].is_title)),
            None => forall|j: int| 0 <= j < list@.len() ==> !(#[trigger] list@[j]).valid,
        },
{
    let n: usize = list.len();
    let mut kept: Option<usize> = None;
    let mut i: usize = 0;
    while i < n
        invariant
            n == list@.len(),
            i <= n,
            forall|j: int| 0 <= j < i ==> !((#[trigger] list@[j]).valid && list@[j].is_title),
            match kept {
                Some(k) => k < i && is_first_valid(list@, false, k as int),
                None => forall|j: int| 0 <= j < i ==> !(#[trigger] list@[j]).valid,
            },
        decreases n - i,
    {
        let c = list[i];
        if c.valid {
            if c.is_title {
                return Some(i);
            }
            if kept.is_none() {
                kept = Some(i);
            }
        }
        i = i + 1;
    }
    kept
}

// ---------------------------------------------------------------------------
// Laws
// ---------------------------------------------------------------------------

proof fn lemma_among_description_names(name: Seq<char>)
    ensures
        among(name, description_names()) <==> {
            ||| name == "short description"@
            ||| name == "shortdesc"@
            ||| name == "short desc"@
        },
{
    let list = description_names();
    assert(list[0] == "short description");
    assert(list[1] == "shortdesc");
    assert(list[2] == "short desc");
}

proof fn lemma_among_coord_names(name: Seq<char>)
    ensures
        among(name, coord_names()) <==> {
            ||| name == "coord"@
            ||| name == "coor"@
        },
{
    let list = coord_names();
    assert(list[0] == "coord");
    assert(list[1] == "coor");
}

proof fn lemma_among_featured_names(name: Seq<char>)
    ensures
        among(name, featured_names()) <==> {
            ||| name == "featured article"@
            ||| name == "featured list"@
        },
{
    let list = featured_names();
    assert(list[0] == "featured article");
    assert(list[1] == "featured list");
}

proof fn lemma_among_good_names(name: Seq<char>)
    ensures
        among(name, good_names()) <==> {
            ||| name == "good article"@
            ||| name == "ga icon"@
        },
{
    let list = good_names();
    assert(list[0] == "good article");
    assert(list[1] == "ga icon");
}

proof fn lemma_among_disambiguation_names(name: Seq<char>)
    ensures
        among(name, disambiguation_names()) <==> {
            ||| name == "disambiguation"@
            ||| name == "disambig"@
            ||| name == "disamb"@
            ||| name == "dab"@
            ||| name == "dmbox"@
            ||| name == "hndis"@
            ||| name == "geodis"@
        },
{
    let list = disambiguation_names();
    assert(list[0] == "disambiguation");
    assert(list[1] == "disambig");
    assert(list[2] == "disamb");
    assert(list[3] == "dab");
    assert(list[4] == "dmbox");
    assert(list[5] == "hndis");
    assert(list[6] == "geodis");
}

proof fn lemma_template_names_differ(name: Seq<char>)
    ensures
        among(name, description_names()) ==> name.len() > 1 && name[0] == 's',
        among(name, coord_names()) ==> name.len() > 1 && name[0] == 'c',
        among(name, featured_names()) ==> name.len() > 1 && name[0] == 'f',
        among(name, good_names()) ==> name.len() > 1 && name[0] == 'g' && name[1] != 'e',
        among(name, disambiguation_names()) ==> name.len() > 1 && (name[0] == 'd' || name[0] == 'h'
            || name[0] == 'g' && name[1] == 'e'),
        begins(name, "infobox"@) ==> name.len() > 1 && name[0] == 'i',
{
    lemma_among_description_names(name);
    lemma_among_coord_names(name);
    lemma_among_featured_names(name);
    lemma_among_good_names(name);
    lemma_among_disambiguation_names(name);
    reveal_strlit("short description");
    reveal_strlit("shortdesc");
    reveal_strlit("short desc");
    reveal_strlit("coord");
    reveal_strlit("coor");
    reveal_strlit("featured article");
    reveal_strlit("featured list");
    reveal_strlit("good article");
    reveal_strlit("ga icon");
    reveal_strlit("disambiguation");
    reveal_strlit("disambig");
    reveal_strlit("disamb");
    reveal_strlit("dab");
    reveal_strlit("dmbox");
    reveal_strlit("hndis");
    reveal_strlit("geodis");
    reveal_strlit("infobox");
    if begins(name, "infobox"@) {
        assert(name.subrange(0, "infobox"@.len() as int)[0] == "infobox"@[0]);
        assert("infobox"@[0] == 'i');
    }
}

/// Templates that mark a page set one flag each and change nothing else: four
/// for a good article, two for a featured one, one for a disambiguation.
pub proof fn law_templates_set_flags(found: ExtrasView, name: Seq<char>, body: Seq<char>)
    ensures
        name == "good article"@ || name == "ga icon"@ ==> with_template(found, name, body) == (
        ExtrasView { flags: found.flags | 4, ..found }),
        name == "featured article"@ || name == "featured list"@ ==> with_template(found, name, body)
            == (ExtrasView { flags: found.flags | 2, ..found }),
        ({
            ||| name == "disambiguation"@
            ||| name == "disambig"@
            ||| name == "disamb"@
            ||| name == "dab"@
            ||| name == "dmbox"@
            ||| name == "hndis"@
            ||| name == "geodis"@
        }) ==> with_template(found, name, body) == (ExtrasView { flags: found.flags | 1, ..found }),
        name == "coord"@ || name == "coor"@ ==> with_template(found, name, body).flags
            == found.flags,
{
    lemma_template_names_differ(name);
    lemma_among_description_names(name);
    lemma_among_coord_names(name);
    lemma_among_featured_names(name);
    lemma_among_good_names(name);
    lemma_among_disambiguation_names(name);
}

/// The first description of a page is kept, up to as many characters as fit in
/// a hundred and sixty bytes. It is what stands up to the next bar or the end of
/// the template, without white space around; an empty one, or `none`, is none.
pub proof fn law_the_first_description_is_kept(
    found: ExtrasView,
    name: Seq<char>,
    arg: Seq<char>,
    rest: Seq<char>,
)
    requires
        name == "short description"@ || name == "shortdesc"@ || name == "short desc"@,
        !arg.contains('|'),
        !arg.contains('}'),
        begins(rest, seq!['}', '}']) || begins(rest, seq!['|']) || rest.len() == 0,
    ensures
        found.description is Some ==> with_template(found, name, seq!['|'] + arg + rest) == found,
        found.description is None && (trimmed(arg).len() == 0 || ascii_lowered(trimmed(arg))
            == "none"@) ==> with_template(found, name, seq!['|'] + arg + rest) == found,
        found.description is None && trimmed(arg).len() > 0 && ascii_lowered(trimmed(arg))
            != "none"@ ==> with_template(found, name, seq!['|'] + arg + rest) == (ExtrasView {
            description: Some(fitting(trimmed(arg), 160)),
            ..found
        }),
{
    lemma_among_description_names(name);
    let body = seq!['|'] + arg + rest;
    let n = 1 + arg.len() as int;
    if rest.len() > 0 {
        if begins(rest, seq!['}', '}']) {
            assert(rest.subrange(0, 2)[0] == '}');
            assert(rest.subrange(0, 2)[1] == '}');
            assert(body[n + 1] == rest[1]);
        } else {
            assert(rest.subrange(0, 1)[0] == '|');
        }
        assert(body[n] == rest[0]);
    }
    assert forall|j: int| 1 <= j < n implies #[trigger] body[j] != '|' && body[j] != '}' by {
        assert(body[j] == arg[j - 1]);
    }
    lemma_argument_end_is(body, 1, n);
    assert(body.subrange(1, n) =~= arg);
}

proof fn lemma_argument_end_is(s: Seq<char>, from: int, n: int)
    requires
        0 <= from <= n <= s.len(),
        forall|j: int| from <= j < n ==> #[trigger] s[j] != '|' && s[j] != '}',
        n < s.len() ==> s[n] == '|' || (s[n] == '}' && n + 1 < s.len() && s[n + 1] == '}'),
    ensures
        argument_end(s, from) == (if n < s.len() {
            Some(n)
        } else {
            None
        }),
    decreases n - from,
{
    if from < n {
        assert(s[from] != '|');
        lemma_argument_end_is(s, from + 1, n);
    }
}

/// The first box of a page tells its kind: what stands behind `infobox` in the
/// template's name, up to as many characters as fit in forty bytes.
pub proof fn law_the_first_box_tells_the_kind(found: ExtrasView, kind: Seq<char>, body: Seq<char>)
    requires
        !finishes("infobox"@ + kind, "disambiguation"@),
    ensures
        found.kind is Some ==> with_template(found, "infobox"@ + kind, body) == found,
        found.kind is None && trimmed(kind).len() > 0 ==> with_template(
            found,
            "infobox"@ + kind,
            body,
        ) == (ExtrasView { kind: Some(fitting(trimmed(kind), 40)), ..found }),
        trimmed(kind).len() == 0 ==> with_template(found, "infobox"@ + kind, body) == found,
{
    let name = "infobox"@ + kind;
    let n = "infobox"@.len() as int;
    lemma_template_names_differ(name);
    assert(name.subrange(0, n) =~= "infobox"@);
    assert(occurs_at(name, "infobox"@, 0));
    assert(name.skip(n) =~= kind);
}

/// Coordinates are kept as they are written, in the order in which they stand.
pub proof fn law_coordinates_are_kept(
    found: ExtrasView,
    name: Seq<char>,
    inside: Seq<char>,
    rest: Seq<char>,
)
    requires
        name == "coord"@ || name == "coor"@,
        !inside.contains('}'),
    ensures
        with_template(found, name, inside + seq!['}', '}'] + rest) == (ExtrasView {
            coords: found.coords.push(inside),
            ..found
        }),
{
    let body = inside + seq!['}', '}'] + rest;
    lemma_before_close_is(inside, rest);
    assert(among(name, coord_names()) && !among(name, description_names())) by {
        lemma_among_coord_names(name);
        lemma_template_names_differ(name);
    }
}

proof fn lemma_before_close_is(inside: Seq<char>, rest: Seq<char>)
    requires
        !inside.contains('}'),
    ensures
        before_close(inside + seq!['}', '}'] + rest) == inside,
{
    let body = inside + seq!['}', '}'] + rest;
    let close = seq!['}', '}'];
    let n = inside.len() as int;
    assert(body.subrange(n, n + 2) =~= close);
    assert forall|j: int| 0 <= j < n implies !#[trigger] occurs_at(body, close, j) by {
        assert(body[j] == inside[j]);
        if occurs_at(body, close, j) {
            assert(body.subrange(j, j + 2)[0] == '}');
        }
    }
    lemma_found_at(body, close, 0);
    assert(occurs_at(body, close, n));
    assert(body.take(n) =~= inside);
}

/// A template with no such name leaves everything as it is.
pub proof fn law_other_templates_say_nothing(
    found: ExtrasView,
    name: Seq<char>,
    body: Seq<char>,
)
    requires
        !begins(name, "infobox"@),
        !finishes(name, "disambiguation"@),
        name != "short description"@,
        name != "shortdesc"@,
        name != "short desc"@,
        name != "coord"@,
        name != "coor"@,
        name != "featured article"@,
        name != "featured list"@,
        name != "good article"@,
        name != "ga icon"@,
        name != "disambig"@,
        name != "disamb"@,
        name != "dab"@,
        name != "dmbox"@,
        name != "hndis"@,
        name != "geodis"@,
        name != "disambiguation"@,
    ensures
        with_template(found, name, body) == found,
{
    lemma_among_description_names(name);
    lemma_among_coord_names(name);
    lemma_among_featured_names(name);
    lemma_among_good_names(name);
    lemma_among_disambiguation_names(name);
}

/// Every template is looked at, one inside another too: after one the next is
/// looked for right behind its braces.
pub proof fn law_every_template_is_read(found: ExtrasView, s: Seq<char>, i: int, p: int)
    requires
        0 <= i,
    ensures
        stands_first(s, seq!['{', '{'], i, p) ==> with_templates(found, s, i) == with_templates(
            with_opener(found, s.skip(p + 2)),
            s,
            p + 2,
        ),
        stands_nowhere(s, seq!['{', '{'], i) ==> with_templates(found, s, i) == found,
{
    let open = seq!['{', '{'];
    lemma_found_at(s, open, i);
    if stands_first(s, open, i, p) {
        let f = found_at(s, open, i);
        assert(f is Some);
        if f->0 < p {
            assert(!occurs_at(s, open, f->0));
        }
    }
}

/// A template's name is what stands before the first bar or brace, in capitals
/// or not. A name that is empty or longer than sixty-four bytes is none.
pub proof fn law_templates_are_known_by_name(
    found: ExtrasView,
    name: Seq<char>,
    rest: Seq<char>,
)
    requires
        !name.contains('|'),
        !name.contains('}'),
        rest.len() > 0 ==> rest[0] == '|' || rest[0] == '}',
    ensures
        rest.len() > 0 && byte_len(name) <= 64 && trimmed(name).len() > 0 ==> with_opener(
            found,
            name + rest,
        ) == with_template(found, ascii_lowered(trimmed(name)), rest),
        rest.len() == 0 || byte_len(name) > 64 || trimmed(name).len() == 0 ==> with_opener(
            found,
            name + rest,
        ) == found,
{
    let s = name + rest;
    let n = name.len() as int;
    assert forall|j: int| 0 <= j < n implies #[trigger] s[j] != '|' && s[j] != '}' by {
        assert(s[j] == name[j]);
    }
    lemma_delimiter_is(s, 0, n);
    assert(s.take(n) =~= name);
    assert(s.skip(n) =~= rest);
}

proof fn lemma_delimiter_is(s: Seq<char>, from: int, n: int)
    requires
        0 <= from <= n <= s.len(),
        forall|j: int| from <= j < n ==> #[trigger] s[j] != '|' && s[j] != '}',
        n < s.len() ==> s[n] == '|' || s[n] == '}',
    ensures
        delimiter_at(s, from) == (if n < s.len() {
            Some(n)
        } else {
            None
        }),
    decreases n - from,
{
    if from < n {
        assert(s[from] != '|');
        lemma_delimiter_is(s, from + 1, n);
    }
}

proof fn lemma_numbers_are_read(parts: Seq<CoordPart>, i: int, k: int)
    requires
        0 <= i <= k <= parts.len(),
        forall|j: int| i <= j < k ==> #[trigger] parts[j] == CoordPart::Number,
        !reading(parts, i).over,
        !reading(parts, i).failed,
    ensures
        reading(parts, k) == (Reading {
            count: reading(parts, i).count + (k - i),
            ..reading(parts, i)
        }),
    decreases k - i,
{
    if i < k {
        lemma_numbers_are_read(parts, i, k - 1);
        assert(parts[k - 1] == CoordPart::Number);
    }
}

proof fn lemma_reading_is_over(parts: Seq<CoordPart>, i: int, k: int)
    requires
        0 <= i <= k <= parts.len(),
        reading(parts, i).over || reading(parts, i).failed,
    ensures
        reading(parts, k) == reading(parts, i),
    decreases k - i,
{
    if i < k {
        lemma_reading_is_over(parts, i, k - 1);
    }
}

/// Up to three numbers and a letter for the side are an angle: degrees, minutes
/// and seconds. The latitude comes first; south and west are negative. What
/// follows and is no number or side does not matter.
pub proof fn law_angles_are_read(parts: Seq<CoordPart>, a: int, b: int)
    requires
        1 <= a <= 3,
        1 <= b <= 3,
        a + 1 + b < parts.len() <= usize::MAX,
        forall|j: int| 0 <= j < a ==> #[trigger] parts[j] == CoordPart::Number,
        parts[a] == CoordPart::North || parts[a] == CoordPart::South,
        forall|j: int| a < j < a + 1 + b ==> #[trigger] parts[j] == CoordPart::Number,
        parts[a + 1 + b] == CoordPart::East || parts[a + 1 + b] == CoordPart::West,
        a + 2 + b < parts.len() ==> parts[a + 2 + b] == CoordPart::Other,
    ensures
        coord_angles(parts) == Some(
            (
                Angle { first: 0, count: a as usize, negative: parts[a] == CoordPart::South },
                Angle {
                    first: (a + 1) as usize,
                    count: b as usize,
                    negative: parts[a + 1 + b] == CoordPart::West,
                },
            ),
        ),
{
    let start = Reading { lat: None, lon: None, first: 0, count: 0, over: false, failed: false };
    assert(reading(parts, 0) == start);
    lemma_numbers_are_read(parts, 0, a);
    assert(reading(parts, a) == (Reading { count: a, ..start }));
    let lat = Angle { first: 0, count: a as usize, negative: parts[a] == CoordPart::South };
    let half = Reading { lat: Some(lat), first: a + 1, ..start };
    assert(reading(parts, a + 1) == half);
    lemma_numbers_are_read(parts, a + 1, a + 1 + b);
    let n = parts.len() as int;
    let end = a + 2 + b;
    assert(reading(parts, end).lat == Some(lat));
    assert(reading(parts, end).lon is Some);
    if end < n {
        let r = reading(parts, end + 1);
        assert(r.over);
        lemma_reading_is_over(parts, end + 1, n);
    }
}

/// Without a side, the first two numbers are the two angles; one number alone is
/// none, and neither is anything before the first number.
pub proof fn law_plain_numbers_are_angles(parts: Seq<CoordPart>, a: int)
    requires
        0 <= a <= parts.len() <= usize::MAX,
        forall|j: int| 0 <= j < a ==> #[trigger] parts[j] == CoordPart::Number,
        a < parts.len() ==> parts[a] == CoordPart::Other,
    ensures
        a >= 2 ==> coord_angles(parts) == Some(
            (
                Angle { first: 0, count: 1, negative: false },
                Angle { first: 1, count: 1, negative: false },
            ),
        ),
        a < 2 ==> coord_angles(parts) is None,
{
    lemma_numbers_are_read(parts, 0, a);
    if a < parts.len() {
        assert(reading(parts, a + 1).over);
        lemma_reading_is_over(parts, a + 1, parts.len() as int);
    }
}

/// A side with no number before it, or with more than three, is no angle, and
/// then there are no coordinates.
pub proof fn law_sides_need_numbers(parts: Seq<CoordPart>, a: int)
    requires
        0 <= a < parts.len(),
        a == 0 || a > 3,
        forall|j: int| 0 <= j < a ==> #[trigger] parts[j] == CoordPart::Number,
        parts[a] == CoordPart::North || parts[a] == CoordPart::South || parts[a] == CoordPart::East
            || parts[a] == CoordPart::West,
    ensures
        coord_angles(parts) is None,
{
    lemma_numbers_are_read(parts, 0, a);
    assert(reading(parts, a + 1).failed);
    lemma_reading_is_over(parts, a + 1, parts.len() as int);
}

/// A title that ends with the word in brackets is that of a disambiguation, and
/// no other title says so.
pub proof fn law_titles_tell_disambiguations(title: Seq<char>, front: Seq<char>)
    ensures
        title_extras(front + " (disambiguation)"@).flags == 1,
        title_extras(title).flags == 1 <==> finishes(title, " (disambiguation)"@),
        title_extras(title).flags <= 1,
        title_extras(title).description is None,
        title_extras(title).kind is None,
        title_extras(title).coords.len() == 0,
{
    let t = front + " (disambiguation)"@;
    assert(t.skip(t.len() - " (disambiguation)"@.len()) =~= " (disambiguation)"@);
}
/// The arguments of a template are what stands between its bars, without white
/// space around; empty ones are left out.
pub proof fn law_arguments_stand_between_bars(s: Seq<char>, i: int, end: int)
    requires
        0 <= i <= end <= s.len(),
        end < s.len() ==> s[end] == '|',
        forall|k: int| i <= k < end ==> #[trigger] s[k] != '|',
    ensures
        ({
            let arg = trimmed(s.subrange(i, end));
            let rest = if end < s.len() {
                arguments(s, end + 1)
            } else {
                seq![]
            };
            arguments(s, i) == (if arg.len() > 0 {
                seq![arg] + rest
            } else {
                rest
            })
        }),
{
    crate::text::lemma_char_at(s, '|', i);
}

/// Coordinates are those of the page itself where they say so: with the word for
/// it, or its short form before a bar or at the end.
pub proof fn law_title_coordinates_say_so(a: Seq<char>, b: Seq<char>)
    ensures
        is_title_coord(a + "display=title"@ + b),
        is_title_coord(a + "display=t|"@ + b),
        is_title_coord(a + "display=t"@),
        !holds(a, "display=t"@) ==> !is_title_coord(a),
{
    reveal_strlit("display=title");
    reveal_strlit("display=t|");
    reveal_strlit("display=t");
    let long = "display=title"@;
    let bar = "display=t|"@;
    let short = "display=t"@;
    let n = a.len() as int;
    assert((a + long + b).subrange(n, n + long.len()) =~= long);
    assert(occurs_at(a + long + b, long, n));
    assert((a + bar + b).subrange(n, n + bar.len()) =~= bar);
    assert(occurs_at(a + bar + b, bar, n));
    assert((a + short).skip((a + short).len() - short.len()) =~= short);
    if holds(a, long) {
        let i = choose|i: int| #[trigger] occurs_at(a, long, i);
        assert(a.subrange(i, i + 9) =~= a.subrange(i, i + long.len()).take(9));
        assert(long.take(9) =~= short);
        assert(occurs_at(a, short, i));
    }
    if holds(a, bar) {
        let i = choose|i: int| #[trigger] occurs_at(a, bar, i);
        assert(a.subrange(i, i + 9) =~= a.subrange(i, i + bar.len()).take(9));
        assert(bar.take(9) =~= short);
        assert(occurs_at(a, short, i));
    }
    if finishes(a, short) {
        assert(a.subrange(a.len() - 9, a.len() as int) =~= a.skip(a.len() - short.len()));
        assert(occurs_at(a, short, a.len() - 9));
    }
}
} // verus!
