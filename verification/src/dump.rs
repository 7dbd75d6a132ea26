//! Reading an encyclopedia dump, one page at a time.
//!
//! The reader is fed the events of an XML parser and puts the pages together.
//! Buffers are reused across pages, so that memory is bounded by the largest
//! article and not by the dump.

use crate::extras::text_of;
use crate::graph::texts;
use crate::text::{
    chars_of, decimal, eq_text, law_decimals_are_digits, law_decimals_spell_their_number, parse_i64, parse_u32, slice_from, spelled, string_of, trim, trimmed,
};
use vstd::prelude::*;
use vstd::string::StringExecFns;

verus! {

/// No `<ns>` element was seen on this page.
pub const NO_NS: i64 = -0x8000_0000_0000_0000;

/// One page of the dump.
pub struct Page {
    pub title: String,
    pub ns: i64,
    /// The target, if this page is a redirect.
    pub redirect: Option<String>,
    pub text: String,
}

/// One page of the dump, as a value.
pub struct PageView {
    pub title: Seq<char>,
    pub ns: i64,
    pub redirect: Option<Seq<char>>,
    pub text: Seq<char>,
}

impl View for Page {
    type V = PageView;

    open spec fn view(&self) -> PageView {
        PageView {
            title: self.title@,
            ns: self.ns,
            redirect: text_of(self.redirect),
            text: self.text@,
        }
    }
}

/// A page of which nothing was read.
pub open spec fn blank_page() -> PageView {
    PageView { title: seq![], ns: NO_NS, redirect: None, text: seq![] }
}

fn no_text() -> (r: String)
    ensures
        r@ == Seq::<char>::empty(),
{
    let r = String::new();
    assert(r@ =~= Seq::<char>::empty());
    r
}

impl Default for Page {
    fn default() -> (r: Self)
        ensures
            r@ == blank_page(),
    {
        Page { title: no_text(), ns: NO_NS, redirect: None, text: no_text() }
    }
}

/// What was counted while reading a dump.
pub struct DumpStats {
    pub pages: u64,
    /// The names that the dump declares for its namespaces, such as "Talk".
    pub namespaces: Vec<String>,
    /// Entity references that could not be resolved.
    pub unresolved_entities: u64,
}

impl Default for DumpStats {
    fn default() -> (r: Self)
        ensures
            r.pages == 0,
            r.namespaces@.len() == 0,
            r.unresolved_entities == 0,
    {
        DumpStats { pages: 0, namespaces: Vec::new(), unresolved_entities: 0 }
    }
}

// ---------------------------------------------------------------------------
// Entities
// ---------------------------------------------------------------------------

/// The entities that XML itself defines.
pub open spec fn predefined(name: Seq<char>) -> Option<Seq<char>> {
    if name == "lt"@ {
        Some("<"@)
    } else if name == "gt"@ {
        Some(">"@)
    } else if name == "amp"@ {
        Some("&"@)
    } else if name == "apos"@ {
        Some("'"@)
    } else if name == "quot"@ {
        Some("\""@)
    } else {
        None
    }
}

/// `quick_xml::escape::resolve_predefined_entity`: the text of the five
/// entities that XML defines, and nothing for any other name.
#[verifier::external_body]
fn predefined_entity(name: &str) -> (r: Option<&'static str>)
    ensures
        match r {
            Some(t) => predefined(name@) == Some(t@),
            None => predefined(name@) is None,
        },
{
    quick_xml::escape::resolve_predefined_entity(name)
}

/// A number that is the code of a character.
pub open spec fn is_char_code(n: int) -> bool {
    0 <= n < 0xd800 || 0xe000 <= n <= 0x10ffff
}

/// `char::from_u32`: the character with the code `n`, where there is one.
#[verifier::external_body]
fn char_with_code(n: u32) -> (r: Option<char>)
    ensures
        r == (if is_char_code(n as int) {
            Some(n as char)
        } else {
            None
        }),
{
    char::from_u32(n)
}

/// The text of an entity reference, given what stands between `&` and `;`: a
/// character by its code, decimal or hexadecimal, or one of those that XML
/// defines.
pub open spec fn entity_text(name: Seq<char>) -> Option<Seq<char>> {
    if name.len() > 0 && name[0] == '#' {
        let rest = name.skip(1);
        let code = if rest.len() > 0 && (rest[0] == 'x' || rest[0] == 'X') {
            spelled(rest.skip(1), 16, false)
        } else {
            spelled(rest, 10, false)
        };
        match code {
            Some(n) => if is_char_code(n) {
                Some(seq![n as char])
            } else {
                None
            },
            None => None,
        }
    } else {
        predefined(name)
    }
}

/// Resolve an entity reference, given what stands between `&` and `;`, and put
/// its text at the end of `out`. `out` is left alone where there is none.
pub fn resolve_entity(name: &str, out: &mut String) -> (r: bool)
    ensures
        r == (entity_text(name@) is Some),
        final(out)@ == (match entity_text(name@) {
            Some(t) => old(out)@ + t,
            None => old(out)@,
        }),
{
    let chars = chars_of(name);
    if chars.len() > 0 && chars[0] == '#' {
        let rest = slice_from(chars.as_slice(), 1);
        let code: Option<u32> = if rest.len() > 0 && (rest[0] == 'x' || rest[0] == 'X') {
            parse_u32(slice_from(rest, 1), 16)
        } else {
            parse_u32(rest, 10)
        };
        match code {
            None => false,
            Some(n) => match char_with_code(n) {
                None => false,
                Some(c) => {
                    let ghost before = out@;
                    out.push(c);
                    assert(out@ =~= before + seq![c]);
                    true
                },
            },
        }
    } else {
        match predefined_entity(name) {
            None => false,
            Some(t) => {
                out.append(t);
                true
            },
        }
    }
}

// ---------------------------------------------------------------------------
// Events
// ---------------------------------------------------------------------------

/// What the XML parser reports. Names are without their prefix.
pub enum DumpEvent {
    /// `<name title="..">`
    Open { name: String, title: Option<String> },
    /// `<name title=".." />`
    Empty { name: String, title: Option<String> },
    /// Text or character data.
    Text { text: String },
    /// `&name;`
    Entity { name: String },
    /// `</name>`
    Close { name: String },
}

/// Where text goes.
#[derive(Clone, Copy, PartialEq, Eq, Structural)]
pub enum Sink {
    Nowhere,
    Title,
    Ns,
    Text,
    NsName,
}

/// Puts pages together from the events of an XML parser.
pub struct DumpReader {
    pub page: Page,
    pub stats: DumpStats,
    pub sink: Sink,
    pub in_page: bool,
    pub in_revision: bool,
    /// The text of short elements that are not part of a page.
    pub scratch: String,
}

/// A `DumpReader`, as a value.
pub struct DumpView {
    pub page: PageView,
    pub pages: u64,
    pub namespaces: Seq<Seq<char>>,
    pub unresolved: u64,
    pub sink: Sink,
    pub in_page: bool,
    pub in_revision: bool,
    pub scratch: Seq<char>,
}

impl View for DumpReader {
    type V = DumpView;

    open spec fn view(&self) -> DumpView {
        DumpView {
            page: self.page@,
            pages: self.stats.pages,
            namespaces: texts(self.stats.namespaces@),
            unresolved: self.stats.unresolved_entities,
            sink: self.sink,
            in_page: self.in_page,
            in_revision: self.in_revision,
            scratch: self.scratch@,
        }
    }
}

/// Some text goes where it belongs.
pub open spec fn with_text(d: DumpView, s: Seq<char>) -> DumpView {
    match d.sink {
        Sink::Nowhere => d,
        Sink::Title => DumpView { page: PageView { title: d.page.title + s, ..d.page }, ..d },
        Sink::Text => DumpView { page: PageView { text: d.page.text + s, ..d.page }, ..d },
        Sink::Ns | Sink::NsName => DumpView { scratch: d.scratch + s, ..d },
    }
}

/// A redirect names its target.
pub open spec fn with_redirect(d: DumpView, title: Option<Seq<char>>) -> DumpView {
    match title {
        Some(t) => DumpView { page: PageView { redirect: Some(t), ..d.page }, ..d },
        None => d,
    }
}

pub open spec fn after_open(d: DumpView, name: Seq<char>, title: Option<Seq<char>>) -> DumpView {
    if name == "page"@ {
        DumpView { in_page: true, page: blank_page(), ..d }
    } else if name == "revision"@ {
        DumpView { in_revision: true, ..d }
    } else if name == "title"@ && d.in_page {
        DumpView { sink: Sink::Title, ..d }
    } else if name == "ns"@ && d.in_page {
        DumpView { sink: Sink::Ns, scratch: seq![], ..d }
    } else if name == "text"@ && d.in_revision {
        DumpView { sink: Sink::Text, ..d }
    } else if name == "namespace"@ {
        DumpView { sink: Sink::NsName, scratch: seq![], ..d }
    } else if name == "redirect"@ && d.in_page {
        with_redirect(d, title)
    } else {
        d
    }
}

/// The number of a namespace, or `NO_NS` where there is none to read.
pub open spec fn ns_number(s: Seq<char>) -> i64 {
    match spelled(trimmed(s), 10, true) {
        Some(n) => if i64::MIN <= n <= i64::MAX {
            n as i64
        } else {
            NO_NS
        },
        None => NO_NS,
    }
}

pub open spec fn after_close(d: DumpView, name: Seq<char>) -> DumpView {
    if name == "title"@ || name == "text"@ {
        DumpView { sink: Sink::Nowhere, ..d }
    } else if name == "ns"@ {
        DumpView {
            page: PageView { ns: ns_number(d.scratch), ..d.page },
            sink: Sink::Nowhere,
            ..d
        }
    } else if name == "namespace"@ {
        let n = trimmed(d.scratch);
        DumpView {
            namespaces: if n.len() > 0 {
                d.namespaces.push(n)
            } else {
                d.namespaces
            },
            sink: Sink::Nowhere,
            ..d
        }
    } else if name == "revision"@ {
        DumpView { in_revision: false, ..d }
    } else if name == "page"@ {
        DumpView { in_page: false, pages: (d.pages + 1) as u64, ..d }
    } else {
        d
    }
}

/// What a reader is after an event. A reference that cannot be resolved stays
/// in the text as it was written.
pub open spec fn after_event(d: DumpView, event: DumpEvent) -> DumpView {
    match event {
        DumpEvent::Open { name, title } => after_open(d, name@, text_of(title)),
        DumpEvent::Empty { name, title } => if name@ == "redirect"@ && d.in_page {
            with_redirect(d, text_of(title))
        } else {
            d
        },
        DumpEvent::Text { text } => with_text(d, text@),
        DumpEvent::Entity { name } => if d.sink == Sink::Nowhere {
            d
        } else {
            match entity_text(name@) {
                Some(t) => with_text(d, t),
                None => with_text(
                    DumpView { unresolved: (d.unresolved + 1) as u64, ..d },
                    seq!['&'] + name@ + seq![';'],
                ),
            }
        },
        DumpEvent::Close { name } => after_close(d, name@),
    }
}

/// The event ends a page.
pub open spec fn ends_page(event: DumpEvent) -> bool {
    event matches DumpEvent::Close { name } && name@ == "page"@
}

impl DumpReader {
    pub fn new() -> (r: Self)
        ensures
            r@ == unread(),
    {
        let r = DumpReader {
            page: Page::default(),
            stats: DumpStats::default(),
            sink: Sink::Nowhere,
            in_page: false,
            in_revision: false,
            scratch: no_text(),
        };
        assert(r@.namespaces =~= Seq::<Seq<char>>::empty());
        r
    }

    /// Whether text is wanted at all just now.
    pub fn wants_text(&self) -> (r: bool)
        ensures
            r == (self.sink != Sink::Nowhere),
    {
        self.sink != Sink::Nowhere
    }

    /// Whether the `title` attribute of an element is wanted.
    pub fn wants_title_of(&self, name: &str) -> (r: bool)
        ensures
            r == (self.in_page && name@ == "redirect"@),
    {
        self.in_page && eq_text(name, "redirect")
    }

    fn push_text(&mut self, s: &str)
        ensures
            final(self)@ == with_text(old(self)@, s@),
    {
        match self.sink {
            Sink::Nowhere => {},
            Sink::Title => {
                self.page.title.append(s);
            },
            Sink::Text => {
                self.page.text.append(s);
            },
            Sink::Ns | Sink::NsName => {
                self.scratch.append(s);
            },
        }
    }

    fn open_element(&mut self, name: &str, title: Option<String>)
        ensures
            final(self)@ == after_open(old(self)@, name@, text_of(title)),
    {
        if eq_text(name, "page") {
            self.in_page = true;
            self.page = Page::default();
        } else if eq_text(name, "revision") {
            self.in_revision = true;
        } else if eq_text(name, "title") && self.in_page {
            self.sink = Sink::Title;
        } else if eq_text(name, "ns") && self.in_page {
            self.sink = Sink::Ns;
            self.scratch = no_text();
        } else if eq_text(name, "text") && self.in_revision {
            self.sink = Sink::Text;
        } else if eq_text(name, "namespace") {
            self.sink = Sink::NsName;
            self.scratch = no_text();
        } else if eq_text(name, "redirect") && self.in_page {
            if let Some(t) = title {
                self.page.redirect = Some(t);
            }
        }
    }

    fn close_element(&mut self, name: &str)
        requires
            old(self)@.pages < u64::MAX,
        ensures
            final(self)@ == after_close(old(self)@, name@),
    {
        if eq_text(name, "title") || eq_text(name, "text") {
            self.sink = Sink::Nowhere;
        } else if eq_text(name, "ns") {
            let chars = chars_of(self.scratch.as_str());
            self.page.ns = match parse_i64(trim(chars.as_slice())) {
                Some(n) => n,
                None => NO_NS,
            };
            self.sink = Sink::Nowhere;
        } else if eq_text(name, "namespace") {
            let chars = chars_of(self.scratch.as_str());
            let n = trim(chars.as_slice());
            if n.len() > 0 {
                let ghost before = self@.namespaces;
                let text = string_of(n, 0, n.len());
                assert(text@ =~= n@);
                self.stats.namespaces.push(text);
                assert(self@.namespaces =~= before.push(n@));
            }
            self.sink = Sink::Nowhere;
        } else if eq_text(name, "revision") {
            self.in_revision = false;
        } else if eq_text(name, "page") {
            self.in_page = false;
            self.stats.pages = self.stats.pages + 1;
        }
    }

    /// Take in an event. The result says whether it ended a page, which is
    /// then complete in `page`.
    pub fn feed(&mut self, event: DumpEvent) -> (r: bool)
        requires
            old(self)@.pages < u64::MAX,
            old(self)@.unresolved < u64::MAX,
        ensures
            final(self)@ == after_event(old(self)@, event),
            r == ends_page(event),
    {
        match event {
            DumpEvent::Open { name, title } => {
                self.open_element(name.as_str(), title);
                false
            },
            DumpEvent::Empty { name, title } => {
                if eq_text(name.as_str(), "redirect") && self.in_page {
                    if let Some(t) = title {
                        self.page.redirect = Some(t);
                    }
                }
                false
            },
            DumpEvent::Text { text } => {
                self.push_text(text.as_str());
                false
            },
            DumpEvent::Entity { name } => {
                if self.sink != Sink::Nowhere {
                    let mut resolved = no_text();
                    if resolve_entity(name.as_str(), &mut resolved) {
                        assert(entity_text(name@)->0 =~= resolved@);
                        self.push_text(resolved.as_str());
                    } else {
                        self.stats.unresolved_entities = self.stats.unresolved_entities + 1;
                        let mut kept = no_text();
                        kept.push('&');
                        kept.append(name.as_str());
                        kept.push(';');
                        assert(kept@ =~= seq!['&'] + name@ + seq![';']);
                        self.push_text(kept.as_str());
                    }
                }
                false
            },
            DumpEvent::Close { name } => {
                self.close_element(name.as_str());
                eq_text(name.as_str(), "page")
            },
        }
    }
}

// ---------------------------------------------------------------------------
// Whole dumps
// ---------------------------------------------------------------------------

/// A reader that has read nothing yet.
pub open spec fn unread() -> DumpView {
    DumpView {
        page: blank_page(),
        pages: 0,
        namespaces: seq![],
        unresolved: 0,
        sink: Sink::Nowhere,
        in_page: false,
        in_revision: false,
        scratch: seq![],
    }
}

/// What a reader is after some events.
pub open spec fn after_events(d: DumpView, events: Seq<DumpEvent>) -> DumpView
    decreases events.len(),
{
    if events.len() == 0 {
        d
    } else {
        after_event(after_events(d, events.drop_last()), events.last())
    }
}

/// The pages that the events of a dump hold.
pub open spec fn pages_in(events: Seq<DumpEvent>) -> Seq<PageView>
    decreases events.len(),
{
    if events.len() == 0 {
        seq![]
    } else {
        let rest = pages_in(events.drop_last());
        if ends_page(events.last()) {
            rest.push(after_events(unread(), events).page)
        } else {
            rest
        }
    }
}

/// The values of some pages.
pub open spec fn page_views(v: Seq<Page>) -> Seq<PageView> {
    Seq::new(v.len(), |i: int| v[i]@)
}

fn copy_page(p: &Page) -> (r: Page)
    ensures
        r@ == p@,
{
    Page {
        title: p.title.clone(),
        ns: p.ns,
        redirect: match &p.redirect {
            Some(t) => Some(t.clone()),
            None => None,
        },
        text: p.text.clone(),
    }
}

proof fn lemma_few_pages(events: Seq<DumpEvent>)
    requires
        events.len() <= u64::MAX,
    ensures
        after_events(unread(), events).pages == pages_in(events).len(),
        after_events(unread(), events).pages <= events.len(),
        after_events(unread(), events).unresolved <= events.len(),
    decreases events.len(),
{
    if events.len() > 0 {
        lemma_few_pages(events.drop_last());
        reveal_strlit("title");
        reveal_strlit("text");
        reveal_strlit("ns");
        reveal_strlit("namespace");
        reveal_strlit("revision");
        reveal_strlit("page");
        assert("page"@.len() != "title"@.len());
        assert("page"@[0] != "text"@[0]);
        assert("page"@.len() != "ns"@.len());
        assert("page"@.len() != "namespace"@.len());
        assert("page"@.len() != "revision"@.len());
    }
}

/// Read the events of a whole dump: its pages, and what was counted.
pub fn stream_pages(events: Vec<DumpEvent>) -> (r: (Vec<Page>, DumpStats))
    ensures
        page_views(r.0@) == pages_in(events@),
        r.1.pages == r.0@.len(),
        crate::graph::texts(r.1.namespaces@) == after_events(unread(), events@).namespaces,
        r.1.unresolved_entities == after_events(unread(), events@).unresolved,
{
    let ghost all = events@;
    let mut events = events;
    let n: usize = events.len();
    let mut reader = DumpReader::new();
    let mut pages: Vec<Page> = Vec::new();
    let mut i: usize = 0;
    assert(all.take(0) =~= Seq::<DumpEvent>::empty());
    assert(page_views(pages@) =~= Seq::<PageView>::empty());
    while i < n
        invariant
            n == events@.len(),
            n == all.len(),
            i <= n,
            forall|j: int| i <= j < n ==> events@[j] == all[j],
            reader@ == after_events(unread(), all.take(i as int)),
            page_views(pages@) == pages_in(all.take(i as int)),
        decreases n - i,
    {
        let mut event = DumpEvent::Text { text: no_text() };
        core::mem::swap(&mut event, &mut events[i]);
        proof {
            assert(event == all[i as int]);
            lemma_few_pages(all.take(i as int));
            assert(all.take(i + 1).drop_last() =~= all.take(i as int));
            assert(all.take(i + 1).last() == event);
        }
        if reader.feed(event) {
            let ghost before = page_views(pages@);
            let page = copy_page(&reader.page);
            let ghost view = page@;
            pages.push(page);
            assert(page_views(pages@) =~= before.push(view));
        }
        i = i + 1;
    }
    proof {
        assert(all.take(n as int) =~= all);
        lemma_few_pages(all);
        assert(page_views(pages@).len() == pages@.len());
    }
    (pages, reader.stats)
}

// ---------------------------------------------------------------------------
// Progress
// ---------------------------------------------------------------------------

/// When to say how far a pass has come.
pub struct Progress {
    pub label: &'static str,
    /// How many pages go by between two lines.
    pub every: u64,
}

impl Progress {
    pub fn new(label: &'static str) -> (r: Self)
        ensures
            r.label == label,
            r.every == 100_000,
    {
        Progress { label, every: 100_000 }
    }

    /// Whether a line is due after so many pages.
    pub fn tick(&self, n: u64) -> (r: bool)
        ensures
            r == (if self.every == 0 {
                n == 0
            } else {
                n % self.every == 0
            }),
    {
        if self.every == 0 {
            n == 0
        } else {
            n % self.every == 0
        }
    }
}

// ---------------------------------------------------------------------------
// Laws
// ---------------------------------------------------------------------------

/// Nothing of one page is left on the next: what a page holds depends only on
/// the events since it was opened, as long as no element was open then.
pub proof fn law_pages_are_independent(a: DumpView, b: DumpView, name: String, title: Option<
    String,
>, events: Seq<DumpEvent>)
    requires
        name@ == "page"@,
        a.sink == b.sink,
        a.in_revision == b.in_revision,
        a.scratch == b.scratch,
    ensures
        ({
            let open = DumpEvent::Open { name, title };
            let x = after_events(after_event(a, open), events);
            let y = after_events(after_event(b, open), events);
            &&& x.page == y.page
            &&& x.sink == y.sink
            &&& x.in_page == y.in_page
            &&& x.in_revision == y.in_revision
            &&& x.scratch == y.scratch
        }),
    decreases events.len(),
{
    if events.len() > 0 {
        law_pages_are_independent(a, b, name, title, events.drop_last());
    }
}

/// A reference that is resolved leaves its text where it stood, between the
/// text before and the text after it.
pub proof fn law_entities_stay_in_place(d: DumpView, before: String, name: String, after: String)
    requires
        d.sink == Sink::Title,
        entity_text(name@) is Some,
    ensures
        after_events(
            d,
            seq![
                DumpEvent::Text { text: before },
                DumpEvent::Entity { name },
                DumpEvent::Text { text: after },
            ],
        ).page.title == d.page.title + before@ + entity_text(name@)->0 + after@,
{
    let a = DumpEvent::Text { text: before };
    let b = DumpEvent::Entity { name };
    let c = DumpEvent::Text { text: after };
    let all = seq![a, b, c];
    assert(all.drop_last() =~= seq![a, b]);
    assert(seq![a, b].drop_last() =~= seq![a]);
    assert(seq![a].drop_last() =~= Seq::<DumpEvent>::empty());
    reveal_with_fuel(after_events, 4);
    assert(after_events(d, all) == after_event(after_event(after_event(d, a), b), c));
}

proof fn lemma_element_names_differ()
    ensures
        "page"@ != "revision"@,
        "page"@ != "title"@,
        "page"@ != "ns"@,
        "page"@ != "text"@,
        "page"@ != "namespace"@,
        "page"@ != "redirect"@,
        "revision"@ != "title"@,
        "revision"@ != "ns"@,
        "revision"@ != "text"@,
        "revision"@ != "namespace"@,
        "revision"@ != "redirect"@,
        "title"@ != "ns"@,
        "title"@ != "text"@,
        "title"@ != "namespace"@,
        "title"@ != "redirect"@,
        "ns"@ != "text"@,
        "ns"@ != "namespace"@,
        "ns"@ != "redirect"@,
        "text"@ != "namespace"@,
        "text"@ != "redirect"@,
        "namespace"@ != "redirect"@,
{
    reveal_strlit("page");
    reveal_strlit("revision");
    reveal_strlit("title");
    reveal_strlit("ns");
    reveal_strlit("text");
    reveal_strlit("namespace");
    reveal_strlit("redirect");
    assert("page"@.len() == 4);
    assert("revision"@.len() == 8);
    assert("title"@.len() == 5);
    assert("ns"@.len() == 2);
    assert("text"@.len() == 4);
    assert("namespace"@.len() == 9);
    assert("redirect"@.len() == 8);
    assert("title"@[0] == 't');
    assert("revision"@[2] == 'v');
    assert("redirect"@[2] == 'd');
    assert("page"@[0] == 'p');
    assert("text"@[0] == 't');
}

/// The text of an element goes to the field that the element is for, and to
/// nothing else: the title and the number of the namespace of a page, the text of
/// its revision, the name of a namespace.
pub proof fn law_elements_fill_their_fields(
    d: DumpView,
    name: String,
    title: Option<String>,
    text: String,
)
    ensures
        ({
            let r = after_event(
                after_event(
                    after_event(d, DumpEvent::Open { name, title }),
                    DumpEvent::Text { text },
                ),
                DumpEvent::Close { name },
            );
            &&& name@ == "title"@ && d.in_page ==> r == (DumpView {
                page: PageView { title: d.page.title + text@, ..d.page },
                sink: Sink::Nowhere,
                ..d
            })
            &&& name@ == "text"@ && d.in_revision ==> r == (DumpView {
                page: PageView { text: d.page.text + text@, ..d.page },
                sink: Sink::Nowhere,
                ..d
            })
            &&& name@ == "namespace"@ ==> r == (DumpView {
                namespaces: if trimmed(text@).len() > 0 {
                    d.namespaces.push(trimmed(text@))
                } else {
                    d.namespaces
                },
                sink: Sink::Nowhere,
                scratch: text@,
                ..d
            })
            &&& name@ == "ns"@ && d.in_page ==> r.page.title == d.page.title && r.page.text
                == d.page.text && r.page.redirect == d.page.redirect && r.sink == Sink::Nowhere && (
            match spelled(trimmed(text@), 10, true) {
                Some(n) => -0x8000_0000_0000_0000 <= n <= 0x7fff_ffff_ffff_ffff ==> r.page.ns == n,
                None => r.page.ns == -0x8000_0000_0000_0000,
            })
        }),
{
    lemma_element_names_differ();
    assert(Seq::<char>::empty() + text@ =~= text@);
}

/// A page begins with nothing on it, and is counted when it ends; of what it
/// holds nothing is lost then. It is a redirect where an element says so.
pub proof fn law_pages_open_and_close(d: DumpView, name: String, title: Option<String>)
    requires
        d.pages < u64::MAX,
    ensures
        name@ == "page"@ ==> ({
            let r = after_event(d, DumpEvent::Open { name, title });
            &&& r.in_page
            &&& r.page.title.len() == 0
            &&& r.page.text.len() == 0
            &&& r.page.redirect is None
            &&& r.page.ns == -0x8000_0000_0000_0000
            &&& r.pages == d.pages
            &&& r.namespaces == d.namespaces
        }),
        name@ == "page"@ ==> after_event(d, DumpEvent::Close { name }) == (DumpView {
            in_page: false,
            pages: (d.pages + 1) as u64,
            ..d
        }),
        name@ == "revision"@ ==> after_event(d, DumpEvent::Open { name, title }) == (DumpView {
            in_revision: true,
            ..d
        }) && after_event(d, DumpEvent::Close { name }) == (DumpView { in_revision: false, ..d }),
        name@ == "redirect"@ && d.in_page && title is Some ==> ({
            let to = DumpView {
                page: PageView { redirect: Some(title->0@), ..d.page },
                ..d
            };
            after_event(d, DumpEvent::Empty { name, title }) == to && after_event(
                d,
                DumpEvent::Open { name, title },
            ) == to
        }),
        name@ == "redirect"@ && !d.in_page ==> after_event(d, DumpEvent::Empty { name, title })
            == d,
{
    lemma_element_names_differ();
}

/// Elements with other names mean nothing, and text outside of elements that
/// are read goes nowhere.
pub proof fn law_other_elements_are_passed_over(
    d: DumpView,
    name: String,
    title: Option<String>,
    text: String,
)
    requires
        name@ != "page"@,
        name@ != "revision"@,
        name@ != "title"@,
        name@ != "ns"@,
        name@ != "text"@,
        name@ != "namespace"@,
        name@ != "redirect"@,
    ensures
        after_event(d, DumpEvent::Open { name, title }) == d,
        after_event(d, DumpEvent::Empty { name, title }) == d,
        after_event(d, DumpEvent::Close { name }) == d,
        d.sink == Sink::Nowhere ==> after_event(d, DumpEvent::Text { text }) == d,
{
}

/// A page comes out where it closes, as it is then, and nowhere else.
pub proof fn law_pages_come_out_where_they_close(events: Seq<DumpEvent>, event: DumpEvent)
    ensures
        (event matches DumpEvent::Close { name } && name@ == "page"@) ==> pages_in(
            events.push(event),
        ) == pages_in(events).push(after_events(unread(), events).page),
        !(event matches DumpEvent::Close { name } && name@ == "page"@) ==> pages_in(
            events.push(event),
        ) == pages_in(events),
        pages_in(Seq::<DumpEvent>::empty()).len() == 0,
{
    lemma_element_names_differ();
    let more = events.push(event);
    assert(more.drop_last() =~= events);
    assert(after_events(unread(), more) == after_event(after_events(unread(), events), event));
}

/// The five names of XML stand for the characters that they stand for there, and
/// a number for the character that has it; anything else stands for nothing, is
/// counted and stays as it was written.
pub proof fn law_entities_are_resolved(n: nat, d: DumpView, name: String)
    ensures
        entity_text("lt"@) == Some(seq!['<']),
        entity_text("gt"@) == Some(seq!['>']),
        entity_text("amp"@) == Some(seq!['&']),
        entity_text("apos"@) == Some(seq!['\'']),
        entity_text("quot"@) == Some(seq!['"']),
        (n < 0xd800 || 0xe000 <= n <= 0x10ffff) ==> entity_text(seq!['#'] + decimal(n)) == Some(
            seq![n as char],
        ),
        0xd800 <= n < 0xe000 || n > 0x10ffff ==> entity_text(seq!['#'] + decimal(n)) is None,
        d.sink == Sink::Text && entity_text(name@) is None && d.unresolved < u64::MAX
            ==> after_event(d, DumpEvent::Entity { name }) == (DumpView {
            page: PageView { text: d.page.text + (seq!['&'] + name@ + seq![';']), ..d.page },
            unresolved: (d.unresolved + 1) as u64,
            ..d
        }),
        d.sink == Sink::Text && entity_text(name@) is Some ==> after_event(
            d,
            DumpEvent::Entity { name },
        ) == (DumpView {
            page: PageView { text: d.page.text + entity_text(name@)->0, ..d.page },
            ..d
        }),
{
    reveal_strlit("lt");
    reveal_strlit("gt");
    reveal_strlit("amp");
    reveal_strlit("apos");
    reveal_strlit("quot");
    reveal_strlit("<");
    reveal_strlit(">");
    reveal_strlit("&");
    reveal_strlit("'");
    reveal_strlit("\"");
    assert("lt"@[0] == 'l' && "gt"@[0] == 'g' && "amp"@[1] == 'm' && "apos"@[1] == 'p'
        && "quot"@[0] == 'q');
    assert("<"@ =~= seq!['<']);
    assert(">"@ =~= seq!['>']);
    assert("&"@ =~= seq!['&']);
    assert("'"@ =~= seq!['\'']);
    assert("\""@ =~= seq!['"']);
    law_decimals_spell_their_number(n);
    law_decimals_are_digits(n);
    assert((seq!['#'] + decimal(n)).skip(1) =~= decimal(n));
}
} // verus!
