use quick_xml::events::Event;
use quick_xml::reader::Reader;
use quick_xml::XmlVersion;
use wiki_graph::dump::{resolve_entity, stream_pages, DumpEvent, DumpReader, DumpStats, Page, Progress, NO_NS};
use wiki_graph::edges::{self, median_size, PageLinks, Pass2Stats, Tables};
use wiki_graph::graph::Graph;
use wiki_graph::index::{self, IndexBuilder, Pass1Stats, TitleIndex};
use wiki_graph::titles::{normalize_title, NsPrefixes};
use wiki_graph::wikitext::CleanOpts;

/// The events of a document, as a parser gives them.
fn events(xml: &str) -> Vec<DumpEvent> {
    let mut reader = Reader::from_str(xml);
    let mut out = Vec::new();
    loop {
        match reader.read_event().unwrap() {
            Event::Start(e) => {
                let title = e.try_get_attribute("title").unwrap();
                let title = title.map(|a| a.normalized_value(XmlVersion::Explicit1_0).unwrap().into_owned());
                out.push(DumpEvent::Open { name: e.local_name().as_ref().to_string(), title });
            }
            Event::Empty(e) => {
                let title = e.try_get_attribute("title").unwrap();
                let title = title.map(|a| a.normalized_value(XmlVersion::Explicit1_0).unwrap().into_owned());
                out.push(DumpEvent::Empty { name: e.local_name().as_ref().to_string(), title });
            }
            Event::Text(e) => out.push(DumpEvent::Text { text: e.xml10_content().into_owned() }),
            Event::CData(e) => out.push(DumpEvent::Text { text: e.to_string() }),
            Event::GeneralRef(e) => out.push(DumpEvent::Entity { name: e.to_string() }),
            Event::End(e) => out.push(DumpEvent::Close { name: e.local_name().as_ref().to_string() }),
            Event::Eof => return out,
            _ => {}
        }
    }
}

fn pages(xml: &str) -> (Vec<Page>, DumpStats) {
    stream_pages(events(xml))
}

const INDEX_XML: &str = r#"<mediawiki>
<siteinfo><namespaces>
<namespace key="0" case="first-letter" />
<namespace key="6" case="first-letter">File</namespace>
<namespace key="14" case="first-letter">Category</namespace>
</namespaces></siteinfo>
<page><title>Anarchism</title><ns>0</ns><revision><text>x</text></revision></page>
<page><title>Political philosophy</title><ns>0</ns><revision><text>x</text></revision></page>
<page><title>AccessibleComputing</title><ns>0</ns><redirect title="Computer accessibility" /><revision><text>#REDIRECT</text></revision></page>
<page><title>Computer accessibility</title><ns>0</ns><revision><text>x</text></revision></page>
<page><title>A11y</title><ns>0</ns><redirect title="AccessibleComputing" /><revision><text>#REDIRECT</text></revision></page>
<page><title>Broken</title><ns>0</ns><redirect title="Does not exist" /><revision><text>#REDIRECT</text></revision></page>
<page><title>Talk:Anarchism</title><ns>1</ns><revision><text>x</text></revision></page>
</mediawiki>"#;

fn idx() -> (TitleIndex, Pass1Stats) {
    let (pages, _) = pages(INDEX_XML);
    index::build(&pages)
}

#[test]
fn resolves_entities() {
    let mut s = String::new();
    assert!(resolve_entity("amp", &mut s));
    assert_eq!(s, "&");
    s.clear();
    assert!(resolve_entity("#38", &mut s));
    assert_eq!(s, "&");
    s.clear();
    assert!(resolve_entity("#x2014", &mut s));
    assert_eq!(s, "—");
}

#[test]
fn every_predefined_entity_is_resolved_and_no_other() {
    for (name, text) in [("lt", "<"), ("gt", ">"), ("amp", "&"), ("apos", "'"), ("quot", "\"")] {
        let mut s = String::from("x");
        assert!(resolve_entity(name, &mut s));
        assert_eq!(s, format!("x{text}"));
    }
    for name in ["nbsp", "", "#", "#x", "#xD800", "#1114112", "#-1", "AMP"] {
        let mut s = String::from("x");
        assert!(!resolve_entity(name, &mut s), "{name}");
        assert_eq!(s, "x");
    }
    let mut s = String::new();
    assert!(resolve_entity("#X41", &mut s));
    assert_eq!(s, "A");
}

#[test]
fn pages_are_read_from_a_dump() {
    let (pages, stats) = pages(INDEX_XML);
    assert_eq!(stats.pages, 7);
    assert_eq!(stats.namespaces, ["File", "Category"]);
    assert_eq!(stats.unresolved_entities, 0);
    assert_eq!(pages.len(), 7);
    assert_eq!(pages[0].title, "Anarchism");
    assert_eq!((pages[0].ns, pages[0].redirect.clone(), pages[0].text.as_str()), (0, None, "x"));
    assert_eq!(pages[2].redirect.as_deref(), Some("Computer accessibility"));
    assert_eq!(pages[6].ns, 1);
}

#[test]
fn entities_keep_their_place_in_titles_and_texts() {
    let (pages, stats) = pages(
        "<mediawiki><page><title>AT&amp;T</title><ns>0</ns><revision>\
         <text>a &lt;ref&gt; &bogus; <![CDATA[[[x]]]]></text></revision></page>\
         <page><title>Next</title><revision><text bytes=\"0\" /></revision></page></mediawiki>",
    );
    assert_eq!(pages[0].title, "AT&T");
    assert_eq!(pages[0].text, "a <ref> &bogus; [[x]]");
    assert_eq!(stats.unresolved_entities, 1);
    // Nothing of the first page is left on the second.
    assert_eq!(pages[1].title, "Next");
    assert_eq!(pages[1].ns, NO_NS);
    assert_eq!(pages[1].text, "");
}

#[test]
fn text_outside_of_pages_goes_nowhere() {
    let mut r = DumpReader::new();
    assert!(!r.wants_text());
    assert!(!r.feed(DumpEvent::Open { name: "title".into(), title: None }));
    assert!(!r.wants_text(), "a title outside of a page is no page's title");
    assert!(!r.feed(DumpEvent::Open { name: "page".into(), title: None }));
    assert!(!r.feed(DumpEvent::Open { name: "title".into(), title: None }));
    assert!(r.wants_text());
    assert!(r.wants_title_of("redirect"));
    assert!(!r.wants_title_of("title"));
    assert!(!r.feed(DumpEvent::Close { name: "title".into() }));
    assert!(r.feed(DumpEvent::Close { name: "page".into() }));
}

#[test]
fn progress_is_due_every_hundred_thousand_pages() {
    let p = Progress::new("pass 1:");
    assert_eq!(p.label, "pass 1:");
    assert!(p.tick(0));
    assert!(!p.tick(1));
    assert!(!p.tick(99_999));
    assert!(p.tick(100_000));
}

// ---------------------------------------------------------------------------
// The first pass
// ---------------------------------------------------------------------------

#[test]
fn counts_articles_and_redirects() {
    let (i, s) = idx();
    assert_eq!(
        s.articles, 3,
        "Anarchism, Political philosophy, Computer accessibility"
    );
    assert_eq!(s.redirects, 3);
    assert_eq!(i.n_articles, 3);
}

#[test]
fn skips_non_ns0() {
    let (i, _) = idx();
    assert!(i.lookup("Talk:Anarchism").is_none());
}

#[test]
fn resolves_redirect_chain() {
    let (i, _) = idx();
    let direct = i.lookup("Computer accessibility").unwrap();
    assert_eq!(i.lookup("AccessibleComputing"), Some(direct));
    // A11y -> AccessibleComputing -> Computer accessibility
    assert_eq!(i.lookup("A11y"), Some(direct));
}

#[test]
fn broken_redirect_is_not_a_node() {
    let (i, s) = idx();
    assert!(i.lookup("Broken").is_none());
    assert_eq!(s.broken_redirects, 1);
}

#[test]
fn case_variants_resolve_to_one_article() {
    let (i, _) = idx();
    let a = i.lookup(&normalize_title("political philosophy").unwrap());
    let b = i.lookup(&normalize_title("Political_philosophy").unwrap());
    let c = i.lookup(&normalize_title("Political philosophy#History").unwrap());
    assert!(a.is_some());
    assert_eq!(a, b);
    assert_eq!(b, c);
}

#[test]
fn red_links_are_rejected() {
    let (i, _) = idx();
    assert!(i.lookup("Nonexistent article").is_none());
}

#[test]
fn rows_come_in_the_order_of_ids() {
    let (i, _) = idx();
    let articles = i.articles();
    let rows: Vec<(u32, &str)> = articles.iter().map(|(id, t)| (*id, t.as_str())).collect();
    assert_eq!(
        rows,
        [(0, "Anarchism"), (1, "Political philosophy"), (2, "Computer accessibility")]
    );
    let redirects = i.redirects();
    let rows: Vec<(&str, u32)> = redirects.iter().map(|(t, id)| (t.as_str(), *id)).collect();
    assert_eq!(rows, [("AccessibleComputing", 2), ("A11y", 2)]);
    assert_eq!(i.article_count(), 3);
}

#[test]
fn graph_finds_what_the_parse_found() {
    let (i, _) = idx();
    let rows: Vec<(u32, String)> = i.redirects().into_iter().map(|(t, id)| (id, t)).collect();
    let g = Graph::load(&i.articles(), &rows, &[]);
    for query in [
        "Anarchism",
        "anarchism",
        "political_philosophy#History",
        "A11y",
        "accessibleComputing",
        "Computer accessibility",
        "Broken",
        "Does not exist",
        "#",
    ] {
        let parsed = match normalize_title(query) {
            Some(t) => i.lookup(&t),
            None => None,
        };
        assert_eq!(g.resolve(query), parsed, "{query}");
    }
    assert_eq!(g.resolve("a11y"), Some(2));
    assert_eq!(g.resolve("Broken"), None);
}

fn page(title: &str, redirect: Option<&str>) -> Page {
    Page {
        title: title.to_string(),
        ns: 0,
        redirect: redirect.map(|s| s.to_string()),
        text: String::new(),
    }
}

#[test]
fn redirects_are_followed_only_so_far() {
    // Five hops are one too many, and a circle leads nowhere.
    let list = [
        page("End", None),
        page("R1", Some("End")),
        page("R2", Some("R1")),
        page("R3", Some("R2")),
        page("R4", Some("R3")),
        page("R5", Some("R4")),
        page("R6", Some("R5")),
        page("Loop", Some("Loop")),
    ];
    let (i, s) = index::build(&list.into_iter().collect());
    assert_eq!(i.lookup("R4"), Some(0));
    assert_eq!(i.lookup("R5"), None);
    assert_eq!(i.lookup("R6"), None);
    assert_eq!(i.lookup("Loop"), None);
    assert_eq!(s.broken_redirects, 3);
}

#[test]
fn colliding_titles_are_counted_and_kept_to_look_at() {
    let mut b = IndexBuilder::new();
    b.add_page(&page("Cat", None));
    b.add_page(&page("cat", None));
    assert_eq!(b.ns0_pages(), 2);
    let (i, s) = b.finish();
    assert_eq!(s.duplicate_titles, 1);
    assert_eq!(s.collisions, [("cat".to_string(), "Cat".to_string())]);
    assert_eq!((s.articles, i.n_articles), (2, 1));
}

// ---------------------------------------------------------------------------
// The second pass
// ---------------------------------------------------------------------------

const EDGES_XML: &str = r#"<mediawiki>
<siteinfo><namespaces>
<namespace key="0" case="first-letter" />
<namespace key="6" case="first-letter">File</namespace>
<namespace key="14" case="first-letter">Category</namespace>
</namespaces></siteinfo>
<page><title>Anarchism</title><ns>0</ns><revision><text>
[[political philosophy]] and [[Political philosophy]] and [[Political_philosophy#History]].
[[Computer accessibility]] plus the alias [[AccessibleComputing]].
[[File:Flag.jpg|thumb|caption]] [[Category:Politics]]
[[Nonexistent page]] [[Anarchism]]
&lt;!-- [[Hidden]] --&gt;
{{Infobox|field=[[Star Trek: The Next Generation]]}}
== References ==
[[Political philosophy]]
</text></revision></page>
<page><title>Political philosophy</title><ns>0</ns><revision><text>[[Anarchism]]</text></revision></page>
<page><title>Computer accessibility</title><ns>0</ns><revision><text>no links</text></revision></page>
<page><title>Star Trek: The Next Generation</title><ns>0</ns><revision><text>[[Anarchism]]</text></revision></page>
<page><title>AccessibleComputing</title><ns>0</ns><redirect title="Computer accessibility" /><revision><text>#REDIRECT</text></revision></page>
</mediawiki>"#;

fn run_pass(opts: CleanOpts) -> (Pass2Stats, TitleIndex, Vec<PageLinks>) {
    let (pages, dump) = pages(EDGES_XML);
    let (idx, _) = index::build(&pages);
    let ns = NsPrefixes::from_dump(&dump.namespaces);
    let (st, found, tables) = edges::build(&pages, &idx, &ns, &opts);
    // One entry for each article.
    assert_eq!(tables.sizes.len(), idx.n_articles as usize);
    assert_eq!(tables.flags.len(), idx.n_articles as usize);
    (st, idx, found)
}

fn run(opts: CleanOpts) -> (Pass2Stats, TitleIndex, Vec<(u32, u32)>) {
    let (st, idx, found) = run_pass(opts);
    let mut edges = Vec::new();
    for links in &found {
        for &d in &links.targets {
            edges.push((links.src, d));
        }
    }
    assert_eq!(st.edges_written as usize, edges.len());
    (st, idx, edges)
}

/// Run pass 2 and hand back what it recorded besides edges.
fn run_extras(opts: CleanOpts) -> (Pass2Stats, Vec<(u32, String)>, Vec<u32>) {
    let (st, idx, found) = run_pass(opts);
    let mut cats = Vec::new();
    let sizes = Tables::of(&found, idx.n_articles).sizes;
    for links in found {
        for c in links.categories {
            cats.push((links.src, c));
        }
    }
    (st, cats, sizes)
}

#[test]
fn categories_are_kept_and_edges_are_not_affected() {
    let (st, cats, _) = run_extras(CleanOpts::default());
    // The fixture's only category link is [[Category:Politics]].
    assert!(
        cats.iter().any(|(_, c)| c == "Politics"),
        "expected Politics among {cats:?}"
    );
    // Still counted as a skipped namespace link — categories are collected
    // in addition to being excluded from the graph, never instead.
    assert!(st.skipped_namespace >= 1);
    assert_eq!(st.categories_written as usize, cats.len());
}

#[test]
fn article_sizes_are_recorded_per_id() {
    let (_, _, sizes) = run_extras(CleanOpts::default());
    assert!(!sizes.is_empty());
    assert!(
        sizes.iter().any(|&b| b > 0),
        "every article in the fixture has wikitext, so some size must be non-zero"
    );
    assert_eq!(sizes[1], 13);
    assert_eq!(sizes[2], 8);
    assert_eq!(median_size(&sizes), 13);
}

#[test]
fn case_and_underscore_variants_collapse_to_one_edge() {
    let (st, idx, edges) = run(CleanOpts::default());
    let a = idx.lookup("Anarchism").unwrap();
    let pp = idx.lookup("Political philosophy").unwrap();
    assert_eq!(
        edges.iter().filter(|&&(s, d)| s == a && d == pp).count(),
        1,
        "three spellings of the same article must produce exactly one edge"
    );
    assert!(st.duplicate_links >= 2);
}

#[test]
fn redirect_alias_maps_to_its_target() {
    let (_, idx, edges) = run(CleanOpts::default());
    let a = idx.lookup("Anarchism").unwrap();
    let ca = idx.lookup("Computer accessibility").unwrap();
    assert_eq!(edges.iter().filter(|&&(s, d)| s == a && d == ca).count(), 1);
}

#[test]
fn red_links_and_namespaces_are_dropped() {
    let (st, _, _) = run(CleanOpts::default());
    assert_eq!(st.red_links, 1, "[[Nonexistent page]]");
    assert_eq!(st.skipped_namespace, 2, "File: and Category:");
}

#[test]
fn self_links_are_dropped() {
    let (st, idx, edges) = run(CleanOpts::default());
    let a = idx.lookup("Anarchism").unwrap();
    assert_eq!(st.self_links, 1);
    assert!(!edges.iter().any(|&(s, d)| s == d), "no self loops");
    assert!(edges.iter().any(|&(s, _)| s == a));
}

#[test]
fn colon_titles_survive() {
    let (_, idx, edges) = run(CleanOpts::default());
    let a = idx.lookup("Anarchism").unwrap();
    let st_ng = idx.lookup("Star Trek: The Next Generation").unwrap();
    assert!(
        edges.contains(&(a, st_ng)),
        "articles with colons are real articles, not namespaces"
    );
}

#[test]
fn citation_section_links_are_cut() {
    // The only link in == References == is a duplicate, so the observable
    // effect is on the raw link count, not the edge set.
    let with = run(CleanOpts { cut_citation_sections: false, ..Default::default() }).0;
    let without = run(CleanOpts::default()).0;
    assert!(without.links_seen < with.links_seen);
}

#[test]
fn stripping_templates_removes_infobox_links() {
    let (_, idx, edges) = run(CleanOpts { strip_templates: true, ..Default::default() });
    let a = idx.lookup("Anarchism").unwrap();
    let st_ng = idx.lookup("Star Trek: The Next Generation").unwrap();
    assert!(!edges.contains(&(a, st_ng)));
}

#[test]
fn edges_reference_only_real_articles() {
    let (_, idx, edges) = run(CleanOpts::default());
    for (s, d) in edges {
        assert!(s < idx.n_articles && d < idx.n_articles);
    }
}

#[test]
fn every_count_of_the_second_pass() {
    let (st, _, _) = run(CleanOpts::default());
    assert_eq!(st.pages_scanned, 4);
    assert_eq!(st.links_seen, 12);
    assert_eq!(st.duplicate_links, 3);
    // Every link is accounted for once.
    assert_eq!(
        st.links_seen,
        st.skipped_namespace
            + st.red_links
            + st.self_links
            + st.duplicate_links
            + st.edges_written
    );
    assert_eq!(st.duplicate_pages, 0);
    assert_eq!(st.edges_written, 5);
    assert_eq!(st.categories_written, 1);
    assert_eq!(st.categories_skipped_maintenance, 0);
}

#[test]
fn a_second_page_of_an_article_is_passed_over() {
    let mut first = page("Cat", None);
    first.text = "[[Dog]] [[Category:Pets]] [[Category:Articles needing cleanup]]".to_string();
    let mut again = page("cat", None);
    again.text = "[[Bird]]".to_string();
    let list: Vec<Page> = [first, page("Dog", None), page("Bird", None), again].into_iter().collect();
    let (idx, _) = index::build(&list);
    let ns = NsPrefixes::from_dump(&["Category".to_string()]);
    let (st, found, tables) = edges::build(&list, &idx, &ns, &CleanOpts::default());
    assert_eq!(st.duplicate_pages, 1);
    assert_eq!(found.len(), 3);
    assert_eq!(found[0].targets, [1]);
    assert_eq!(found[0].categories, ["Pets"]);
    assert_eq!(st.categories_skipped_maintenance, 1);
    // The tables have what the first page has.
    assert_eq!(tables.sizes, [list[0].text.len() as u32, 0, 0]);
    assert_eq!(tables.flags, [0, 0, 0]);
}

#[test]
fn the_first_six_categories_are_kept_once_each() {
    let mut p = page("Cat", None);
    p.text = "[[Category:A]][[Category:Cat stubs]][[category: b ]][[Category:A|key]]\
              [[Category:C]][[Category:D]][[Category:E]][[Category:F]][[Category:G]]"
        .to_string();
    let list: Vec<Page> = [p].into_iter().collect();
    let (idx, _) = index::build(&list);
    let ns = NsPrefixes::from_dump(&["Category".to_string()]);
    let (st, found, _) = edges::build(&list, &idx, &ns, &CleanOpts::default());
    assert_eq!(found[0].categories, ["A", "B", "C", "D", "E", "F"]);
    assert_eq!(st.categories_written, 6);
    assert_eq!(st.categories_skipped_maintenance, 1);
    assert_eq!(st.skipped_namespace, 9);
}

#[test]
fn no_link_comes_twice_in_a_dump() {
    let (_, _, edges) = run(CleanOpts { cut_citation_sections: false, ..Default::default() });
    for (i, e) in edges.iter().enumerate() {
        assert!(!edges[i + 1..].contains(e));
    }
}

#[test]
fn the_median_leaves_out_what_is_unknown() {
    assert_eq!(median_size(&vec![]), 0);
    assert_eq!(median_size(&vec![0, 0]), 0);
    assert_eq!(median_size(&vec![5, 0, 1, 9]), 5);
    assert_eq!(median_size(&vec![4, 1]), 4, "the upper of two");
}
