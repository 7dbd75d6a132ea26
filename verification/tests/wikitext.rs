use wiki_graph::wikitext::{
    cut_citations, for_each_link, strip_comments, strip_element, strip_templates, CleanOpts, Cleaner,
};

fn links(s: &str) -> Vec<String> {
    for_each_link(s)
}

fn chars(s: &str) -> Vec<char> {
    s.chars().collect()
}

fn text(v: Vec<char>) -> String {
    v.into_iter().collect()
}

#[test]
fn extracts_plain_and_piped_links() {
    assert_eq!(links("see [[Cat]] and [[Dog|dogs]]."), vec!["Cat", "Dog"]);
}

#[test]
fn extracts_inner_link_from_image_caption() {
    assert_eq!(links("[[File:a.jpg|thumb|of [[Paris]]]]"), vec!["Paris"]);
}

#[test]
fn ignores_unclosed_link() {
    assert_eq!(links("[[Cat]] and [[Dog"), vec!["Cat"]);
}

#[test]
fn comments_are_removed() {
    let out = text(strip_comments(&chars("a <!-- [[Hidden]] --> b")));
    assert_eq!(out, "a  b");
    assert!(links(&out).is_empty());
}

#[test]
fn templates_strip_with_nesting() {
    let out = text(strip_templates(&chars("a {{infobox|x={{inner|[[Deep]]}}|y=[[Mid]]}} b")));
    assert_eq!(out, "a  b");
}

#[test]
fn tables_survive_template_stripping() {
    let out = text(strip_templates(&chars("{| class=x\n| [[Cell]]\n|}")));
    assert!(out.contains("[[Cell]]"));
}

#[test]
fn refs_stripped_only_on_request() {
    let out = text(strip_element(
        &chars("a <ref>see [[Book]]</ref> b <ref name=\"x\" /> c"),
        &chars("ref"),
    ));
    assert_eq!(out, "a  b  c");
}

#[test]
fn nowiki_is_removed() {
    let out = text(strip_element(&chars("a <nowiki>[[Not a link]]</nowiki> b"), &chars("nowiki")));
    assert!(links(&out).is_empty());
}

#[test]
fn cuts_citation_sections_in_any_casing() {
    let c = Cleaner::new();
    let opts = CleanOpts::default();
    let src = "Body [[Keep]]\n==References==\n[[Drop]]\n";
    assert_eq!(links(&c.clean(src, &opts)), vec!["Keep"]);

    let src2 = "Body [[Keep]]\n== External Links ==\n[[Drop]]\n";
    assert_eq!(links(&c.clean(src2, &opts)), vec!["Keep"]);
}

#[test]
fn see_also_is_kept() {
    let c = Cleaner::new();
    let src = "Body [[A]]\n== See also ==\n[[B]]\n";
    assert_eq!(links(&c.clean(src, &CleanOpts::default())), vec!["A", "B"]);
}

#[test]
fn templates_kept_by_default() {
    let c = Cleaner::new();
    let src = "{{Infobox country|capital=[[Paris]]}} Body [[France]]";
    assert_eq!(links(&c.clean(src, &CleanOpts::default())), vec!["Paris", "France"]);
}

#[test]
fn what_does_not_end_takes_the_rest() {
    assert_eq!(text(strip_comments(&chars("a <!-- b"))), "a ");
    assert_eq!(text(strip_comments(&chars("a <!-->b"))), "a ");
    assert_eq!(text(strip_templates(&chars("a {{b {{c}} d"))), "a ");
    assert_eq!(text(strip_element(&chars("a <ref>b"), &chars("ref"))), "a ");
    assert_eq!(text(strip_element(&chars("a <ref b"), &chars("ref"))), "a ");
    assert_eq!(text(strip_element(&chars("a <ref>b</ref c"), &chars("ref"))), "a ");
}

#[test]
fn stray_marks_are_kept() {
    assert_eq!(text(strip_templates(&chars("a }} b }"))), "a }} b }");
    assert_eq!(text(strip_templates(&chars("{{}}"))), "");
    assert_eq!(text(strip_templates(&chars("x"))), "x");
    assert_eq!(text(strip_templates(&[])), "");
}

#[test]
fn tag_names_must_end() {
    let out = text(strip_element(&chars("a <references/> <REF>x</Ref >b <ref\n/>"), &chars("ref")));
    assert_eq!(out, "a <references/> b ");
}

#[test]
fn empty_targets_are_no_links() {
    assert_eq!(links("[[]] [[|x]] [[a|]]"), vec!["a"]);
    assert_eq!(links("[[[[x]]"), vec!["x"]);
    assert_eq!(links("[[[x]]"), vec!["[x"]);
}

#[test]
fn refs_and_templates_on_request() {
    let c = Cleaner::new();
    let src = "{{x|[[T]]}}<ref>[[R]]</ref><!--[[C]]-->[[L]]";
    let all = CleanOpts { strip_templates: true, strip_refs: true, cut_citation_sections: true };
    assert_eq!(links(&c.clean(src, &all)), vec!["L"]);
    let some = CleanOpts { strip_templates: false, strip_refs: true, cut_citation_sections: true };
    assert_eq!(links(&c.clean(src, &some)), vec!["T", "L"]);
}

/// The headings that are cut at are those of this pattern.
#[test]
fn headings_are_those_of_the_pattern() {
    let re = regex::Regex::new(
        r"(?mi)^[ \t]*={2,}[ \t]*(references|external links|further reading|notes|bibliography|sources|citations|footnotes)[ \t]*={2,}[ \t]*$",
    )
    .unwrap();
    let lines = [
        "==References==",
        "== references ==",
        " \t=== NOTES ===\t ",
        "==External  links==",
        "==external links==",
        "==EXTERNAL LIN\u{212a}S==",
        "==note\u{17f}==",
        "=References=",
        "==References=",
        "=References==",
        "==References== x",
        "x ==References==",
        "==References==\r",
        "====",
        "== ==",
        "==Further reading==",
        "==Bibliography====",
        "==Sources = =",
        "== Citations\u{a0}==",
        "==footnotes==",
        "==See also==",
        "",
    ];
    for a in lines {
        for b in lines {
            let src = format!("intro\n{a}\nmiddle\n{b}");
            let expect = match re.find(&src) {
                Some(m) => src[..m.start()].to_string(),
                None => src.clone(),
            };
            assert_eq!(text(cut_citations(&chars(&src))), expect, "{src:?}");
            let src = format!("{a}\n{b}\n");
            let expect = match re.find(&src) {
                Some(m) => src[..m.start()].to_string(),
                None => src.clone(),
            };
            assert_eq!(text(cut_citations(&chars(&src))), expect, "{src:?}");
        }
    }
}
