use wiki_graph::text::{space, to_ascii_lower};
use wiki_graph::titles::{is_maintenance_category, normalize_title, NsPrefixes};

fn n(s: &str) -> Option<String> {
    normalize_title(s)
}

#[test]
fn capitalizes_first_letter() {
    assert_eq!(n("political philosophy").unwrap(), "Political philosophy");
    assert_eq!(n("Political philosophy").unwrap(), "Political philosophy");
}

#[test]
fn underscores_become_spaces() {
    assert_eq!(n("United_States").unwrap(), "United States");
    assert_eq!(n("United   States").unwrap(), "United States");
}

#[test]
fn strips_anchors() {
    assert_eq!(n("Anarchism#History").unwrap(), "Anarchism");
    assert_eq!(n("#Section"), None);
}

#[test]
fn strips_leading_colon() {
    assert_eq!(n(":Category:Foo").unwrap(), "Category:Foo");
}

#[test]
fn keeps_colons_inside_real_titles() {
    assert_eq!(
        n("Star Trek: The Next Generation").unwrap(),
        "Star Trek: The Next Generation"
    );
}

#[test]
fn does_not_expand_multi_char_uppercase() {
    assert_eq!(n("ß").unwrap(), "ß");
    assert_eq!(n("SS").unwrap(), "SS");
    assert_ne!(n("ß").unwrap(), n("SS").unwrap());
}

#[test]
fn rejects_empty() {
    assert_eq!(n(""), None);
    assert_eq!(n("   "), None);
    assert_eq!(n("_"), None);
}

#[test]
fn ns_prefixes_are_case_insensitive() {
    let ns = NsPrefixes::from_dump(&["File".into(), "Category".into(), "Talk".into()]);
    assert!(ns.is_foreign("File:Example.jpg"));
    assert!(ns.is_foreign("category:Living people"));
    assert!(!ns.is_foreign("It: Chapter Two"));
    assert!(!ns.is_foreign("Anarchism"));
}

#[test]
fn prefixes_come_with_spaces_and_with_underscores() {
    let ns = NsPrefixes::from_dump(&["User talk".into(), "".into(), "ÉCOLE".into()]);
    assert!(ns.is_foreign("user talk:Bob"));
    assert!(ns.is_foreign("User_Talk:Bob"));
    assert!(ns.is_foreign(" User talk :Bob"));
    assert!(ns.is_foreign("école:x"));
    assert!(!ns.is_foreign(":x"));
}

#[test]
fn categories_are_named() {
    let ns = NsPrefixes::from_dump(&[]);
    assert_eq!(ns.category("Category:living people").as_deref(), Some("Living people"));
    assert_eq!(ns.category(" CATEGORY : Foo|Bar").as_deref(), Some("Foo"));
    assert_eq!(ns.category("Category:"), None);
    assert_eq!(ns.category("Category:|x"), None);
    assert_eq!(ns.category("Category:#x"), None);
    assert_eq!(ns.category("File:Foo"), None);
    assert_eq!(ns.category("Foo"), None);
}

#[test]
fn maintenance_categories_are_told_apart() {
    assert!(is_maintenance_category("Articles with short description"));
    assert!(is_maintenance_category("All pages needing factual verification"));
    assert!(is_maintenance_category("CS1 French-language sources"));
    assert!(is_maintenance_category("Physics STUBS"));
    assert!(is_maintenance_category("Use dmy dates"));
    assert!(!is_maintenance_category("articles of faith"));
    assert!(!is_maintenance_category("Living people"));
    assert!(!is_maintenance_category("Physicists"));
}

#[test]
fn normal_forms_are_stable_but_for_a_leading_colon() {
    for raw in ["a  b_c", "foo#bar", "  Éa ", "x:y", "ǆ"] {
        let once = n(raw).unwrap();
        assert_eq!(n(&once).unwrap(), once, "{raw:?}");
    }
    // The colon is not at the front until the underscore is gone.
    assert_eq!(n("_:Foo").unwrap(), ":Foo");
    assert_eq!(n(":Foo").unwrap(), "Foo");
}

#[test]
fn colons_and_spaces_in_front() {
    assert_eq!(n(" : : foo").unwrap(), "Foo");
    assert_eq!(n(":"), None);
    assert_eq!(n(" _ "), None);
    assert_eq!(n("a\u{a0}\u{2003}b").unwrap(), "A b");
    assert_eq!(n("éa").unwrap(), "Éa");
}

#[test]
fn white_space_is_what_unicode_says() {
    for code in 0..=0x10ffffu32 {
        if let Some(c) = char::from_u32(code) {
            assert_eq!(space(c), c.is_whitespace(), "{code:x}");
            assert_eq!(to_ascii_lower(c), c.to_ascii_lowercase());
        }
    }
}
