use wiki_graph::extras::{
    choose_coord, coord_arguments, coord_is_title, extract, read_coord, Angle, CoordCandidate,
    CoordPart, Extras, FLAG_DISAMBIG, FLAG_FEATURED, FLAG_GOOD,
};

fn angle(numbers: &[f64], a: Angle) -> f64 {
    let n = &numbers[a.first..a.first + a.count];
    let v = match n {
        [d] => *d,
        [d, m] => d + m / 60.0,
        [d, m, s] => d + m / 60.0 + s / 3600.0,
        _ => unreachable!(),
    };
    if a.negative { -v } else { v }
}

/// The numbers of one template, if they make sense.
fn numbers(body: &str) -> Option<(f32, f32)> {
    let args = coord_arguments(body);
    let parts: Vec<CoordPart> = args
        .iter()
        .map(|p| match p.as_str() {
            "N" => CoordPart::North,
            "S" => CoordPart::South,
            "E" => CoordPart::East,
            "W" => CoordPart::West,
            p if p.parse::<f64>().is_ok() => CoordPart::Number,
            _ => CoordPart::Other,
        })
        .collect();
    let (lat, lon) = read_coord(&parts)?;
    let values: Vec<f64> = args.iter().map(|p| p.parse().unwrap_or(0.0)).collect();
    let (lat, lon) = (angle(&values, lat), angle(&values, lon));
    if !(-90.0..=90.0).contains(&lat) || !(-180.0..=180.0).contains(&lon) {
        return None;
    }
    Some((lat as f32, lon as f32))
}

/// The coordinates of a page.
fn coord(e: &Extras) -> Option<(f32, f32)> {
    let found: Vec<Option<(f32, f32)>> = e.coords.iter().map(|b| numbers(b)).collect();
    let list: Vec<CoordCandidate> = e
        .coords
        .iter()
        .zip(&found)
        .map(|(b, f)| CoordCandidate { valid: f.is_some(), is_title: coord_is_title(b) })
        .collect();
    choose_coord(&list).and_then(|i| found[i])
}

#[test]
fn an_argument_ends_at_a_bar_or_a_double_brace() {
    let of = |s: &str| extract(s, "A").description;
    assert_eq!(of("{{Short description|a}b}}").as_deref(), Some("a}b"));
    assert_eq!(of("{{Short description|a}b|c}}").as_deref(), Some("a}b"));
    assert_eq!(of("{{Short description|a}").as_deref(), Some("a}"));
    assert_eq!(of("{{Short description}}"), None);
    // A name ends at any closing brace.
    assert_eq!(extract("{{Good article} x}}", "A").flags, FLAG_GOOD);
}

#[test]
fn short_description_and_none() {
    let e = extract(
        "{{Short description|German-born theoretical physicist}}\ntext",
        "A",
    );
    assert_eq!(
        e.description.as_deref(),
        Some("German-born theoretical physicist")
    );
    assert_eq!(extract("{{short description|none}}", "A").description, None);
    // First one wins; later ones are noise.
    let e = extract(
        "{{Short description|First}} {{Short description|Second}}",
        "A",
    );
    assert_eq!(e.description.as_deref(), Some("First"));
}

#[test]
fn disambiguation_by_template_suffix_and_title() {
    assert_eq!(
        extract("{{Disambiguation}}", "Mercury").flags,
        FLAG_DISAMBIG
    );
    assert_eq!(
        extract("{{hndis|name=Smith, John}}", "John Smith").flags,
        FLAG_DISAMBIG
    );
    assert_eq!(
        extract("{{Airport disambiguation}}", "X").flags,
        FLAG_DISAMBIG
    );
    assert_eq!(
        extract("body only", "Mercury (disambiguation)").flags,
        FLAG_DISAMBIG
    );
    assert_eq!(extract("{{Infobox person}}", "Jane Doe").flags, 0);
}

#[test]
fn infobox_kind_takes_the_first() {
    let e = extract("{{Infobox film\n|name=X}} {{Infobox person}}", "X");
    assert_eq!(e.kind.as_deref(), Some("film"));
    assert_eq!(
        extract("{{infobox}}", "X").kind,
        None,
        "bare infobox has no kind"
    );
}

#[test]
fn quality_flags() {
    let e = extract("{{Featured article}}", "A");
    assert_eq!(e.flags, FLAG_FEATURED);
    assert_eq!(extract("{{good article}}", "A").flags, FLAG_GOOD);
}

#[test]
fn coord_decimal_dms_and_title_preference() {
    let e = extract("{{coord|40.7127|-74.0059|display=inline}}", "NYC");
    let (lat, lon) = coord(&e).unwrap();
    assert!((lat - 40.7127).abs() < 1e-4 && (lon + 74.0059).abs() < 1e-4);

    let e = extract("{{coord|40|42|46|N|74|0|22|W|display=title}}", "NYC");
    let (lat, lon) = coord(&e).unwrap();
    assert!((lat - 40.7128).abs() < 1e-3, "{lat}");
    assert!((lon + 74.0061).abs() < 1e-3, "{lon}");

    // A display=title coord replaces an earlier incidental one.
    let e = extract(
        "{{coord|10|20|display=inline}} later {{coord|30|40|display=title}}",
        "X",
    );
    assert_eq!(coord(&e), Some((30.0, 40.0)));
    // ...but an incidental one never replaces the title coord.
    let e = extract("{{coord|30|40|display=title}} later {{coord|10|20}}", "X");
    assert_eq!(coord(&e), Some((30.0, 40.0)));

    // Out-of-range coordinates are lies, not data.
    assert_eq!(coord(&extract("{{coord|999|10}}", "X")), None);
}

#[test]
fn empty_and_hostile_input() {
    assert_eq!(extract("", "A"), Extras::default());
    assert_eq!(extract("{{", "A").flags, 0);
    assert_eq!(extract("{{}}{{|}}", "A"), Extras::default());
    // A 100 KB name does not blow the scanner up.
    let long = format!("{{{{{}|x}}}}", "n".repeat(100_000));
    assert_eq!(extract(&long, "A"), Extras::default());
}

/// A multibyte character that straddles byte 64 of a template name is not cut
/// in two, whatever comes before it, and neither are
/// names of multibyte characters alone.
#[test]
fn multibyte_never_panics_at_any_boundary() {
    for pad in 0..70 {
        let name = format!("{}–dash", "x".repeat(pad));
        let text = format!("{{{{{name}|arg}}}} tail");
        let _ = extract(&text, "A"); // must not panic, whatever it finds
    }
    // And fully multibyte names, straddling everywhere.
    let geo = "სამხედრო".repeat(12);
    let _ = extract(&format!("{{{{{geo}|x}}}}"), "A");
    let _ = extract("{{coord|„40“|20}}", "A");
}

#[test]
fn texts_are_cut_between_characters() {
    let long = "é".repeat(200);
    let e = extract(&format!("{{{{Short description|{long}}}}}{{{{Infobox {long}}}}}"), "A");
    assert_eq!(e.description.as_deref(), Some("é".repeat(80).as_str()), "160 bytes");
    // The name of the infobox is itself too long to be looked at.
    assert_eq!(e.kind, None);
    let kind = "k".repeat(50);
    let e = extract(&format!("{{{{Infobox {kind}}}}}"), "A");
    assert_eq!(e.kind.as_deref(), Some("k".repeat(40).as_str()));
}

#[test]
fn every_flag_can_be_set_at_once() {
    let e = extract("{{ GA icon }}{{Featured list|x}}{{dab}}", "A");
    assert_eq!(e.flags, FLAG_GOOD | FLAG_FEATURED | FLAG_DISAMBIG);
}

#[test]
fn coordinates_need_a_number_before_each_letter() {
    assert_eq!(read_coord(&[CoordPart::North]), None);
    assert_eq!(
        read_coord(&[CoordPart::Number, CoordPart::South, CoordPart::Number, CoordPart::West]),
        Some((
            Angle { first: 0, count: 1, negative: true },
            Angle { first: 2, count: 1, negative: true }
        ))
    );
    // A latitude alone is no place, and what follows a named argument does not count.
    assert_eq!(read_coord(&[CoordPart::Number, CoordPart::North]), None);
    assert_eq!(read_coord(&[CoordPart::Number, CoordPart::Other, CoordPart::Number]), None);
    assert_eq!(coord_arguments("| 1 ||2 |x=y"), ["1", "2", "x=y"]);
    assert!(coord_is_title("|1|2|display=t"));
    assert!(coord_is_title("|display=t|1|2"));
    assert!(!coord_is_title("|1|2|display=inline"));
}
