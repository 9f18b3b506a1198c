use std::str::FromStr;

use hellman_output::HellmanOutput;

#[test]
fn from_string() {
    let s = "Fresh Avacado";

    assert_eq!(
        &HellmanOutput::from_str(s).unwrap().render(),
        "OUTPUT :Fresh Avacado:"
    );
}

#[test]
fn push_string() {
    let s = "Fresh Avacado";
    let output = &HellmanOutput::default().push_str(s).push_str(s);

    assert_eq!(&output.render(), "OUTPUT :Fresh Avacado: :Fresh Avacado:");
}

#[test]
fn push_numeric() {
    let s = "Fresh Avacado";
    let output = &HellmanOutput::default()
        .push_str(s)
        .push_numeric(13)
        .push_str(s)
        .push_numeric(1.1);

    assert_eq!(
        &output.render(),
        "OUTPUT :Fresh Avacado: 13 :Fresh Avacado: 1.1"
    );
}

#[test]
fn empty_builder_renders_marker_alone() {
    assert_eq!(HellmanOutput::default().render(), "OUTPUT");
}

#[test]
fn render_twice_gives_same_text() {
    let output = HellmanOutput::default().push_str("a").push_numeric(7);
    let first = output.render();
    let second = output.render();
    assert_eq!(first, second);
    assert_eq!(first, "OUTPUT :a: 7");
}

#[test]
fn text_pushes_keep_call_order() {
    let ab = HellmanOutput::default().push_str("a").push_str("b");
    let ba = HellmanOutput::default().push_str("b").push_str("a");
    assert_eq!(ab.render(), "OUTPUT :a: :b:");
    assert_eq!(ba.render(), "OUTPUT :b: :a:");
}

#[test]
fn append_leaves_receiver_unchanged() {
    let base = HellmanOutput::default().push_str("x");
    let longer = base.push_numeric(5);
    assert_eq!(base.render(), "OUTPUT :x:");
    assert_eq!(longer.render(), "OUTPUT :x: 5");
}

#[test]
fn marker_leads_every_line() {
    let lines = [
        HellmanOutput::default().render(),
        HellmanOutput::from_text("OUTPUT").render(),
        HellmanOutput::default().push_numeric(-42).render(),
    ];
    for line in lines.iter() {
        assert!(line.starts_with("OUTPUT"));
        let rest = &line["OUTPUT".len()..];
        assert!(rest.is_empty() || rest.starts_with(' '));
    }
    assert_eq!(lines[1], "OUTPUT :OUTPUT:");
    assert_eq!(lines[2], "OUTPUT -42");
}

#[test]
fn rendered_line_has_no_trailing_white_space() {
    let blank = HellmanOutput::default().push_numeral(" \t");
    assert_eq!(blank.render(), "OUTPUT");
    let ideographic = HellmanOutput::default().push_numeral("9\u{3000}");
    assert_eq!(ideographic.render(), "OUTPUT 9");
    let inner = HellmanOutput::default().push_str("a  b ");
    assert_eq!(inner.render(), "OUTPUT :a  b :");
    assert!(!inner.render().ends_with(char::is_whitespace));
}

#[test]
fn from_text_accepts_any_text() {
    assert_eq!(HellmanOutput::from_str("").unwrap().render(), "OUTPUT ::");
    assert_eq!(HellmanOutput::from_str("a:b").unwrap().render(), "OUTPUT :a:b:");
    assert_eq!(
        HellmanOutput::from_str("OUTPUT").unwrap().render(),
        "OUTPUT :OUTPUT:"
    );
    assert!(HellmanOutput::from_text("x") == HellmanOutput::default().push_str("x"));
}

#[test]
fn push_numeral_appends_text_and_space() {
    let output = HellmanOutput::default().push_numeral("3.5").push_str("k");
    assert_eq!(output.render(), "OUTPUT 3.5 :k:");
}

#[test]
fn equal_fragments_make_equal_builders() {
    let direct = HellmanOutput::from_text("a").push_numeric(1);
    let stepwise = HellmanOutput::default().push_str("a").push_numeral("1");
    assert!(direct == stepwise);
    assert_eq!(direct.render(), stepwise.render());

    let other = HellmanOutput::default().push_str("a").push_numeric(2);
    assert!(direct != other);
    assert!(direct < other);
    assert!(direct.render() < other.render());
    assert_eq!(direct.cmp(&other), std::cmp::Ordering::Less);
}

#[test]
fn push_orders_after_receiver() {
    let base = HellmanOutput::default().push_str("z");
    assert!(base < base.push_str(""));
    assert!(base < base.push_numeric(0));
    assert!(HellmanOutput::default() < base);
}

#[test]
fn number_orders_before_same_digits_as_text() {
    let number = HellmanOutput::default().push_numeric(13);
    let text = HellmanOutput::default().push_str("13");
    assert!(number != text);
    assert!(number < text);
    assert!(number.render() < text.render());
    assert_eq!(
        number.partial_cmp(&text),
        Some(std::cmp::Ordering::Less)
    );
    assert_eq!(number.cmp(&text), std::cmp::Ordering::Less);
}

#[test]
fn order_follows_code_points_beyond_ascii() {
    let a = HellmanOutput::default().push_str("\u{e9}");
    let b = HellmanOutput::default().push_str("\u{1f600}");
    assert!(a < b);
    assert_eq!(a.partial_cmp(&b), Some(a.cmp(&b)));
    assert_eq!(a.partial_cmp(&a.clone()), Some(std::cmp::Ordering::Equal));
}

#[test]
fn from_str_matches_push_str_then_number() {
    let a = HellmanOutput::from_str("Fresh Avacado").unwrap();
    let b = HellmanOutput::default().push_str("Fresh Avacado");
    assert!(a.push_numeric(13) == b.push_numeric(13));
    assert_eq!(a.push_numeric(13).render(), "OUTPUT :Fresh Avacado: 13");
}
