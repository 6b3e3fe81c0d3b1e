use taskband::markup::{parse, plain, Line, Segment};

fn seg(text: &str, classes: &[&str]) -> Segment {
    Segment {
        text: text.to_string(),
        classes: classes.iter().map(|c| c.to_string()).collect(),
    }
}

fn ok(text: &str) -> Vec<Line> {
    let (lines, warnings) = parse(text).expect("markup should parse");
    assert!(warnings.is_empty(), "unexpected warnings: {warnings:?}");
    lines
}

#[test]
fn plain_maps_each_line_to_one_classless_segment() {
    assert_eq!(
        plain("CPU 12%\n42 C"),
        vec![vec![seg("CPU 12%", &[])], vec![seg("42 C", &[])]]
    );
}

#[test]
fn plain_keeps_blank_lines_empty() {
    assert_eq!(
        plain("a\n\nb"),
        vec![vec![seg("a", &[])], vec![], vec![seg("b", &[])]]
    );
}

#[test]
fn plain_empty_string_has_no_lines() {
    assert_eq!(plain(""), Vec::<Line>::new());
}

#[test]
fn plain_never_parses_markup_or_entities() {
    assert_eq!(
        plain("<span class='x'>&amp;</span>"),
        vec![vec![seg("<span class='x'>&amp;</span>", &[])]]
    );
}

#[test]
fn parses_text_without_markup() {
    assert_eq!(ok("MEM 92%"), vec![vec![seg("MEM 92%", &[])]]);
}

#[test]
fn parses_single_span() {
    assert_eq!(
        ok("<span class='title'>MEM</span>"),
        vec![vec![seg("MEM", &["title"])]]
    );
}

#[test]
fn parses_text_around_a_span() {
    assert_eq!(
        ok("use <span class='critical'>92%</span> now"),
        vec![vec![
            seg("use ", &[]),
            seg("92%", &["critical"]),
            seg(" now", &[])
        ]]
    );
}

#[test]
fn multiple_classes_split_on_whitespace() {
    assert_eq!(
        ok("<span class='big red'>!</span>"),
        vec![vec![seg("!", &["big", "red"])]]
    );
}

#[test]
fn nested_spans_accumulate_outer_to_inner() {
    assert_eq!(
        ok("<span class='a'>x<span class='b'>y</span>z</span>"),
        vec![vec![
            seg("x", &["a"]),
            seg("y", &["a", "b"]),
            seg("z", &["a"])
        ]]
    );
}

#[test]
fn span_with_no_class_is_allowed() {
    assert_eq!(ok("<span>x</span>"), vec![vec![seg("x", &[])]]);
}

#[test]
fn newline_splits_lines() {
    assert_eq!(ok("a\nb"), vec![vec![seg("a", &[])], vec![seg("b", &[])]]);
}

#[test]
fn span_continues_across_newline() {
    assert_eq!(
        ok("<span class='c'>a\nb</span>"),
        vec![vec![seg("a", &["c"])], vec![seg("b", &["c"])]]
    );
}

#[test]
fn blank_lines_and_trailing_newline_match_plain() {
    assert_eq!(ok("a\n\nb"), plain("a\n\nb"));
    assert_eq!(ok("a\n"), plain("a\n"));
    assert_eq!(ok(""), Vec::<Line>::new());
}

#[test]
fn stray_close_is_an_error() {
    assert!(parse("x</span>").is_err());
}

#[test]
fn unknown_tag_is_an_error() {
    assert!(parse("<b>x</b>").is_err());
    assert!(parse("<spanx>y</spanx>").is_err());
}

#[test]
fn unterminated_tag_is_an_error() {
    assert!(parse("a <span class='x'").is_err());
}

#[test]
fn entities_decode() {
    assert_eq!(
        ok("&lt;3 &amp; &gt;4 &quot;q&quot; &apos;a&apos;"),
        vec![vec![seg("<3 & >4 \"q\" 'a'", &[])]]
    );
}

#[test]
fn entities_decode_inside_spans() {
    assert_eq!(
        ok("<span class='x'>&lt;ok&gt;</span>"),
        vec![vec![seg("<ok>", &["x"])]]
    );
}

#[test]
fn bare_ampersand_is_an_error() {
    assert!(parse("Tom & Jerry").is_err());
    assert!(parse("bad &nope; here").is_err());
}

#[test]
fn double_quoted_class_works() {
    assert_eq!(
        ok("<span class=\"title\">M</span>"),
        vec![vec![seg("M", &["title"])]]
    );
}

#[test]
fn non_class_attribute_is_an_error() {
    assert!(parse("<span style='color:red'>x</span>").is_err());
    assert!(parse("<span class=title>x</span>").is_err());
}

#[test]
fn unclosed_span_auto_closes_with_warning() {
    let (lines, warnings) = parse("<span class='c'>oops").expect("tolerated");
    assert_eq!(lines, vec![vec![seg("oops", &["c"])]]);
    assert_eq!(warnings.len(), 1);
    assert!(warnings[0].contains("unclosed"));
}

#[test]
fn plain_drops_the_carriage_return_of_crlf() {
    assert_eq!(
        plain("a\r\nb\r"),
        vec![vec![seg("a", &[])], vec![seg("b\r", &[])]]
    );
}

#[test]
fn spaces_around_the_class_attribute_are_allowed() {
    assert_eq!(
        ok("<span  class = ' a  b '  >x</span >"),
        vec![vec![seg("x", &["a", "b"])]]
    );
}

#[test]
fn close_tag_with_spaces_closes() {
    assert_eq!(ok("<span class='a'>x< /span >y"), vec![vec![seg("x", &["a"]), seg("y", &[])]]);
}

#[test]
fn entity_errors_are_reported() {
    assert!(parse("&").unwrap_err().contains("end of text"));
    assert!(parse("&toolong;").unwrap_err().contains("use &amp;"));
    assert!(parse("&nope;").unwrap_err().contains("unknown entity '&nope;'"));
}

#[test]
fn tag_errors_name_the_tag() {
    assert_eq!(parse("<b>").unwrap_err(), "unknown tag <b>");
    assert_eq!(parse("x</span>").unwrap_err(), "</span> without matching <span>");
    assert_eq!(parse("<span").unwrap_err(), "'<' without a closing '>'");
    assert_eq!(
        parse("<span class=x>").unwrap_err(),
        "class value must be quoted in <span class=x>"
    );
    assert_eq!(
        parse("<span id='x'>").unwrap_err(),
        "expected class attribute in <span id='x'>"
    );
}

#[test]
fn markup_free_text_reads_as_plain() {
    let text = "first\n\n  second  \nthird\n";
    assert_eq!(ok(text), plain(text));
}

#[test]
fn segments_split_at_tags_even_without_classes() {
    assert_eq!(ok("a<span>b</span>c"), vec![vec![seg("a", &[]), seg("b", &[]), seg("c", &[])]]);
}

#[test]
fn an_empty_span_adds_no_segment() {
    assert_eq!(ok("<span class='x'></span>"), Vec::<Line>::new());
}

#[test]
fn accepted_markup_spells_its_decoded_text() {
    let (lines, _) = parse("<span class='t'>MEM</span> &lt;76%&gt;\n\n<span class='w'>a</span>&amp;b\n").unwrap();
    let joined: Vec<String> = lines
        .iter()
        .map(|l| l.iter().map(|s| s.text.as_str()).collect::<String>())
        .collect();
    assert_eq!(joined.join("\n"), "MEM <76%>\n\na&b");
    for line in &lines {
        for seg in line {
            assert!(!seg.text.is_empty() && !seg.text.contains('\n'));
        }
    }
}
