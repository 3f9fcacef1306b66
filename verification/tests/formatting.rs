use bp_review::formatter::format_xml;

#[test]
fn formats_a_flat_document_with_indentation() {
    let src = "<IgnoreDiagnostics><Name>M</Name></IgnoreDiagnostics>";
    let out = format_xml(src).expect("well-formed input");
    let expected = "<?xml version=\"1.0\" encoding=\"utf-8\"?>\n\
                    <IgnoreDiagnostics>\n\
                    \x20\x20<Name>\n\
                    \x20\x20\x20\x20M\n\
                    \x20\x20</Name>\n\
                    </IgnoreDiagnostics>\n";
    assert_eq!(out, expected);
    assert_ne!(out, src);
}

#[test]
fn formatting_is_a_fixed_point_on_its_own_output() {
    let src = "<Items>\n\n  <Diagnostic><Path>a/b</Path><Moniker>R1</Moniker></Diagnostic>\
               <Diagnostic><Path>c</Path><Moniker>R2</Moniker></Diagnostic></Items>";
    let once = format_xml(src).expect("well-formed input");
    let twice = format_xml(&once).expect("canonical output stays well-formed");
    assert_eq!(once, twice);
}

#[test]
fn fixed_point_holds_with_comments_and_escapes() {
    let src = "<a><!-- keep me --><b>x &amp; y &lt; z</b></a>";
    let once = format_xml(src).expect("well-formed input");
    assert!(once.contains("<!-- keep me -->"));
    assert!(once.contains("x &amp; y &lt; z"));
    let twice = format_xml(&once).expect("canonical output stays well-formed");
    assert_eq!(once, twice);
}

#[test]
fn attributes_are_kept_and_quoted() {
    let src = "<a k=\"v\" w=\"1 &amp; 2\"><b/></a>";
    let once = format_xml(src).expect("well-formed input");
    assert!(once.contains("<a k=\"v\" w=\"1 &amp; 2\">"));
    let twice = format_xml(&once).expect("canonical output stays well-formed");
    assert_eq!(once, twice);
}

#[test]
fn whitespace_only_text_is_suppressed() {
    let loose = "<a>\n   <b>  text  </b>\n   </a>";
    let tight = "<a><b>text</b></a>";
    assert_eq!(format_xml(loose).unwrap(), format_xml(tight).unwrap());
}

#[test]
fn malformed_input_is_rejected() {
    assert!(format_xml("<a><b></a>").is_err());
    assert!(format_xml("<a>").is_err());
    assert!(format_xml("").is_err());
    assert!(format_xml("plain text").is_err());
}

#[test]
fn nested_elements_indent_per_depth() {
    let out = format_xml("<a><b><c>x</c></b></a>").unwrap();
    let lines: Vec<&str> = out.lines().collect();
    assert_eq!(lines[1], "<a>");
    assert_eq!(lines[2], "  <b>");
    assert_eq!(lines[3], "    <c>");
    assert_eq!(lines[4], "      x");
    assert_eq!(lines[5], "    </c>");
    assert_eq!(lines[6], "  </b>");
    assert_eq!(lines[7], "</a>");
}
