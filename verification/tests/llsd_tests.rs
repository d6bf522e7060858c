use llsd::err::LLSDError;
use llsd::LLSDValue;

/// The sample tree the round-trip tests share: only floats with exact
/// binary representations.
fn sample_tree() -> LLSDValue {
    let test1map: Vec<(String, LLSDValue)> = vec![
        ("val1".to_string(), LLSDValue::Real(456.0f64.to_bits())),
        ("val2".to_string(), LLSDValue::Integer(999)),
    ];
    LLSDValue::Array(vec![
        LLSDValue::Real(123.5f64.to_bits()),
        LLSDValue::Integer(42),
        LLSDValue::Mapping(test1map),
        LLSDValue::String("Hello world".to_string()),
    ])
}

#[test]
fn binaryparsetest1() {
    //  Construct a test value.
    let test1 = sample_tree();
    //  Convert to binary form.
    let test1bin = llsd::binary::to_bytes(&test1).unwrap();
    //  Convert back to value form.
    let sentinel_len = llsd::binary::binary_sentinel().len();
    let test1value = llsd::binary::parse_array(&test1bin[sentinel_len..]).unwrap();
    println!("Value after round-trip conversion: {:?}", test1value);
    //  Check that results match after round trip.
    assert_eq!(test1, test1value);
}

#[test]
fn testllsdvalue() {
    //  Convert an LLSD value through all serializations and back again.
    let test1 = sample_tree();
    //  Convert to binary form.
    let test1bin = llsd::binary::to_bytes(&test1).unwrap();
    //  Convert back to value form.
    let test1value = LLSDValue::parse(&test1bin).unwrap();
    println!("Value after round-trip conversion: {:?}", test1value);
    //  Check that results match after round trip.
    assert_eq!(test1, test1value);
    //  Convert to XML
    let test2xml = llsd::xml::to_xml_string(&test1value, true).unwrap();
    println!("As XML:\n{}", test2xml);
    let test2value = LLSDValue::parse(test2xml.as_bytes()).unwrap();
    assert_eq!(test1, test2value);
    //  Test error cases
    match LLSDValue::parse(b"<?xml version=\"1.0\" encoding=\"UTF-8\"?>\n<llsd><complex>2i</complex></llsd>") {
        Err(e) => println!("Error as expected: {:?}", e),
        Ok(val) => panic!("Bad input not detected: {:?}", val),
    }
    match LLSDValue::parse("String ending in emoji to check Unicode truncation. \u{1F600}\u{1F600}\u{1F600}\u{1F600}\u{1F600}\u{1F600}\u{1F600}\u{1F600}\u{1F600}\u{1F600}\u{1F600}\u{1F600}\u{1F600}\u{1F600}\u{1F600}\u{1F600}\u{1F600}\u{1F600}\u{1F600}\u{1F600}\u{1F600}\u{1F600}\u{1F600}\u{1F600}\u{1F600}\u{1F600}\u{1F600}\u{1F600}\u{1F600}\u{1F600}\u{1F600}\u{1F600}\u{1F600}\u{1F600}\u{1F600}".as_bytes()) {
        Err(e) => println!("Error as expected: {:?}", e),
        Ok(val) => panic!("Bad input not detected: {:?}", val),
    }
}

#[test]
fn xmlparsetest1() {
    const TESTXML1: &str = r#"
<?xml version="1.0" encoding="UTF-8"?>
<llsd>
<map>
  <key>region_id</key>
    <uuid>67153d5b-3659-afb4-8510-adda2c034649</uuid>
  <key>scale</key>
    <string>one minute</string>
  <key>simulator statistics</key>
  <map>
    <key>time dilation</key><real>0.9878624</real>
    <key>sim fps</key><real>44.38898</real>
    <key>pysics fps</key><real>44.38906</real>
    <key>agent updates per second</key><real>nan</real>
    <key>lsl instructions per second</key><real>0</real>
    <key>total task count</key><real>4</real>
    <key>active task count</key><real>0</real>
    <key>active script count</key><real>4</real>
    <key>main agent count</key><real>0</real>
    <key>child agent count</key><real>0</real>
    <key>inbound packets per second</key><real>1.228283</real>
    <key>outbound packets per second</key><real>1.277508</real>
    <key>pending downloads</key><real>0</real>
    <key>pending uploads</key><real>0.0001096525</real>
    <key>frame ms</key><real>0.7757886</real>
    <key>net ms</key><real>0.3152919</real>
    <key>sim other ms</key><real>0.1826937</real>
    <key>sim physics ms</key><real>0.04323055</real>
    <key>agent ms</key><real>0.01599029</real>
    <key>image ms</key><real>0.01865955</real>
    <key>script ms</key><real>0.1338836</real>
    <!-- Comment - some additional test values -->
    <key>hex number</key><binary encoding="base16">0fa1</binary>
    <key>base64 number</key><binary>SGVsbG8gd29ybGQ=</binary>
    <key>date</key><date>2006-02-01T14:29:53.43Z</date>
  </map>
</map>
</llsd>
"#;

    let result = llsd::xml::parse(TESTXML1);
    println!("Parse of {:?}: \n{:#?}", TESTXML1, result);
    match result {
        Ok(_v) => (),
        Err(e) => panic!("Parse failed: {:?}", e),
    }
}

#[test]
fn xmlgeneratetest1() {
    let testllsd1: LLSDValue = LLSDValue::Undefined;
    let generated = llsd::xml::pretty(&testllsd1, 4).unwrap();
    let xmlstr = std::str::from_utf8(&generated).unwrap();
    println!("Generated XML:\n{:?}", xmlstr);
}

#[test]
fn duplicate_key_text_last_wins() {
    let doc = "<?xml version=\"1.0\"?><llsd><map>\
        <key>k</key><integer>1</integer>\
        <key>k</key><integer>2</integer>\
        </map></llsd>";
    let v = llsd::xml::parse(doc).unwrap();
    match v {
        LLSDValue::Mapping(pairs) => {
            assert_eq!(pairs.len(), 1);
            assert_eq!(pairs[0].0, "k");
            assert_eq!(pairs[0].1, LLSDValue::Integer(2));
        }
        other => panic!("expected a map, got {:?}", other),
    }
}

#[test]
fn duplicate_key_binary_last_wins() {
    // { count 2, k <key "k"> i 1, k <key "k"> i 2 }
    let mut buf = llsd::binary::binary_sentinel();
    buf.push(b'{');
    buf.extend_from_slice(&2u32.to_be_bytes());
    for val in [1i32, 2i32] {
        buf.push(b'k');
        buf.extend_from_slice(&1u32.to_be_bytes());
        buf.push(b'k');
        buf.push(b'i');
        buf.extend_from_slice(&val.to_be_bytes());
    }
    buf.push(b'}');
    let v = LLSDValue::parse(&buf).unwrap();
    match v {
        LLSDValue::Mapping(pairs) => {
            assert_eq!(pairs.len(), 1);
            assert_eq!(pairs[0].1, LLSDValue::Integer(2));
        }
        other => panic!("expected a map, got {:?}", other),
    }
}

#[test]
fn mismatched_tags_rejected() {
    let doc = "<?xml version=\"1.0\"?><llsd><integer>2</complex></llsd>";
    match llsd::xml::parse(doc) {
        Err(LLSDError::TagMismatch { open, close, .. }) => {
            assert_eq!(open, "integer");
            assert_eq!(close, "complex");
        }
        other => panic!("expected a tag mismatch, got {:?}", other),
    }
}

#[test]
fn snippet_is_boundary_safe() {
    let mut text = String::from("unrecognized payload ");
    for _ in 0..40 {
        text.push('\u{1F600}');
    }
    match LLSDValue::parse(text.as_bytes()) {
        Err(LLSDError::FormatNotRecognized { snippet }) => {
            assert!(snippet.chars().count() <= 60);
            assert!(text.starts_with(&snippet));
        }
        other => panic!("expected format-not-recognized, got {:?}", other),
    }
}

#[test]
fn binary_sub_encodings() {
    let doc16 = "<?xml version=\"1.0\"?><llsd><binary encoding=\"base16\">0fa1</binary></llsd>";
    assert_eq!(
        llsd::xml::parse(doc16).unwrap(),
        LLSDValue::Binary(vec![0x0f, 0xa1])
    );
    let doc64 = "<?xml version=\"1.0\"?><llsd><binary>SGVsbG8gd29ybGQ=</binary></llsd>";
    assert_eq!(
        llsd::xml::parse(doc64).unwrap(),
        LLSDValue::Binary(b"Hello world".to_vec())
    );
}

#[test]
fn binary_base85_decodes() {
    let payload: Vec<u8> = vec![1, 2, 3, 4, 5, 200, 255, 0, 77];
    let encoded = ascii85::encode(&payload);
    let stripped = encoded.trim_start_matches("<~").trim_end_matches("~>");
    let escaped = llsd::xml::xml_escape(stripped);
    let doc = format!(
        "<?xml version=\"1.0\"?><llsd><binary encoding=\"base85\">{}</binary></llsd>",
        escaped
    );
    assert_eq!(llsd::xml::parse(&doc).unwrap(), LLSDValue::Binary(payload));
}

#[test]
fn unknown_binary_encoding_rejected() {
    let doc = "<?xml version=\"1.0\"?><llsd><binary encoding=\"base99\">00</binary></llsd>";
    match llsd::xml::parse(doc) {
        Err(LLSDError::InvalidEncoding { .. }) => (),
        other => panic!("expected invalid encoding, got {:?}", other),
    }
}

#[test]
fn date_scenario() {
    let doc = "<?xml version=\"1.0\"?><llsd><date>2006-02-01T14:29:53Z</date></llsd>";
    let expected = chrono::DateTime::parse_from_rfc3339("2006-02-01T14:29:53Z")
        .unwrap()
        .timestamp();
    let v = llsd::xml::parse(doc).unwrap();
    assert_eq!(v, LLSDValue::Date(expected));
    // re-encoding the same count produces the same timestamp text
    let back = llsd::xml::to_xml_string(&LLSDValue::Date(expected), false).unwrap();
    assert!(back.contains("<date>2006-02-01T14:29:53Z</date>"));
}

#[test]
fn cross_format_round_trip() {
    let v = sample_tree();
    let bin = llsd::binary::to_bytes(&v).unwrap();
    let from_bin = LLSDValue::parse(&bin).unwrap();
    let xml = llsd::xml::to_xml_string(&v, false).unwrap();
    let from_xml = llsd::xml::parse(&xml).unwrap();
    assert_eq!(from_bin, from_xml);
    assert_eq!(from_bin, v);
}

#[test]
fn nan_preserved_both_formats() {
    let v = LLSDValue::Real(f64::NAN.to_bits());
    let bin = llsd::binary::to_bytes(&v).unwrap();
    match LLSDValue::parse(&bin).unwrap() {
        LLSDValue::Real(bits) => assert!(f64::from_bits(bits).is_nan()),
        other => panic!("expected a real, got {:?}", other),
    }
    let xml = llsd::xml::to_xml_string(&v, true).unwrap();
    // the text form uses the lowercase nan token
    assert!(xml.contains("<real>nan</real>"));
    match llsd::xml::parse(&xml).unwrap() {
        LLSDValue::Real(bits) => assert!(f64::from_bits(bits).is_nan()),
        other => panic!("expected a real, got {:?}", other),
    }
}

#[test]
fn real_text_forms() {
    // the formatter emits the exact decimal of the bit pattern
    let doc = |t: &str| format!("<?xml version=\"1.0\"?><llsd><real>{}</real></llsd>", t);
    for (text, expected) in [
        ("0.9878624", 0.9878624f64),
        ("44.38898", 44.38898f64),
        ("1.228283", 1.228283f64),
        ("0.0001096525", 0.0001096525f64),
        ("123.5", 123.5f64),
        ("-2.75", -2.75f64),
        ("0", 0.0f64),
        ("1e3", 1000.0f64),
        ("2.5e-2", 0.025f64),
        ("-0", -0.0f64),
        ("1e400", f64::INFINITY),
        ("inf", f64::INFINITY),
        ("-inf", f64::NEG_INFINITY),
    ] {
        match llsd::xml::parse(&doc(text)).unwrap() {
            LLSDValue::Real(bits) => assert_eq!(
                bits,
                expected.to_bits(),
                "parsing real literal {:?}",
                text
            ),
            other => panic!("expected a real, got {:?}", other),
        }
    }
    // round trips through the exact decimal form
    for sample in [0.1f64, 3.5e300f64, 7.0e-300f64, -0.0f64, 1.0f64 / 3.0f64] {
        let v = LLSDValue::Real(sample.to_bits());
        let xml = llsd::xml::to_xml_string(&v, false).unwrap();
        assert_eq!(llsd::xml::parse(&xml).unwrap(), v, "round trip of {}", sample);
    }
    // malformed literals are rejected
    for bad in ["", "abc", "1..2", "1e", "--1"] {
        match llsd::xml::parse(&doc(bad)) {
            Err(LLSDError::InvalidNumericLiteral { .. }) => (),
            other => panic!("expected invalid literal for {:?}, got {:?}", bad, other),
        }
    }
}

#[test]
fn integer_limits() {
    let doc = |t: &str| format!("<?xml version=\"1.0\"?><llsd><integer>{}</integer></llsd>", t);
    assert_eq!(
        llsd::xml::parse(&doc("2147483647")).unwrap(),
        LLSDValue::Integer(i32::MAX)
    );
    assert_eq!(
        llsd::xml::parse(&doc("-2147483648")).unwrap(),
        LLSDValue::Integer(i32::MIN)
    );
    for bad in ["2147483648", "-2147483649", "12x", ""] {
        match llsd::xml::parse(&doc(bad)) {
            Err(LLSDError::InvalidNumericLiteral { .. }) => (),
            other => panic!("expected overflow rejection for {:?}, got {:?}", bad, other),
        }
    }
}

#[test]
fn uuid_forms() {
    let doc = "<?xml version=\"1.0\"?><llsd><uuid>67153d5b-3659-afb4-8510-adda2c034649</uuid></llsd>";
    let v = llsd::xml::parse(doc).unwrap();
    let expected: Vec<u8> = vec![
        0x67, 0x15, 0x3d, 0x5b, 0x36, 0x59, 0xaf, 0xb4, 0x85, 0x10, 0xad, 0xda, 0x2c, 0x03,
        0x46, 0x49,
    ];
    assert_eq!(v, LLSDValue::UUID(expected.clone()));
    // empty text is the nil UUID
    let nil = llsd::xml::parse("<?xml version=\"1.0\"?><llsd><uuid></uuid></llsd>").unwrap();
    assert_eq!(nil, LLSDValue::UUID(vec![0u8; 16]));
    // formatting round trips
    let xml = llsd::xml::to_xml_string(&LLSDValue::UUID(expected.clone()), false).unwrap();
    assert!(xml.contains("<uuid>67153d5b-3659-afb4-8510-adda2c034649</uuid>"));
}

#[test]
fn escaping_round_trips() {
    assert_eq!(llsd::xml::xml_escape("a<b&c>'d\"e"), "a&lt;b&amp;c&gt;&apos;d&quot;e");
    let v = LLSDValue::String("tags <like> this & \"quotes\"".to_string());
    let xml = llsd::xml::to_xml_string(&v, false).unwrap();
    assert_eq!(llsd::xml::parse(&xml).unwrap(), v);
}

#[test]
fn unknown_type_tag_rejected() {
    let mut buf = llsd::binary::binary_sentinel();
    buf.push(b'x');
    match LLSDValue::parse(&buf) {
        Err(LLSDError::UnknownTypeTag { tag, .. }) => assert_eq!(tag, b'x'),
        other => panic!("expected unknown type tag, got {:?}", other),
    }
}

#[test]
fn truncated_binary_rejected() {
    let mut buf = llsd::binary::binary_sentinel();
    buf.push(b'i');
    buf.push(0);
    match LLSDValue::parse(&buf) {
        Err(LLSDError::TruncatedInput { .. }) => (),
        other => panic!("expected truncation error, got {:?}", other),
    }
}

#[test]
fn unterminated_composite_rejected() {
    // array of one undefined closed with the wrong terminator byte
    let mut buf = llsd::binary::binary_sentinel();
    buf.push(b'[');
    buf.extend_from_slice(&1u32.to_be_bytes());
    buf.push(b'!');
    buf.push(b'x');
    match LLSDValue::parse(&buf) {
        Err(LLSDError::UnterminatedComposite { .. }) => (),
        other => panic!("expected unterminated composite, got {:?}", other),
    }
}

#[test]
fn nesting_depth_limited() {
    let mut buf: Vec<u8> = Vec::new();
    for _ in 0..600 {
        buf.push(b'[');
        buf.extend_from_slice(&1u32.to_be_bytes());
    }
    buf.push(b'!');
    for _ in 0..600 {
        buf.push(b']');
    }
    match llsd::binary::parse_array(&buf) {
        Err(LLSDError::DepthLimitExceeded) => (),
        other => panic!("expected a depth limit error, got {:?}", other),
    }
}

#[test]
fn headerless_binary_detected() {
    let v = sample_tree();
    let bin = llsd::binary::to_bytes(&v).unwrap();
    let sentinel_len = llsd::binary::binary_sentinel().len();
    // the sample tree is an array: headerless form starts '[' and ends ']'
    let headerless = &bin[sentinel_len..];
    assert_eq!(headerless[0], b'[');
    assert_eq!(*headerless.last().unwrap(), b']');
    assert_eq!(LLSDValue::parse(headerless).unwrap(), v);
}

#[test]
fn all_variants_round_trip() {
    let v = LLSDValue::Mapping(vec![
        ("undef".to_string(), LLSDValue::Undefined),
        ("t".to_string(), LLSDValue::Boolean(true)),
        ("f".to_string(), LLSDValue::Boolean(false)),
        ("int".to_string(), LLSDValue::Integer(-7)),
        ("real".to_string(), LLSDValue::Real((-0.03125f64).to_bits())),
        ("uuid".to_string(), LLSDValue::UUID((1u8..=16).collect())),
        ("str".to_string(), LLSDValue::String("hi".to_string())),
        ("uri".to_string(), LLSDValue::URI("https://example.com/a?b=c".to_string())),
        ("date".to_string(), LLSDValue::Date(-1234567890)),
        ("bin".to_string(), LLSDValue::Binary(vec![0, 1, 254, 255])),
        ("empty_map".to_string(), LLSDValue::Mapping(vec![])),
        ("empty_arr".to_string(), LLSDValue::Array(vec![])),
        (
            "nested".to_string(),
            LLSDValue::Array(vec![LLSDValue::Array(vec![LLSDValue::Integer(1)])]),
        ),
    ]);
    let bin = llsd::binary::to_bytes(&v).unwrap();
    assert_eq!(LLSDValue::parse(&bin).unwrap(), v);
    let xml = llsd::xml::to_xml_string(&v, true).unwrap();
    assert_eq!(llsd::xml::parse(&xml).unwrap(), v);
    let compact = llsd::xml::to_xml_string(&v, false).unwrap();
    assert_eq!(llsd::xml::parse(&compact).unwrap(), v);
}

#[test]
fn boolean_literal_forms() {
    let doc = |t: &str| format!("<?xml version=\"1.0\"?><llsd><boolean>{}</boolean></llsd>", t);
    assert_eq!(llsd::xml::parse(&doc("true")).unwrap(), LLSDValue::Boolean(true));
    assert_eq!(llsd::xml::parse(&doc("1")).unwrap(), LLSDValue::Boolean(true));
    assert_eq!(llsd::xml::parse(&doc("false")).unwrap(), LLSDValue::Boolean(false));
    assert_eq!(llsd::xml::parse(&doc("0")).unwrap(), LLSDValue::Boolean(false));
    match llsd::xml::parse(&doc("maybe")) {
        Err(LLSDError::InvalidNumericLiteral { .. }) => (),
        other => panic!("expected a rejected boolean, got {:?}", other),
    }
}

#[test]
fn invalid_utf8_rejected() {
    let buf: Vec<u8> = vec![b'a', 0xFF, 0xFE, b'b'];
    match LLSDValue::parse(&buf) {
        Err(LLSDError::InvalidUtf8 { .. }) => (),
        other => panic!("expected invalid UTF-8, got {:?}", other),
    }
}

#[test]
fn error_messages_describe_the_failure() {
    let doc = "<?xml version=\"1.0\"?><llsd><integer>2</complex></llsd>";
    let e = llsd::xml::parse(doc).unwrap_err();
    let m = e.message();
    assert!(m.contains("mismatched open/close tags"));
    assert!(m.contains("<integer>"));
    assert!(m.contains("</complex>"));
}

#[test]
fn bracket_heuristic_commits_to_binary() {
    // a buffer whose first and last bytes form a bracket pair is decoded as
    // headerless binary, with a hard failure rather than a text fallback
    match LLSDValue::parse(b"{not binary}") {
        Err(LLSDError::TruncatedInput { .. }) | Err(LLSDError::UnterminatedComposite { .. }) => (),
        other => panic!("expected a binary decode failure, got {:?}", other),
    }
}

#[test]
fn clone_is_deep() {
    let v = sample_tree();
    let c = v.clone();
    assert_eq!(v, c);
}

#[test]
fn lexer_edge_cases() {
    // self-closing elements give empty values
    assert_eq!(
        llsd::xml::parse("<?xml version=\"1.0\"?><llsd><string/></llsd>").unwrap(),
        LLSDValue::String(String::new())
    );
    assert_eq!(
        llsd::xml::parse("<?xml version=\"1.0\"?><llsd><map/></llsd>").unwrap(),
        LLSDValue::Mapping(vec![])
    );
    assert_eq!(
        llsd::xml::parse("<?xml version=\"1.0\"?><llsd><array/></llsd>").unwrap(),
        LLSDValue::Array(vec![])
    );
    // single-quoted attributes and whitespace before the closing bracket
    assert_eq!(
        llsd::xml::parse(
            "<?xml version=\"1.0\"?><llsd><binary encoding='base16' >0fa1</binary ></llsd>"
        )
        .unwrap(),
        LLSDValue::Binary(vec![0x0f, 0xa1])
    );
    // a comment splits text into pieces joined with one space
    assert_eq!(
        llsd::xml::parse("<?xml version=\"1.0\"?><llsd><string>a<!-- c -->b</string></llsd>")
            .unwrap(),
        LLSDValue::String("a b".to_string())
    );
    // entities decode in content
    assert_eq!(
        llsd::xml::parse(
            "<?xml version=\"1.0\"?><llsd><string>&lt;tag&gt; &amp; &quot;q&quot;&apos;</string></llsd>"
        )
        .unwrap(),
        LLSDValue::String("<tag> & \"q\"'".to_string())
    );
    // an unknown entity is rejected
    match llsd::xml::parse("<?xml version=\"1.0\"?><llsd><string>&bogus;</string></llsd>") {
        Err(LLSDError::InvalidEncoding { .. }) => (),
        other => panic!("expected an entity error, got {:?}", other),
    }
}

#[test]
fn document_structure_errors() {
    // a second root value inside the wrapper
    match llsd::xml::parse("<?xml version=\"1.0\"?><llsd><integer>1</integer><integer>2</integer></llsd>") {
        Err(_) => (),
        Ok(v) => panic!("second root value accepted: {:?}", v),
    }
    // a second wrapper block
    match llsd::xml::parse(
        "<?xml version=\"1.0\"?><llsd><integer>1</integer></llsd><llsd><integer>2</integer></llsd>",
    ) {
        Err(_) => (),
        Ok(v) => panic!("second wrapper accepted: {:?}", v),
    }
    // end of input while an element is open
    match llsd::xml::parse("<?xml version=\"1.0\"?><llsd><map><key>k</key>") {
        Err(LLSDError::TruncatedInput { .. }) => (),
        other => panic!("expected truncation, got {:?}", other),
    }
    // no wrapper at all
    match llsd::xml::parse("<?xml version=\"1.0\"?><integer>1</integer>") {
        Err(LLSDError::UnknownElementName { .. }) => (),
        other => panic!("expected unknown element, got {:?}", other),
    }
}

#[test]
fn map_equality_ignores_entry_order() {
    let a = LLSDValue::Mapping(vec![
        ("x".to_string(), LLSDValue::Integer(1)),
        ("y".to_string(), LLSDValue::Integer(2)),
    ]);
    let b = LLSDValue::Mapping(vec![
        ("y".to_string(), LLSDValue::Integer(2)),
        ("x".to_string(), LLSDValue::Integer(1)),
    ]);
    assert_eq!(a, b);
    assert_eq!(b, a);
    let c = LLSDValue::Mapping(vec![
        ("x".to_string(), LLSDValue::Integer(1)),
        ("y".to_string(), LLSDValue::Integer(3)),
    ]);
    assert!(a != c);
    // nested maps compare order-independently too
    let outer1 = LLSDValue::Array(vec![a]);
    let outer2 = LLSDValue::Array(vec![b]);
    assert_eq!(outer1, outer2);
}

#[test]
fn wire_order_is_insignificant() {
    // two binary encodings of one two-key map, entries in either order
    let entry = |k: &str, v: i32, buf: &mut Vec<u8>| {
        buf.push(b'k');
        buf.extend_from_slice(&(k.len() as u32).to_be_bytes());
        buf.extend_from_slice(k.as_bytes());
        buf.push(b'i');
        buf.extend_from_slice(&v.to_be_bytes());
    };
    let mut b1 = llsd::binary::binary_sentinel();
    b1.push(b'{');
    b1.extend_from_slice(&2u32.to_be_bytes());
    entry("x", 1, &mut b1);
    entry("y", 2, &mut b1);
    b1.push(b'}');
    let mut b2 = llsd::binary::binary_sentinel();
    b2.push(b'{');
    b2.extend_from_slice(&2u32.to_be_bytes());
    entry("y", 2, &mut b2);
    entry("x", 1, &mut b2);
    b2.push(b'}');
    let v1 = LLSDValue::parse(&b1).unwrap();
    let v2 = LLSDValue::parse(&b2).unwrap();
    assert_eq!(v1, v2);
}

#[test]
fn xml_nesting_depth_limited() {
    let mut doc = String::from("<?xml version=\"1.0\"?><llsd>");
    for _ in 0..600 {
        doc.push_str("<array>");
    }
    doc.push_str("<undef></undef>");
    for _ in 0..600 {
        doc.push_str("</array>");
    }
    doc.push_str("</llsd>");
    match llsd::xml::parse(&doc) {
        Err(LLSDError::DepthLimitExceeded) => (),
        other => panic!("expected a depth limit error, got {:?}", other),
    }
}

#[test]
fn date_out_of_range_encode_fails() {
    let v = LLSDValue::Date(i64::MAX);
    match llsd::xml::to_xml_string(&v, false) {
        Err(LLSDError::InvalidNumericLiteral { .. }) => (),
        other => panic!("expected a date formatting error, got {:?}", other),
    }
}
