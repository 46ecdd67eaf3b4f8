use claippy::segmenter::{encode_parts, parse_message_parts, MessageParts, Segmenter};

fn markdown(t: &str) -> MessageParts {
    MessageParts::Markdown(t.to_string())
}

fn artifact(id: &str, lang: Option<&str>, content: &str) -> MessageParts {
    MessageParts::Artifact {
        identifier: id.to_string(),
        language: lang.map(|l| l.to_string()),
        content: content.to_string(),
    }
}

fn parse(s: &str) -> Vec<MessageParts> {
    parse_message_parts(s.to_string())
}

#[test]
fn empty_input_yields_no_segments() {
    assert_eq!(parse(""), vec![]);
}

#[test]
fn plain_text_is_one_segment() {
    assert_eq!(parse("hello world"), vec![markdown("hello world")]);
}

#[test]
fn single_artifact_is_extracted() {
    let input = "a<ClaippyArtifact identifier=\"x\">code</ClaippyArtifact>b";
    assert_eq!(
        parse(input),
        vec![markdown("a"), artifact("x", None, "code"), markdown("b")]
    );
}

#[test]
fn language_attribute_is_captured() {
    let input = "<ClaippyArtifact identifier=\"x\" language=\"rust\">fn main() {}</ClaippyArtifact>";
    assert_eq!(parse(input), vec![artifact("x", Some("rust"), "fn main() {}")]);
}

#[test]
fn language_before_identifier_is_accepted() {
    let input = "<ClaippyArtifact language=\"rust\" identifier=\"x\">fn f() {}</ClaippyArtifact>";
    assert_eq!(parse(input), vec![artifact("x", Some("rust"), "fn f() {}")]);
}

#[test]
fn language_survives_a_missing_identifier() {
    let input = "<ClaippyArtifact language=\"rust\">x</ClaippyArtifact>";
    assert_eq!(parse(input), vec![artifact("unknown", Some("rust"), "x")]);
}

#[test]
fn attributes_are_found_among_unknown_ones() {
    let input =
        "<ClaippyArtifact data-x language=\"q\" junk identifier=\"z\" more>b</ClaippyArtifact>";
    assert_eq!(parse(input), vec![artifact("z", Some("q"), "b")]);
}

#[test]
fn adjacent_artifacts_have_no_text_between() {
    let input = "<ClaippyArtifact identifier=\"a\">1</ClaippyArtifact><ClaippyArtifact identifier=\"b\">2</ClaippyArtifact>";
    assert_eq!(
        parse(input),
        vec![artifact("a", None, "1"), artifact("b", None, "2")]
    );
}

#[test]
fn missing_identifier_degrades_to_placeholder() {
    let input = "<ClaippyArtifact>body</ClaippyArtifact>";
    assert_eq!(parse(input), vec![artifact("unknown", None, "body")]);
}

#[test]
fn malformed_attributes_degrade_to_placeholder() {
    let input = "<ClaippyArtifact foo=\"bar\">body</ClaippyArtifact>";
    assert_eq!(parse(input), vec![artifact("unknown", None, "body")]);
}

#[test]
fn identifier_survives_unknown_attributes_beside_it() {
    let input = "<ClaippyArtifact identifier=\"x\" lang=\"y\">body</ClaippyArtifact>";
    assert_eq!(parse(input), vec![artifact("x", None, "body")]);
}

#[test]
fn empty_identifier_degrades_to_placeholder() {
    let input = "<ClaippyArtifact identifier=\"\">body</ClaippyArtifact>";
    assert_eq!(parse(input), vec![artifact("unknown", None, "body")]);
}

#[test]
fn unterminated_marker_degrades_to_text() {
    let input = "before <ClaippyArtifact identifier=\"x\">body";
    assert_eq!(parse(input), vec![markdown(input)]);
}

#[test]
fn marker_split_across_chunks_is_reassembled() {
    let mut seg = Segmenter::new();
    seg.push_chunk("a<ClaippyArtifact identifier=\"x\">co");
    seg.push_chunk("de</ClaippyArtifact>b");
    assert_eq!(
        seg.finish(),
        vec![markdown("a"), artifact("x", None, "code"), markdown("b")]
    );
}

#[test]
fn every_chunk_boundary_gives_the_same_segments() {
    let input = "intro <ClaippyArtifact identifier=\"id\" language=\"rust\">let x = 1;</ClaippyArtifact> outro";
    let whole = parse(input);
    for cut in 0..=input.len() {
        let mut seg = Segmenter::new();
        seg.push_chunk(&input[..cut]);
        seg.push_chunk(&input[cut..]);
        assert_eq!(seg.finish(), whole, "split at byte {}", cut);
    }
}

#[test]
fn one_character_chunks_give_the_same_segments() {
    let input = "a<ClaippyArtifact identifier=\"x\">code</ClaippyArtifact>b tail";
    let whole = parse(input);
    let mut seg = Segmenter::new();
    for c in input.chars() {
        let s = c.to_string();
        seg.push_chunk(&s);
    }
    assert_eq!(seg.finish(), whole);
}

#[test]
fn segments_finalize_before_stream_end() {
    let mut seg = Segmenter::new();
    seg.push_chunk("before <ClaippyArtifact identifier=\"x\">body</ClaippyArtifact> after");
    let so_far = seg.finalized_so_far().clone();
    assert_eq!(
        so_far,
        vec![markdown("before "), artifact("x", None, "body")]
    );
    assert_eq!(
        seg.finish(),
        vec![markdown("before "), artifact("x", None, "body"), markdown(" after")]
    );
}

#[test]
fn encoded_artifact_has_exact_wire_form() {
    let a = artifact("my-id", Some("python"), "print(1)\n");
    assert_eq!(
        a.encoded(),
        "<ClaippyArtifact identifier=\"my-id\" language=\"python\">print(1)\n</ClaippyArtifact>"
    );
    let b = artifact("x", None, "body");
    assert_eq!(b.encoded(), "<ClaippyArtifact identifier=\"x\">body</ClaippyArtifact>");
}

#[test]
fn round_trip_reproduces_the_segments() {
    let parts = vec![
        markdown("some narrative "),
        artifact("code-1", Some("rust"), "fn main() {\n    println!(\"hi\");\n}\n"),
        markdown(" and a closing remark"),
    ];
    let flat = encode_parts(&parts);
    assert_eq!(parse_message_parts(flat), parts);
}

#[test]
fn round_trip_without_language_or_text() {
    let parts = vec![artifact("only", None, "x"), markdown("tail")];
    let flat = encode_parts(&parts);
    assert_eq!(parse_message_parts(flat), parts);
}

#[test]
fn encode_then_parse_is_identity_on_parsed_output() {
    let input = "t1<ClaippyArtifact identifier=\"a\">c1</ClaippyArtifact>t2<ClaippyArtifact identifier=\"b\" language=\"c\">c2</ClaippyArtifact>";
    let parts = parse(input);
    assert_eq!(encode_parts(&parts), input);
}

#[test]
fn multibyte_text_survives_segmentation() {
    let input = "héllo <ClaippyArtifact identifier=\"x\">héllo wörld</ClaippyArtifact> ünd mehr";
    assert_eq!(
        parse(input),
        vec![
            markdown("héllo "),
            artifact("x", None, "héllo wörld"),
            markdown(" ünd mehr")
        ]
    );
}
