use rustygene::gedcom::tokenizer::{tokenize_gedcom, GedcomLine};
use rustygene::gedcom::tree::{build_gedcom_tree, GedcomNode};
use rustygene::gedcom::serialize::{gedcom_head_node, gedcom_trailer_node, render_gedcom_file, serialize_gedcom_nodes};

#[test]
fn tokenizes_basic_lines_with_xref() {
    let input = "0 @I1@ INDI\n1 NAME John /Doe/\n1 SEX M\n";
    let lines = tokenize_gedcom(input).expect("tokenize should succeed");

    assert_eq!(lines.len(), 3);
    assert_eq!(
        lines[0],
        GedcomLine {
            level: 0,
            xref: Some("@I1@".to_string()),
            tag: "INDI".to_string(),
            value: None,
        }
    );
    assert_eq!(
        lines[1],
        GedcomLine {
            level: 1,
            xref: None,
            tag: "NAME".to_string(),
            value: Some("John /Doe/".to_string()),
        }
    );
}

#[test]
fn strips_bom_and_supports_mixed_line_endings() {
    let input = "\u{feff}0 HEAD\r\n1 SOUR RUSTYGENE\r1 CHAR UTF-8\n0 TRLR\r\n";
    let lines = tokenize_gedcom(input).expect("tokenize should succeed");

    assert_eq!(lines.len(), 4);
    assert_eq!(lines[0].tag, "HEAD");
    assert_eq!(lines[1].tag, "SOUR");
    assert_eq!(lines[1].value.as_deref(), Some("RUSTYGENE"));
    assert_eq!(lines[2].tag, "CHAR");
    assert_eq!(lines[2].value.as_deref(), Some("UTF-8"));
    assert_eq!(lines[3].tag, "TRLR");
}

#[test]
fn folds_conc_and_cont_into_previous_logical_line() {
    let input = "0 @N1@ NOTE Hello\n1 CONC  world\n1 CONT Second line\n";
    let lines = tokenize_gedcom(input).expect("tokenize should succeed");

    assert_eq!(lines.len(), 1);
    assert_eq!(lines[0].tag, "NOTE");
    assert_eq!(lines[0].value.as_deref(), Some("Hello world\nSecond line"));
}

#[test]
fn errors_when_continuation_has_no_previous_line() {
    let input = "1 CONC orphan\n";
    let err = tokenize_gedcom(input).expect_err("tokenize should fail");

    assert_eq!(err.line_number, 1);
    assert!(err.message.contains("continuation"));
}

#[test]
fn supports_utf8_and_empty_values() {
    let input = "0 @N1@ NOTE Café 😊\n1 NOTE \n1 BIRT\n";
    let lines = tokenize_gedcom(input).expect("tokenize should succeed");

    assert_eq!(lines.len(), 3);
    assert_eq!(lines[0].value.as_deref(), Some("Café 😊"));
    assert_eq!(lines[1].value.as_deref(), Some(""));
    assert_eq!(lines[2].value, None);
}

#[test]
fn builds_hierarchical_tree_with_multiple_roots() {
    let input = "0 HEAD\n1 SOUR RUSTYGENE\n1 GEDC\n2 VERS 5.5.1\n0 @I1@ INDI\n1 NAME John /Doe/\n0 TRLR\n";
    let lines = tokenize_gedcom(input).expect("tokenize should succeed");
    let roots = match build_gedcom_tree(&lines) {
        Ok(roots) => roots,
        Err(err) => panic!("tree build should succeed: {:?}", err),
    };

    assert_eq!(roots.len(), 3);
    assert_eq!(roots[0].tag, "HEAD");
    assert_eq!(roots[0].children.len(), 2);
    assert_eq!(roots[0].children[0].tag, "SOUR");
    assert_eq!(roots[0].children[1].tag, "GEDC");
    assert_eq!(roots[0].children[1].children.len(), 1);
    assert_eq!(roots[0].children[1].children[0].tag, "VERS");

    assert_eq!(roots[1].tag, "INDI");
    assert_eq!(roots[1].xref.as_deref(), Some("@I1@"));
    assert_eq!(roots[1].children.len(), 1);
    assert_eq!(roots[1].children[0].tag, "NAME");

    assert_eq!(roots[2].tag, "TRLR");
    assert!(roots[2].children.is_empty());
}

#[test]
fn errors_when_first_line_is_not_root_level() {
    let lines = vec![GedcomLine {
        level: 1,
        xref: None,
        tag: "NAME".to_string(),
        value: Some("John".to_string()),
    }];

    let err = match build_gedcom_tree(&lines) {
        Ok(_) => panic!("tree build should fail"),
        Err(err) => err,
    };
    assert_eq!(err.line_index, 0);
    assert!(err.message.contains("first node"));
}

#[test]
fn errors_on_invalid_level_jump() {
    let lines = vec![
        GedcomLine {
            level: 0,
            xref: None,
            tag: "HEAD".to_string(),
            value: None,
        },
        GedcomLine {
            level: 2,
            xref: None,
            tag: "SOUR".to_string(),
            value: Some("RUSTYGENE".to_string()),
        },
    ];

    let err = match build_gedcom_tree(&lines) {
        Ok(_) => panic!("tree build should fail"),
        Err(err) => err,
    };
    assert_eq!(err.line_index, 1);
    assert!(err.message.contains("invalid level jump"));
}

#[test]
fn tokenizer_reports_invalid_level_and_xref() {
    let err = tokenize_gedcom("0 HEAD\nX NAME\n").expect_err("bad level");
    assert_eq!(err.line_number, 2);
    assert_eq!(err.message, "invalid level 'X': expected unsigned integer");

    let err = tokenize_gedcom("0 @I1 INDI\n").expect_err("bad xref");
    assert_eq!(err.message, "invalid xref '@I1'");

    let err = tokenize_gedcom("0\n").expect_err("missing tag");
    assert_eq!(err.message, "missing tag after level");

    let err = tokenize_gedcom("0 @I1@\n").expect_err("missing tag after xref");
    assert_eq!(err.message, "missing tag after xref");

    let err = tokenize_gedcom("300 HEAD\n").expect_err("level above 255");
    assert_eq!(err.line_number, 1);
}

#[test]
fn tokenizer_skips_blank_lines_and_accepts_plus_level() {
    let lines = tokenize_gedcom("\n   \n+0 HEAD\n\n007 TRLR").expect("tokenize");
    assert_eq!(lines.len(), 2);
    assert_eq!(lines[0].level, 0);
    assert_eq!(lines[1].level, 7);
    assert_eq!(lines[1].tag, "TRLR");
}

#[test]
fn tree_reports_jump_with_levels() {
    let lines = tokenize_gedcom("0 HEAD\n1 SOUR X\n3 VERS 1\n").expect("tokenize");
    let err = match build_gedcom_tree(&lines) {
        Ok(_) => panic!("tree build should fail"),
        Err(err) => err,
    };
    assert_eq!(err.line_index, 2);
    assert_eq!(err.message, "invalid level jump from 1 to 3");
}

#[test]
fn serialize_gedcom_nodes_uses_cont_and_conc_for_multiline_values() {
    let long_value = format!("{}\n{}", "alpha".repeat(80), "beta".repeat(90));
    let note = GedcomNode {
        level: 0,
        xref: Some("@N1@".to_string()),
        tag: "NOTE".to_string(),
        value: Some(long_value.clone()),
        children: Vec::new(),
    };

    let rendered = serialize_gedcom_nodes(&[note]);
    assert!(rendered.contains("\n1 CONC "));
    assert!(rendered.contains("\n1 CONT "));

    let lines = tokenize_gedcom(&rendered).expect("tokenize rendered GEDCOM");
    assert_eq!(lines.len(), 1);
    assert_eq!(lines[0].value.as_deref(), Some(long_value.as_str()));
}

#[test]
fn render_gedcom_file_wraps_head_and_trailer_around_records() {
    let node = GedcomNode {
        level: 0,
        xref: Some("@I1@".to_string()),
        tag: "INDI".to_string(),
        value: None,
        children: vec![GedcomNode {
            level: 1,
            xref: None,
            tag: "NAME".to_string(),
            value: Some("John /Doe/".to_string()),
            children: Vec::new(),
        }],
    };
    let rendered = render_gedcom_file(&[node]);
    assert_eq!(
        rendered,
        "0 HEAD\n1 SOUR RUSTYGENE\n1 GEDC\n2 VERS 5.5.1\n2 FORM LINEAGE-LINKED\n1 LANG ENG\n1 CHAR UTF-8\n0 @I1@ INDI\n1 NAME John /Doe/\n0 TRLR\n"
    );
    assert_eq!(gedcom_head_node().children.len(), 4);
    assert_eq!(gedcom_trailer_node().tag, "TRLR");
}

#[test]
fn serialize_splits_at_255_bytes_without_breaking_characters() {
    let value = "é".repeat(200);
    let node = GedcomNode {
        level: 1,
        xref: None,
        tag: "NOTE".to_string(),
        value: Some(value.clone()),
        children: Vec::new(),
    };
    let rendered = serialize_gedcom_nodes(&[node]);
    for line in rendered.lines() {
        assert!(line.len() <= 255);
    }
    assert!(rendered.starts_with("1 NOTE é"));
    assert!(rendered.contains("\n2 CONC é"));
}

fn node(level: u8, xref: Option<&str>, tag: &str, value: Option<&str>, children: Vec<GedcomNode>) -> GedcomNode {
    GedcomNode {
        level,
        xref: xref.map(|x| x.to_string()),
        tag: tag.to_string(),
        value: value.map(|v| v.to_string()),
        children,
    }
}

fn same_forest(a: &[GedcomNode], b: &[GedcomNode]) -> bool {
    a.len() == b.len()
        && a.iter().zip(b.iter()).all(|(x, y)| {
            x.level == y.level
                && x.xref == y.xref
                && x.tag == y.tag
                && x.value == y.value
                && same_forest(&x.children, &y.children)
        })
}

#[test]
fn written_forest_reads_back_unchanged() {
    let long = format!("{}\n\n{}\n{}", "ab ".repeat(120), "é€😀".repeat(40), "");
    let roots = vec![
        node(
            0,
            Some("@I1@"),
            "INDI",
            None,
            vec![
                node(1, None, "NAME", Some(" Jane  /Roe/ "), vec![node(2, None, "GIVN", Some(""), vec![])]),
                node(1, None, "NOTE", Some(&long), vec![node(2, None, "_X", Some("x"), vec![])]),
            ],
        ),
        node(0, Some("@N1@"), "NOTE", Some("line one\nline two"), vec![]),
        node(0, None, "TRLR", None, vec![]),
    ];
    let text = serialize_gedcom_nodes(&roots);
    let lines = tokenize_gedcom(&text).expect("tokenize");
    assert_eq!(lines.len(), 7);
    assert_eq!(lines[2].value.as_deref(), Some(""));
    assert_eq!(lines[3].value.as_deref(), Some(long.as_str()));
    let built = build_gedcom_tree(&lines).expect("tree");
    assert!(same_forest(&built, &roots));
}
