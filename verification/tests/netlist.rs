use embsim_board::netlist::{
    is_autogenerated_net_name, net_sheet_path, net_short_label, normalize_net_name,
    normalize_pin_name, parse, NetDecl, NetlistError,
};

#[test]
fn overline_syntax_normalizes() {
    assert_eq!(normalize_pin_name("~{RESET}"), "~RESET");
    assert_eq!(normalize_pin_name("~RESET"), "~RESET");
    assert_eq!(normalize_pin_name("AIN0"), "AIN0");
    assert_eq!(normalize_pin_name("~{}"), "~");
    assert_eq!(normalize_pin_name("~{"), "~{");
}

#[test]
fn line_comments_are_skipped() {
    let input = "; provenance: exported by kicad-cli\n\
                 ; regeneration: CI diff-check\n\
                 (export (version \"E\")\n\
                   ; components section\n\
                   (components\n\
                     (comp (ref \"R1\") (value \"47R; not a comment\")\n\
                       (libsource (lib \"Device\") (part \"R_Small\")))))";
    let parsed = parse(input).expect("commented netlist parses");
    assert_eq!(parsed.version, "E");
    assert_eq!(parsed.components.len(), 1);
    assert_eq!(parsed.components[0].value, "47R; not a comment");
}

#[test]
fn rejects_unsupported_versions_and_malformed_input() {
    let bad_version = r#"(export (version "Z") (components) (nets))"#;
    assert_eq!(
        parse(bad_version),
        Err(NetlistError::UnsupportedVersion {
            found: "Z".to_string()
        })
    );
    assert!(matches!(
        parse("(export (version \"E\") (components"),
        Err(NetlistError::Malformed { .. })
    ));
    assert!(matches!(
        parse("(design)"),
        Err(NetlistError::Malformed { .. })
    ));
}

fn malformed(message: &str) -> NetlistError {
    NetlistError::Malformed {
        message: message.to_string(),
    }
}

#[test]
fn every_malformed_input_names_its_cause() {
    assert_eq!(parse(""), Err(malformed("expected '(' at byte 0")));
    assert_eq!(
        parse("; µ\n export"),
        Err(malformed("expected '(' at byte 6"))
    );
    assert_eq!(
        parse("(export (version \"E\")"),
        Err(malformed("unexpected end of input inside list"))
    );
    assert_eq!(
        parse("(export (version \"E"),
        Err(malformed("unterminated quoted string"))
    );
    assert_eq!(
        parse("(export (version \"E\\"),
        Err(malformed("unterminated quoted string"))
    );
    assert_eq!(
        parse("(design)"),
        Err(malformed("top-level form is not (export …)"))
    );
    assert_eq!(parse("()"), Err(malformed("top-level form is not (export …)")));
    assert_eq!(parse("(export)"), Err(malformed("missing (version …)")));
    assert_eq!(
        parse("(export (version E) (components (comp (value 1))))"),
        Err(malformed("(comp …) missing (ref …)"))
    );
    assert_eq!(
        parse("(export (version E) (nets (net (name A))))"),
        Err(malformed("(net …) missing (code …)"))
    );
    assert_eq!(
        parse("(export (version E) (nets (net (code 1) (name \"a\\\"b\") (node (pin 1)))))"),
        Err(malformed("(node …) in net \"a\\\"b\" missing (ref …)"))
    );
    assert_eq!(
        parse("(export (version E) (nets (net (code 1) (name N) (node (ref U1)))))"),
        Err(malformed("(node …) in net \"N\" missing (pin …)"))
    );
}

#[test]
fn what_follows_the_export_is_not_read() {
    let parsed = parse("(export (version E)) trailing )").unwrap();
    assert_eq!(parsed.version, "E");
    assert!(parsed.components.is_empty());
    assert!(parsed.nets.is_empty());
}

#[test]
fn quoted_atoms_unescape() {
    let input = r#"(export (version "E")
        (components (comp (ref "U1") (value "a \"b\" c")))
        (nets))"#;
    let parsed = parse(input).unwrap();
    assert_eq!(parsed.components[0].value, "a \"b\" c");
}

#[test]
fn errors_display_named_causes() {
    let err = NetlistError::UnsupportedVersion {
        found: "Z".to_string(),
    };
    assert!(err.describe().contains("\"Z\""));
    assert_eq!(
        err.describe(),
        "unsupported KiCad netlist export version \"Z\""
    );
    assert_eq!(
        malformed("missing (version …)").describe(),
        "malformed KiCad netlist: missing (version …)"
    );
}

const TWO_SHEET_NETLIST: &str = r#"(export (version "E")
    (components
      (comp (ref "R1") (value "10k")
        (libsource (lib "Device") (part "R_Small"))
        (sheetpath (names "/Sheet2/") (tstamps "/1111/"))
        (tstamps "00000000-0000-0000-0000-000000000001"))
      (comp (ref "R2") (value "10k")
        (libsource (lib "Device") (part "R_Small"))
        (sheetpath (names "/Sheet3/") (tstamps "/2222/"))
        (tstamps "00000000-0000-0000-0000-000000000002")))
    (nets
      (net (code "1") (name "/Sheet2/SIGNAL")
        (node (ref "R1") (pin "1") (pinfunction "1") (pintype "passive")))
      (net (code "2") (name "/Sheet3/SIGNAL")
        (node (ref "R2") (pin "1") (pinfunction "1") (pintype "passive")))
      (net (code "3") (name "GND")
        (node (ref "R1") (pin "2") (pinfunction "2") (pintype "passive"))
        (node (ref "R2") (pin "2") (pinfunction "2") (pintype "passive")))))"#;

#[test]
fn sheet_paths_and_short_labels_split_on_the_leading_slash() {
    for (name, path, leaf) in [
        (
            "/MaD_Edge_Sheet2/IFG_RX",
            Some("/MaD_Edge_Sheet2/"),
            "IFG_RX",
        ),
        ("/Top/Inner/CLK", Some("/Top/Inner/"), "CLK"),
        ("GND", None, "GND"),
        ("+3.3V", None, "+3.3V"),
        ("Net-(U1-TX)", None, "Net-(U1-TX)"),
        ("A/B", None, "A/B"),
        ("/GND", Some("/"), "GND"),
        ("", None, ""),
    ] {
        assert_eq!(net_sheet_path(name), path);
        assert_eq!(net_short_label(name), leaf);
    }
}

#[test]
fn normalize_net_name_never_strips_the_sheet_path() {
    for (name, expected) in [
        ("~{RESET}", "~RESET"),
        ("/Sheet2/~{OE}", "/Sheet2/~OE"),
        ("/MaD_Edge_Sheet2/IFG_RX", "/MaD_Edge_Sheet2/IFG_RX"),
        ("/Sheet2/~OE", "/Sheet2/~OE"),
        ("Net-(U1-~{DRDY})", "Net-(U1-~{DRDY})"),
        ("GND", "GND"),
    ] {
        assert_eq!(normalize_net_name(name), expected);
        assert_eq!(
            net_sheet_path(&normalize_net_name(name)),
            net_sheet_path(name)
        );
    }
}

#[test]
fn same_leaf_label_on_two_sheets_stays_two_distinct_nets() {
    let parsed = parse(TWO_SHEET_NETLIST).expect("two-sheet netlist parses");
    assert_eq!(parsed.nets.len(), 3);

    let scoped: Vec<&NetDecl> = parsed
        .nets
        .iter()
        .filter(|n| net_sheet_path(&n.name).is_some())
        .collect();
    assert_eq!(scoped.len(), 2);
    assert_eq!(scoped[0].name, "/Sheet2/SIGNAL");
    assert_eq!(scoped[1].name, "/Sheet3/SIGNAL");
    assert_ne!(scoped[0].code, scoped[1].code);
    assert_ne!(
        normalize_net_name(&scoped[0].name),
        normalize_net_name(&scoped[1].name),
        "canonical names must stay distinct"
    );

    assert_eq!(scoped[0].nodes[0].reference, "R1");
    assert_eq!(scoped[1].nodes[0].reference, "R2");

    let canonical: std::collections::HashSet<String> =
        parsed.nets.iter().map(|n| n.name.clone()).collect();
    let stripped: std::collections::HashSet<&str> = parsed
        .nets
        .iter()
        .map(|n| net_short_label(&n.name))
        .collect();
    assert_eq!(canonical.len(), 3);
    assert_eq!(stripped.len(), 2);
}

#[test]
fn autogenerated_net_names_are_recognized() {
    for (name, expected) in [
        ("Net-(U1-TX)", true),
        ("unconnected-(U9-NC-Pad1)", true),
        ("/Sheet2/Net-(U1-TX)", true),
        ("GND", false),
        ("Net_Control", false),
        ("/MaD_Edge_Sheet2/IFG_RX", false),
    ] {
        assert_eq!(is_autogenerated_net_name(name), expected);
    }
}

#[test]
fn component_sheetpaths_are_captured() {
    let parsed = parse(TWO_SHEET_NETLIST).unwrap();
    assert_eq!(parsed.components[0].sheetpath, "/Sheet2/");
    assert_eq!(parsed.components[1].sheetpath, "/Sheet3/");
}

#[test]
fn missing_sheetpath_defaults_to_root() {
    let input = r#"(export (version "E")
        (components (comp (ref "R1") (value "10k")))
        (nets))"#;
    assert_eq!(parse(input).unwrap().components[0].sheetpath, "/");
}

#[test]
fn node_pintype_is_captured_when_present() {
    let parsed = parse(TWO_SHEET_NETLIST).unwrap();
    assert_eq!(parsed.nets[0].nodes[0].pintype.as_deref(), Some("passive"));

    let bare = r#"(export (version "E") (components)
        (nets (net (code "1") (name "N") (node (ref "U1") (pin "1")))))"#;
    let node = &parse(bare).unwrap().nets[0].nodes[0];
    assert_eq!(node.pintype, None);
    assert_eq!(node.pinfunction, None);
}

#[test]
fn quoted_atoms_preserve_multibyte_utf8() {
    let input = r#"(export (version "E")
        (components
          (comp (ref "C1") (value "4µ7")
            (footprint "R_0805")
            (libsource (lib "Device") (part "C_Small") (description "470 µF ±20% 60 mΩ"))))
        (nets))"#;
    let parsed = parse(input).unwrap();
    let comp = &parsed.components[0];
    assert_eq!(comp.value, "4µ7");
}

#[test]
fn empty_libsource_lib_is_accepted() {
    let input = r#"(export (version "E")
        (components
          (comp (ref "IC6") (value "NSI50010YT1G")
            (libsource (lib "") (part "NSI50010YT1G_1") (description ""))))
        (nets))"#;
    let parsed = parse(input).unwrap();
    let comp = &parsed.components[0];
    assert_eq!(comp.lib, "");
    assert_eq!(comp.part, "NSI50010YT1G_1");
}

#[test]
fn a_dnp_property_in_any_case_marks_the_component() {
    let input = r#"(export (version "E")
        (components
          (comp (ref "R1") (property (name "ki_keywords")))
          (comp (ref "R2") (property (name "Height")) (property (name "DNP")))
          (comp (ref "R3") (property (name "dnp2")))))"#;
    let parsed = parse(input).unwrap();
    let dnp: Vec<bool> = parsed.components.iter().map(|c| c.dnp).collect();
    assert_eq!(dnp, [false, true, false]);
}

#[test]
fn ignored_forms_change_nothing() {
    let bare = r#"(export (version "E")
        (components
          (comp (ref "R1") (value "4k7") (libsource (lib "Device") (part "R"))
            (sheetpath (names "/A/"))))
        (nets (net (code "1") (name "/OUT") (node (ref "R1") (pin "1")))))"#;
    let full = r#"(export (version "E")
        (design (source "x.kicad_sch") (version "D"))
        (components
          (comp (ref "R1") (value "4k7") (datasheet "~") (description "a resistor")
            (fields (field (name "MPN") "X")) (property (name "Height") (value "1"))
            (libsource (lib "Device") (part "R"))
            (sheetpath (names "/A/") (tstamps "/1/")) (tstamps "2")))
        (libparts (libpart (lib "Device") (part "R")))
        (libraries (library (logical "Device")))
        (nets (net (code "1") (name "/OUT") (node (ref "R1") (pin "1")))))"#;
    assert_eq!(parse(full).unwrap(), parse(bare).unwrap());
}
