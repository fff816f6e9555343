use rustmameui::config::Config;
use rustmameui::games::RomEntry;
use rustmameui::xml::{
    scan_inputs, scan_machines, MachineScan, RomListError, ScanInput, XmlAttribute, XmlTag,
};

const LIST: &str = r#"<?xml version="1.0"?>
<!DOCTYPE mame>
<mame build="0.250">
  <!-- a comment -->
  <machine name="pacman" sourcefile="pacman.cpp">
    <description>Pac-Man (Midway)</description>
    <year>1980</year>
    <driver status="good" emulation="good" savestate="supported"/>
  </machine>
  <machine name="neogeo" isbios="yes">
    <description>Neo-Geo</description>
    <driver status="good" emulation="good"/>
  </machine>
  <machine name="broken">
    <description>Broken &amp; Bad</description>
    <driver status="preliminary" emulation="preliminary"/>
  </machine>
  <machine name="galaga" isbios="no">
    <description>Galaga &amp; Co</description>
    <driver emulation="good"></driver>
  </machine>
</mame>
"#;

fn config_with_roms() -> Config {
    let mut config = Config::default();
    config.roms_path = "/roms".to_string();
    config
}

fn pairs(entries: &[RomEntry]) -> Vec<(String, String)> {
    entries.iter().map(|e| (e.rom.clone(), e.description.clone())).collect()
}

fn tag(name: &str, attributes: &[(&str, &str)]) -> XmlTag {
    XmlTag {
        name: name.as_bytes().to_vec(),
        attributes: attributes
            .iter()
            .map(|(k, v)| Some(XmlAttribute { key: k.as_bytes().to_vec(), value: v.as_bytes().to_vec() }))
            .collect(),
    }
}

#[test]
fn scan_keeps_good_machines_that_are_no_bios() {
    let found = scan_machines(&config_with_roms(), LIST).unwrap();
    assert_eq!(
        pairs(&found),
        vec![
            ("pacman".to_string(), "Pac-Man (Midway)".to_string()),
            ("galaga".to_string(), "Galaga &amp; Co".to_string()),
        ]
    );
}

#[test]
fn scan_without_roms_path_fails() {
    assert!(matches!(
        scan_machines(&Config::default(), LIST),
        Err(RomListError::MissingRomsPathConfig)
    ));
}

#[test]
fn scan_of_broken_xml_fails() {
    assert!(matches!(
        scan_machines(&config_with_roms(), "<mame><machine name=\"a\""),
        Err(RomListError::Xml(_))
    ));
}

#[test]
fn scan_of_an_empty_document_finds_nothing() {
    assert!(scan_machines(&config_with_roms(), "").unwrap().is_empty());
}

#[test]
fn machine_name_that_is_not_utf8_leaves_no_machine() {
    let bad = XmlTag {
        name: b"machine".to_vec(),
        attributes: vec![Some(XmlAttribute { key: b"name".to_vec(), value: vec![0xff, 0xfe] })],
    };
    let inputs = vec![
        ScanInput::MachineStart(bad),
        ScanInput::Description("Something".to_string()),
        ScanInput::Driver(tag("driver", &[("emulation", "good")])),
    ];
    assert!(scan_inputs(&inputs).is_empty());
}

#[test]
fn only_the_first_emulation_attribute_counts() {
    let inputs = vec![
        ScanInput::MachineStart(tag("machine", &[("name", "a")])),
        ScanInput::Description("A".to_string()),
        ScanInput::Driver(tag("driver", &[("emulation", "imperfect"), ("emulation", "good")])),
        ScanInput::MachineStart(tag("machine", &[("name", "b")])),
        ScanInput::Driver(XmlTag {
            name: b"driver".to_vec(),
            attributes: vec![None, Some(XmlAttribute { key: b"emulation".to_vec(), value: b"good".to_vec() })],
        }),
    ];
    // The second machine keeps the description of the first: no other was read.
    assert_eq!(pairs(&scan_inputs(&inputs)), vec![("b".to_string(), "A".to_string())]);
}

#[test]
fn last_name_and_isbios_attributes_win() {
    let inputs = vec![
        ScanInput::Description("D".to_string()),
        ScanInput::MachineStart(tag("machine", &[("isbios", "yes"), ("name", "x"), ("isbios", "no"), ("name", "y")])),
        ScanInput::Driver(tag("driver", &[("emulation", "good")])),
    ];
    assert_eq!(pairs(&scan_inputs(&inputs)), vec![("y".to_string(), "D".to_string())]);
}

#[test]
fn a_driver_before_any_description_is_skipped() {
    let mut scan = MachineScan::new();
    scan.apply(&ScanInput::MachineStart(tag("machine", &[("name", "x")])));
    scan.apply(&ScanInput::Driver(tag("driver", &[("emulation", "good")])));
    assert!(scan.into_found().is_empty());
}

fn rom_list(xml: &str, present: &[&str]) -> (Vec<String>, Vec<String>) {
    let found = scan_machines(&config_with_roms(), xml).unwrap();
    let flags: Vec<bool> = found.iter().map(|e| present.contains(&e.rom.as_str())).collect();
    rustmameui::games::finish_rom_list(found, &flags)
}

#[test]
fn rom_list_is_sorted_with_each_description_beside_its_rom() {
    let xml = r#"<mame><machine name="b"><description>Bee</description><driver emulation="good"/></machine><machine name="a"><description>Ay</description><driver emulation="good"/></machine></mame>"#;
    let (roms, descriptions) = rom_list(xml, &["a", "b"]);
    assert_eq!(roms, vec!["a".to_string(), "b".to_string()]);
    assert_eq!(descriptions, vec!["Ay".to_string(), "Bee".to_string()]);
}

#[test]
fn rom_list_leaves_out_a_bios() {
    let xml = r#"<mame><machine name="neogeo" isbios="yes"><description>Neo-Geo</description><driver emulation="good"/></machine></mame>"#;
    let (roms, descriptions) = rom_list(xml, &["neogeo"]);
    assert!(roms.is_empty() && descriptions.is_empty());
}

#[test]
fn rom_list_leaves_out_missing_archives() {
    let xml = r#"<mame><machine name="b"><description>Bee</description><driver emulation="good"/></machine><machine name="a"><description>Ay</description><driver emulation="good"/></machine></mame>"#;
    let (roms, _) = rom_list(xml, &["b"]);
    assert_eq!(roms, vec!["b".to_string()]);
}

#[test]
fn adding_a_machine_that_is_not_kept_changes_nothing() {
    let base = r#"<mame><machine name="a"><description>Ay</description><driver emulation="good"/></machine>"#;
    let plain = format!("{}</mame>", base);
    let with_bios = format!(
        "{}<machine name=\"z\" isbios=\"yes\"><description>Zed</description><driver emulation=\"good\"/></machine></mame>",
        base
    );
    let with_bad = format!(
        "{}<machine name=\"y\"><description>Why</description><driver emulation=\"imperfect\"/></machine></mame>",
        base
    );
    let expected = rom_list(&plain, &["a", "y", "z", "w"]);
    assert_eq!(rom_list(&with_bios, &["a", "y", "z", "w"]), expected);
    assert_eq!(rom_list(&with_bad, &["a", "y", "z", "w"]), expected);
}
