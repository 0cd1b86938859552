use sfs_rs::config::{backup_path, new, Error};

fn block(id: &str, timeused: &str, description: &str, tokenid: &str) -> String {
    format!(
        "\"{}\"\n{{\n\"timeused\" \"{}\"\n\"description\" \"{}\"\n\"tokenid\" \"{}\"\n}}",
        id, timeused, description, tokenid
    )
}

#[test]
fn loads_two_records_and_reencodes_identically() {
    let b111 = block("111", "5", "Alice", "-1");
    let b222 = block("222", "9", "Bob", "3");
    let text = format!("\"AuthorizedDevice\"\n{{\n{}\n{}\n}}", b111, b222);
    let mut doc = new();
    let r = doc.init(String::from("config.vdf"), text.as_bytes().to_vec());
    assert!(r.is_ok());
    assert_eq!(doc.vdf.len(), 2);
    assert_eq!(doc.vdf[0].id, b"111".to_vec());
    assert_eq!(doc.vdf[0].timeused, b"5".to_vec());
    assert_eq!(doc.vdf[0].description, b"Alice".to_vec());
    assert_eq!(doc.vdf[0].tokenid, b"-1".to_vec());
    assert_eq!(doc.vdf[1].id, b"222".to_vec());
    assert_eq!(doc.vdf[1].timeused, b"9".to_vec());
    assert_eq!(doc.vdf[1].description, b"Bob".to_vec());
    assert_eq!(doc.vdf[1].tokenid, b"3".to_vec());
    let same = doc.patched_text().unwrap();
    assert_eq!(same, text.as_bytes().to_vec());
}

#[test]
fn swapping_records_swaps_blocks_only() {
    let b111 = block("111", "5", "Alice", "-1");
    let b222 = block("222", "9", "Bob", "3");
    let text = format!("\"AuthorizedDevice\"\n{{\n{}\n{}\n}}", b111, b222);
    let mut doc = new();
    doc.init(String::from("config.vdf"), text.as_bytes().to_vec()).unwrap();
    doc.vdf.swap(0, 1);
    let swapped = doc.patched_text().unwrap();
    let expected = format!("\"AuthorizedDevice\"\n{{\n{}\n{}\n}}", b222, b111);
    assert_eq!(swapped, expected.as_bytes().to_vec());
}

#[test]
fn reordered_save_reloads_as_the_permutation() {
    let text = format!(
        "\"AuthorizedDevice\"\n{{\n{}\n{}\n{}\n}}",
        block("1", "0", "a", "0"),
        block("2", "0", "b", "0"),
        block("3", "0", "c", "0"),
    );
    let mut doc = new();
    doc.init(String::from("config.vdf"), text.as_bytes().to_vec()).unwrap();
    let first = doc.vdf.remove(0);
    doc.vdf.push(first);
    let rotated = doc.patched_text().unwrap();
    let mut doc2 = new();
    doc2.init(String::from("config.vdf"), rotated).unwrap();
    let ids: Vec<Vec<u8>> = doc2.vdf.iter().map(|d| d.id.clone()).collect();
    assert_eq!(ids, vec![b"2".to_vec(), b"3".to_vec(), b"1".to_vec()]);
    let descriptions: Vec<Vec<u8>> = doc2.vdf.iter().map(|d| d.description.clone()).collect();
    assert_eq!(descriptions, vec![b"b".to_vec(), b"c".to_vec(), b"a".to_vec()]);
}

#[test]
fn empty_section_round_trip() {
    let text = "\"AuthorizedDevice\"\n{\n}";
    let mut doc = new();
    let r = doc.init(String::from("config.vdf"), text.as_bytes().to_vec());
    assert!(r.is_ok());
    assert_eq!(doc.vdf.len(), 0);
    let out = doc.patched_text().unwrap();
    assert_eq!(out, text.as_bytes().to_vec());
}

#[test]
fn absent_label_yields_section_not_found() {
    let text = "\"InstallConfigStore\"\n{\n\"Software\"\n{\n}\n}";
    let mut doc = new();
    let r = doc.init(String::from("config.vdf"), text.as_bytes().to_vec());
    assert!(matches!(r, Err(Error::SectionNotFound)));
}

#[test]
fn malformed_body_yields_malformed_section() {
    let text = "\"AuthorizedDevice\"\n{\n\"abc\" oops\n}";
    let mut doc = new();
    let r = doc.init(String::from("config.vdf"), text.as_bytes().to_vec());
    assert!(matches!(r, Err(Error::MalformedSection)));
}

#[test]
fn truncated_record_yields_malformed_section() {
    let text = "\"AuthorizedDevice\"\n{\n\"111\"\n{\n\"timeused\" \"5\"\n";
    let mut doc = new();
    let r = doc.init(String::from("config.vdf"), text.as_bytes().to_vec());
    assert!(matches!(r, Err(Error::MalformedSection)));
}

#[test]
fn missing_brace_after_label_yields_malformed_section() {
    let text = "\"AuthorizedDevice\" oops";
    let mut doc = new();
    let r = doc.init(String::from("config.vdf"), text.as_bytes().to_vec());
    assert!(matches!(r, Err(Error::MalformedSection)));
}

#[test]
fn failed_init_leaves_document_untouched() {
    let good = format!("\"AuthorizedDevice\"\n{{\n{}\n}}", block("7", "1", "pc", "0"));
    let mut doc = new();
    doc.init(String::from("config.vdf"), good.as_bytes().to_vec()).unwrap();
    let r = doc.init(String::from("other.vdf"), b"no section here".to_vec());
    assert!(matches!(r, Err(Error::SectionNotFound)));
    assert_eq!(doc.vdf.len(), 1);
    assert_eq!(doc.vdf[0].id, b"7".to_vec());
    assert_eq!(doc.patched_text().unwrap(), good.as_bytes().to_vec());
}

#[test]
fn irregular_whitespace_normalizes_to_canonical_form() {
    let head = "some other text\n\"AuthorizedDevice\"   \t\n  ";
    let body = "{  \"5\"  {\"timeused\"\t\"2\" \"description\" \"Desk PC\" \"tokenid\" \"-3\"}  }";
    let tail = "\nmore trailing text";
    let text = format!("{}{}{}", head, body, tail);
    let mut doc = new();
    doc.init(String::from("config.vdf"), text.as_bytes().to_vec()).unwrap();
    assert_eq!(doc.vdf.len(), 1);
    assert_eq!(doc.vdf[0].description, b"Desk PC".to_vec());
    let out = doc.patched_text().unwrap();
    let expected = format!("{}{}{}", head, format!("{{\n{}\n}}", block("5", "2", "Desk PC", "-3")), tail);
    assert_eq!(out, expected.as_bytes().to_vec());
}

#[test]
fn patch_preserves_surrounding_text() {
    let head = "\"InstallConfigStore\"\n{\n\t\"Software\"\n\t{\n\t}\n\"AuthorizedDevice\"\n";
    let body = format!("{{\n{}\n}}", block("42", "1", "laptop", "7"));
    let tail = "\n\"Other\"\n{\n}\n}";
    let text = format!("{}{}{}", head, body, tail);
    let mut doc = new();
    doc.init(String::from("config.vdf"), text.as_bytes().to_vec()).unwrap();
    let out = doc.patched_text().unwrap();
    assert_eq!(out, text.as_bytes().to_vec());
}

#[test]
fn duplicate_ids_pass_through() {
    let text = format!(
        "\"AuthorizedDevice\"\n{{\n{}\n{}\n}}",
        block("9", "1", "first", "0"),
        block("9", "2", "second", "0"),
    );
    let mut doc = new();
    doc.init(String::from("config.vdf"), text.as_bytes().to_vec()).unwrap();
    assert_eq!(doc.vdf.len(), 2);
    assert_eq!(doc.vdf[0].id, b"9".to_vec());
    assert_eq!(doc.vdf[1].id, b"9".to_vec());
    assert_eq!(doc.patched_text().unwrap(), text.as_bytes().to_vec());
}

#[test]
fn patched_text_without_section_is_patch_target_not_found() {
    let doc = new();
    let r = doc.patched_text();
    assert!(matches!(r, Err(Error::PatchTargetNotFound)));
}

#[test]
fn backup_path_appends_fixed_suffix() {
    let p = backup_path("/home/someone/.local/share/Steam/config/config.vdf");
    assert_eq!(p, "/home/someone/.local/share/Steam/config/config.vdf.backup");
    let q = backup_path("picked.vdf");
    assert_eq!(q, "picked.vdf.backup");
}
