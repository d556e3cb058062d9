use chopin::device_tree::{numbify, CompatibleEntry, DTBAddressConfig};

#[test]
fn parse_splits_manufacturer_and_model() {
    let (entry, rest) = CompatibleEntry::parse("riscv,plic0\0");
    assert_eq!(entry.manufacturer, "riscv");
    assert_eq!(entry.model, "plic0");
    assert_eq!(rest, None);
}

#[test]
fn parse_returns_rest_of_stream() {
    let (entry, rest) = CompatibleEntry::parse("sifive,plic-1.0.0\0riscv,plic0\0");
    assert_eq!(entry.manufacturer, "sifive");
    assert_eq!(entry.model, "plic-1.0.0");
    assert_eq!(rest, Some("riscv,plic0\0"));
}

#[test]
fn parse_splits_at_first_comma_only() {
    let (entry, rest) = CompatibleEntry::parse("a,b,c\0x");
    assert_eq!(entry.manufacturer, "a");
    assert_eq!(entry.model, "b,c");
    assert_eq!(rest, Some("x"));
}

#[test]
fn parse_without_comma_is_malformed() {
    let (entry, rest) = CompatibleEntry::parse("ns16550a\0");
    assert_eq!(entry.manufacturer, "Malformed Input");
    assert_eq!(entry.model, "Malformed Input");
    assert_eq!(rest, None);
}

#[test]
fn parse_without_nul_is_empty() {
    let (entry, rest) = CompatibleEntry::parse("riscv,plic0");
    assert_eq!(entry.manufacturer, "");
    assert_eq!(entry.model, "");
    assert_eq!(rest, None);
    let (entry, rest) = CompatibleEntry::parse("");
    assert_eq!(entry.manufacturer, "");
    assert_eq!(entry.model, "");
    assert_eq!(rest, None);
}

#[test]
fn parse_counts_characters_not_bytes() {
    let (entry, rest) = CompatibleEntry::parse("é,ü\0ß");
    assert_eq!(entry.manufacturer, "é");
    assert_eq!(entry.model, "ü");
    assert_eq!(rest, Some("ß"));
}

#[test]
fn parse_many_reads_every_entry() {
    let entries = CompatibleEntry::parse_many("sifive,plic-1.0.0\0riscv,plic0\0ns16550a\0");
    assert_eq!(entries.len(), 3);
    assert_eq!(entries[0].manufacturer, "sifive");
    assert_eq!(entries[0].model, "plic-1.0.0");
    assert_eq!(entries[1].manufacturer, "riscv");
    assert_eq!(entries[1].model, "plic0");
    assert_eq!(entries[2].manufacturer, "Malformed Input");
}

#[test]
fn parse_many_of_trailing_text_adds_empty_entry() {
    let entries = CompatibleEntry::parse_many("a,b\0tail");
    assert_eq!(entries.len(), 2);
    assert_eq!(entries[0].model, "b");
    assert_eq!(entries[1].manufacturer, "");
    assert_eq!(CompatibleEntry::parse_many("").len(), 1);
}

#[test]
fn numbify_is_big_endian() {
    assert_eq!(numbify(&[]), 0);
    assert_eq!(numbify(&[0x12]), 0x12);
    assert_eq!(numbify(&[0x12, 0x34, 0x56, 0x78]), 0x1234_5678);
    assert_eq!(numbify(&[0, 0, 0, 0, 0x80, 0, 0, 0]), 0x8000_0000);
    let mut long = vec![1u8];
    long.extend_from_slice(&[0xAB; 16]);
    assert_eq!(numbify(&long), 0xABAB_ABAB_ABAB_ABAB_ABAB_ABAB_ABAB_ABAB);
}

#[test]
fn interpret_reg_reads_tuples() {
    let config = DTBAddressConfig { address_cells: 2, size_cells: 2 };
    let data = [
        0, 0, 0, 0, 0x80, 0, 0, 0, 0, 0, 0, 0, 0x08, 0, 0, 0, 0, 0, 0, 1, 0, 0, 0, 0, 0, 0, 0, 0, 0, 0, 0x10, 0,
        0xFF, 0xFF,
    ];
    assert_eq!(
        config.interpret_reg(&data),
        vec![(0x8000_0000, 0x0800_0000), (0x1_0000_0000, 0x1000)]
    );
    let narrow = DTBAddressConfig { address_cells: 1, size_cells: 0 };
    assert_eq!(narrow.interpret_reg(&[0, 0, 0, 5, 0, 0, 0, 6]), vec![(5, 0), (6, 0)]);
    assert!(config.interpret_reg(&data[..15]).is_empty());
}
