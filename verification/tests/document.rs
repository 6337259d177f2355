use bootstore::document::BootConfigDocument;

fn bv(s: &str) -> Vec<u8> {
    s.as_bytes().to_vec()
}

#[test]
fn parses_example_entry() {
    let src = bv("linux /vmlinuz\noptions quiet\n");
    let d = BootConfigDocument::parse_bytes(&src);
    assert_eq!(d.len(), 2);
    assert_eq!(d.get(&bv("linux")), Some(bv("/vmlinuz")));
    assert_eq!(d.get(&bv("options")), Some(bv("quiet")));
    assert_eq!(d.get(&bv("missing")), None);
}

#[test]
fn set_then_write_replaces_value() {
    let src = bv("linux /vmlinuz\noptions quiet\n");
    let mut d = BootConfigDocument::parse_bytes(&src);
    d.set(&bv("options"), &bv("verbose"));
    assert_eq!(d.write_bytes(), bv("linux /vmlinuz\noptions verbose\n"));
}

#[test]
fn empty_document_serializes_to_nothing() {
    let d = BootConfigDocument::new();
    assert_eq!(d.write_bytes(), Vec::<u8>::new());
    assert_eq!(d.len(), 0);
}

#[test]
fn parsing_empty_input_yields_empty_document() {
    let d = BootConfigDocument::parse_bytes(&Vec::new());
    assert_eq!(d.len(), 0);
    assert_eq!(d.write_bytes(), Vec::<u8>::new());
}

#[test]
fn round_trip_preserves_duplicates_comments_and_order() {
    let src = bv("title Test\n# a comment\n\ninitrd /a.img\ninitrd /b.img\noptions quiet splash\n");
    let d = BootConfigDocument::parse_bytes(&src);
    let written = d.write_bytes();
    assert_eq!(written, src);
    let d2 = BootConfigDocument::parse_bytes(&written);
    assert_eq!(d2.len(), d.len());
    assert_eq!(d2.write_bytes(), src);
}

#[test]
fn write_is_idempotent() {
    let src = bv("linux /vmlinuz\n# note\noptions quiet\n");
    let d = BootConfigDocument::parse_bytes(&src);
    let first = d.write_bytes();
    let second = d.write_bytes();
    assert_eq!(first, second);
}

#[test]
fn set_new_key_appends_at_end() {
    let src = bv("linux /vmlinuz\n");
    let mut d = BootConfigDocument::parse_bytes(&src);
    let before = d.len();
    d.set(&bv("options"), &bv("quiet"));
    assert_eq!(d.len(), before + 1);
    assert_eq!(d.write_bytes(), bv("linux /vmlinuz\noptions quiet\n"));
}

#[test]
fn set_existing_key_keeps_count_and_position() {
    let src = bv("options quiet\nlinux /vmlinuz\n");
    let mut d = BootConfigDocument::parse_bytes(&src);
    let before = d.len();
    d.set(&bv("options"), &bv("loud"));
    assert_eq!(d.len(), before);
    assert_eq!(d.write_bytes(), bv("options loud\nlinux /vmlinuz\n"));
}

#[test]
fn get_returns_first_match_of_duplicate_key() {
    let src = bv("initrd /a.img\ninitrd /b.img\n");
    let d = BootConfigDocument::parse_bytes(&src);
    assert_eq!(d.get(&bv("initrd")), Some(bv("/a.img")));
}

#[test]
fn set_overwrites_only_first_duplicate() {
    let src = bv("initrd /a.img\ninitrd /b.img\n");
    let mut d = BootConfigDocument::parse_bytes(&src);
    d.set(&bv("initrd"), &bv("/c.img"));
    assert_eq!(d.write_bytes(), bv("initrd /c.img\ninitrd /b.img\n"));
}

#[test]
fn tab_separator_is_accepted_and_normalized() {
    let src = bv("key\tvalue\n");
    let d = BootConfigDocument::parse_bytes(&src);
    assert_eq!(d.get(&bv("key")), Some(bv("value")));
    assert_eq!(d.write_bytes(), bv("key value\n"));
}

#[test]
fn whitespace_run_separates_key_and_value() {
    let src = bv("key  \t value with spaces\n");
    let d = BootConfigDocument::parse_bytes(&src);
    assert_eq!(d.get(&bv("key")), Some(bv("value with spaces")));
    assert_eq!(d.write_bytes(), bv("key value with spaces\n"));
}

#[test]
fn key_without_value_round_trips() {
    let src = bv("standalone\n");
    let d = BootConfigDocument::parse_bytes(&src);
    assert_eq!(d.get(&bv("standalone")), Some(Vec::new()));
    assert_eq!(d.write_bytes(), src);
}

#[test]
fn final_line_without_newline_is_read() {
    let src = bv("a 1\nb 2");
    let d = BootConfigDocument::parse_bytes(&src);
    assert_eq!(d.get(&bv("b")), Some(bv("2")));
    assert_eq!(d.write_bytes(), bv("a 1\nb 2\n"));
}

#[test]
fn clone_is_a_deep_copy() {
    let src = bv("linux /vmlinuz\n");
    let mut d = BootConfigDocument::parse_bytes(&src);
    let c = d.clone();
    d.set(&bv("linux"), &bv("/other"));
    assert_eq!(c.get(&bv("linux")), Some(bv("/vmlinuz")));
    assert_eq!(d.get(&bv("linux")), Some(bv("/other")));
}

#[test]
fn overlay_initrds_are_the_extra_initrd_entries() {
    let src = bv("linux /vmlinuz\ninitrd /main.img\ninitrd /ov1.img\ninitrd /ov2.img\n");
    let d = BootConfigDocument::parse_bytes(&src);
    assert_eq!(d.overlay_initrds(), vec![bv("/ov1.img"), bv("/ov2.img")]);
}

#[test]
fn no_extra_initrd_entries_means_no_overlays() {
    let src = bv("linux /vmlinuz\ninitrd /main.img\n");
    let d = BootConfigDocument::parse_bytes(&src);
    assert_eq!(d.overlay_initrds(), Vec::<Vec<u8>>::new());
}

#[test]
fn set_overlay_initrds_replaces_the_list() {
    let src = bv("linux /vmlinuz\ninitrd /main.img\ninitrd /old.img\noptions quiet\n");
    let mut d = BootConfigDocument::parse_bytes(&src);
    d.set_overlay_initrds(&vec![bv("/new1.img"), bv("/new2.img")]);
    assert_eq!(d.overlay_initrds(), vec![bv("/new1.img"), bv("/new2.img")]);
    assert_eq!(
        d.write_bytes(),
        bv("linux /vmlinuz\ninitrd /main.img\noptions quiet\ninitrd /new1.img\ninitrd /new2.img\n")
    );
}

#[test]
fn set_overlay_initrds_with_empty_list_clears_overlays() {
    let src = bv("initrd /main.img\ninitrd /old.img\n");
    let mut d = BootConfigDocument::parse_bytes(&src);
    d.set_overlay_initrds(&Vec::new());
    assert_eq!(d.overlay_initrds(), Vec::<Vec<u8>>::new());
    assert_eq!(d.write_bytes(), bv("initrd /main.img\n"));
}

#[test]
fn comment_lines_never_match_a_key() {
    let src = bv("# options commented\noptions real\n");
    let d = BootConfigDocument::parse_bytes(&src);
    assert_eq!(d.get(&bv("options")), Some(bv("real")));
    assert_eq!(d.get(&bv("#")), None);
    assert_eq!(d.write_bytes(), src);
}

#[test]
fn unrecognized_line_opening_with_whitespace_is_kept_verbatim() {
    let src = bv("  indented oddity\nkey value\n");
    let d = BootConfigDocument::parse_bytes(&src);
    assert_eq!(d.get(&bv("indented")), None);
    assert_eq!(d.write_bytes(), src);
}
