use issen::document::{BlockKind, Document, SegmentKind};

#[test]
fn maps_paragraph_text_back_to_source() {
    let doc = Document::parse("# 見出し\n\nこれは`code`です。\n");
    assert_eq!(doc.blocks.len(), 2);
    let p = &doc.blocks[1];
    assert_eq!(p.text, "これはーーーーです。");
    let src = p.to_source(p.text.find("です").unwrap());
    assert_eq!(&doc.source[src..src + 6], "です");
    assert_eq!(doc.position(src), (3, 10));
}

#[test]
fn masked_code_maps_to_whole_span_never_mid_char() {
    let doc = Document::parse("これは`日本`\n");
    let p = &doc.blocks[0];
    let code = p.segments.iter().find(|s| s.kind == SegmentKind::Code).unwrap();
    for b in code.text_start..=code.text_end {
        let src = p.to_source(b);
        assert!(doc.source.is_char_boundary(src));
        assert!(src == code.src_start || src == code.src_end);
    }
}

#[test]
fn boundary_offset_belongs_to_the_next_segment() {
    let doc = Document::parse("これは  \nﾃｽﾄです。\n");
    let p = &doc.blocks[0];
    let at = p.text.find('ﾃ').unwrap();
    assert_eq!(doc.position(p.to_source(at)), (2, 1));
    let doc = Document::parse("これは\r\nﾃｽﾄです。\r\n");
    let p = &doc.blocks[0];
    assert_eq!(doc.position(p.to_source(p.text.find('ﾃ').unwrap())), (2, 1));
    let doc = Document::parse("&amp;Githubです。\n");
    let p = &doc.blocks[0];
    assert_eq!(doc.position(p.to_source(p.text.find('G').unwrap())), (1, 6));
}

#[test]
fn tight_list_items_become_blocks() {
    let doc = Document::parse("- 一つ目である\n- 二つ目です\n");
    assert_eq!(doc.blocks.len(), 2);
    assert!(doc.blocks.iter().all(|b| b.kind == BlockKind::ListItem));
}

#[test]
fn nested_tight_items_do_not_merge() {
    let doc = Document::parse("- 私は学生です\n  - 彼は先生です\n");
    let texts: Vec<&str> = doc.blocks.iter().map(|b| b.text.as_str()).collect();
    assert_eq!(texts, vec!["私は学生です", "彼は先生です"]);
    let doc = Document::parse("- `foo`は便利です。\n");
    assert_eq!(doc.blocks[0].text, "ーーーは便利です。");
}

#[test]
fn table_cells_and_links_are_tagged() {
    let doc = Document::parse("| 名前 |\n|---|\n| はい |\n\n[https://x](https://x) と [名前](https://y)\n");
    assert!(doc.blocks.iter().take(2).all(|b| b.kind == BlockKind::TableCell));
    let p = doc.blocks.last().unwrap();
    let segs: Vec<(bool, bool)> = p.segments.iter().map(|s| (s.in_link, s.url_link)).collect();
    assert_eq!(segs, vec![(true, true), (false, false), (true, false)]);
}

#[test]
fn utf16_offsets_count_surrogate_pairs() {
    let doc = Document::parse("😀 ﾃｽﾄです。\n");
    // The emoji is four bytes and two UTF-16 code units.
    assert_eq!(doc.utf16_offset(4), 2);
    assert_eq!(doc.utf16_offset(5), 3);
    assert_eq!(doc.position(5), (1, 4));
}

#[test]
fn fix_range_stays_inside_one_verbatim_segment() {
    let doc = Document::parse("これは`日本`です。\n");
    let p = &doc.blocks[0];
    // The masked code is not verbatim: a fix over it is withheld.
    let code = p.segments.iter().find(|s| s.kind == SegmentKind::Code).unwrap();
    assert_eq!(p.fix_range(code.text_start, code.text_end), None);
    // Plain text maps one to one.
    assert_eq!(p.fix_range(0, 3), Some((0, 3)));
}
