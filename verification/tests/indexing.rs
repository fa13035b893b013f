use bedrock_core::index::{build_metadata_cache, extract_file_cache, rewrite_wiki_links};
use bedrock_core::media::image_data_uri;
use bedrock_core::paths::{
    collapse_path, ensure_markdown_extension, image_local_candidates, image_mime_for_path,
    import_candidate_name, is_importable_asset, is_importable_image_extension, is_markdown_file,
    is_path_within, normalize_link_key, normalize_rel_path, recent_notes_path,
    split_wikilink_inner, strip_md,
};

fn b(s: &str) -> Vec<u8> {
    s.as_bytes().to_vec()
}

fn find_list<'a>(m: &'a [(Vec<u8>, Vec<Vec<u8>>)], key: &str) -> Option<&'a Vec<Vec<u8>>> {
    m.iter().find(|e| e.0 == b(key)).map(|e| &e.1)
}

fn find_counts<'a>(m: &'a [(Vec<u8>, Vec<(Vec<u8>, usize)>)], key: &str) -> Option<
    &'a Vec<(Vec<u8>, usize)>,
> {
    m.iter().find(|e| e.0 == b(key)).map(|e| &e.1)
}

#[test]
fn metadata_extracts_wikilinks_and_markdown_links() {
    let cache = extract_file_cache(&b(
        "[[Wiki Note]]\n[md](Folder/Note.md)\n![img](Image.png)\n[ext](https://example.com)\n",
    ));
    assert!(cache.links.iter().any(|link| *link == b("Wiki Note")));
    assert!(cache.links.iter().any(|link| *link == b("Folder/Note.md")));
    assert!(cache.links.iter().any(|link| *link == b("Image.png")));
    assert!(!cache
        .links
        .iter()
        .any(|link| String::from_utf8_lossy(link).contains("https://")));
}

#[test]
fn indexer_resolves_link_and_records_backlink() {
    let notes = vec![(b("A.md"), b("[[B]]")), (b("B.md"), b("# hi"))];
    let files = vec![b("A.md"), b("B.md")];
    let state = build_metadata_cache(&notes, &files);

    let resolved = find_counts(&state.resolved_links, "A.md").expect("A.md resolves a link");
    assert_eq!(resolved.len(), 1);
    assert_eq!(resolved[0], (b("B.md"), 1));

    let backs = find_list(&state.backlinks, "B.md").expect("B.md gains a backlink");
    assert_eq!(backs.as_slice(), &[b("A.md")]);
    assert!(state.unresolved_links.is_empty());
}

#[test]
fn indexer_records_unresolved_link() {
    let notes = vec![(b("A.md"), b("[[C]]"))];
    let files = vec![b("A.md")];
    let state = build_metadata_cache(&notes, &files);

    assert!(find_counts(&state.resolved_links, "A.md").is_none());
    let unresolved = find_counts(&state.unresolved_links, "A.md").expect("C stays unresolved");
    assert_eq!(unresolved.as_slice(), &[(b("C"), 1)]);
}

#[test]
fn repeated_links_are_counted() {
    // Distinct raw spellings of the same target land on one resolved
    // entry; a note's identical raw links are deduplicated beforehand.
    let notes = vec![(b("A.md"), b("[[B]] and [[B.md]]")), (b("B.md"), b(""))];
    let files = vec![b("A.md"), b("B.md")];
    let state = build_metadata_cache(&notes, &files);
    let resolved = find_counts(&state.resolved_links, "A.md").unwrap();
    assert_eq!(resolved.as_slice(), &[(b("B.md"), 2)]);
    let backs = find_list(&state.backlinks, "B.md").unwrap();
    assert_eq!(backs.as_slice(), &[b("A.md")]);
}

#[test]
fn stem_ambiguity_leaves_link_unresolved() {
    let notes = vec![
        (b("A.md"), b("[[Note]]")),
        (b("x/Note.md"), b("")),
        (b("y/Note.md"), b("")),
    ];
    let files = vec![b("A.md"), b("x/Note.md"), b("y/Note.md")];
    let state = build_metadata_cache(&notes, &files);
    let unresolved = find_counts(&state.unresolved_links, "A.md").expect("ambiguous stem");
    assert_eq!(unresolved.as_slice(), &[(b("Note"), 1)]);
}

#[test]
fn unique_stem_resolves_across_folders() {
    let notes = vec![(b("A.md"), b("[[Deep]]")), (b("x/Deep.md"), b(""))];
    let files = vec![b("A.md"), b("x/Deep.md")];
    let state = build_metadata_cache(&notes, &files);
    let resolved = find_counts(&state.resolved_links, "A.md").unwrap();
    assert_eq!(resolved.as_slice(), &[(b("x/Deep.md"), 1)]);
}

#[test]
fn resolution_is_case_insensitive_but_keeps_stored_casing() {
    let notes = vec![(b("A.md"), b("[[folder/b]]")), (b("Folder/B.md"), b(""))];
    let files = vec![b("A.md"), b("Folder/B.md")];
    let state = build_metadata_cache(&notes, &files);
    let resolved = find_counts(&state.resolved_links, "A.md").unwrap();
    assert_eq!(resolved.as_slice(), &[(b("Folder/B.md"), 1)]);
}

#[test]
fn tags_are_lowercased_sorted_and_indexed() {
    let cache = extract_file_cache(&b("#Beta then #alpha and #beta again"));
    assert_eq!(cache.tags.as_slice(), &[b("alpha"), b("beta")]);

    let notes = vec![(b("A.md"), b("#shared")), (b("B.md"), b("#shared"))];
    let files = vec![b("A.md"), b("B.md")];
    let state = build_metadata_cache(&notes, &files);
    let tagged = find_list(&state.tags_index, "shared").unwrap();
    assert_eq!(tagged.as_slice(), &[b("A.md"), b("B.md")]);
}

#[test]
fn headings_keep_depth_and_line_numbers() {
    let cache = extract_file_cache(&b("# One\n\n### Three"));
    assert_eq!(cache.headings.len(), 2);
    assert_eq!(cache.headings[0].level, 1);
    assert_eq!(cache.headings[0].text, b("One"));
    assert_eq!(cache.headings[0].line, 1);
    assert_eq!(cache.headings[1].level, 3);
    assert_eq!(cache.headings[1].text, b("Three"));
    assert_eq!(cache.headings[1].line, 3);
}

#[test]
fn carriage_returns_are_stripped_from_heading_lines() {
    let cache = extract_file_cache(&b("# A\r\n## B\r\n"));
    assert_eq!(cache.headings.len(), 2);
    assert_eq!(cache.headings[0].text, b("A"));
    assert_eq!(cache.headings[1].text, b("B"));
    assert_eq!(cache.headings[1].line, 2);
}

#[test]
fn rewrite_wiki_links_renames_matching_targets() {
    let (text, changed) = rewrite_wiki_links(
        &b("see [[Old]] and [[Other]] and [[Old#Part|alias]]"),
        &b("Old.md"),
        &b("New.md"),
        true,
    );
    assert!(changed);
    assert_eq!(text, b("see [[New]] and [[Other]] and [[New#Part|alias]]"));
}

#[test]
fn rewrite_without_stem_match_needs_full_path() {
    let (text, changed) = rewrite_wiki_links(&b("[[Old]]"), &b("dir/Old.md"), &b("dir/New.md"), false);
    assert!(!changed);
    assert_eq!(text, b("[[Old]]"));

    let (text, changed) =
        rewrite_wiki_links(&b("[[dir/Old]]"), &b("dir/Old.md"), &b("dir/New.md"), false);
    assert!(changed);
    assert_eq!(text, b("[[dir/New]]"));
}

#[test]
fn normalizes_relative_paths() {
    assert_eq!(normalize_rel_path(&b("  \\a\\b/  ")), b("a/b"));
    assert_eq!(ensure_markdown_extension(&b("Note")), b("Note.md"));
    assert_eq!(ensure_markdown_extension(&b("Note.MD")), b("Note.MD"));
    assert_eq!(strip_md(&b("dir/Note.md")), b("dir/Note"));
    assert_eq!(normalize_link_key(&b(" A B.MD ")), b("a b.md"));
}

#[test]
fn splits_wikilink_into_target_heading_alias() {
    let (target, heading, alias) = split_wikilink_inner(&b("Target#Head|Alias"));
    assert_eq!(target, b("Target"));
    assert_eq!(heading.unwrap(), b("Head"));
    assert_eq!(alias.unwrap(), b("Alias"));

    let (target, heading, alias) = split_wikilink_inner(&b("Plain"));
    assert_eq!(target, b("Plain"));
    assert!(heading.is_none());
    assert!(alias.is_none());
}

#[test]
fn collapses_dot_segments() {
    assert_eq!(collapse_path(&b("/a/./b/../c")), b("/a/c"));
    assert_eq!(collapse_path(&b("a//b/")), b("a/b"));
    assert_eq!(collapse_path(&b("C:\\v\\..\\w")), b("C:/w"));
}

#[test]
fn path_containment_requires_prefix_segments() {
    assert!(is_path_within(&b("/v"), &b("/v/x/y.png")));
    assert!(is_path_within(&b("/v"), &b("/v")));
    assert!(!is_path_within(&b("/v"), &b("/vx/y.png")));
}

#[test]
fn image_candidates_stay_inside_vault() {
    let cands = image_local_candidates(&b("/v"), &b("notes/n.md"), &b("img.png"));
    assert_eq!(cands.as_slice(), &[b("/v/img.png"), b("/v/notes/img.png")]);

    let escape = image_local_candidates(&b("/v"), &b("n.md"), &b("../../etc/pw.png"));
    assert!(escape.is_empty());

    let external = image_local_candidates(&b("/v"), &b("n.md"), &b("https://x/y.png"));
    assert!(external.is_empty());
}

#[test]
fn recognizes_image_extensions_and_mime_types() {
    assert!(is_importable_image_extension(&b("webp")));
    assert!(!is_importable_image_extension(&b("txt")));
    assert!(is_markdown_file(&b("dir/Note.MD")));
    assert!(is_importable_asset(&b("photo.JPG")));
    assert!(!is_importable_asset(&b("archive.zip")));
    assert_eq!(image_mime_for_path(&b("x.svg")), "image/svg+xml");
    assert_eq!(image_mime_for_path(&b("x.unknown")), "application/octet-stream");
}

#[test]
fn builds_import_rename_candidates() {
    assert_eq!(
        import_candidate_name(&b("folder/Note.md"), 1),
        b("folder/Note (import 1).md")
    );
    assert_eq!(import_candidate_name(&b("pic.png"), 3), b("pic (import 3).png"));
}

#[test]
fn recent_notes_file_lives_under_bookkeeping_dir() {
    assert_eq!(recent_notes_path(&b("/v")), b("/v/.bedrock/recent.json"));
    assert_eq!(recent_notes_path(&b("/v/")), b("/v/.bedrock/recent.json"));
}

#[test]
fn data_uri_encodes_image_bytes() {
    let uri = image_data_uri(&b("pic.png"), &b("abc"));
    assert_eq!(uri, b("data:image/png;base64,YWJj"));
}
