use deskbar::catalog::{ApplicationEntry, Catalog};
use deskbar::category::{categorize, CategoryIndex, CategoryPolicy};
use deskbar::launch::sanitize_command;
use deskbar::parser::parse_descriptor;
use deskbar::scan::{build_catalog, is_descriptor_file};
use deskbar::search::{search, SearchOutcome};

fn bytes(s: &str) -> Vec<u8> {
    s.as_bytes().to_vec()
}

fn entry(name: &str, command: &str, categories: &[&str]) -> ApplicationEntry {
    ApplicationEntry {
        name: bytes(name),
        command: bytes(command),
        icon: None,
        categories: categories.iter().map(|c| bytes(c)).collect(),
    }
}

fn catalog_of(entries: Vec<ApplicationEntry>) -> Catalog {
    Catalog { entries }
}

fn names_of(catalog: &Catalog, indices: &[usize]) -> Vec<String> {
    indices
        .iter()
        .map(|&i| String::from_utf8(catalog.entries[i].name.clone()).unwrap())
        .collect()
}

#[test]
fn parse_valid_descriptor() {
    let content = bytes(
        "[Desktop Entry]\nName=Firefox\nExec=firefox %U\nIcon=firefox\nCategories=Network;WebBrowser;\n",
    );
    let e = parse_descriptor(&content, None).unwrap();
    assert_eq!(e.name, bytes("Firefox"));
    assert_eq!(e.command, bytes("firefox %U"));
    assert_eq!(e.icon, Some(bytes("firefox")));
    assert_eq!(e.categories, vec![bytes("Network"), bytes("WebBrowser")]);
}

#[test]
fn parse_rejects_no_display() {
    let content = bytes("[Desktop Entry]\nName=Hidden\nExec=hidden\nNoDisplay=true\n");
    assert!(parse_descriptor(&content, None).is_none());
}

#[test]
fn parse_rejects_missing_command() {
    let content = bytes("[Desktop Entry]\nName=NoCommand\n");
    assert!(parse_descriptor(&content, None).is_none());
}

#[test]
fn parse_name_falls_back_to_unknown() {
    let content = bytes("[Desktop Entry]\nExec=mystery\n");
    let e = parse_descriptor(&content, None).unwrap();
    assert_eq!(e.name, bytes("Unknown"));
}

#[test]
fn parse_prefers_localized_name() {
    let content = bytes("[Desktop Entry]\nName=Files\nName[de]=Dateien\nExec=files\n");
    let locale = bytes("de");
    let e = parse_descriptor(&content, Some(&locale)).unwrap();
    assert_eq!(e.name, bytes("Dateien"));
    let plain = parse_descriptor(&content, None).unwrap();
    assert_eq!(plain.name, bytes("Files"));
}

#[test]
fn parse_discards_empty_category_segments() {
    let content = bytes("[Desktop Entry]\nName=App\nExec=app\nCategories=A;;B;\n");
    let e = parse_descriptor(&content, None).unwrap();
    assert_eq!(e.categories, vec![bytes("A"), bytes("B")]);
}

#[test]
fn parse_ignores_keys_outside_desktop_entry_section() {
    let content = bytes("Exec=early\n[Other Section]\nExec=wrong\n[Desktop Entry]\nExec=right\n");
    let e = parse_descriptor(&content, None).unwrap();
    assert_eq!(e.command, bytes("right"));
}

#[test]
fn descriptor_extension_check() {
    assert!(is_descriptor_file(&bytes("firefox.desktop")));
    assert!(!is_descriptor_file(&bytes("notes.txt")));
    assert!(!is_descriptor_file(&bytes("desktop")));
}

#[test]
fn catalog_sorted_case_insensitively() {
    let files = vec![
        bytes("[Desktop Entry]\nName=zebra\nExec=z\n"),
        bytes("[Desktop Entry]\nName=Apple\nExec=a\n"),
        bytes("[Desktop Entry]\nName=mango\nExec=m\n"),
    ];
    let catalog = build_catalog(&files, None);
    let names: Vec<Vec<u8>> = catalog.entries.iter().map(|e| e.name.clone()).collect();
    assert_eq!(names, vec![bytes("Apple"), bytes("mango"), bytes("zebra")]);
}

#[test]
fn no_display_descriptor_excluded_from_catalog() {
    let files = vec![
        bytes("[Desktop Entry]\nName=Shown\nExec=shown-cmd\n"),
        bytes("[Desktop Entry]\nName=Hidden\nExec=hidden-cmd\nNoDisplay=true\n"),
    ];
    let catalog = build_catalog(&files, None);
    assert_eq!(catalog.entries.len(), 1);
    for e in &catalog.entries {
        assert_ne!(e.command, bytes("hidden-cmd"));
    }
}

#[test]
fn duplicate_descriptors_both_retained() {
    let files = vec![
        bytes("[Desktop Entry]\nName=Twin\nExec=twin\n"),
        bytes("[Desktop Entry]\nName=Twin\nExec=twin\n"),
    ];
    let catalog = build_catalog(&files, None);
    assert_eq!(catalog.entries.len(), 2);
}

#[test]
fn single_bucket_uses_first_translated_tag() {
    let catalog = catalog_of(vec![entry("Chess", "chess", &["Game", "Utility"])]);
    let idx = categorize(&catalog, CategoryPolicy::SingleBucket);
    for b in &idx.buckets {
        if b.label == bytes("Games") {
            assert_eq!(b.members, vec![0]);
        } else {
            assert!(b.members.is_empty());
        }
    }
}

#[test]
fn single_bucket_translates_tags() {
    let catalog = catalog_of(vec![
        entry("Browser", "browser", &["Network"]),
        entry("Player", "player", &["AudioVideo"]),
        entry("Tweaks", "tweaks", &["Settings"]),
    ]);
    let idx = categorize(&catalog, CategoryPolicy::SingleBucket);
    let find = |label: &str| -> Vec<usize> {
        idx.buckets
            .iter()
            .find(|b| b.label == bytes(label))
            .unwrap()
            .members
            .clone()
    };
    assert_eq!(find("Internet"), vec![0]);
    assert_eq!(find("Multimedia"), vec![1]);
    assert_eq!(find("Preferences"), vec![2]);
}

#[test]
fn single_bucket_unmatched_tags_fall_to_other() {
    let catalog = catalog_of(vec![
        entry("Odd", "odd", &["SomethingNew"]),
        entry("Bare", "bare", &[]),
    ]);
    let idx = categorize(&catalog, CategoryPolicy::SingleBucket);
    let other = idx
        .buckets
        .iter()
        .find(|b| b.label == bytes("Other"))
        .unwrap();
    assert_eq!(other.members, vec![0, 1]);
}

#[test]
fn single_bucket_every_entry_in_exactly_one_bucket() {
    let catalog = catalog_of(vec![
        entry("A", "a", &["Network"]),
        entry("B", "b", &["Nowhere"]),
        entry("C", "c", &[]),
        entry("D", "d", &["Game", "Network"]),
    ]);
    let idx = categorize(&catalog, CategoryPolicy::SingleBucket);
    for i in 0..catalog.entries.len() {
        let occurrences: usize = idx
            .buckets
            .iter()
            .map(|b| b.members.iter().filter(|&&m| m == i).count())
            .sum();
        assert_eq!(occurrences, 1);
    }
}

#[test]
fn multi_bucket_uses_every_raw_tag() {
    let catalog = catalog_of(vec![entry("Gimp", "gimp", &["Graphics", "Photography"])]);
    let idx = categorize(&catalog, CategoryPolicy::MultiBucket);
    let labels: Vec<Vec<u8>> = idx.buckets.iter().map(|b| b.label.clone()).collect();
    assert_eq!(labels, vec![bytes("Graphics"), bytes("Photography")]);
    for b in &idx.buckets {
        assert_eq!(b.members, vec![0]);
    }
}

#[test]
fn multi_bucket_empty_categories_only_other() {
    let catalog = catalog_of(vec![
        entry("Tagged", "t", &["Network"]),
        entry("Untagged", "u", &[]),
    ]);
    let idx = categorize(&catalog, CategoryPolicy::MultiBucket);
    for b in &idx.buckets {
        if b.label == bytes("Other") {
            assert_eq!(b.members, vec![1]);
        } else {
            assert!(!b.members.contains(&1));
        }
    }
    assert!(idx.buckets.iter().any(|b| b.label == bytes("Other")));
}

fn indices_equal(a: &CategoryIndex, b: &CategoryIndex) -> bool {
    a.buckets.len() == b.buckets.len()
        && a.buckets
            .iter()
            .zip(b.buckets.iter())
            .all(|(x, y)| x.label == y.label && x.members == y.members)
}

#[test]
fn categorize_twice_is_identical() {
    let catalog = catalog_of(vec![
        entry("A", "a", &["Network", "WebBrowser"]),
        entry("B", "b", &[]),
        entry("C", "c", &["Game"]),
    ]);
    for policy in [CategoryPolicy::SingleBucket, CategoryPolicy::MultiBucket] {
        let first = categorize(&catalog, policy);
        let second = categorize(&catalog, policy);
        assert!(indices_equal(&first, &second));
    }
}

#[test]
fn search_ranks_prefix_matches_first() {
    let catalog = catalog_of(vec![
        entry("Firefox", "firefox", &[]),
        entry("GIMP", "gimp", &[]),
        entry("Fire Extinguisher Manual", "fire-manual", &[]),
    ]);
    match search(&catalog, &bytes("fire"), 20) {
        SearchOutcome::Ranked(indices) => {
            assert_eq!(
                names_of(&catalog, &indices),
                vec!["Firefox".to_string(), "Fire Extinguisher Manual".to_string()]
            );
        }
        _ => panic!("expected ranked results"),
    }
}

#[test]
fn search_earlier_occurrence_ranks_higher() {
    let catalog = catalog_of(vec![
        entry("A Fireplace", "a", &[]),
        entry("Fireball", "b", &[]),
    ]);
    match search(&catalog, &bytes("fire"), 20) {
        SearchOutcome::Ranked(indices) => {
            assert_eq!(indices, vec![1, 0]);
        }
        _ => panic!("expected ranked results"),
    }
}

#[test]
fn search_is_case_insensitive() {
    let catalog = catalog_of(vec![entry("firefox", "firefox", &[])]);
    match search(&catalog, &bytes("FIRE"), 20) {
        SearchOutcome::Ranked(indices) => assert_eq!(indices, vec![0]),
        _ => panic!("expected ranked results"),
    }
}

#[test]
fn search_empty_query_is_no_search() {
    let catalog = catalog_of(vec![entry("Firefox", "firefox", &[])]);
    match search(&catalog, &bytes(""), 20) {
        SearchOutcome::NoQuery => {}
        _ => panic!("expected the no-query outcome"),
    }
}

#[test]
fn search_reports_empty_results_distinctly() {
    let catalog = catalog_of(vec![entry("Firefox", "firefox", &[])]);
    match search(&catalog, &bytes("zzz"), 20) {
        SearchOutcome::NoMatches => {}
        _ => panic!("expected the no-matches outcome"),
    }
}

#[test]
fn search_equal_ranks_keep_catalog_order() {
    let catalog = catalog_of(vec![
        entry("afire", "a", &[]),
        entry("bfire", "b", &[]),
    ]);
    match search(&catalog, &bytes("fire"), 20) {
        SearchOutcome::Ranked(indices) => assert_eq!(indices, vec![0, 1]),
        _ => panic!("expected ranked results"),
    }
}

#[test]
fn search_caps_results_at_the_bound() {
    let mut entries = Vec::new();
    for i in 0..30 {
        entries.push(entry(&format!("app{:02}", i), "cmd", &[]));
    }
    let catalog = catalog_of(entries);
    match search(&catalog, &bytes("app"), 20) {
        SearchOutcome::Ranked(indices) => {
            let expected: Vec<usize> = (0..20).collect();
            assert_eq!(indices, expected);
        }
        _ => panic!("expected ranked results"),
    }
}

#[test]
fn bucket_top_truncates_to_browse_cap() {
    let catalog = catalog_of(vec![
        entry("A", "a", &["Network"]),
        entry("B", "b", &["Network"]),
        entry("C", "c", &["Network"]),
    ]);
    let idx = categorize(&catalog, CategoryPolicy::MultiBucket);
    assert_eq!(idx.bucket_top(0, 2), vec![0, 1]);
    assert_eq!(idx.bucket_top(0, 8), vec![0, 1, 2]);
}

#[test]
fn sanitize_drops_placeholder_tokens() {
    assert_eq!(
        sanitize_command(&bytes("firefox %U --new-window")),
        bytes("firefox --new-window")
    );
}

#[test]
fn sanitize_collapses_whitespace() {
    assert_eq!(sanitize_command(&bytes("a  %f \t b")), bytes("a b"));
}

#[test]
fn sanitize_of_empty_command_is_empty() {
    assert_eq!(sanitize_command(&bytes("")), bytes(""));
}

#[test]
fn sanitize_of_only_placeholders_is_empty() {
    assert_eq!(sanitize_command(&bytes("%U %f")), bytes(""));
}
