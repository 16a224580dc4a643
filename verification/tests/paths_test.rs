use search_engine::paths::search_engine_paths;

fn comps(parts: &[&str]) -> Vec<String> {
    parts.iter().map(|s| s.to_string()).collect()
}

#[test]
fn change_directory_under_assets_enters() {
    let mut path = comps(&["home", "assets"]);
    let ok = search_engine_paths::change_directory(&mut path, "documents", &|p: &Vec<String>| p.len() == 3);
    assert!(ok);
    assert_eq!(path, comps(&["home", "assets", "documents"]));
}

#[test]
fn change_directory_switches_sibling() {
    let mut path = comps(&["home", "assets", "documents"]);
    let ok = search_engine_paths::change_directory(&mut path, "other", &|p: &Vec<String>| p.last().unwrap() == "other");
    assert!(ok);
    assert_eq!(path, comps(&["home", "assets", "other"]));
}

#[test]
fn change_directory_missing_keeps_current() {
    let mut path = comps(&["home", "assets", "documents"]);
    let ok = search_engine_paths::change_directory(&mut path, "missing", &|p: &Vec<String>| p.last().unwrap() != "missing");
    assert!(!ok);
    assert_eq!(path, comps(&["home", "assets", "documents"]));
}

#[test]
fn change_directory_same_name_is_refused() {
    let mut path = comps(&["home", "assets", "documents"]);
    assert!(!search_engine_paths::change_directory(&mut path, "documents", &|_p: &Vec<String>| true));
    assert_eq!(path, comps(&["home", "assets", "documents"]));
}

#[test]
fn index_directory_takes_second_word() {
    let mut path = comps(&["home", "assets"]);
    let ok = search_engine_paths::index_directory(&mut path, ":index  docs".to_string(), &|_p: &Vec<String>| true);
    assert!(ok);
    assert_eq!(path, comps(&["home", "assets", "docs"]));
}
