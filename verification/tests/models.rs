use tessera::models::{available, best_for, models_dir, Folder, ModelEntry, ModelFile};

fn entry(name: &str) -> ModelEntry {
    ModelEntry { path: format!("/m/{name}.onnx"), name: name.to_string() }
}

fn file(dir: &str, stem: &str, ext: &str) -> ModelFile {
    ModelFile {
        path: format!("{dir}/{stem}.{ext}"),
        extension: Some(ext.to_string()),
        stem: Some(stem.to_string()),
    }
}

fn picked(names: &[&str], style: &str) -> Option<String> {
    let models: Vec<ModelEntry> = names.iter().map(|n| entry(n)).collect();
    best_for(&models, style).map(|m| m.name)
}

#[test]
fn map_style_prefers_line_art_models() {
    // Selection is name-driven, so verify the hint order directly.
    let hints: &[&str] = &["map", "line", "anime", "draw"];
    assert!(hints.contains(&"anime"), "anime models suit line art");
    for hint in hints {
        let name = format!("some-{hint}-x4");
        assert_eq!(picked(&["aaa", "photo", &name], "maps"), Some(name.clone()));
    }
    for pair in hints.windows(2) {
        assert_eq!(picked(&[pair[1], pair[0]], "maps"), Some(pair[0].to_string()));
    }
}

#[test]
fn models_dir_is_always_a_path() {
    assert!(!models_dir(&vec![], None).is_empty());
    assert_eq!(models_dir(&vec![], None), "models");
    assert_eq!(models_dir(&vec![], Some("/opt/models")), "/opt/models");
}

#[test]
fn models_dir_is_the_first_that_exists() {
    let folder = |path: &str, exists| Folder { path: path.to_string(), exists };
    let folders = vec![folder("/a", false), folder("/b", true), folder("/c", true)];
    assert_eq!(models_dir(&folders, Some("/a")), "/b");
    assert_eq!(models_dir(&vec![folder("/c", false)], Some("/a")), "/a");
}

#[test]
fn other_styles_prefer_photo_models() {
    assert_eq!(picked(&["general", "realistic", "PHOTO"], "photos"), Some("PHOTO".to_string()));
    assert_eq!(picked(&["general", "RealESRGAN"], ""), Some("RealESRGAN".to_string()));
    assert_eq!(picked(&["general", "map"], "photos"), Some("general".to_string()));
}

#[test]
fn the_first_of_several_hits_is_picked() {
    assert_eq!(picked(&["x", "line-b", "line-a"], "maps"), Some("line-b".to_string()));
}

#[test]
fn anything_is_better_than_nothing() {
    assert_eq!(picked(&["x", "y"], "maps"), Some("x".to_string()));
    assert_eq!(picked(&[], "maps"), None);
}

#[test]
fn models_are_listed_by_name_without_doubles() {
    let files = vec![
        file("/near", "zebra", "onnx"),
        file("/near", "notes", "txt"),
        file("/near", "Alpha", "ONNX"),
        file("/far", "zebra", "onnx"),
        file("/far", "alpha", "onnx"),
        ModelFile { path: "/far/odd.onnx".to_string(), extension: Some("onnx".to_string()), stem: None },
        ModelFile { path: "/far/plain".to_string(), extension: None, stem: Some("plain".to_string()) },
    ];
    let listed: Vec<(String, String)> =
        available(&files).into_iter().map(|m| (m.name, m.path)).collect();
    let want = [
        ("Alpha", "/near/Alpha.ONNX"),
        ("alpha", "/far/alpha.onnx"),
        ("model", "/far/odd.onnx"),
        ("zebra", "/near/zebra.onnx"),
    ];
    assert_eq!(listed, want.map(|(n, p)| (n.to_string(), p.to_string())));
}

#[test]
fn names_are_ordered_as_the_standard_library_orders_them() {
    let mut names = vec!["b", "a", "ab", "", "é", "z", "Z", "\u{10000}", "\u{ffff}", "a b"];
    let files: Vec<ModelFile> = names.iter().map(|n| file("/m", n, "onnx")).collect();
    let listed: Vec<String> = available(&files).into_iter().map(|m| m.name).collect();
    names.sort();
    assert_eq!(listed, names);
}

#[test]
fn the_order_of_files_does_not_matter_without_doubles() {
    let a = vec![file("/m", "b", "onnx"), file("/m", "c", "onnx"), file("/m", "a", "onnx")];
    let b = vec![file("/m", "a", "onnx"), file("/m", "b", "onnx"), file("/m", "c", "onnx")];
    assert_eq!(available(&a), available(&b));
}
