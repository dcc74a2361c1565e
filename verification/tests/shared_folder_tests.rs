use hybrid_shared_core::shared_folder::{
    atomic_write_json, ensure_layout, request_path, response_path, tmp_path, FileAction, FilePath,
    PathStep,
};
use std::path::PathBuf;

fn resolve(path: &FilePath) -> PathBuf {
    let mut out = PathBuf::new();
    for step in &path.steps {
        match step {
            PathStep::Path(p) => out = out.join(p),
            PathStep::Name(s) => out = out.join(s),
            PathStep::FileName(s) => out.set_file_name(s),
        }
    }
    out
}

fn root() -> FilePath {
    FilePath::new(PathBuf::from("/shared"))
}

#[test]
fn the_folder_has_five_parts() {
    let dirs: Vec<PathBuf> = ensure_layout(&root()).iter().map(resolve).collect();
    assert_eq!(
        dirs,
        vec![
            PathBuf::from("/shared/requests/pending"),
            PathBuf::from("/shared/requests/processing"),
            PathBuf::from("/shared/requests/done"),
            PathBuf::from("/shared/requests/failed"),
            PathBuf::from("/shared/responses"),
        ]
    );
}

#[test]
fn requests_and_responses_have_their_places() {
    assert_eq!(
        resolve(&request_path(&root(), "r-1")),
        PathBuf::from("/shared/requests/pending/r-1.request.json")
    );
    assert_eq!(
        resolve(&response_path(&root(), "c-1", "r-1")),
        PathBuf::from("/shared/responses/c-1/r-1.response.json")
    );
    assert_ne!(response_path(&root(), "c-1", "r-1"), response_path(&root(), "c-2", "r-1"));
    assert_ne!(response_path(&root(), "c-1", "r-1"), response_path(&root(), "c-1", "r-2"));
}

#[test]
fn a_file_is_written_beside_its_place() {
    let path = root().join("a.json");
    assert_eq!(resolve(&tmp_path(&path, Some("a.json"))), PathBuf::from("/shared/a.json.tmp"));
    assert_eq!(resolve(&tmp_path(&path, None)), PathBuf::from("/shared/file.tmp"));
    let tmp = tmp_path(&path, Some("a.json"));
    assert_eq!(
        atomic_write_json(&path, Some(root()), Some("a.json")),
        vec![
            FileAction::CreateDirs(root()),
            FileAction::Write(tmp.clone()),
            FileAction::Rename(tmp.clone(), path.clone()),
        ]
    );
    assert_eq!(
        atomic_write_json(&path, None, Some("a.json")),
        vec![FileAction::Write(tmp.clone()), FileAction::Rename(tmp, path)]
    );
}

#[test]
fn paths_are_put_together() {
    let a = root().join("x").with_file_name("y");
    assert_eq!(resolve(&a), PathBuf::from("/shared/y"));
    let b = root().join_path(&FilePath::from_text("u").join("v"));
    assert_eq!(resolve(&b), PathBuf::from("/shared/u/v"));
    assert_eq!(a.copy(), a);
}
