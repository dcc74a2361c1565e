//! Where the files of the shared folder are.
use std::path::PathBuf;
use vstd::prelude::*;
use vstd::string::*;

use crate::text::concat_text;

verus! {

/// `std::path::PathBuf`: a path as the platform writes it.
#[verifier::external_type_specification]
#[verifier::external_body]
pub struct ExPathBuf(PathBuf);

/// `PathBuf::clone`: the clone is the same path.
pub assume_specification[ <PathBuf as Clone>::clone ](p: &PathBuf) -> (r: PathBuf)
    ensures
        r == *p,
;

/// One step on the way to a file. How a step is taken is the platform's business.
#[derive(Debug, Clone, PartialEq, Eq)]
pub enum PathStep {
    /// Joins a path.
    Path(PathBuf),
    /// Joins a path that is given by its text.
    Name(String),
    /// Sets the file name.
    FileName(String),
}

/// Where a file is: the steps that lead to it, the first of them taken from the empty path.
#[derive(Debug, Clone, PartialEq, Eq)]
pub struct FilePath {
    pub steps: Vec<PathStep>,
}

/// One step on the way to a file, without its representation.
pub enum StepModel {
    Path(PathBuf),
    Name(Seq<char>),
    FileName(Seq<char>),
}

impl View for PathStep {
    type V = StepModel;

    open spec fn view(&self) -> StepModel {
        match self {
            PathStep::Path(p) => StepModel::Path(*p),
            PathStep::Name(s) => StepModel::Name(s@),
            PathStep::FileName(s) => StepModel::FileName(s@),
        }
    }
}

impl View for FilePath {
    type V = Seq<StepModel>;

    open spec fn view(&self) -> Seq<StepModel> {
        Seq::new(self.steps@.len(), |i: int| self.steps@[i]@)
    }
}

/// The views of a list of file paths.
pub open spec fn path_models(v: Seq<FilePath>) -> Seq<Seq<StepModel>> {
    Seq::new(v.len(), |i: int| v[i]@)
}

/// The view of an optional file path.
pub open spec fn optional_path(p: Option<FilePath>) -> Option<Seq<StepModel>> {
    match p {
        Some(x) => Some(x@),
        None => None,
    }
}

/// Joining a path that is given by its text.
pub open spec fn named(path: Seq<StepModel>, name: Seq<char>) -> Seq<StepModel> {
    path.push(StepModel::Name(name))
}

impl PathStep {
    /// A step equal to this one.
    pub fn copy(&self) -> (r: PathStep)
        ensures
            r == *self,
    {
        match self {
            PathStep::Path(p) => PathStep::Path(p.clone()),
            PathStep::Name(s) => PathStep::Name(s.clone()),
            PathStep::FileName(s) => PathStep::FileName(s.clone()),
        }
    }
}

impl FilePath {
    /// The path `path` itself.
    pub fn new(path: PathBuf) -> (r: FilePath)
        ensures
            r@ == seq![StepModel::Path(path)],
    {
        let mut steps: Vec<PathStep> = Vec::new();
        steps.push(PathStep::Path(path));
        let r = FilePath { steps };
        assert(r@ =~= seq![StepModel::Path(path)]);
        r
    }

    /// The path with the text `name`.
    pub fn from_text(name: &str) -> (r: FilePath)
        ensures
            r@ == seq![StepModel::Name(name@)],
    {
        let mut steps: Vec<PathStep> = Vec::new();
        steps.push(PathStep::Name(name.to_string()));
        let r = FilePath { steps };
        assert(r@ =~= seq![StepModel::Name(name@)]);
        r
    }

    /// A path with the same steps.
    pub fn copy(&self) -> (r: FilePath)
        ensures
            r@ == self@,
    {
        let mut steps: Vec<PathStep> = Vec::new();
        let mut i: usize = 0;
        while i < self.steps.len()
            invariant
                i <= self.steps@.len(),
                steps@.len() == i,
                forall|k: int| 0 <= k < i ==> #[trigger] steps@[k] == self.steps@[k],
            decreases self.steps@.len() - i,
        {
            steps.push(self.steps[i].copy());
            i = i + 1;
        }
        let r = FilePath { steps };
        assert(r@ =~= self@);
        r
    }

    fn with_step(&self, step: PathStep) -> (r: FilePath)
        ensures
            r@ == self@.push(step@),
    {
        let mut r = self.copy();
        let ghost before = r@;
        let mut steps = r.steps;
        let ghost s = steps@;
        steps.push(step);
        let out = FilePath { steps };
        proof {
            assert forall|k: int| 0 <= k < before.len() implies out@[k] == before[k] by {
                assert(out.steps@[k] == s[k]);
            }
            assert(out@ =~= before.push(step@));
        }
        out
    }

    /// The path with the text `name` joined to this one.
    pub fn join(&self, name: &str) -> (r: FilePath)
        ensures
            r@ == named(self@, name@),
    {
        self.with_step(PathStep::Name(name.to_string()))
    }

    /// This path with another file name.
    pub fn with_file_name(&self, name: &str) -> (r: FilePath)
        ensures
            r@ == self@.push(StepModel::FileName(name@)),
    {
        self.with_step(PathStep::FileName(name.to_string()))
    }

    /// The steps of `other` taken after those of this path.
    pub fn join_path(&self, other: &FilePath) -> (r: FilePath)
        ensures
            r@ == self@ + other@,
    {
        let mut out = self.copy();
        let mut i: usize = 0;
        assert(out@ =~= self@ + other@.take(0));
        while i < other.steps.len()
            invariant
                i <= other.steps@.len(),
                out@ == self@ + other@.take(i as int),
            decreases other.steps@.len() - i,
        {
            out = out.with_step(other.steps[i].copy());
            assert(out@ =~= self@ + other@.take(i + 1));
            i = i + 1;
        }
        assert(other@.take(i as int) =~= other@);
        out
    }
}

/// Where requests in the state `state` are.
pub open spec fn request_dir(root: Seq<StepModel>, state: Seq<char>) -> Seq<StepModel> {
    named(named(root, "requests"@), state)
}

/// Where the responses to all clients are.
pub open spec fn responses_dir(root: Seq<StepModel>) -> Seq<StepModel> {
    named(root, "responses"@)
}

/// Where a request waits to be processed.
pub open spec fn request_location(root: Seq<StepModel>, request_id: Seq<char>) -> Seq<StepModel> {
    named(request_dir(root, "pending"@), request_id + ".request.json"@)
}

/// Where the response to a request of a client is.
pub open spec fn response_location(
    root: Seq<StepModel>,
    client_id: Seq<char>,
    request_id: Seq<char>,
) -> Seq<StepModel> {
    named(named(responses_dir(root), client_id), request_id + ".response.json"@)
}

/// The directories of the shared folder, which have to be there before it is used.
pub fn ensure_layout(root: &FilePath) -> (r: Vec<FilePath>)
    ensures
        path_models(r@) == seq![
            request_dir(root@, "pending"@),
            request_dir(root@, "processing"@),
            request_dir(root@, "done"@),
            request_dir(root@, "failed"@),
            responses_dir(root@),
        ],
{
    let mut out: Vec<FilePath> = Vec::new();
    let requests = root.join("requests");
    out.push(requests.join("pending"));
    out.push(requests.join("processing"));
    out.push(requests.join("done"));
    out.push(requests.join("failed"));
    out.push(root.join("responses"));
    proof {
        let want = seq![
            request_dir(root@, "pending"@),
            request_dir(root@, "processing"@),
            request_dir(root@, "done"@),
            request_dir(root@, "failed"@),
            responses_dir(root@),
        ];
        assert(path_models(out@) =~= want);
    }
    out
}

/// Where a request waits to be processed.
pub fn request_path(root: &FilePath, request_id: &str) -> (r: FilePath)
    ensures
        r@ == request_location(root@, request_id@),
{
    root.join("requests").join("pending").join(
        concat_text(request_id, ".request.json").as_str(),
    )
}

/// Where the response to a request of a client is.
pub fn response_path(root: &FilePath, client_id: &str, request_id: &str) -> (r: FilePath)
    ensures
        r@ == response_location(root@, client_id@, request_id@),
{
    root.join("responses").join(client_id).join(
        concat_text(request_id, ".response.json").as_str(),
    )
}

/// Where a file with the given name, if it has one, is written before it takes its place.
pub open spec fn tmp_location(
    path: Seq<StepModel>,
    file_name: Option<Seq<char>>,
) -> Seq<StepModel> {
    let name = match file_name {
        Some(n) => n,
        None => "file"@,
    };
    path.push(StepModel::FileName(name + ".tmp"@))
}

/// The view of an optional borrowed text.
pub open spec fn optional_str(s: Option<&str>) -> Option<Seq<char>> {
    match s {
        Some(t) => Some(t@),
        None => None,
    }
}

/// Where the file at `path` is written before it takes its place. `file_name` is the file
/// name that the platform sees in `path`, where it sees one.
pub fn tmp_path(path: &FilePath, file_name: Option<&str>) -> (r: FilePath)
    ensures
        r@ == tmp_location(path@, optional_str(file_name)),
{
    let name = match file_name {
        Some(n) => concat_text(n, ".tmp"),
        None => "file.tmp".to_string(),
    };
    proof {
        reveal_strlit("file");
        reveal_strlit(".tmp");
        reveal_strlit("file.tmp");
        assert("file"@ + ".tmp"@ =~= "file.tmp"@);
    }
    path.with_file_name(name.as_str())
}

/// What is done to the file system.
#[derive(Debug, Clone, PartialEq, Eq)]
pub enum FileAction {
    /// Makes the directory and those above it.
    CreateDirs(FilePath),
    /// Writes a whole file.
    Write(FilePath),
    /// Moves a file to another place, in one step.
    Rename(FilePath, FilePath),
}

/// What is done to the file system, without its representation.
pub enum ActionModel {
    CreateDirs(Seq<StepModel>),
    Write(Seq<StepModel>),
    Rename(Seq<StepModel>, Seq<StepModel>),
}

impl View for FileAction {
    type V = ActionModel;

    open spec fn view(&self) -> ActionModel {
        match self {
            FileAction::CreateDirs(p) => ActionModel::CreateDirs(p@),
            FileAction::Write(p) => ActionModel::Write(p@),
            FileAction::Rename(from, to) => ActionModel::Rename(from@, to@),
        }
    }
}

/// The views of a list of actions.
pub open spec fn action_models(v: Seq<FileAction>) -> Seq<ActionModel> {
    Seq::new(v.len(), |i: int| v[i]@)
}

/// How a file is written so that no reader sees a part of it: beside its place first, and
/// moved there when it is whole.
pub open spec fn atomic_write(
    path: Seq<StepModel>,
    parent: Option<Seq<StepModel>>,
    file_name: Option<Seq<char>>,
) -> Seq<ActionModel> {
    let tmp = tmp_location(path, file_name);
    let write = seq![ActionModel::Write(tmp), ActionModel::Rename(tmp, path)];
    match parent {
        Some(dir) => seq![ActionModel::CreateDirs(dir)] + write,
        None => write,
    }
}

/// The steps in which the JSON text of a value is written to `path`, whose directory and file
/// name the platform gives.
pub fn atomic_write_json(
    path: &FilePath,
    parent: Option<FilePath>,
    file_name: Option<&str>,
) -> (r: Vec<FileAction>)
    ensures
        action_models(r@) == atomic_write(path@, optional_path(parent), optional_str(file_name)),
{
    let mut out: Vec<FileAction> = Vec::new();
    let ghost dir = optional_path(parent);
    if let Some(p) = parent {
        out.push(FileAction::CreateDirs(p));
    }
    let tmp = tmp_path(path, file_name);
    out.push(FileAction::Write(tmp.copy()));
    out.push(FileAction::Rename(tmp, path.copy()));
    assert(action_models(out@) =~= atomic_write(path@, dir, optional_str(file_name)));
    out
}

/// Whether an action touches the file at `path`, other than to put a whole file there.
pub open spec fn touches(action: ActionModel, path: Seq<StepModel>) -> bool {
    match action {
        ActionModel::CreateDirs(_) => false,
        ActionModel::Write(p) => p == path,
        ActionModel::Rename(from, _) => from == path,
    }
}

/// A file is only ever seen whole: nothing is written at its place itself, and the last step
/// moves the file that was written beside it there.
pub proof fn law_atomic_write(
    path: Seq<StepModel>,
    parent: Option<Seq<StepModel>>,
    file_name: Option<Seq<char>>,
)
    ensures
        ({
            let actions = atomic_write(path, parent, file_name);
            let tmp = tmp_location(path, file_name);
            &&& actions.len() >= 2
            &&& actions.last() == ActionModel::Rename(tmp, path)
            &&& actions[actions.len() - 2] == ActionModel::Write(tmp)
            &&& forall|i: int| 0 <= i < actions.len() ==> !touches(#[trigger] actions[i], path)
        }),
{
    let tmp = tmp_location(path, file_name);
    assert(tmp.len() == path.len() + 1);
}

proof fn lemma_suffix(a: Seq<char>, b: Seq<char>, suffix: Seq<char>)
    requires
        a + suffix == b + suffix,
    ensures
        a == b,
{
    assert((a + suffix).len() == a.len() + suffix.len());
    assert((b + suffix).len() == b.len() + suffix.len());
    assert(a =~= (a + suffix).take(a.len() as int));
    assert(b =~= (b + suffix).take(b.len() as int));
}

/// Responses do not mix: another client or another request has another place.
pub proof fn law_response_places_differ(
    root: Seq<StepModel>,
    client: Seq<char>,
    request: Seq<char>,
    other_client: Seq<char>,
    other_request: Seq<char>,
)
    requires
        response_location(root, client, request) == response_location(
            root,
            other_client,
            other_request,
        ),
    ensures
        client == other_client,
        request == other_request,
{
    let a = response_location(root, client, request);
    let b = response_location(root, other_client, other_request);
    assert(a[root.len() as int + 1] == b[root.len() as int + 1]);
    assert(a.last() == b.last());
    lemma_suffix(request, other_request, ".response.json"@);
}

/// Requests do not mix either.
pub proof fn law_request_places_differ(
    root: Seq<StepModel>,
    request: Seq<char>,
    other_request: Seq<char>,
)
    requires
        request_location(root, request) == request_location(root, other_request),
    ensures
        request == other_request,
{
    let a = request_location(root, request);
    let b = request_location(root, other_request);
    assert(a.last() == b.last());
    lemma_suffix(request, other_request, ".request.json"@);
}

/// The places in the shared folder: requests wait under `requests/pending`, and responses are in a
/// folder of their client under `responses`; each is a file with the name of its request.
pub proof fn law_places(root: Seq<StepModel>, client: Seq<char>, request: Seq<char>, state: Seq<char>)
    ensures
        request_dir(root, state) == root + seq![StepModel::Name("requests"@), StepModel::Name(state)],
        request_location(root, request) == root + seq![
            StepModel::Name("requests"@),
            StepModel::Name("pending"@),
            StepModel::Name(request + ".request.json"@),
        ],
        responses_dir(root) == root + seq![StepModel::Name("responses"@)],
        response_location(root, client, request) == root + seq![
            StepModel::Name("responses"@),
            StepModel::Name(client),
            StepModel::Name(request + ".response.json"@),
        ],
{
    assert(request_dir(root, state) =~= root + seq![
        StepModel::Name("requests"@),
        StepModel::Name(state),
    ]);
    assert(request_location(root, request) =~= root + seq![
        StepModel::Name("requests"@),
        StepModel::Name("pending"@),
        StepModel::Name(request + ".request.json"@),
    ]);
    assert(responses_dir(root) =~= root + seq![StepModel::Name("responses"@)]);
    assert(response_location(root, client, request) =~= root + seq![
        StepModel::Name("responses"@),
        StepModel::Name(client),
        StepModel::Name(request + ".response.json"@),
    ]);
}

/// A file is written beside its place, under its own name with `.tmp` after it, in a directory that
/// is made before where it is known; and files with different names are written at different
/// places.
pub proof fn law_written_beside(
    path: Seq<StepModel>,
    dir: Seq<StepModel>,
    name: Seq<char>,
    other: Seq<char>,
)
    ensures
        tmp_location(path, Some(name)) == path + seq![StepModel::FileName(name + ".tmp"@)],
        tmp_location(path, None) == path + seq![StepModel::FileName("file.tmp"@)],
        tmp_location(path, Some(name)) == tmp_location(path, Some(other)) ==> name == other,
        atomic_write(path, Some(dir), Some(name)).len() == 3,
        atomic_write(path, Some(dir), Some(name))[0] == ActionModel::CreateDirs(dir),
        atomic_write(path, None, Some(name)).len() == 2,
{
    reveal_strlit("file");
    reveal_strlit(".tmp");
    reveal_strlit("file.tmp");
    assert("file"@ + ".tmp"@ =~= "file.tmp"@);
    assert(tmp_location(path, Some(name)) =~= path + seq![StepModel::FileName(name + ".tmp"@)]);
    assert(tmp_location(path, None) =~= path + seq![StepModel::FileName("file.tmp"@)]);
    if tmp_location(path, Some(name)) == tmp_location(path, Some(other)) {
        assert(tmp_location(path, Some(name)).last() == tmp_location(path, Some(other)).last());
        lemma_suffix(name, other, ".tmp"@);
    }
}

} // verus!
