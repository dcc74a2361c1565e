//! The decisions of the server that watches the shared folder.
use vstd::prelude::*;
use vstd::string::*;

use crate::config;
use crate::config::SharedSearchConfig;
use crate::embedding;
use crate::embedding::EmbeddingConfigOverride;
use crate::protocol::{
    DatasetDescription, DescribeDatasetRequest, Response, ResponseError, ResponseModel,
    ResponseOk, SearchRequest, SearchResponse,
};
use crate::shared_folder;
use crate::shared_folder::{response_path, FilePath, StepModel};
use crate::text;
use crate::text::{from_chars, same_text, to_chars};

verus! {

/// What the server is told when it is started.
#[derive(Debug, Clone)]
pub struct ServerArgs {
    pub shared_root: Option<FilePath>,
    pub indexes_root: Option<FilePath>,
    pub poll_seconds: Option<u64>,
    pub done_ttl_secs: Option<u64>,
    pub failed_ttl_secs: Option<u64>,
    pub cleanup_interval_secs: Option<u64>,
}

/// How the server runs.
#[derive(Debug, Clone)]
pub struct ServerSettings {
    pub shared_root: FilePath,
    pub indexes_root: FilePath,
    pub poll_seconds: u64,
    pub done_ttl_secs: u64,
    pub failed_ttl_secs: u64,
    pub cleanup_interval_secs: u64,
    pub embedding_override: EmbeddingConfigOverride,
}

/// The first value that is given, else the last one.
pub open spec fn settled<T>(told: Option<T>, configured: Option<T>, otherwise: T) -> T {
    embedding::chosen(config::first_given(told, configured), otherwise)
}

fn settle(told: Option<u64>, configured: Option<u64>, otherwise: u64) -> (r: u64)
    ensures
        r == settled(told, configured, otherwise),
{
    match told {
        Some(v) => v,
        None => match configured {
            Some(v) => v,
            None => otherwise,
        },
    }
}

pub(crate) fn settle_path(
    told: Option<FilePath>,
    configured: Option<FilePath>,
    otherwise: &str,
) -> (r: FilePath)
    ensures
        r@ == settled(
            shared_folder::optional_path(told),
            shared_folder::optional_path(configured),
            seq![StepModel::Name(otherwise@)],
        ),
{
    match told {
        Some(p) => p,
        None => match configured {
            Some(p) => p,
            None => FilePath::from_text(otherwise),
        },
    }
}

/// How the server runs: as it is told, else as it is configured, else as it always does.
pub fn resolve_server_args(args: ServerArgs, config: SharedSearchConfig) -> (r: ServerSettings)
    ensures
        r.shared_root@ == settled(
            shared_folder::optional_path(args.shared_root),
            config@.shared_root,
            seq![StepModel::Name("shared_demo"@)],
        ),
        r.indexes_root@ == settled(
            shared_folder::optional_path(args.indexes_root),
            config@.indexes_root,
            seq![StepModel::Name("indexes"@)],
        ),
        r.poll_seconds == settled(args.poll_seconds, config.poll_seconds, 2),
        r.done_ttl_secs == settled(args.done_ttl_secs, config.done_ttl_secs, 600),
        r.failed_ttl_secs == settled(args.failed_ttl_secs, config.failed_ttl_secs, 86_400),
        r.cleanup_interval_secs == settled(
            args.cleanup_interval_secs,
            config.cleanup_interval_secs,
            60,
        ),
        r.embedding_override@ == config@.overrides(),
{
    let embedding_override = config.embedding_override();
    ServerSettings {
        shared_root: settle_path(args.shared_root, config.shared_root, "shared_demo"),
        indexes_root: settle_path(args.indexes_root, config.indexes_root, "indexes"),
        poll_seconds: settle(args.poll_seconds, config.poll_seconds, 2),
        done_ttl_secs: settle(args.done_ttl_secs, config.done_ttl_secs, 600),
        failed_ttl_secs: settle(args.failed_ttl_secs, config.failed_ttl_secs, 86_400),
        cleanup_interval_secs: settle(
            args.cleanup_interval_secs,
            config.cleanup_interval_secs,
            60,
        ),
        embedding_override,
    }
}

/// Whether a text ends with another.
pub open spec fn ends_with(s: Seq<char>, suffix: Seq<char>) -> bool {
    s.len() >= suffix.len() && s.skip(s.len() - suffix.len()) == suffix
}

fn has_suffix(s: &str, suffix: &str) -> (r: bool)
    ensures
        r == ends_with(s@, suffix@),
{
    let chars = to_chars(s);
    let end = to_chars(suffix);
    if chars.len() < end.len() {
        return false;
    }
    let from: usize = chars.len() - end.len();
    let tail = from_chars(&chars, from, chars.len());
    assert(s@.skip(from as int) =~= tail@);
    same_text(tail.as_str(), suffix)
}

/// The file name of a request, where a file in the folder of pending requests is one. The
/// platform gives the extension and the name of the file.
pub fn request_file(extension: Option<&str>, file_name: Option<&str>) -> (r: Option<String>)
    ensures
        match r {
            Some(name) => {
                &&& extension matches Some(e) && e@ == "json"@
                &&& file_name matches Some(n) && n@ == name@ && ends_with(n@, ".request.json"@)
            },
            None => {
                ||| extension is None
                ||| extension->0@ != "json"@
                ||| file_name is None
                ||| !ends_with(file_name->0@, ".request.json"@)
            },
        },
{
    match (extension, file_name) {
        (Some(e), Some(n)) => if same_text(e, "json") && has_suffix(n, ".request.json") {
            Some(n.to_string())
        } else {
            None
        },
        _ => None,
    }
}

/// Where a request is while it is served.
pub fn processing_path(root: &FilePath, file_name: &str) -> (r: FilePath)
    ensures
        r@ == shared_folder::named(
            shared_folder::request_dir(root@, "processing"@),
            file_name@,
        ),
{
    root.join("requests").join("processing").join(file_name)
}

/// Where a request is put once it was served, or once it could not be.
pub fn finished_path(root: &FilePath, file_name: &str, served: bool) -> (r: FilePath)
    ensures
        r@ == shared_folder::named(
            shared_folder::request_dir(
                root@,
                if served {
                    "done"@
                } else {
                    "failed"@
                },
            ),
            file_name@,
        ),
{
    let dir = if served {
        "done"
    } else {
        "failed"
    };
    root.join("requests").join(dir).join(file_name)
}

/// The name that a request is written under is the name of a request, so the server takes it
/// up.
pub proof fn law_written_requests_are_taken_up(request_id: Seq<char>)
    ensures
        ends_with(request_id + ".request.json"@, ".request.json"@),
{
    let s = request_id + ".request.json"@;
    assert(s.skip(request_id.len() as int) =~= ".request.json"@);
}

/// Where the answer to a search goes and what it says, given what came of the search.
pub fn answer_search(
    shared_root: &FilePath,
    req: &SearchRequest,
    outcome: Result<SearchResponse, String>,
) -> (r: (FilePath, Response))
    ensures
        r.0@ == shared_folder::response_location(shared_root@, req.client_id@, req.request_id@),
        r.1@ == (match outcome {
            Ok(found) => ResponseModel::Search(found@),
            Err(message) => ResponseModel::Error {
                request_id: req.request_id@,
                message: message@,
            },
        }),
{
    let path = response_path(shared_root, req.client_id.as_str(), req.request_id.as_str());
    let response = match outcome {
        Ok(found) => Response::Success(ResponseOk::Search(found)),
        Err(message) => Response::Error(
            ResponseError { request_id: req.request_id.clone(), message },
        ),
    };
    (path, response)
}

/// Where the answer to a question about a dataset goes and what it says, given what came of it.
pub fn answer_describe(
    shared_root: &FilePath,
    req: &DescribeDatasetRequest,
    outcome: Result<DatasetDescription, String>,
) -> (r: (FilePath, Response))
    ensures
        r.0@ == shared_folder::response_location(shared_root@, req.client_id@, req.request_id@),
        r.1@ == (match outcome {
            Ok(dataset) => ResponseModel::Dataset(dataset@),
            Err(message) => ResponseModel::Error {
                request_id: req.request_id@,
                message: message@,
            },
        }),
{
    let path = response_path(shared_root, req.client_id.as_str(), req.request_id.as_str());
    let response = match outcome {
        Ok(dataset) => Response::Success(ResponseOk::Dataset(dataset)),
        Err(message) => Response::Error(
            ResponseError { request_id: req.request_id.clone(), message },
        ),
    };
    (path, response)
}

/// Something in a folder: its name and what it is.
#[derive(Debug)]
pub struct Entry {
    pub name: String,
    pub node: Node,
}

/// What is in a folder.
#[derive(Debug)]
pub enum Node {
    /// A file, and its age in nanoseconds where that is known.
    File(Option<u128>),
    /// A folder.
    Folder(Vec<Entry>),
    /// Neither.
    Other,
}

/// Whether a file of the given age is to be removed. Nothing is where `ttl` is zero.
pub open spec fn is_expired(age: Option<u128>, ttl: u128) -> bool {
    ttl != 0 && age is Some && age->0 >= ttl
}

/// Whether a file of the given age is to be removed. Nothing is where `ttl` is zero.
pub fn expired(age: Option<u128>, ttl: u128) -> (r: bool)
    ensures
        r == is_expired(age, ttl),
{
    match age {
        Some(a) => ttl != 0 && a >= ttl,
        None => false,
    }
}

/// The names of the files directly in a folder that are to be removed.
pub open spec fn expired_names(entries: Seq<Entry>, ttl: u128) -> Seq<Seq<char>>
    decreases entries.len(),
{
    if entries.len() == 0 {
        Seq::empty()
    } else {
        let before = expired_names(entries.drop_last(), ttl);
        match entries.last().node {
            Node::File(age) => if is_expired(age, ttl) {
                before.push(entries.last().name@)
            } else {
                before
            },
            _ => before,
        }
    }
}

/// The names of the files directly in a folder that are to be removed.
pub fn cleanup_dir(entries: &Vec<Entry>, ttl: u128) -> (r: Vec<String>)
    ensures
        text::texts(r@) == expired_names(entries@, ttl),
{
    let mut out: Vec<String> = Vec::new();
    let mut i: usize = 0;
    assert(text::texts(out@) =~= expired_names(entries@.take(0), ttl));
    while i < entries.len()
        invariant
            i <= entries@.len(),
            text::texts(out@) == expired_names(entries@.take(i as int), ttl),
        decreases entries@.len() - i,
    {
        let ghost before = text::texts(out@);
        proof {
            assert(entries@.take(i + 1).drop_last() =~= entries@.take(i as int));
            assert(entries@.take(i + 1).last() == entries@[i as int]);
        }
        if let Node::File(age) = &entries[i].node {
            if expired(*age, ttl) {
                out.push(entries[i].name.clone());
                assert(text::texts(out@) =~= before.push(entries@[i as int].name@));
            }
        }
        i = i + 1;
    }
    assert(entries@.take(i as int) =~= entries@);
    out
}

/// Whether nothing is left of the entries once the files that are to be removed are gone, and
/// the folders that are empty then.
pub open spec fn clears(entries: Seq<Entry>, ttl: u128) -> bool
    decreases entries,
{
    if entries.len() == 0 {
        true
    } else {
        clears(entries.drop_last(), ttl) && clears_entry(entries.last(), ttl)
    }
}

/// Whether nothing is left of an entry.
pub open spec fn clears_entry(entry: Entry, ttl: u128) -> bool
    decreases entry,
{
    match entry.node {
        Node::File(age) => is_expired(age, ttl),
        Node::Folder(inner) => clears(inner@, ttl),
        Node::Other => false,
    }
}

/// Paths within a folder as seen from outside.
pub open spec fn within(name: Seq<char>, paths: Seq<Seq<Seq<char>>>) -> Seq<Seq<Seq<char>>> {
    Seq::new(paths.len(), |i: int| seq![name] + paths[i])
}

/// The files below a folder that are to be removed, each one by the names that lead to it.
pub open spec fn expired_files(entries: Seq<Entry>, ttl: u128) -> Seq<Seq<Seq<char>>>
    decreases entries,
{
    if entries.len() == 0 {
        Seq::empty()
    } else {
        expired_files(entries.drop_last(), ttl) + entry_files(entries.last(), ttl)
    }
}

/// The files at or below an entry that are to be removed.
pub open spec fn entry_files(entry: Entry, ttl: u128) -> Seq<Seq<Seq<char>>>
    decreases entry,
{
    match entry.node {
        Node::File(age) => if is_expired(age, ttl) {
            seq![seq![entry.name@]]
        } else {
            Seq::empty()
        },
        Node::Folder(inner) => within(entry.name@, expired_files(inner@, ttl)),
        Node::Other => Seq::empty(),
    }
}

/// The folders below a folder of which nothing is left, each one by the names that lead to it,
/// and each one after the folders in it.
pub open spec fn cleared_dirs(entries: Seq<Entry>, ttl: u128) -> Seq<Seq<Seq<char>>>
    decreases entries,
{
    if entries.len() == 0 {
        Seq::empty()
    } else {
        cleared_dirs(entries.drop_last(), ttl) + entry_dirs(entries.last(), ttl)
    }
}

/// The folders at or below an entry of which nothing is left.
pub open spec fn entry_dirs(entry: Entry, ttl: u128) -> Seq<Seq<Seq<char>>>
    decreases entry,
{
    match entry.node {
        Node::Folder(inner) => within(entry.name@, cleared_dirs(inner@, ttl)) + (if clears(
            inner@,
            ttl,
        ) {
            seq![seq![entry.name@]]
        } else {
            Seq::empty()
        }),
        _ => Seq::empty(),
    }
}

/// What is removed from a folder: files first, then folders, in this order. Each is given by the
/// names that lead to it.
#[derive(Debug, Clone, PartialEq, Eq)]
pub struct Sweep {
    pub files: Vec<Vec<String>>,
    pub dirs: Vec<Vec<String>>,
}

/// The views of a list of paths.
pub open spec fn path_texts(v: Seq<Vec<String>>) -> Seq<Seq<Seq<char>>> {
    Seq::new(v.len(), |i: int| text::texts(v[i]@))
}

fn push_within(out: &mut Vec<Vec<String>>, name: &String, paths: &Vec<Vec<String>>)
    ensures
        path_texts(final(out)@) == path_texts(old(out)@) + within(name@, path_texts(paths@)),
{
    let ghost all = within(name@, path_texts(paths@));
    let ghost start = path_texts(out@);
    let mut i: usize = 0;
    assert(path_texts(out@) =~= start + all.take(0));
    while i < paths.len()
        invariant
            i <= paths@.len(),
            all == within(name@, path_texts(paths@)),
            path_texts(out@) == start + all.take(i as int),
        decreases paths@.len() - i,
    {
        let ghost before = path_texts(out@);
        let inner = &paths[i];
        let mut path: Vec<String> = Vec::new();
        path.push(name.clone());
        let mut k: usize = 0;
        assert(text::texts(path@) =~= seq![name@] + text::texts(inner@).take(0));
        while k < inner.len()
            invariant
                k <= inner@.len(),
                text::texts(path@) == seq![name@] + text::texts(inner@).take(k as int),
            decreases inner@.len() - k,
        {
            let ghost so_far = text::texts(path@);
            path.push(inner[k].clone());
            proof {
                assert(text::texts(path@) =~= so_far.push(inner@[k as int]@));
                assert(text::texts(path@) =~= seq![name@] + text::texts(inner@).take(k + 1));
            }
            k = k + 1;
        }
        assert(text::texts(inner@).take(k as int) =~= text::texts(inner@));
        out.push(path);
        proof {
            assert(path_texts(out@) =~= before.push(text::texts(path@)));
            assert(path_texts(out@) =~= start + all.take(i + 1));
        }
        i = i + 1;
    }
    assert(all.take(i as int) =~= all);
}

fn push_name(out: &mut Vec<Vec<String>>, name: &String)
    ensures
        path_texts(final(out)@) == path_texts(old(out)@) + seq![seq![name@]],
{
    let ghost start = path_texts(out@);
    let mut path: Vec<String> = Vec::new();
    path.push(name.clone());
    assert(text::texts(path@) =~= seq![name@]);
    out.push(path);
    assert(path_texts(out@) =~= start + seq![seq![name@]]);
}

fn sweep(entries: &Vec<Entry>, ttl: u128) -> (r: (Sweep, bool))
    ensures
        path_texts(r.0.files@) == expired_files(entries@, ttl),
        path_texts(r.0.dirs@) == cleared_dirs(entries@, ttl),
        r.1 == clears(entries@, ttl),
    decreases entries,
{
    let mut files: Vec<Vec<String>> = Vec::new();
    let mut dirs: Vec<Vec<String>> = Vec::new();
    let mut cleared = true;
    let mut i: usize = 0;
    proof {
        assert(entries@.take(0) =~= Seq::empty());
        assert(path_texts(files@) =~= expired_files(entries@.take(0), ttl));
        assert(path_texts(dirs@) =~= cleared_dirs(entries@.take(0), ttl));
    }
    while i < entries.len()
        invariant
            i <= entries@.len(),
            path_texts(files@) == expired_files(entries@.take(i as int), ttl),
            path_texts(dirs@) == cleared_dirs(entries@.take(i as int), ttl),
            cleared == clears(entries@.take(i as int), ttl),
        decreases entries@.len() - i,
    {
        let ghost files_before = path_texts(files@);
        let ghost dirs_before = path_texts(dirs@);
        let entry = &entries[i];
        proof {
            assert(entries@.take(i + 1).drop_last() =~= entries@.take(i as int));
            assert(entries@.take(i + 1).last() == *entry);
            assert(decreases_to!(entries => entries@[i as int]));
        }
        match &entry.node {
            Node::File(age) => {
                if expired(*age, ttl) {
                    push_name(&mut files, &entry.name);
                } else {
                    cleared = false;
                }
            },
            Node::Folder(inner) => {
                let (below, empty) = sweep(inner, ttl);
                push_within(&mut files, &entry.name, &below.files);
                push_within(&mut dirs, &entry.name, &below.dirs);
                if empty {
                    push_name(&mut dirs, &entry.name);
                } else {
                    cleared = false;
                }
            },
            Node::Other => {
                cleared = false;
            },
        }
        proof {
            assert(clears_entry(*entry, ttl) == (match entry.node {
                Node::File(age) => is_expired(age, ttl),
                Node::Folder(inner) => clears(inner@, ttl),
                Node::Other => false,
            }));
            assert(clears(entries@.take(i + 1), ttl) == (clears(entries@.take(i as int), ttl)
                && clears_entry(*entry, ttl)));
            assert(path_texts(files@) =~= files_before + entry_files(*entry, ttl));
            assert(path_texts(dirs@) =~= dirs_before + entry_dirs(*entry, ttl));
        }
        i = i + 1;
    }
    assert(entries@.take(i as int) =~= entries@);
    (Sweep { files, dirs }, cleared)
}

/// What is removed from the folder of the responses: the files that are old enough, and then
/// the folders that are empty. The folder of the responses itself stays.
pub fn cleanup_response_tree(entries: &Vec<Entry>, ttl: u128) -> (r: Sweep)
    ensures
        path_texts(r.files@) == expired_files(entries@, ttl),
        path_texts(r.dirs@) == cleared_dirs(entries@, ttl),
{
    let (out, _) = sweep(entries, ttl);
    out
}

/// Nanoseconds in a number of seconds.
pub fn seconds(n: u64) -> (r: u128)
    ensures
        r == n * 1_000_000_000,
{
    n as u128 * 1_000_000_000
}

/// Whether old files are to be looked for again, where they were looked for last so many
/// nanoseconds ago.
pub fn cleanup_is_due(elapsed: u128, interval_secs: u64) -> (r: bool)
    ensures
        r == (elapsed >= interval_secs * 1_000_000_000),
{
    elapsed >= seconds(interval_secs)
}

/// Whether the names lead to a file that is to be removed.
pub open spec fn leads_to_expired(entries: Seq<Entry>, path: Seq<Seq<char>>, ttl: u128) -> bool
    decreases path.len(),
{
    path.len() > 0 && exists|i: int|
        0 <= i < entries.len() && (#[trigger] entries[i]).name@ == path[0]
            && match entries[i].node {
            Node::File(age) => path.len() == 1 && is_expired(age, ttl),
            Node::Folder(inner) => leads_to_expired(inner@, path.drop_first(), ttl),
            Node::Other => false,
        }
}

/// Whether the names lead to a folder of which nothing is left.
pub open spec fn leads_to_cleared(entries: Seq<Entry>, path: Seq<Seq<char>>, ttl: u128) -> bool
    decreases path.len(),
{
    path.len() > 0 && exists|i: int|
        0 <= i < entries.len() && (#[trigger] entries[i]).name@ == path[0]
            && match entries[i].node {
            Node::Folder(inner) => if path.len() == 1 {
                clears(inner@, ttl)
            } else {
                leads_to_cleared(inner@, path.drop_first(), ttl)
            },
            _ => false,
        }
}

proof fn lemma_leads_on(entries: Seq<Entry>, path: Seq<Seq<char>>, ttl: u128)
    requires
        entries.len() > 0,
    ensures
        leads_to_expired(entries.drop_last(), path, ttl) ==> leads_to_expired(entries, path, ttl),
        leads_to_cleared(entries.drop_last(), path, ttl) ==> leads_to_cleared(entries, path, ttl),
{
    let shorter = entries.drop_last();
    assert forall|i: int| 0 <= i < shorter.len() implies #[trigger] shorter[i] == entries[i] by {}
    if leads_to_expired(shorter, path, ttl) {
        let i = choose|i: int|
            0 <= i < shorter.len() && (#[trigger] shorter[i]).name@ == path[0]
                && match shorter[i].node {
                Node::File(age) => path.len() == 1 && is_expired(age, ttl),
                Node::Folder(inner) => leads_to_expired(inner@, path.drop_first(), ttl),
                Node::Other => false,
            };
        assert(shorter[i] == entries[i]);
    }
    if leads_to_cleared(shorter, path, ttl) {
        let i = choose|i: int|
            0 <= i < shorter.len() && (#[trigger] shorter[i]).name@ == path[0]
                && match shorter[i].node {
                Node::Folder(inner) => if path.len() == 1 {
                    clears(inner@, ttl)
                } else {
                    leads_to_cleared(inner@, path.drop_first(), ttl)
                },
                _ => false,
            };
        assert(shorter[i] == entries[i]);
    }
}

/// No file is removed before its time, and no folder in which something is left.
pub proof fn law_nothing_is_removed_early(entries: Seq<Entry>, ttl: u128)
    ensures
        forall|k: int|
            0 <= k < expired_files(entries, ttl).len() ==> leads_to_expired(
                entries,
                #[trigger] expired_files(entries, ttl)[k],
                ttl,
            ),
        forall|k: int|
            0 <= k < cleared_dirs(entries, ttl).len() ==> leads_to_cleared(
                entries,
                #[trigger] cleared_dirs(entries, ttl)[k],
                ttl,
            ),
    decreases entries,
{
    if entries.len() > 0 {
        let shorter = entries.drop_last();
        let n = entries.len() - 1;
        let last = entries.last();
        assert(last == entries[n]);
        law_nothing_is_removed_early(shorter, ttl);
        if let Node::Folder(inner) = last.node {
            assert(decreases_to!(entries => entries[n]));
            law_nothing_is_removed_early(inner@, ttl);
        }
        let files = expired_files(entries, ttl);
        let files_before = expired_files(shorter, ttl);
        assert forall|k: int| 0 <= k < files.len() implies leads_to_expired(
            entries,
            #[trigger] files[k],
            ttl,
        ) by {
            if k < files_before.len() {
                assert(files[k] == files_before[k]);
                lemma_leads_on(entries, files[k], ttl);
            } else {
                let j = k - files_before.len();
                assert(files[k] == entry_files(last, ttl)[j]);
                if let Node::Folder(inner) = last.node {
                    let path = expired_files(inner@, ttl)[j];
                    assert(files[k] == seq![last.name@] + path);
                    assert(files[k].drop_first() =~= path);
                }
            }
        }
        let dirs = cleared_dirs(entries, ttl);
        let dirs_before = cleared_dirs(shorter, ttl);
        assert forall|k: int| 0 <= k < dirs.len() implies leads_to_cleared(
            entries,
            #[trigger] dirs[k],
            ttl,
        ) by {
            if k < dirs_before.len() {
                assert(dirs[k] == dirs_before[k]);
                lemma_leads_on(entries, dirs[k], ttl);
            } else if let Node::Folder(inner) = last.node {
                let j = k - dirs_before.len();
                let below = cleared_dirs(inner@, ttl);
                assert(dirs[k] == entry_dirs(last, ttl)[j]);
                if j < below.len() {
                    assert(leads_to_cleared(inner@, below[j], ttl));
                    assert(dirs[k] == seq![last.name@] + below[j]);
                    assert(dirs[k].drop_first() =~= below[j]);
                } else {
                    assert(dirs[k] == seq![last.name@]);
                }
                assert(entries[n].name@ == dirs[k][0]);
            } else {
                assert(entry_dirs(last, ttl).len() == 0);
            }
        }
    }
}

/// A time to live of zero keeps every file.
pub proof fn law_zero_keeps_files(entries: Seq<Entry>)
    ensures
        expired_files(entries, 0).len() == 0,
{
    law_nothing_is_removed_early(entries, 0);
    let files = expired_files(entries, 0);
    if files.len() > 0 {
        lemma_no_file_expires(entries, files[0]);
    }
}

proof fn lemma_no_file_expires(entries: Seq<Entry>, path: Seq<Seq<char>>)
    ensures
        !leads_to_expired(entries, path, 0),
    decreases path.len(),
{
    if path.len() > 0 {
        assert forall|i: int| 0 <= i < entries.len() implies !(match (
        #[trigger] entries[i]).node {
            Node::File(age) => path.len() == 1 && is_expired(age, 0),
            Node::Folder(inner) => leads_to_expired(inner@, path.drop_first(), 0),
            Node::Other => false,
        }) by {
            if let Node::Folder(inner) = entries[i].node {
                lemma_no_file_expires(inner@, path.drop_first());
            }
        }
    }
}

proof fn lemma_entry_files_are_listed(entries: Seq<Entry>, i: int, path: Seq<Seq<char>>, ttl: u128)
    requires
        0 <= i < entries.len(),
        entry_files(entries[i], ttl).contains(path),
    ensures
        expired_files(entries, ttl).contains(path),
    decreases entries.len(),
{
    let shorter = entries.drop_last();
    let before = expired_files(shorter, ttl);
    let all = expired_files(entries, ttl);
    if i < shorter.len() {
        assert(shorter[i] == entries[i]);
        lemma_entry_files_are_listed(shorter, i, path, ttl);
        let k = choose|k: int| 0 <= k < before.len() && before[k] == path;
        assert(all[k] == path);
    } else {
        let own = entry_files(entries[i], ttl);
        let k = choose|k: int| 0 <= k < own.len() && own[k] == path;
        assert(all[before.len() + k] == path);
    }
}

/// Every file that is old enough is removed, however deep it lies.
pub proof fn law_every_expired_file_is_removed(
    entries: Seq<Entry>,
    path: Seq<Seq<char>>,
    ttl: u128,
)
    requires
        leads_to_expired(entries, path, ttl),
    ensures
        expired_files(entries, ttl).contains(path),
    decreases path.len(),
{
    let i = choose|i: int|
        0 <= i < entries.len() && (#[trigger] entries[i]).name@ == path[0]
            && match entries[i].node {
            Node::File(age) => path.len() == 1 && is_expired(age, ttl),
            Node::Folder(inner) => leads_to_expired(inner@, path.drop_first(), ttl),
            Node::Other => false,
        };
    let own = entry_files(entries[i], ttl);
    match entries[i].node {
        Node::File(_) => {
            assert(path =~= seq![entries[i].name@]);
            assert(own[0] == path);
        },
        Node::Folder(inner) => {
            law_every_expired_file_is_removed(inner@, path.drop_first(), ttl);
            let below = expired_files(inner@, ttl);
            let k = choose|k: int| 0 <= k < below.len() && below[k] == path.drop_first();
            assert(own[k] =~= path);
        },
        Node::Other => {},
    }
    assert(own.contains(path));
    lemma_entry_files_are_listed(entries, i, path, ttl);
}

/// The folders that are cleaned up, each with the age in nanoseconds from which a file in it is
/// removed.
#[derive(Debug, Clone)]
pub struct CleanupPlan {
    pub done: FilePath,
    pub failed: FilePath,
    pub responses: FilePath,
    pub done_ttl: u128,
    pub failed_ttl: u128,
}

/// The folders that are cleaned up: those of the requests that were served, of those that were
/// not, and of the responses, which are kept as long as the requests that were served.
pub fn cleanup_old_files(root: &FilePath, done_ttl_secs: u64, failed_ttl_secs: u64) -> (r:
    CleanupPlan)
    ensures
        r.done@ == shared_folder::request_dir(root@, "done"@),
        r.failed@ == shared_folder::request_dir(root@, "failed"@),
        r.responses@ == shared_folder::responses_dir(root@),
        r.done_ttl == done_ttl_secs * 1_000_000_000,
        r.failed_ttl == failed_ttl_secs * 1_000_000_000,
{
    CleanupPlan {
        done: root.join("requests").join("done"),
        failed: root.join("requests").join("failed"),
        responses: root.join("responses"),
        done_ttl: seconds(done_ttl_secs),
        failed_ttl: seconds(failed_ttl_secs),
    }
}

/// What is told comes before what is configured, and that before what always is.
pub proof fn law_told_comes_first(told: u64, configured: u64, otherwise: u64)
    ensures
        settled(Some(told), Some(configured), otherwise) == told,
        settled(Some(told), None, otherwise) == told,
        settled(None, Some(configured), otherwise) == configured,
        settled(None::<u64>, None, otherwise) == otherwise,
{
}

/// A file is removed from the very moment at which it has the age for it, and for as long as it is
/// there; not before, not where its age is unknown, and not at all where that age is zero.
pub proof fn law_expiry(age: u128, ttl: u128)
    ensures
        ttl > 0 ==> is_expired(Some(ttl), ttl),
        0 < ttl <= age ==> is_expired(Some(age), ttl),
        age < ttl ==> !is_expired(Some(age), ttl),
        !is_expired(None, ttl),
        !is_expired(Some(age), 0),
{
}

/// The names that are removed from a folder are those of its files that are old enough, all of them
/// and no others.
pub proof fn law_names_to_remove(entries: Seq<Entry>, ttl: u128, name: Seq<char>)
    ensures
        expired_names(entries, ttl).contains(name) <==> exists|i: int|
            0 <= i < entries.len() && (#[trigger] entries[i]).name@ == name && (
            entries[i].node matches Node::File(Some(age)) && 0 < ttl <= age),
    decreases entries.len(),
{
    if entries.len() > 0 {
        let shorter = entries.drop_last();
        let last = entries.len() - 1;
        law_names_to_remove(shorter, ttl, name);
        let before = expired_names(shorter, ttl);
        let all = expired_names(entries, ttl);
        if all.contains(name) {
            let k = choose|k: int| 0 <= k < all.len() && all[k] == name;
            if k < before.len() {
                assert(before[k] == name);
                assert(before.contains(name));
                let i = choose|i: int|
                    0 <= i < shorter.len() && (#[trigger] shorter[i]).name@ == name && (
                    shorter[i].node matches Node::File(Some(age)) && 0 < ttl <= age);
                assert(entries[i] == shorter[i]);
            } else {
                assert(entries[last].name@ == name);
            }
        }
        if exists|i: int|
            0 <= i < entries.len() && (#[trigger] entries[i]).name@ == name && (
            entries[i].node matches Node::File(Some(age)) && 0 < ttl <= age) {
            let i = choose|i: int|
                0 <= i < entries.len() && (#[trigger] entries[i]).name@ == name && (
                entries[i].node matches Node::File(Some(age)) && 0 < ttl <= age);
            if i < last {
                assert(shorter[i] == entries[i]);
                assert(before.contains(name));
                let k = choose|k: int| 0 <= k < before.len() && before[k] == name;
                assert(all[k] == name);
            } else {
                assert(all.last() == name);
            }
        }
    }
}

/// Whether the names lead to something that is neither a folder nor a file that is old enough.
pub open spec fn leads_to_kept(entries: Seq<Entry>, path: Seq<Seq<char>>, ttl: u128) -> bool
    decreases path.len(),
{
    path.len() > 0 && exists|i: int|
        0 <= i < entries.len() && (#[trigger] entries[i]).name@ == path[0]
            && match entries[i].node {
            Node::File(age) => path.len() == 1 && !(age is Some && 0 < ttl <= age->0),
            Node::Folder(inner) => leads_to_kept(inner@, path.drop_first(), ttl),
            Node::Other => path.len() == 1,
        }
}

/// A folder is removed exactly where nothing that stays is in it, however deep.
pub proof fn law_cleared_folders_hold_nothing(entries: Seq<Entry>, ttl: u128)
    ensures
        clears(entries, ttl) <==> forall|path: Seq<Seq<char>>|
            !#[trigger] leads_to_kept(entries, path, ttl),
    decreases entries,
{
    if entries.len() > 0 {
        let shorter = entries.drop_last();
        let n = entries.len() - 1;
        let last = entries[n];
        law_cleared_folders_hold_nothing(shorter, ttl);
        if let Node::Folder(inner) = last.node {
            assert(decreases_to!(entries => entries[n]));
            law_cleared_folders_hold_nothing(inner@, ttl);
        }
        assert(clears_entry(last, ttl) == (match last.node {
            Node::File(age) => is_expired(age, ttl),
            Node::Folder(inner) => clears(inner@, ttl),
            Node::Other => false,
        }));
        if !clears(shorter, ttl) {
            let path = choose|path: Seq<Seq<char>>| #[trigger] leads_to_kept(shorter, path, ttl);
            let i = choose|i: int|
                0 <= i < shorter.len() && (#[trigger] shorter[i]).name@ == path[0]
                    && match shorter[i].node {
                    Node::File(age) => path.len() == 1 && !(age is Some && 0 < ttl <= age->0),
                    Node::Folder(inner) => leads_to_kept(inner@, path.drop_first(), ttl),
                    Node::Other => path.len() == 1,
                };
            assert(entries[i] == shorter[i]);
            assert(leads_to_kept(entries, path, ttl));
        } else if !clears_entry(last, ttl) {
            let path = match last.node {
                Node::Folder(inner) => {
                    let below = choose|path: Seq<Seq<char>>| #[trigger]
                        leads_to_kept(inner@, path, ttl);
                    let path = seq![last.name@] + below;
                    assert(path.drop_first() =~= below);
                    path
                },
                _ => seq![last.name@],
            };
            assert(path[0] == entries[n].name@);
            assert(leads_to_kept(entries, path, ttl));
        } else {
            assert forall|path: Seq<Seq<char>>| !#[trigger] leads_to_kept(entries, path, ttl) by {
                if leads_to_kept(entries, path, ttl) {
                    let i = choose|i: int|
                        0 <= i < entries.len() && (#[trigger] entries[i]).name@ == path[0]
                            && match entries[i].node {
                            Node::File(age) => path.len() == 1 && !(age is Some && 0 < ttl
                                <= age->0),
                            Node::Folder(inner) => leads_to_kept(inner@, path.drop_first(), ttl),
                            Node::Other => path.len() == 1,
                        };
                    if i < n {
                        assert(shorter[i] == entries[i]);
                        assert(leads_to_kept(shorter, path, ttl));
                    } else if let Node::Folder(inner) = last.node {
                        assert(leads_to_kept(inner@, path.drop_first(), ttl));
                    }
                }
            }
        }
    } else {
        assert forall|path: Seq<Seq<char>>| !#[trigger] leads_to_kept(entries, path, ttl) by {}
    }
}

proof fn lemma_entry_dirs_are_listed(entries: Seq<Entry>, i: int, path: Seq<Seq<char>>, ttl: u128)
    requires
        0 <= i < entries.len(),
        entry_dirs(entries[i], ttl).contains(path),
    ensures
        cleared_dirs(entries, ttl).contains(path),
    decreases entries.len(),
{
    let shorter = entries.drop_last();
    let before = cleared_dirs(shorter, ttl);
    let all = cleared_dirs(entries, ttl);
    if i < shorter.len() {
        assert(shorter[i] == entries[i]);
        lemma_entry_dirs_are_listed(shorter, i, path, ttl);
        let k = choose|k: int| 0 <= k < before.len() && before[k] == path;
        assert(all[k] == path);
    } else {
        let own = entry_dirs(entries[i], ttl);
        let k = choose|k: int| 0 <= k < own.len() && own[k] == path;
        assert(all[before.len() + k] == path);
    }
}

/// Every folder of which nothing is left is removed, however deep it lies.
pub proof fn law_every_cleared_folder_is_removed(
    entries: Seq<Entry>,
    path: Seq<Seq<char>>,
    ttl: u128,
)
    requires
        leads_to_cleared(entries, path, ttl),
    ensures
        cleared_dirs(entries, ttl).contains(path),
    decreases path.len(),
{
    let i = choose|i: int|
        0 <= i < entries.len() && (#[trigger] entries[i]).name@ == path[0]
            && match entries[i].node {
            Node::Folder(inner) => if path.len() == 1 {
                clears(inner@, ttl)
            } else {
                leads_to_cleared(inner@, path.drop_first(), ttl)
            },
            _ => false,
        };
    let own = entry_dirs(entries[i], ttl);
    if let Node::Folder(inner) = entries[i].node {
        let below = cleared_dirs(inner@, ttl);
        if path.len() == 1 {
            assert(path =~= seq![entries[i].name@]);
            assert(own[own.len() - 1] == path);
        } else {
            law_every_cleared_folder_is_removed(inner@, path.drop_first(), ttl);
            let k = choose|k: int| 0 <= k < below.len() && below[k] == path.drop_first();
            assert(own[k] == seq![entries[i].name@] + below[k]);
            assert(own[k] =~= path);
        }
    }
    assert(own.contains(path));
    lemma_entry_dirs_are_listed(entries, i, path, ttl);
}

proof fn lemma_dirs_have_names(entries: Seq<Entry>, ttl: u128)
    ensures
        forall|k: int|
            0 <= k < cleared_dirs(entries, ttl).len() ==> (#[trigger] cleared_dirs(
                entries,
                ttl,
            )[k]).len() > 0,
{
    law_nothing_is_removed_early(entries, ttl);
    assert forall|k: int| 0 <= k < cleared_dirs(entries, ttl).len() implies (
    #[trigger] cleared_dirs(entries, ttl)[k]).len() > 0 by {
        assert(leads_to_cleared(entries, cleared_dirs(entries, ttl)[k], ttl));
    }
}

/// A folder is removed after all folders in it: it comes last, once, and those before it are below
/// it.
pub proof fn law_inner_folders_go_first(entry: Entry, ttl: u128)
    requires
        clears(seq![entry], ttl),
        entry.node is Folder,
    ensures
        ({
            let dirs = cleared_dirs(seq![entry], ttl);
            &&& dirs.len() > 0
            &&& dirs.last() == seq![entry.name@]
            &&& forall|k: int|
                0 <= k < dirs.len() - 1 ==> (#[trigger] dirs[k]).len() > 1 && dirs[k][0]
                    == entry.name@
        }),
{
    let all = seq![entry];
    assert(all.drop_last() =~= Seq::empty());
    assert(cleared_dirs(all.drop_last(), ttl) =~= Seq::empty());
    let dirs = cleared_dirs(all, ttl);
    assert(dirs =~= entry_dirs(entry, ttl));
    assert(clears_entry(entry, ttl));
    if let Node::Folder(inner) = entry.node {
        let below = cleared_dirs(inner@, ttl);
        lemma_dirs_have_names(inner@, ttl);
        assert forall|k: int| 0 <= k < dirs.len() - 1 implies (#[trigger] dirs[k]).len() > 1
            && dirs[k][0] == entry.name@ by {
            assert(dirs[k] == seq![entry.name@] + below[k]);
            assert(below[k].len() > 0);
        }
    }
}

} // verus!
