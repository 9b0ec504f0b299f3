use vstd::prelude::*;
use vstd::string::*;

use crate::collection::{newest_of, of_types, strs_view, Collection};
use crate::document::{document_at, Document};
use crate::errors::Error;
use crate::text::{same_text, texts};

verus! {

/// What a sub-command needs to know from the command line.
pub trait ArgProvider {
    fn jobs(&self) -> usize;

    fn dir(&self) -> String;

    fn verbosity(&self) -> usize;

    fn path(&self) -> String;

    fn rsync_cmd(&self) -> &str;

    fn rsync_remote(&self) -> &str;

    fn types(&self) -> Option<Vec<&str>>;
}

/// The sub-commands that can be run.
#[derive(Clone, Copy, Debug, PartialEq, Eq, Structural)]
pub enum Command {
    Index,
    Summary,
    Sync,
}

/// What running a sub-command amounts to, for the caller to carry out.
#[derive(Debug)]
pub enum Action {
    /// List the newest version of each document in `dir`, of the given types
    /// only when some are given, resolving up to `jobs` documents at a time.
    Index { dir: String, types: Option<Vec<String>>, jobs: usize },
    /// Print the summary of one document.
    Summary { doc: Document },
    /// Run `program` with `args` to bring the mirror up to date.
    Sync { program: String, args: Vec<String> },
}

/// A sub-command bound to the arguments it runs with.
pub struct CmdExec<'a, A: ArgProvider> {
    func: Command,
    args: &'a A,
}

pub open spec fn command_named(name: Seq<char>) -> Option<Command> {
    if name == "index"@ {
        Some(Command::Index)
    } else if name == "summary"@ {
        Some(Command::Summary)
    } else if name == "sync"@ {
        Some(Command::Sync)
    } else {
        None
    }
}

pub open spec fn not_implemented_message(name: Seq<char>) -> Seq<char> {
    "Failed to find an implementation for sub-command '"@ + name + "'"@
}

pub open spec fn not_found_message(path: Seq<char>) -> Seq<char> {
    "Failed to create a valid document from path '"@ + path + "'"@
}

/// The verbosity flag: `-` and one `v` per level.
pub open spec fn verbosity_flag(level: nat) -> Seq<char> {
    seq!['-'] + Seq::new(level, |i: int| 'v')
}

/// The arguments of the mirror program: verbosity when asked for, then an
/// archive-mode, compressed transfer of the `.html` files only, from
/// `remote` into `dir`.
pub open spec fn sync_arguments(verbosity: nat, remote: Seq<char>, dir: Seq<char>) -> Seq<Seq<char>> {
    let fixed = seq![
        "--archive"@,
        "--compress"@,
        "--include=*.html"@,
        "--exclude=**"@,
        "--prune-empty-dirs"@,
        remote,
        dir,
    ];
    if verbosity > 0 {
        seq![verbosity_flag(verbosity)] + fixed
    } else {
        fixed
    }
}

/// The arguments with which the mirror program is run.
pub fn sync_args(verbosity: usize, remote: &str, dir: &str) -> (r: Vec<String>)
    ensures
        texts(r@) == sync_arguments(verbosity as nat, remote@, dir@),
{
    let mut args: Vec<String> = Vec::new();
    if verbosity > 0 {
        let mut flag = String::from_str("-");
        proof {
            reveal_strlit("-");
        }
        let mut k: usize = 0;
        while k < verbosity
            invariant
                k <= verbosity,
                flag@ =~= seq!['-'] + Seq::new(k as nat, |i: int| 'v'),
            decreases verbosity - k,
        {
            flag.append("v");
            proof {
                reveal_strlit("v");
            }
            k = k + 1;
        }
        args.push(flag);
    }
    args.push(String::from_str("--archive"));
    args.push(String::from_str("--compress"));
    args.push(String::from_str("--include=*.html"));
    args.push(String::from_str("--exclude=**"));
    args.push(String::from_str("--prune-empty-dirs"));
    args.push(String::from_str(remote));
    args.push(String::from_str(dir));
    assert(texts(args@) =~= sync_arguments(verbosity as nat, remote@, dir@));
    args
}

/// The action that summarising the document at `path` amounts to.
pub fn summary_action(path: String) -> (r: Result<Action, Error>)
    ensures
        summary_outcome(path@, r),
{
    let mut msg = String::from_str("Failed to create a valid document from path '");
    msg.append(path.as_str());
    msg.append("'");
    match Document::from_path(path) {
        Some(Ok(doc)) => Ok(Action::Summary { doc }),
        Some(Err(e)) => Err(e),
        None => Err(Error::DocumentNotFound(msg)),
    }
}

/// `r` is the listing of `dir`, restricted to `types` when some are given,
/// with `jobs` documents resolved at a time.
pub open spec fn index_outcome(
    dir: Seq<char>,
    types: Option<Seq<Seq<char>>>,
    jobs: usize,
    r: Result<Action, Error>,
) -> bool {
    r matches Ok(Action::Index { dir: d, types: t, jobs: j }) && d@ == dir && j == jobs
        && match types {
        Some(ts) => t matches Some(v) && texts(v@) == ts,
        None => t is None,
    }
}

/// `r` is the summary of the document at `path`, or the error for a path
/// that names no document.
pub open spec fn summary_outcome(path: Seq<char>, r: Result<Action, Error>) -> bool {
    match document_at(path) {
        Some(v) => r matches Ok(Action::Summary { doc }) && doc.wf() && doc@ == v,
        None => r matches Err(Error::DocumentNotFound(msg)) && msg@ == not_found_message(path),
    }
}

/// `r` runs `program` with the mirroring arguments for the given verbosity,
/// remote and directory.
pub open spec fn sync_outcome(
    program: Seq<char>,
    verbosity: nat,
    remote: Seq<char>,
    dir: Seq<char>,
    r: Result<Action, Error>,
) -> bool {
    r matches Ok(Action::Sync { program: p, args }) && p@ == program && texts(args@)
        == sync_arguments(verbosity, remote, dir)
}

pub open spec fn opt_strs(types: Option<Vec<&str>>) -> Option<Seq<Seq<char>>> {
    match types {
        Some(ts) => Some(strs_view(ts@)),
        None => None,
    }
}

/// The listing of `dir`, of the given types only when some are given.
pub fn index_action(dir: String, types: Option<Vec<&str>>, jobs: usize) -> (r: Action)
    ensures
        index_outcome(dir@, opt_strs(types), jobs, Ok(r)),
{
    Action::Index { dir, types: owned_types(types), jobs }
}

/// Running `program` to bring `dir` up to date from `remote`.
pub fn sync_action(program: &str, verbosity: usize, remote: &str, dir: &str) -> (r: Action)
    ensures
        sync_outcome(program@, verbosity as nat, remote@, dir@, Ok(r)),
{
    Action::Sync { program: String::from_str(program), args: sync_args(verbosity, remote, dir) }
}

fn owned_types(types: Option<Vec<&str>>) -> (r: Option<Vec<String>>)
    ensures
        match types {
            Some(ts) => r matches Some(v) && texts(v@) == strs_view(ts@),
            None => r is None,
        },
{
    match types {
        None => None,
        Some(ts) => {
            let mut v: Vec<String> = Vec::new();
            let mut i: usize = 0;
            while i < ts.len()
                invariant
                    i <= ts@.len(),
                    texts(v@) =~= strs_view(ts@).subrange(0, i as int),
                decreases ts@.len() - i,
            {
                let ghost before = v@;
                let t = String::from_str(ts[i]);
                v.push(t);
                assert(v@ =~= before.push(t));
                i = i + 1;
                assert(strs_view(ts@).subrange(0, i as int) =~= strs_view(ts@).subrange(
                    0,
                    i - 1,
                ).push(ts@[i - 1]@));
            }
            assert(strs_view(ts@).subrange(0, i as int) =~= strs_view(ts@));
            Some(v)
        },
    }
}

/// The documents that an index lists: of the given types, when some are
/// given, the newest version of each.
pub fn index_selection(collection: &Collection, types: Option<Vec<&str>>) -> (r: Collection)
    requires
        collection.wf(),
    ensures
        r.wf(),
        r@ == newest_of(
            match types {
                Some(ts) => of_types(collection@, strs_view(ts@)),
                None => collection@,
            },
            1,
        ),
{
    let filtered = collection.filter_types(types);
    filtered.newest(1)
}

impl<'a, A: ArgProvider> CmdExec<'a, A> {
    pub closed spec fn command(&self) -> Command {
        self.func
    }

    /// Binds the named sub-command to its arguments.
    pub fn init(command: &str, args: &'a A) -> (r: Result<Self, Error>)
        ensures
            match command_named(command@) {
                Some(c) => r matches Ok(e) && e.command() == c,
                None => r matches Err(Error::ImplementationNotFound(msg)) && msg@
                    == not_implemented_message(command@),
            },
    {
        let func = if same_text(command, "index") {
            Command::Index
        } else if same_text(command, "summary") {
            Command::Summary
        } else if same_text(command, "sync") {
            Command::Sync
        } else {
            let mut msg = String::from_str("Failed to find an implementation for sub-command '");
            msg.append(command);
            msg.append("'");
            return Err(Error::ImplementationNotFound(msg));
        };
        Ok(CmdExec { func, args })
    }

    /// Works out what the sub-command amounts to, from the values that the
    /// arguments give: the listing of `dir` (see `index_action`), the summary
    /// of the document at `path` (see `summary_action`), or the mirroring run
    /// (see `sync_action`). The arguments are read afresh on each run, so the
    /// outcome is stated for whatever values they give.
    pub fn run(&self) -> (r: Result<Action, Error>)
        ensures
            self.command() == Command::Index ==> exists|
                dir: Seq<char>,
                types: Option<Seq<Seq<char>>>,
                jobs: usize,
            | #[trigger] index_outcome(dir, types, jobs, r),
            self.command() == Command::Summary ==> exists|path: Seq<char>|
                #[trigger] summary_outcome(path, r),
            self.command() == Command::Sync ==> exists|
                program: Seq<char>,
                verbosity: nat,
                remote: Seq<char>,
                dir: Seq<char>,
            | #[trigger] sync_outcome(program, verbosity, remote, dir, r),
    {
        match self.func {
            Command::Index => {
                let dir = self.args.dir();
                let types = self.args.types();
                let jobs = self.args.jobs();
                let ghost d = dir@;
                let ghost t = opt_strs(types);
                let action = index_action(dir, types, jobs);
                assert(index_outcome(d, t, jobs, Ok(action)));
                Ok(action)
            },
            Command::Summary => {
                let path = self.args.path();
                let ghost p = path@;
                let r = summary_action(path);
                assert(summary_outcome(p, r));
                r
            },
            Command::Sync => {
                let program = self.args.rsync_cmd();
                let verbosity = self.args.verbosity();
                let remote = self.args.rsync_remote();
                let dir = self.args.dir();
                let action = sync_action(program, verbosity, remote, dir.as_str());
                assert(sync_outcome(program@, verbosity as nat, remote@, dir@, Ok(action)));
                Ok(action)
            },
        }
    }
}

} // verus!
