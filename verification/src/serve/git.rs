//! The repository that cards are read from and edits are committed to.
//!
//! The commands are run elsewhere. Here it is decided which one comes next, and
//! what is made of its outcome.

use vstd::prelude::*;
use crate::path;
use crate::text;

verus! {

/// What a command gave.
pub struct GitOutput {
    pub success: bool,
    pub stdout_empty: bool,
    pub stderr: String,
}

/// A command on the way to the commit of an edited file.
#[derive(Clone, Copy, Debug, PartialEq, Eq)]
pub enum CommitCommand {
    /// Asks whether the file lies in a repository.
    Inside,
    /// Stages the file.
    Add,
    /// Asks whether the file differs from what is committed.
    Status,
    /// Commits the file.
    Commit,
}

/// What follows a command.
pub enum CommitStep {
    Run(CommitCommand),
    /// There is nothing more to do. Tells whether a commit was made.
    Done(bool),
    Failed(String),
}

/// Whether a path has something in front of its last component to lie in.
pub open spec fn has_folder(path: Seq<char>) -> bool {
    exists|i: int| 0 <= i < path.len() && #[trigger] path[i] != '/'
}

/// The first step of the commit of an edited file.
pub fn commit_start(file: &str) -> (result: CommitStep)
    ensures
        if has_folder(file@) {
            result == CommitStep::Run(CommitCommand::Inside)
        } else {
            result matches CommitStep::Failed(m) && m@ == "file has no parent directory: "@ + file@
        },
{
    let v = text::chars_of(file);
    let mut i: usize = 0;
    while i < v.len()
        invariant
            v@ == file@,
            i <= v@.len(),
            forall|k: int| 0 <= k < i ==> #[trigger] v@[k] == '/',
        decreases v@.len() - i,
    {
        if v[i] != '/' {
            return CommitStep::Run(CommitCommand::Inside);
        }
        i += 1;
    }
    CommitStep::Failed(text::cat2("file has no parent directory: ", file))
}

/// What is said of a command that failed.
pub open spec fn failure(command: Seq<char>, file: Seq<char>, stderr: Seq<char>) -> Seq<char> {
    "git "@ + command + " failed for "@ + file + ": "@ + stderr
}

fn failed(command: &str, file: &str, stderr: &str) -> (result: CommitStep)
    ensures
        result matches CommitStep::Failed(m) && m@ == failure(command@, file@, stderr@),
{
    let mut message = text::cat5("git ", command, " failed for ", file, ": ");
    message.append(stderr);
    CommitStep::Failed(message)
}

/// The step that follows a command. A file outside any repository is not
/// committed, nor is an edit that changed nothing.
pub fn commit_next(command: CommitCommand, output: &GitOutput, file: &str) -> (result: CommitStep)
    ensures
        match command {
            CommitCommand::Inside => result == if output.success {
                CommitStep::Run(CommitCommand::Add)
            } else {
                CommitStep::Done(false)
            },
            CommitCommand::Add => if output.success {
                result == CommitStep::Run(CommitCommand::Status)
            } else {
                result matches CommitStep::Failed(m) && m@ == failure(
                    "add"@,
                    file@,
                    output.stderr@,
                )
            },
            CommitCommand::Status => if !output.success {
                result matches CommitStep::Failed(m) && m@ == failure(
                    "status"@,
                    file@,
                    output.stderr@,
                )
            } else if output.stdout_empty {
                result == CommitStep::Done(false)
            } else {
                result == CommitStep::Run(CommitCommand::Commit)
            },
            CommitCommand::Commit => if output.success {
                result == CommitStep::Done(true)
            } else {
                result matches CommitStep::Failed(m) && m@ == failure(
                    "commit"@,
                    file@,
                    output.stderr@,
                )
            },
        },
{
    match command {
        CommitCommand::Inside => if output.success {
            CommitStep::Run(CommitCommand::Add)
        } else {
            CommitStep::Done(false)
        },
        CommitCommand::Add => if output.success {
            CommitStep::Run(CommitCommand::Status)
        } else {
            failed("add", file, output.stderr.as_str())
        },
        CommitCommand::Status => if !output.success {
            failed("status", file, output.stderr.as_str())
        } else if output.stdout_empty {
            CommitStep::Done(false)
        } else {
            CommitStep::Run(CommitCommand::Commit)
        },
        CommitCommand::Commit => if output.success {
            CommitStep::Done(true)
        } else {
            failed("commit", file, output.stderr.as_str())
        },
    }
}

/// The message of the commit of an edited file.
pub open spec fn commit_message(file: Seq<char>) -> Seq<char> {
    "hashcards: web edit of "@ + match path::file_name(file) {
        Some(name) => name,
        None => file,
    }
}

/// The arguments of a command on the way to a commit.
pub open spec fn commit_line(
    command: CommitCommand,
    file: Seq<char>,
    name: Seq<char>,
    email: Seq<char>,
) -> Seq<Seq<char>> {
    match command {
        CommitCommand::Inside => seq!["rev-parse"@, "--is-inside-work-tree"@],
        CommitCommand::Add => seq!["add"@, "--"@, file],
        CommitCommand::Status => seq!["status"@, "--porcelain"@, "--"@, file],
        CommitCommand::Commit => seq![
            "-c"@,
            "user.name="@ + name,
            "-c"@,
            "user.email="@ + email,
            "commit"@,
            "-m"@,
            commit_message(file),
            "--"@,
            file,
        ],
    }
}

/// The arguments of a command on the way to a commit.
pub fn commit_args(command: CommitCommand, file: &str, name: &str, email: &str) -> (result: Vec<
    String,
>)
    ensures
        text::views(result@) == commit_line(command, file@, name@, email@),
{
    let mut args: Vec<String> = Vec::new();
    match command {
        CommitCommand::Inside => {
            args.push("rev-parse".to_owned());
            args.push("--is-inside-work-tree".to_owned());
        },
        CommitCommand::Add => {
            args.push("add".to_owned());
            args.push("--".to_owned());
            args.push(file.to_owned());
        },
        CommitCommand::Status => {
            args.push("status".to_owned());
            args.push("--porcelain".to_owned());
            args.push("--".to_owned());
            args.push(file.to_owned());
        },
        CommitCommand::Commit => {
            let shown = match path::file_name_of(file) {
                Some(n) => n,
                None => file.to_owned(),
            };
            args.push("-c".to_owned());
            args.push(text::cat2("user.name=", name));
            args.push("-c".to_owned());
            args.push(text::cat2("user.email=", email));
            args.push("commit".to_owned());
            args.push("-m".to_owned());
            args.push(text::cat2("hashcards: web edit of ", shown.as_str()));
            args.push("--".to_owned());
            args.push(file.to_owned());
        },
    }
    proof {
        assert(text::views(args@) =~= commit_line(command, file@, name@, email@));
    }
    args
}

/// A command that brings a repository up to date.
#[derive(Clone, Copy, Debug, PartialEq, Eq)]
pub enum PullCommand {
    Checkout,
    Pull,
    Clone,
}

/// What follows a command that brings a repository up to date.
pub enum PullStep {
    Run(PullCommand),
    Done,
    Failed(String),
}

/// The first command: a repository that is there is updated, another one is
/// cloned.
pub fn pull_start(is_cloned: bool) -> (result: PullCommand)
    ensures
        result == if is_cloned {
            PullCommand::Checkout
        } else {
            PullCommand::Clone
        },
{
    if is_cloned {
        PullCommand::Checkout
    } else {
        PullCommand::Clone
    }
}

/// The step that follows a command.
pub fn pull_next(command: PullCommand, output: &GitOutput, branch: &str) -> (result: PullStep)
    ensures
        if output.success {
            result == match command {
                PullCommand::Checkout => PullStep::Run(PullCommand::Pull),
                _ => PullStep::Done,
            }
        } else {
            result matches PullStep::Failed(m) && m@ == match command {
                PullCommand::Checkout => "git checkout "@ + branch@ + " failed: "@
                    + output.stderr@,
                PullCommand::Pull => "git pull origin "@ + branch@ + " failed: "@ + output.stderr@,
                PullCommand::Clone => "git clone failed: "@ + output.stderr@,
            }
        },
{
    if output.success {
        match command {
            PullCommand::Checkout => PullStep::Run(PullCommand::Pull),
            PullCommand::Pull => PullStep::Done,
            PullCommand::Clone => PullStep::Done,
        }
    } else {
        let mut message = match command {
            PullCommand::Checkout => text::cat3("git checkout ", branch, " failed: "),
            PullCommand::Pull => text::cat3("git pull origin ", branch, " failed: "),
            PullCommand::Clone => "git clone failed: ".to_owned(),
        };
        message.append(output.stderr.as_str());
        PullStep::Failed(message)
    }
}

/// The arguments of a command that brings a repository up to date.
pub open spec fn pull_line(
    command: PullCommand,
    url: Seq<char>,
    branch: Seq<char>,
    target: Seq<char>,
) -> Seq<Seq<char>> {
    match command {
        PullCommand::Checkout => seq!["checkout"@, branch],
        PullCommand::Pull => seq!["pull"@, "--ff-only"@, "origin"@, branch],
        PullCommand::Clone => seq![
            "clone"@,
            "--branch"@,
            branch,
            "--single-branch"@,
            url,
            target,
        ],
    }
}

/// The arguments of a command that brings a repository up to date.
pub fn pull_args(command: PullCommand, url: &str, branch: &str, target: &str) -> (result: Vec<
    String,
>)
    ensures
        text::views(result@) == pull_line(command, url@, branch@, target@),
{
    let mut args: Vec<String> = Vec::new();
    match command {
        PullCommand::Checkout => {
            args.push("checkout".to_owned());
            args.push(branch.to_owned());
        },
        PullCommand::Pull => {
            args.push("pull".to_owned());
            args.push("--ff-only".to_owned());
            args.push("origin".to_owned());
            args.push(branch.to_owned());
        },
        PullCommand::Clone => {
            args.push("clone".to_owned());
            args.push("--branch".to_owned());
            args.push(branch.to_owned());
            args.push("--single-branch".to_owned());
            args.push(url.to_owned());
            args.push(target.to_owned());
        },
    }
    proof {
        assert(text::views(args@) =~= pull_line(command, url@, branch@, target@));
    }
    args
}

/// The seconds between two synchronisations, if they are made at intervals at
/// all.
pub fn poll_seconds(poll_interval_minutes: u64) -> (result: Option<u64>)
    requires
        poll_interval_minutes * 60 <= u64::MAX,
    ensures
        result == if poll_interval_minutes == 0 {
            None
        } else {
            Some((poll_interval_minutes * 60) as u64)
        },
{
    if poll_interval_minutes == 0 {
        None
    } else {
        Some(poll_interval_minutes * 60)
    }
}

/// A commit names the edited file and no other, after the mark that ends the
/// options, and is made in the name of its author.
pub proof fn law_commits_touch_the_edited_file(
    command: CommitCommand,
    file: Seq<char>,
    name: Seq<char>,
    email: Seq<char>,
)
    ensures
        ({
            let args = commit_line(command, file, name, email);
            &&& command != CommitCommand::Inside ==> args.len() >= 3 && args.last() == file
                && args[args.len() - 2] == "--"@
            &&& command == CommitCommand::Add ==> args[0] == "add"@
            &&& command == CommitCommand::Status ==> args[0] == "status"@
            &&& command == CommitCommand::Commit ==> {
                &&& args.contains("user.name="@ + name)
                &&& args.contains("user.email="@ + email)
                &&& args.contains("commit"@)
                &&& exists|i: int|
                    0 <= i < args.len() - 1 && #[trigger] args[i] == "-m"@ && args[i + 1]
                        == commit_message(file)
            }
        }),
{
    let args = commit_line(command, file, name, email);
    if command == CommitCommand::Commit {
        assert(args[1] == "user.name="@ + name);
        assert(args[3] == "user.email="@ + email);
        assert(args[4] == "commit"@);
        assert(args[5] == "-m"@ && args[6] == commit_message(file));
    }
}

/// The repository is cloned from its address to its place, on its branch, and
/// pulled on the same branch, only forward.
pub proof fn law_pulls_stay_on_the_branch(
    command: PullCommand,
    url: Seq<char>,
    branch: Seq<char>,
    target: Seq<char>,
)
    ensures
        ({
            let args = pull_line(command, url, branch, target);
            &&& args.contains(branch)
            &&& command == PullCommand::Clone ==> args[0] == "clone"@ && args[args.len() - 2] == url
                && args.last() == target
            &&& command == PullCommand::Pull ==> args[0] == "pull"@ && args.contains("--ff-only"@)
                && args.last() == branch
            &&& command == PullCommand::Checkout ==> args == seq!["checkout"@, branch]
        }),
{
    let args = pull_line(command, url, branch, target);
    match command {
        PullCommand::Checkout => {
            assert(args[1] == branch);
        },
        PullCommand::Pull => {
            assert(args[3] == branch && args[1] == "--ff-only"@);
        },
        PullCommand::Clone => {
            assert(args[2] == branch);
        },
    }
}

} // verus!
