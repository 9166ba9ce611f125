//! What is said of what was done.
use vstd::prelude::*;
use vstd::string::*;

use crate::add_command::FileSeen;
use crate::add_trace::{nothing_to_add, would_add_lines};
use crate::commit_command::summary_lines;
use crate::hash::hex_text;
use crate::helix_index::commit::first_line;
use crate::pull_command::pulled_lines;
use crate::rpc::PullAck;
use crate::sandbox_command::{commit_lines, SandboxChangeKind};
use crate::sandbox_tui::app::change_line;
use crate::text::{decimal, has_infix, has_suffix};

verus! {

/// A commit is told by the first eight digits of its hash in square brackets, the first line of
/// its message, and how many files were staged.
pub proof fn commits_are_told(id: Seq<u8>, message: Seq<char>, n: nat)
    ensures
        ({
            let ls = summary_lines(id, message, n);
            &&& ls.len() == 2
            &&& ls[0] == seq!['['] + hex_text(id).subrange(0, 8) + seq![']', ' '] + first_line(
                message,
            )
            &&& ls[1] == decimal(n) + seq![
                ' ', 'f', 'i', 'l', 'e', 's', ' ', 'c', 'h', 'a', 'n', 'g', 'e', 'd',
            ]
        }),
{
    reveal_strlit("[");
    reveal_strlit("] ");
    reveal_strlit(" files changed");
    assert("["@ =~= seq!['[']);
    assert("] "@ =~= seq![']', ' ']);
    assert(" files changed"@ =~= seq![
        ' ', 'f', 'i', 'l', 'e', 's', ' ', 'c', 'h', 'a', 'n', 'g', 'e', 'd',
    ]);
}

proof fn lemma_suffix(a: Seq<char>, b: Seq<char>)
    ensures
        has_suffix(a + b, b),
{
    let s = a + b;
    assert(s.subrange(s.len() - b.len(), s.len() as int) =~= b);
}

proof fn lemma_infix(a: Seq<char>, b: Seq<char>, c: Seq<char>)
    ensures
        has_infix(a + b + c, b),
{
    let s = a + b + c;
    let i = a.len() as int;
    assert(s.subrange(i, i + b.len()) =~= b);
}

/// A dry run tells every file that would be added, in order, and no other; where nothing is to
/// be added, it is told how many files are staged, if any are.
pub proof fn additions_are_told(fs: Seq<FileSeen>, n: nat, verbose: bool)
    ensures
        would_add_lines(fs).len() == fs.len(),
        forall|i: int|
            0 <= i < fs.len() ==> has_suffix(#[trigger] would_add_lines(fs)[i], fs[i].path),
        n > 0 ==> has_infix(nothing_to_add(n, verbose), decimal(n)),
{
    assert forall|i: int| 0 <= i < fs.len() implies has_suffix(
        #[trigger] would_add_lines(fs)[i],
        fs[i].path,
    ) by {
        lemma_suffix("Would add: "@, fs[i].path);
    }
    lemma_infix("No new files to add ("@, decimal(n), " files already staged)"@);
    lemma_infix("No new files to add ("@, decimal(n), " already staged, ready to commit)"@);
}

/// A pull tells last how many objects came from which branch of which remote, and then which
/// reference names which commit now, by the first eight digits of its hash.
pub proof fn pulls_are_told(
    n: nat,
    ack: PullAck,
    remote: Seq<char>,
    branch: Seq<char>,
    name: Seq<char>,
    verbose: bool,
)
    ensures
        ({
            let ls = pulled_lines(n, ack, remote, branch, name, verbose);
            let told = ls[ls.len() - 2];
            let last = ls[ls.len() - 1];
            &&& ls.len() >= 2
            &&& has_infix(told, decimal(n))
            &&& has_suffix(told, remote + seq!['/'] + branch)
            &&& has_infix(last, name)
            &&& has_suffix(last, hex_text(ack.new_remote_head@).subrange(0, 8))
        }),
{
    reveal_strlit("/");
    assert("/"@ =~= seq!['/']);
    let ls = pulled_lines(n, ack, remote, branch, name, verbose);
    let told = ls[ls.len() - 2];
    let last = ls[ls.len() - 1];
    let a = "Pulled "@;
    let b = " objects from "@;
    let head = hex_text(ack.new_remote_head@).subrange(0, 8);
    assert(told =~= a + decimal(n) + (b + remote + "/"@ + branch));
    lemma_infix(a, decimal(n), b + remote + "/"@ + branch);
    assert(told =~= (a + decimal(n) + b) + (remote + seq!['/'] + branch));
    lemma_suffix(a + decimal(n) + b, remote + seq!['/'] + branch);
    assert(last =~= "Updated "@ + name + (" -> "@ + head));
    lemma_infix("Updated "@, name, " -> "@ + head);
    assert(last =~= ("Updated "@ + name + " -> "@) + head);
    lemma_suffix("Updated "@ + name + " -> "@, head);
}

/// A changed file of a sandbox is told by a letter, `A`, `M` or `D`, and its path.
pub proof fn changes_are_told_by_letter(path: Seq<char>)
    ensures
        change_line((path, SandboxChangeKind::Added)) == seq![' ', ' ', 'A', ' '] + path,
        change_line((path, SandboxChangeKind::Modified)) == seq![' ', ' ', 'M', ' '] + path,
        change_line((path, SandboxChangeKind::Deleted)) == seq![' ', ' ', 'D', ' '] + path,
{
    reveal_strlit("  ");
    reveal_strlit(" ");
    assert(change_line((path, SandboxChangeKind::Added)) =~= seq![' ', ' ', 'A', ' '] + path);
    assert(change_line((path, SandboxChangeKind::Modified)) =~= seq![' ', ' ', 'M', ' '] + path);
    assert(change_line((path, SandboxChangeKind::Deleted)) =~= seq![' ', ' ', 'D', ' '] + path);
}

/// A commit in a sandbox is told last, by the first eight digits of its hash and the name of
/// the sandbox.
pub proof fn sandbox_commits_are_told(n: nat, name: Seq<char>, hash: Seq<u8>, verbose: bool)
    ensures
        ({
            let ls = commit_lines(n, name, hash, verbose);
            &&& ls.len() == (if verbose {
                2int
            } else {
                1
            })
            &&& verbose ==> has_infix(ls[0], decimal(n)) && has_infix(ls[0], name)
            &&& has_infix(ls[ls.len() - 1], hex_text(hash).subrange(0, 8))
            &&& has_infix(ls[ls.len() - 1], name)
        }),
{
    let ls = commit_lines(n, name, hash, verbose);
    let last = ls[ls.len() - 1];
    let short = hex_text(hash).subrange(0, 8);
    let a = "Created commit "@;
    let b = " in sandbox '"@;
    assert(last =~= a + short + (b + name + "'"@));
    lemma_infix(a, short, b + name + "'"@);
    assert(last =~= (a + short + b) + name + "'"@);
    lemma_infix(a + short + b, name, "'"@);
    if verbose {
        let c = "Committing "@;
        let d = " changes in sandbox '"@;
        assert(ls[0] =~= c + decimal(n) + (d + name + "'"@));
        lemma_infix(c, decimal(n), d + name + "'"@);
        assert(ls[0] =~= (c + decimal(n) + d) + name + "'"@);
        lemma_infix(c + decimal(n) + d, name, "'"@);
    }
}

} // verus!
