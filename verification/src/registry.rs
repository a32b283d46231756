//! The command registry: an ordered list of (name, description, action)
//! triples, dispatched by a single invocation token. Every entry whose name
//! equals the token is run, in registration order; with no token or no match,
//! help is shown instead.

use vstd::prelude::*;
use crate::errors::{spec_render, TxtError};

verus! {

/// A command's action: a capability that can be invoked with no arguments and
/// either succeeds or returns a toolkit error. Consumers of the registry
/// implement this for their own types.
pub trait TxtAction {
    fn run(&self) -> Result<(), TxtError>;
}

/// One registered command: a name, a human-readable description, and an action.
pub struct TxtCommand<A> {
    pub name: String,
    pub description: String,
    pub action: A,
}

/// The command registry: project metadata and the ordered command list.
/// Duplicate names are legal; dispatch runs every match.
pub struct TxtLib<A> {
    pub project_name: String,
    pub project_description: String,
    pub doc_url: String,
    pub commands: Vec<TxtCommand<A>>,
}

/// The indices of the commands, from position `j` on, whose name equals the
/// token, in registration order.
pub open spec fn matches_from<A>(cmds: Seq<TxtCommand<A>>, token: Seq<char>, j: int) -> Seq<usize>
    decreases cmds.len() - j,
{
    if j < 0 || j >= cmds.len() {
        Seq::empty()
    } else if cmds[j].name@ == token {
        seq![j as usize] + matches_from(cmds, token, j + 1)
    } else {
        matches_from(cmds, token, j + 1)
    }
}

/// Every command whose name equals the token is matched.
proof fn lemma_matches_from_complete<A>(cmds: Seq<TxtCommand<A>>, token: Seq<char>, j: int, k: int)
    requires
        cmds.len() <= usize::MAX,
        0 <= j <= k < cmds.len(),
        cmds[k].name@ == token,
    ensures
        matches_from(cmds, token, j).contains(k as usize),
    decreases k - j,
{
    if j == k {
        assert(matches_from(cmds, token, j)[0] == k as usize);
    } else {
        lemma_matches_from_complete(cmds, token, j + 1, k);
        let inner = matches_from(cmds, token, j + 1);
        let witness = choose|w: int| 0 <= w < inner.len() && inner[w] == k as usize;
        if cmds[j].name@ == token {
            assert(matches_from(cmds, token, j)[witness + 1] == k as usize);
        }
    }
}

/// Every matched index names a command whose name equals the token, and the
/// matches come in registration order.
proof fn lemma_matches_from_sound<A>(cmds: Seq<TxtCommand<A>>, token: Seq<char>, j: int)
    requires
        cmds.len() <= usize::MAX,
        0 <= j,
    ensures
        forall|w: int|
            0 <= w < matches_from(cmds, token, j).len() ==> j <= #[trigger] matches_from(
                cmds,
                token,
                j,
            )[w] < cmds.len() && cmds[matches_from(cmds, token, j)[w] as int].name@ == token,
        forall|w1: int, w2: int|
            0 <= w1 < w2 < matches_from(cmds, token, j).len() ==> matches_from(cmds, token, j)[w1]
                < matches_from(cmds, token, j)[w2],
    decreases cmds.len() - j,
{
    let cur = matches_from(cmds, token, j);
    if j >= cmds.len() {
        assert(cur =~= Seq::<usize>::empty());
    } else {
        lemma_matches_from_sound(cmds, token, j + 1);
        let inner = matches_from(cmds, token, j + 1);
        if cmds[j].name@ == token {
            assert(cur == seq![j as usize] + inner);
            assert forall|w: int| 0 <= w < cur.len() implies j <= #[trigger] cur[w] < cmds.len()
                && cmds[cur[w] as int].name@ == token by {
                if w > 0 {
                    assert(cur[w] == inner[w - 1]);
                }
            }
            assert forall|w1: int, w2: int| 0 <= w1 < w2 < cur.len() implies cur[w1]
                < cur[w2] by {
                assert(cur[w2] == inner[w2 - 1]);
                if w1 > 0 {
                    assert(cur[w1] == inner[w1 - 1]);
                }
            }
        } else {
            assert(cur == inner);
        }
    }
}

/// Dispatch matching runs every command whose name equals the token: if two
/// registered commands share the requested name, both are matched, each
/// exactly once, in registration order. Duplicate names are defined behavior,
/// not an error.
pub proof fn lemma_duplicate_names_both_match<A>(
    cmds: Seq<TxtCommand<A>>,
    token: Seq<char>,
    i: int,
    k: int,
)
    requires
        cmds.len() <= usize::MAX,
        0 <= i < k < cmds.len(),
        cmds[i].name@ == token,
        cmds[k].name@ == token,
    ensures
        matches_from(cmds, token, 0).contains(i as usize),
        matches_from(cmds, token, 0).contains(k as usize),
        forall|w1: int, w2: int|
            0 <= w1 < w2 < matches_from(cmds, token, 0).len() ==> matches_from(cmds, token, 0)[w1]
                < matches_from(cmds, token, 0)[w2],
{
    lemma_matches_from_complete(cmds, token, 0, i);
    lemma_matches_from_complete(cmds, token, 0, k);
    lemma_matches_from_sound(cmds, token, 0);
}

/// What a dispatch decided: help is owed, or the matched actions ran.
#[derive(PartialEq, Eq, Debug)]
pub enum DispatchOutcome {
    /// No token was supplied, or no command name matched it: help is shown.
    Help,
    /// At least one command matched and every matched action succeeded.
    Ran,
}

/// The final act of an invocation, handed to the process boundary: what to
/// write to the diagnostic stream and which status to exit with.
#[derive(PartialEq, Eq, Debug)]
pub enum FinalAct {
    /// Print the help text to the diagnostic stream and exit with status 0.
    PrintHelpExit0,
    /// Print nothing and exit with status 0.
    SilentExit0,
    /// Print the given diagnostic line and exit with status 1.
    PrintErrorExit1(String),
}

/// The help text: project name and description, every command's name and
/// description in registration order, and the documentation pointer.
pub open spec fn spec_help_commands<A>(cmds: Seq<TxtCommand<A>>) -> Seq<char>
    decreases cmds.len(),
{
    if cmds.len() == 0 {
        Seq::empty()
    } else {
        spec_help_commands(cmds.drop_last()) + cmds.last().name@ + " - "@
            + cmds.last().description@ + "\n\n"@
    }
}

/// The whole help text of a registry.
pub open spec fn spec_help<A>(lib: TxtLib<A>) -> Seq<char> {
    lib.project_name@ + " - "@ + lib.project_description@ + "\n\n"@ + spec_help_commands(
        lib.commands@,
    ) + "more documentation is available at "@ + lib.doc_url@
}

impl<A: TxtAction> TxtLib<A> {
    /// A fresh registry with the given project metadata and no commands.
    pub fn new(project_name: &str, project_description: &str, doc_url: &str) -> (lib: TxtLib<A>)
        ensures
            lib.project_name@ == project_name@,
            lib.project_description@ == project_description@,
            lib.doc_url@ == doc_url@,
            lib.commands@.len() == 0,
    {
        TxtLib {
            project_name: String::from_str(project_name),
            project_description: String::from_str(project_description),
            doc_url: String::from_str(doc_url),
            commands: Vec::new(),
        }
    }

    /// Appends a command. No uniqueness is enforced: a duplicate name is
    /// retained, and dispatch will run both.
    pub fn add_command(&mut self, command_name: &str, command_description: &str, command: A)
        ensures
            final(self).commands@.len() == old(self).commands@.len() + 1,
            final(self).commands@.last().name@ == command_name@,
            final(self).commands@.last().description@ == command_description@,
            final(self).commands@.last().action == command,
            final(self).commands@.drop_last() == old(self).commands@,
            final(self).project_name == old(self).project_name,
            final(self).project_description == old(self).project_description,
            final(self).doc_url == old(self).doc_url,
    {
        self.commands.push(
            TxtCommand {
                name: String::from_str(command_name),
                description: String::from_str(command_description),
                action: command,
            },
        );
    }

    /// The indices of the commands whose name equals the token, in
    /// registration order.
    pub fn matching_indices(&self, token: &String) -> (r: Vec<usize>)
        ensures
            r@ == matches_from(self.commands@, token@, 0),
    {
        let ghost cmds = self.commands@;
        let mut r: Vec<usize> = Vec::new();
        let n = self.commands.len();
        for j in 0..n
            invariant
                n == cmds.len(),
                cmds == self.commands@,
                matches_from(cmds, token@, 0) == r@ + matches_from(cmds, token@, j as int),
        {
            let ghost before = r@;
            if self.commands[j].name.eq(token) {
                r.push(j);
                proof {
                    assert(matches_from(cmds, token@, j as int) =~= seq![j as usize]
                        + matches_from(cmds, token@, j + 1));
                    assert(before + matches_from(cmds, token@, j as int) =~= r@ + matches_from(
                        cmds,
                        token@,
                        j + 1,
                    ));
                }
            } else {
                proof {
                    assert(matches_from(cmds, token@, j as int) == matches_from(
                        cmds,
                        token@,
                        j + 1,
                    ));
                }
            }
        }
        proof {
            assert(matches_from(cmds, token@, n as int) =~= Seq::<usize>::empty());
            assert(matches_from(cmds, token@, 0) =~= r@);
        }
        r
    }

    /// Builds the help text: project name and description, then every
    /// command's name and description in registration order, then the
    /// documentation pointer.
    pub fn help_text(&self) -> (s: String)
        ensures
            s@ == spec_help(*self),
    {
        let mut s = String::new();
        s.append(self.project_name.as_str());
        s.append(" - ");
        s.append(self.project_description.as_str());
        s.append("\n\n");
        let ghost header = s@;
        let n = self.commands.len();
        for j in 0..n
            invariant
                n == self.commands@.len(),
                s@ == header + spec_help_commands(self.commands@.subrange(0, j as int)),
        {
            s.append(self.commands[j].name.as_str());
            s.append(" - ");
            s.append(self.commands[j].description.as_str());
            s.append("\n\n");
            proof {
                let pre = self.commands@.subrange(0, j as int);
                let post = self.commands@.subrange(0, j + 1);
                assert(post.drop_last() =~= pre);
                assert(post.last() == self.commands@[j as int]);
                assert(s@ =~= header + spec_help_commands(post));
            }
        }
        proof {
            assert(self.commands@.subrange(0, n as int) =~= self.commands@);
        }
        s.append("more documentation is available at ");
        s.append(self.doc_url.as_str());
        proof {
            assert(s@ =~= spec_help(*self));
        }
        s
    }

    /// Resolves the invocation token and runs every matching action, in
    /// registration order, stopping at the first error. With no token or no
    /// match, reports that help is owed instead. Which error a matched action
    /// returns is the action's own affair; everything else is pinned down.
    pub fn run_command(&self, token: &Option<String>) -> (r: Result<DispatchOutcome, TxtError>)
        ensures
            token is None ==> r == Ok::<DispatchOutcome, TxtError>(DispatchOutcome::Help),
            token matches Some(t) && matches_from(self.commands@, t@, 0).len() == 0 ==> r
                == Ok::<DispatchOutcome, TxtError>(DispatchOutcome::Help),
            token matches Some(t) && matches_from(self.commands@, t@, 0).len() > 0 ==> (r is Err
                || r == Ok::<DispatchOutcome, TxtError>(DispatchOutcome::Ran)),
            r is Err ==> token is Some && matches_from(
                self.commands@,
                token->0@,
                0,
            ).len() > 0,
    {
        match token {
            None => Ok(DispatchOutcome::Help),
            Some(t) => {
                let matched = self.matching_indices(t);
                let n = self.commands.len();
                proof {
                    assert(self.commands@.len() == n);
                }
                if matched.len() == 0 {
                    Ok(DispatchOutcome::Help)
                } else {
                    let mut k: usize = 0;
                    proof {
                        lemma_matches_from_sound(self.commands@, t@, 0);
                    }
                    while k < matched.len()
                        invariant
                            token matches Some(tok) && tok@ == t@,
                            matched@ == matches_from(self.commands@, t@, 0),
                            matched@.len() > 0,
                            forall|w: int|
                                0 <= w < matched@.len() ==> #[trigger] matched@[w]
                                    < self.commands@.len(),
                        decreases matched.len() - k,
                    {
                        let i = matched[k];
                        match self.commands[i].action.run() {
                            Ok(()) => {},
                            Err(e) => {
                                return Err(e);
                            },
                        }
                        k = k + 1;
                    }
                    Ok(DispatchOutcome::Ran)
                }
            },
        }
    }
}

/// The positional argument at the index, or the argument-missing error: the
/// decision half of reading a process argument, over the argument list as
/// plain values.
pub fn get_user_arg(args: &Vec<String>, arg_index: usize) -> (r: Result<String, TxtError>)
    ensures
        arg_index < args@.len() ==> (r matches Ok(s) && s@ == args@[arg_index as int]@),
        arg_index >= args@.len() ==> r == Err::<String, TxtError>(
            TxtError::ArgNotFound(arg_index),
        ),
{
    if arg_index < args.len() {
        Ok(args[arg_index].clone())
    } else {
        Err(TxtError::ArgNotFound(arg_index))
    }
}

/// Any action error is fatal to the whole invocation: the process prints
/// exactly that error's diagnostic line and exits with status 1, whatever
/// already ran; a help outcome or a silent success exits with status 0.
pub fn conclude(r: &Result<DispatchOutcome, TxtError>) -> (act: FinalAct)
    ensures
        r == Ok::<DispatchOutcome, TxtError>(DispatchOutcome::Help) ==> act
            == FinalAct::PrintHelpExit0,
        r == Ok::<DispatchOutcome, TxtError>(DispatchOutcome::Ran) ==> act
            == FinalAct::SilentExit0,
        r matches Err(e) ==> act matches FinalAct::PrintErrorExit1(m) && m@ == spec_render(*e),
{
    match r {
        Ok(DispatchOutcome::Help) => FinalAct::PrintHelpExit0,
        Ok(DispatchOutcome::Ran) => FinalAct::SilentExit0,
        Err(e) => FinalAct::PrintErrorExit1(e.render()),
    }
}

/// The exit status of a final act: 1 for a rendered error, 0 otherwise.
pub fn exit_code(act: &FinalAct) -> (c: i32)
    ensures
        c == 1 <==> act is PrintErrorExit1,
        c == 0 <==> !(act is PrintErrorExit1),
{
    match act {
        FinalAct::PrintErrorExit1(_) => 1,
        _ => 0,
    }
}

} // verus!
