//! What the parser builds: simple commands with their redirections, joined into a pipeline.

use vstd::prelude::*;

verus! {

/// Which stream of a command a redirection binds, and how.
#[derive(Clone, Copy, Debug, PartialEq, Eq, Structural)]
pub enum Direction {
    /// `< target`: standard input is read from the target.
    Input,
    /// `> target`: standard output replaces the target.
    Output,
    /// `>> target`: standard output is appended to the target.
    Append,
}

/// A request to bind one stream of a command to a named target.
#[derive(Clone, Debug, PartialEq, Eq)]
pub struct Redirection {
    pub direction: Direction,
    pub target: String,
}

/// A command name with its arguments in order, and its redirections.
///
/// A command holds at most one redirection of each direction. Where a line
/// names the same direction twice, the last target wins: it takes the place of
/// the earlier one.
#[derive(Clone, Debug, PartialEq, Eq)]
pub struct SimpleCommand {
    pub name: String,
    pub args: Vec<String>,
    pub redirections: Vec<Redirection>,
}

/// One or more commands, each feeding its standard output to the next.
///
/// An output redirection on a command that is not the last stands beside the
/// pipe that follows it. The pipe is written last on the line, and as with two
/// redirections of one direction, what is written last wins.
#[derive(Clone, Debug, PartialEq, Eq)]
pub struct Pipeline {
    pub commands: Vec<SimpleCommand>,
}

/// The mathematical value of a [`Redirection`].
pub ghost struct RedirectionView {
    pub direction: Direction,
    pub target: Seq<char>,
}

/// The mathematical value of a [`SimpleCommand`].
pub ghost struct CommandView {
    pub name: Seq<char>,
    pub args: Seq<Seq<char>>,
    pub redirections: Seq<RedirectionView>,
}

/// The texts of a sequence of strings, in order.
pub open spec fn strings_view(strings: Seq<String>) -> Seq<Seq<char>> {
    Seq::new(strings.len(), |i: int| strings[i]@)
}

/// The values of a sequence of redirections, in order.
pub open spec fn redirections_view(redirections: Seq<Redirection>) -> Seq<RedirectionView> {
    Seq::new(redirections.len(), |i: int| redirections[i]@)
}

/// The values of a sequence of commands, in order.
pub open spec fn commands_view(commands: Seq<SimpleCommand>) -> Seq<CommandView> {
    Seq::new(commands.len(), |i: int| commands[i]@)
}

impl View for Redirection {
    type V = RedirectionView;

    open spec fn view(&self) -> RedirectionView {
        RedirectionView { direction: self.direction, target: self.target@ }
    }
}

impl View for SimpleCommand {
    type V = CommandView;

    open spec fn view(&self) -> CommandView {
        CommandView {
            name: self.name@,
            args: strings_view(self.args@),
            redirections: redirections_view(self.redirections@),
        }
    }
}

impl View for Pipeline {
    type V = Seq<CommandView>;

    open spec fn view(&self) -> Seq<CommandView> {
        commands_view(self.commands@)
    }
}

/// Whether some redirection in `redirections` has the direction `direction`.
pub open spec fn has_direction(redirections: Seq<RedirectionView>, direction: Direction) -> bool {
    exists|k: int| 0 <= k < redirections.len() && (#[trigger] redirections[k]).direction == direction
}

/// No direction occurs twice.
pub open spec fn distinct_directions(redirections: Seq<RedirectionView>) -> bool {
    forall|a: int, b: int|
        0 <= a < b < redirections.len() ==> (#[trigger] redirections[a]).direction != (
        #[trigger] redirections[b]).direction
}

/// The redirections of a command after one more was read. The last one wins:
/// `added` takes the place of a redirection of its direction, and comes last
/// where there was none.
pub open spec fn with_redirection(
    redirections: Seq<RedirectionView>,
    added: RedirectionView,
) -> Seq<RedirectionView> {
    if has_direction(redirections, added.direction) {
        Seq::new(
            redirections.len(),
            |k: int|
                if redirections[k].direction == added.direction {
                    added
                } else {
                    redirections[k]
                },
        )
    } else {
        redirections.push(added)
    }
}

/// A command is well formed where it has a name and no direction is redirected twice.
pub open spec fn command_wf(command: CommandView) -> bool {
    &&& command.name.len() > 0
    &&& distinct_directions(command.redirections)
}

/// A pipeline is well formed where it holds a command and each of its commands is well formed.
pub open spec fn pipeline_wf(commands: Seq<CommandView>) -> bool {
    &&& commands.len() > 0
    &&& forall|i: int| 0 <= i < commands.len() ==> command_wf(#[trigger] commands[i])
}

/// Adding a redirection keeps the directions distinct.
pub proof fn lemma_with_redirection_distinct(redirections: Seq<RedirectionView>, added: RedirectionView)
    requires
        distinct_directions(redirections),
    ensures
        distinct_directions(with_redirection(redirections, added)),
        has_direction(with_redirection(redirections, added), added.direction),
{
    let after = with_redirection(redirections, added);
    if has_direction(redirections, added.direction) {
        let k = choose|k: int|
            0 <= k < redirections.len() && (#[trigger] redirections[k]).direction
                == added.direction;
        assert(after[k].direction == added.direction);
        assert forall|a: int, b: int| 0 <= a < b < after.len() implies (#[trigger] after[a]).direction
            != (#[trigger] after[b]).direction by {
            assert(after[a].direction == redirections[a].direction);
            assert(after[b].direction == redirections[b].direction);
        }
    } else {
        assert(after[redirections.len() as int].direction == added.direction);
        assert forall|a: int, b: int| 0 <= a < b < after.len() implies (#[trigger] after[a]).direction
            != (#[trigger] after[b]).direction by {
            if b < redirections.len() {
                assert(after[a] == redirections[a]);
                assert(after[b] == redirections[b]);
            } else {
                assert(after[a] == redirections[a]);
            }
        }
    }
}

impl SimpleCommand {
    /// A command with this name, no arguments and no redirections.
    pub fn new(name: String) -> (command: SimpleCommand)
        ensures
            command@ == (CommandView { name: name@, args: Seq::empty(), redirections: Seq::empty() }),
    {
        let command = SimpleCommand { name, args: Vec::new(), redirections: Vec::new() };
        proof {
            assert(strings_view(command.args@) =~= Seq::empty());
            assert(redirections_view(command.redirections@) =~= Seq::empty());
        }
        command
    }

    /// Appends an argument.
    pub fn push_arg(&mut self, arg: String)
        ensures
            final(self)@ == (CommandView { args: old(self)@.args.push(arg@), ..old(self)@ }),
    {
        self.args.push(arg);
        proof {
            assert(strings_view(self.args@) =~= strings_view(old(self).args@).push(arg@));
        }
    }

    /// Binds `direction` to `target`. A redirection of the same direction that
    /// the command already holds gets the new target; otherwise the new
    /// redirection comes last.
    pub fn redirect(&mut self, direction: Direction, target: String)
        ensures
            final(self)@ == (CommandView {
                redirections: with_redirection(
                    old(self)@.redirections,
                    RedirectionView { direction, target: target@ },
                ),
                ..old(self)@
            }),
    {
        let ghost before = self@.redirections;
        let ghost added = RedirectionView { direction, target: target@ };
        let n: usize = self.redirections.len();
        let mut found: bool = false;
        let mut k: usize = 0;
        while k < n
            invariant
                k <= n,
                n == self.redirections.len(),
                self.name == old(self).name,
                self.args == old(self).args,
                self@.redirections.len() == before.len(),
                added == (RedirectionView { direction, target: target@ }),
                forall|m: int|
                    0 <= m < k ==> #[trigger] self@.redirections[m] == if before[m].direction
                        == direction {
                        added
                    } else {
                        before[m]
                    },
                forall|m: int| k <= m < n ==> #[trigger] self@.redirections[m] == before[m],
                found <==> exists|m: int|
                    0 <= m < k && (#[trigger] before[m]).direction == direction,
            decreases n - k,
        {
            let ghost current = self@.redirections;
            proof {
                assert(current[k as int] == before[k as int]);
            }
            if self.redirections[k].direction == direction {
                let replaced = Redirection { direction, target: target.clone() };
                self.redirections.set(k, replaced);
                found = true;
                proof {
                    assert(self@.redirections[k as int] == replaced@);
                }
            }
            proof {
                assert forall|m: int| 0 <= m < n && m != k implies #[trigger] self@.redirections[m]
                    == current[m] by {}
            }
            k += 1;
        }
        if !found {
            let ghost scanned = self@.redirections;
            self.redirections.push(Redirection { direction, target });
            proof {
                assert(!has_direction(before, direction));
                assert forall|m: int| 0 <= m < n implies #[trigger] scanned[m] == before[m] by {}
                assert forall|m: int| 0 <= m < n implies #[trigger] self@.redirections[m]
                    == scanned[m] by {}
                assert(self@.redirections =~= before.push(added));
            }
        } else {
            proof {
                assert(has_direction(before, direction));
                assert(self@.redirections =~= with_redirection(before, added));
            }
        }
    }
}

} // verus!
