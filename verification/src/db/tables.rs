//! A model of the journal's tables, and what the statistics have to do with
//! the commands that were recorded.
use vstd::prelude::*;
use crate::db::store;
use crate::db::store::{Backfill, StatChangeView};

verus! {

/// A command in the journal.
pub struct Run {
    pub command_line: Seq<char>,
    pub cwd: Seq<char>,
    pub exit_code: Option<i32>,
    pub session_id: Seq<char>,
    pub timestamp: int,
}

/// When last and how often something was run with success.
pub struct Stat {
    pub latest: int,
    pub count: nat,
}

/// The journal, oldest first, and the statistics.
pub struct Tables {
    pub journal: Seq<Run>,
    pub commands: Map<Seq<char>, Stat>,
    pub cwd_commands: Map<(Seq<char>, Seq<char>), Stat>,
    pub transitions: Map<(Seq<char>, Seq<char>), nat>,
}

/// One more run at `timestamp`.
pub open spec fn once_more(stat: Option<Stat>, timestamp: int) -> Stat {
    match stat {
        Some(s) => Stat {
            latest: if s.latest > timestamp {
                s.latest
            } else {
                timestamp
            },
            count: s.count + 1,
        },
        None => Stat { latest: timestamp, count: 1 },
    }
}

/// What a table holds for a key.
pub open spec fn lookup<K, V>(m: Map<K, V>, k: K) -> Option<V> {
    if m.contains_key(k) {
        Some(m[k])
    } else {
        None
    }
}

/// How often something happened.
pub open spec fn tally(m: Map<(Seq<char>, Seq<char>), nat>, k: (Seq<char>, Seq<char>)) -> nat {
    match lookup(m, k) {
        Some(n) => n,
        None => 0,
    }
}

/// The tables after a change of the statistics.
pub open spec fn changed(t: Tables, c: StatChangeView) -> Tables {
    match c {
        StatChangeView::Transition { prev, next } => Tables {
            transitions: t.transitions.insert(
                (prev, next),
                tally(t.transitions, (prev, next)) + 1,
            ),
            ..t
        },
        StatChangeView::Command { command_line, timestamp } => Tables {
            commands: t.commands.insert(
                command_line,
                once_more(lookup(t.commands, command_line), timestamp),
            ),
            ..t
        },
        StatChangeView::CwdCommand { cwd, command_line, timestamp } => Tables {
            cwd_commands: t.cwd_commands.insert(
                (cwd, command_line),
                once_more(lookup(t.cwd_commands, (cwd, command_line)), timestamp),
            ),
            ..t
        },
    }
}

/// The tables after a list of changes.
pub open spec fn all_changed(t: Tables, changes: Seq<StatChangeView>) -> Tables
    decreases changes.len(),
{
    if changes.len() == 0 {
        t
    } else {
        all_changed(changed(t, changes[0]), changes.skip(1))
    }
}

/// The last command of a session.
pub open spec fn previous_command(journal: Seq<Run>, session_id: Seq<char>) -> Option<Seq<char>>
    decreases journal.len(),
{
    if journal.len() == 0 {
        None
    } else if journal.last().session_id == session_id {
        Some(journal.last().command_line)
    } else {
        previous_command(journal.drop_last(), session_id)
    }
}

/// The tables after a command is recorded: it goes to the end of the journal,
/// and the statistics change as the command and the one before it in its
/// session say.
pub open spec fn recorded(t: Tables, run: Run) -> Tables {
    all_changed(
        Tables { journal: t.journal.push(run), ..t },
        store::changes_of(
            run.command_line,
            run.cwd,
            run.exit_code,
            run.timestamp,
            previous_command(t.journal, run.session_id),
        ),
    )
}

/// The successful runs of a command in a journal.
pub open spec fn runs_of(journal: Seq<Run>, command_line: Seq<char>) -> Option<Stat>
    decreases journal.len(),
{
    if journal.len() == 0 {
        None
    } else {
        let rest = runs_of(journal.drop_last(), command_line);
        let run = journal.last();
        if store::succeeded(run.exit_code) && run.command_line == command_line {
            Some(once_more(rest, run.timestamp))
        } else {
            rest
        }
    }
}

/// The successful runs of a command in a directory.
pub open spec fn runs_in(
    journal: Seq<Run>,
    cwd: Seq<char>,
    command_line: Seq<char>,
) -> Option<Stat>
    decreases journal.len(),
{
    if journal.len() == 0 {
        None
    } else {
        let rest = runs_in(journal.drop_last(), cwd, command_line);
        let run = journal.last();
        if store::succeeded(run.exit_code) && run.command_line == command_line && run.cwd == cwd {
            Some(once_more(rest, run.timestamp))
        } else {
            rest
        }
    }
}

/// How often `next` followed `prev` in one session.
pub open spec fn follows(journal: Seq<Run>, prev: Seq<char>, next: Seq<char>) -> nat
    decreases journal.len(),
{
    if journal.len() == 0 {
        0
    } else {
        let before = journal.drop_last();
        let run = journal.last();
        let rest = follows(before, prev, next);
        if run.command_line == next && previous_command(before, run.session_id) == Some(prev) {
            rest + 1
        } else {
            rest
        }
    }
}

/// The run statistics say what the journal says.
pub open spec fn runs_agree(t: Tables) -> bool {
    &&& forall|c: Seq<char>| #[trigger] lookup(t.commands, c) == runs_of(t.journal, c)
    &&& forall|d: Seq<char>, c: Seq<char>| #[trigger]
        lookup(t.cwd_commands, (d, c)) == runs_in(t.journal, d, c)
}

/// What a table of counts holds for a key: nothing where there is nothing to
/// count.
pub open spec fn some_count(n: nat) -> Option<nat> {
    if n == 0 {
        None
    } else {
        Some(n)
    }
}

/// The transition statistics say what the journal says.
pub open spec fn transitions_agree(t: Tables) -> bool {
    forall|p: Seq<char>, n: Seq<char>| #[trigger]
        lookup(t.transitions, (p, n)) == some_count(follows(t.journal, p, n))
}

/// To record a command keeps the statistics in agreement with the journal.
pub proof fn law_record_keeps_agreement(t: Tables, run: Run)
    requires
        runs_agree(t),
        transitions_agree(t),
    ensures
        recorded(t, run).journal == t.journal.push(run),
        runs_agree(recorded(t, run)),
        transitions_agree(recorded(t, run)),
{
    let start = Tables { journal: t.journal.push(run), ..t };
    let previous = previous_command(t.journal, run.session_id);
    let changes = store::changes_of(
        run.command_line,
        run.cwd,
        run.exit_code,
        run.timestamp,
        previous,
    );
    let r = recorded(t, run);
    reveal_with_fuel(all_changed, 4);
    assert(t.journal.push(run).drop_last() =~= t.journal);
    let linked = match previous {
        Some(prev) => changed(
            start,
            StatChangeView::Transition { prev, next: run.command_line },
        ),
        None => start,
    };
    let counted = if store::succeeded(run.exit_code) {
        changed(
            changed(
                linked,
                StatChangeView::Command {
                    command_line: run.command_line,
                    timestamp: run.timestamp,
                },
            ),
            StatChangeView::CwdCommand {
                cwd: run.cwd,
                command_line: run.command_line,
                timestamp: run.timestamp,
            },
        )
    } else {
        linked
    };
    if previous is Some {
        assert(changes.skip(1) =~= if store::succeeded(run.exit_code) {
            seq![
                StatChangeView::Command {
                    command_line: run.command_line,
                    timestamp: run.timestamp,
                },
                StatChangeView::CwdCommand {
                    cwd: run.cwd,
                    command_line: run.command_line,
                    timestamp: run.timestamp,
                },
            ]
        } else {
            Seq::empty()
        });
    }
    assert(r == counted);
    assert forall|c: Seq<char>| #[trigger] lookup(r.commands, c) == runs_of(r.journal, c) by {
        assert(lookup(t.commands, c) == runs_of(t.journal, c));
    }
    assert forall|d: Seq<char>, c: Seq<char>| #[trigger]
        lookup(r.cwd_commands, (d, c)) == runs_in(r.journal, d, c) by {
        assert(lookup(t.cwd_commands, (d, c)) == runs_in(t.journal, d, c));
    }
    assert forall|p: Seq<char>, n: Seq<char>| #[trigger]
        lookup(r.transitions, (p, n)) == some_count(follows(r.journal, p, n)) by {
        assert(lookup(t.transitions, (p, n)) == some_count(follows(t.journal, p, n)));
    }
}

// ------------------------------------------------------------------ refilling

/// How often `next` stands right behind `prev` in one session.
pub open spec fn adjacent(journal: Seq<Run>, prev: Seq<char>, next: Seq<char>) -> nat
    decreases journal.len(),
{
    if journal.len() < 2 {
        0
    } else {
        let before = journal.drop_last();
        let run = journal.last();
        let rest = adjacent(before, prev, next);
        if before.last().session_id == run.session_id && before.last().command_line == prev
            && run.command_line == next {
            rest + 1
        } else {
            rest
        }
    }
}

/// The commands of each session stand together.
pub open spec fn sessions_together(journal: Seq<Run>) -> bool {
    forall|i: int, j: int, k: int|
        0 <= i <= j <= k < journal.len() && (#[trigger] journal[i]).session_id == (
        #[trigger] journal[k]).session_id ==> (#[trigger] journal[j]).session_id
            == journal[i].session_id
}

/// The plan makes anew the statistics that are empty, and no others.
pub open spec fn fills_the_empty(t: Tables, plan: Backfill) -> bool {
    &&& plan.commands == t.commands.dom().is_empty()
    &&& plan.cwd_commands == t.cwd_commands.dom().is_empty()
    &&& plan.transitions == t.transitions.dom().is_empty()
}

/// The tables after the statistics that the plan names were made anew from the
/// journal. Transitions are counted between commands that stand side by side.
pub open spec fn refilled(t: Tables, plan: Backfill, r: Tables) -> bool {
    &&& r.journal == t.journal
    &&& if plan.commands {
        forall|c: Seq<char>| #[trigger] lookup(r.commands, c) == runs_of(t.journal, c)
    } else {
        r.commands == t.commands
    }
    &&& if plan.cwd_commands {
        forall|d: Seq<char>, c: Seq<char>| #[trigger]
            lookup(r.cwd_commands, (d, c)) == runs_in(t.journal, d, c)
    } else {
        r.cwd_commands == t.cwd_commands
    }
    &&& if plan.transitions {
        forall|p: Seq<char>, n: Seq<char>| #[trigger]
            lookup(r.transitions, (p, n)) == some_count(adjacent(t.journal, p, n))
    } else {
        r.transitions == t.transitions
    }
}

proof fn lemma_previous_is_none(journal: Seq<Run>, session_id: Seq<char>)
    requires
        forall|k: int| 0 <= k < journal.len() ==> (#[trigger] journal[k]).session_id != session_id,
    ensures
        previous_command(journal, session_id) is None,
    decreases journal.len(),
{
    if journal.len() > 0 {
        lemma_previous_is_none(journal.drop_last(), session_id);
    }
}

/// Where the commands of each session stand together, those that follow each
/// other in a session are those that stand side by side.
pub proof fn law_together_is_adjacent(journal: Seq<Run>, prev: Seq<char>, next: Seq<char>)
    requires
        sessions_together(journal),
    ensures
        follows(journal, prev, next) == adjacent(journal, prev, next),
    decreases journal.len(),
{
    if journal.len() > 0 {
        let before = journal.drop_last();
        let last = journal.len() - 1;
        let id = journal[last].session_id;
        assert forall|i: int, j: int, k: int|
            0 <= i <= j <= k < before.len() && (#[trigger] before[i]).session_id == (
            #[trigger] before[k]).session_id implies (#[trigger] before[j]).session_id
            == before[i].session_id by {
            assert(journal[i] == before[i] && journal[j] == before[j] && journal[k] == before[k]);
        }
        law_together_is_adjacent(before, prev, next);
        if before.len() == 0 {
            assert(previous_command(before, id) is None);
            assert(follows(before, prev, next) == 0);
        } else if before.last().session_id != id {
            assert forall|k: int| 0 <= k < before.len() implies (#[trigger] before[k]).session_id
                != id by {
                if before[k].session_id == id {
                    assert(journal[k].session_id == journal[last].session_id);
                    assert(journal[last - 1].session_id == id);
                }
            }
            lemma_previous_is_none(before, id);
        }
    }
}

/// Opening the database leaves the statistics in agreement with the journal,
/// where those that are not empty were. For the transitions, the commands of
/// each session have to stand together.
pub proof fn law_refill_restores_agreement(t: Tables, plan: Backfill, r: Tables)
    requires
        fills_the_empty(t, plan),
        refilled(t, plan, r),
        t.commands.dom().is_empty() || forall|c: Seq<char>| #[trigger]
            lookup(t.commands, c) == runs_of(t.journal, c),
        t.cwd_commands.dom().is_empty() || forall|d: Seq<char>, c: Seq<char>| #[trigger]
            lookup(t.cwd_commands, (d, c)) == runs_in(t.journal, d, c),
    ensures
        r.journal == t.journal,
        runs_agree(r),
        sessions_together(t.journal) && (t.transitions.dom().is_empty() || transitions_agree(t))
            ==> transitions_agree(r),
{
    if sessions_together(t.journal) && (t.transitions.dom().is_empty() || transitions_agree(t)) {
        assert forall|p: Seq<char>, n: Seq<char>| #[trigger]
            lookup(r.transitions, (p, n)) == some_count(follows(r.journal, p, n)) by {
            law_together_is_adjacent(t.journal, p, n);
            assert(t.transitions.dom().is_empty() || lookup(t.transitions, (p, n)) == some_count(
                follows(t.journal, p, n),
            ));
        }
    }
}

/// Tables without anything.
pub open spec fn no_tables() -> Tables {
    Tables {
        journal: Seq::empty(),
        commands: Map::empty(),
        cwd_commands: Map::empty(),
        transitions: Map::empty(),
    }
}

/// The tables after some commands are recorded one by one.
pub open spec fn all_recorded(runs: Seq<Run>) -> Tables
    decreases runs.len(),
{
    if runs.len() == 0 {
        no_tables()
    } else {
        recorded(all_recorded(runs.drop_last()), runs.last())
    }
}

/// What was recorded one by one is in the journal, and the statistics agree.
pub proof fn law_recording_agrees(runs: Seq<Run>)
    ensures
        all_recorded(runs).journal == runs,
        runs_agree(all_recorded(runs)),
        transitions_agree(all_recorded(runs)),
    decreases runs.len(),
{
    if runs.len() > 0 {
        law_recording_agrees(runs.drop_last());
        law_record_keeps_agreement(all_recorded(runs.drop_last()), runs.last());
        assert(runs.drop_last().push(runs.last()) =~= runs);
    } else {
        assert(runs =~= Seq::<Run>::empty());
    }
}

proof fn lemma_same_lookups<K, V>(a: Map<K, V>, b: Map<K, V>)
    requires
        forall|k: K| #[trigger] lookup(a, k) == lookup(b, k),
    ensures
        a == b,
{
    assert forall|k: K| #[trigger] a.dom().contains(k) == b.dom().contains(k) by {
        assert(lookup(a, k) == lookup(b, k));
    }
    assert forall|k: K| #[trigger] a.dom().contains(k) implies a[k] == b[k] by {
        assert(lookup(a, k) == lookup(b, k));
    }
    assert(a.dom() =~= b.dom());
    assert(a =~= b);
}

/// A journal without statistics, in which the commands of each session stand
/// together, gets the statistics that it would have had its commands been
/// recorded one by one.
pub proof fn law_refill_is_recording(t: Tables, plan: Backfill, r: Tables)
    requires
        sessions_together(t.journal),
        t.commands.dom().is_empty(),
        t.cwd_commands.dom().is_empty(),
        t.transitions.dom().is_empty(),
        fills_the_empty(t, plan),
        refilled(t, plan, r),
    ensures
        r == all_recorded(t.journal),
{
    let a = all_recorded(t.journal);
    law_recording_agrees(t.journal);
    law_refill_restores_agreement(t, plan, r);
    assert forall|c: Seq<char>| #[trigger] lookup(r.commands, c) == lookup(a.commands, c) by {
        assert(lookup(a.commands, c) == runs_of(a.journal, c));
    }
    assert forall|k: (Seq<char>, Seq<char>)| #[trigger]
        lookup(r.cwd_commands, k) == lookup(a.cwd_commands, k) by {
        assert(lookup(r.cwd_commands, (k.0, k.1)) == runs_in(r.journal, k.0, k.1));
        assert(lookup(a.cwd_commands, (k.0, k.1)) == runs_in(a.journal, k.0, k.1));
    }
    assert forall|k: (Seq<char>, Seq<char>)| #[trigger]
        lookup(r.transitions, k) == lookup(a.transitions, k) by {
        assert(lookup(r.transitions, (k.0, k.1)) == some_count(follows(r.journal, k.0, k.1)));
        assert(lookup(a.transitions, (k.0, k.1)) == some_count(follows(a.journal, k.0, k.1)));
    }
    lemma_same_lookups(r.commands, a.commands);
    lemma_same_lookups(r.cwd_commands, a.cwd_commands);
    lemma_same_lookups(r.transitions, a.transitions);
}

} // verus!
