//! The commands that go back and forth with the outside: running a child with secrets, and a sync.
//!
//! Nothing here waits for anything. Each function takes what came of the last thing that was asked
//! for, and says what to do next.

use crate::commands::{
    check_sync, exit_code, may_have_pulled, split_command, split_env, sync_line,
};
use crate::disk::path_join;
use crate::number::decimal;
use crate::outside::maybe;
use crate::problem::Problem;
use crate::store::Store;
use crate::sync::{
    chosen_remote, classify, default_remote, kind_of, rclone_args, rclone_words, sync_via_rclone,
    Kind, Report,
};
use crate::text::{seen, split_once, texts, trim};
use vstd::prelude::*;
use vstd::string::*;

verus! {

// ---------------------------------------------------------------------------------------------
// Running a child

/// How a child is run: the program, its arguments, and the variables it gets.
pub struct Child {
    pub program: String,
    pub args: Vec<String>,
    pub vars: Vec<(String, String)>,
}

/// What a child is run with.
pub struct ChildV {
    pub program: Seq<char>,
    pub args: Seq<Seq<char>>,
    pub vars: Seq<(Seq<char>, Seq<char>)>,
}

impl View for Child {
    type V = ChildV;

    open spec fn view(&self) -> ChildV {
        ChildV {
            program: self.program@,
            args: texts(self.args@),
            vars: self.vars@.map_values(|p: (String, String)| (p.0@, p.1@)),
        }
    }
}

/// How far running a child has got.
pub enum Exec {
    /// Nothing was done yet
    Start,
    /// The secret for the next variable is being read
    Reading(Child),
    /// The secret for its standard input is being read
    Piping(Child),
    /// It runs
    Running,
    /// It ended, or never began
    Done,
}

/// What came of it.
pub enum ExecEvent {
    /// It begins
    Begin,
    /// The value of the secret that was asked for
    Value(String),
    /// The child ended, with a code unless it was killed
    Ended(Option<i32>),
    /// What was to be done failed
    Failed(Problem),
}

/// What to do next.
pub enum ExecAction {
    /// Read this secret, for an agent
    Read(String),
    /// Run the child, with this on its standard input or else with that of this program
    Run { child: Child, stdin: Option<String> },
    /// End like this
    Exit(i32),
    /// Stop
    Fail(Problem),
}

/// The event is what the flow waits for.
pub open spec fn exec_fits(envs: Seq<Seq<char>>, flow: Exec, event: ExecEvent) -> bool {
    match event {
        ExecEvent::Begin => flow is Start,
        ExecEvent::Value(_) => (flow matches Exec::Reading(child) && child@.vars.len() < envs.len()
            && split_once(envs[child@.vars.len() as int], '=') is Some) || flow is Piping,
        ExecEvent::Ended(_) => flow is Running,
        ExecEvent::Failed(_) => !(flow is Done),
    }
}

/// What is read next for a child: the secret of the first variable that has none yet, then the one
/// for its standard input. When there is none left, it is run.
pub open spec fn reads_next(
    envs: Seq<Seq<char>>,
    stdin: Option<Seq<char>>,
    child: ChildV,
    next: Exec,
    action: ExecAction,
) -> bool {
    let i = child.vars.len() as int;
    if i < envs.len() {
        match split_once(envs[i], '=') {
            Some((_, name)) => {
                &&& next matches Exec::Reading(c)
                &&& c@ == child
                &&& action matches ExecAction::Read(n)
                &&& n@ == name
            },
            None => {
                &&& next is Done
                &&& action matches ExecAction::Fail(Problem::NotAPair(pair))
                &&& pair@ == envs[i]
            },
        }
    } else {
        match stdin {
            Some(name) => {
                &&& next matches Exec::Piping(c)
                &&& c@ == child
                &&& action matches ExecAction::Read(n)
                &&& n@ == name
            },
            None => {
                &&& next is Running
                &&& action matches ExecAction::Run { child: c, stdin: piped }
                &&& c@ == child
                &&& piped is None
            },
        }
    }
}

/// What comes next.
pub open spec fn executes(
    envs: Seq<Seq<char>>,
    stdin: Option<Seq<char>>,
    command: Seq<Seq<char>>,
    flow: Exec,
    event: ExecEvent,
    next: Exec,
    action: ExecAction,
) -> bool {
    match event {
        ExecEvent::Failed(e) => next is Done && action == ExecAction::Fail(e),
        ExecEvent::Begin => if command.len() == 0 {
            next is Done && action == ExecAction::Fail(Problem::NoCommand)
        } else {
            reads_next(
                envs,
                stdin,
                ChildV { program: command[0], args: command.drop_first(), vars: Seq::empty() },
                next,
                action,
            )
        },
        ExecEvent::Value(value) => match flow {
            Exec::Reading(child) => reads_next(
                envs,
                stdin,
                with_var(envs, child@, value@),
                next,
                action,
            ),
            Exec::Piping(child) => {
                &&& next is Running
                &&& action matches ExecAction::Run { child: c, stdin: piped }
                &&& c@ == child@
                &&& piped == Some(value)
            },
            _ => true,
        },
        ExecEvent::Ended(code) => next is Done && action == ExecAction::Exit(
            match code {
                Some(c) => c,
                None => 1,
            },
        ),
    }
}

/// A child with the next variable.
pub open spec fn with_var(envs: Seq<Seq<char>>, child: ChildV, value: Seq<char>) -> ChildV {
    let pair = split_once(envs[child.vars.len() as int], '=')->0;
    ChildV { vars: child.vars.push((pair.0, value)), ..child }
}

fn read_next(envs: &Vec<String>, stdin: Option<&str>, child: Child) -> (r: (Exec, ExecAction))
    ensures
        reads_next(texts(envs@), seen(stdin), child@, r.0, r.1),
{
    let i = child.vars.len();
    if i < envs.len() {
        assert(texts(envs@)[i as int] == envs@[i as int]@);
        match split_env(envs[i].as_str()) {
            Ok((_, name)) => (Exec::Reading(child), ExecAction::Read(name)),
            Err(e) => (Exec::Done, ExecAction::Fail(e)),
        }
    } else {
        match stdin {
            Some(name) => (Exec::Piping(child), ExecAction::Read(name.to_string())),
            None => (Exec::Running, ExecAction::Run { child, stdin: None }),
        }
    }
}

/// Take the next step of running a child with secrets in it, so the values never reach the caller.
pub fn exec(
    envs: &Vec<String>,
    stdin: Option<&str>,
    command: &Vec<String>,
    flow: Exec,
    event: ExecEvent,
) -> (r: (Exec, ExecAction))
    requires
        exec_fits(texts(envs@), flow, event),
    ensures
        executes(texts(envs@), seen(stdin), texts(command@), flow, event, r.0, r.1),
{
    match event {
        ExecEvent::Failed(e) => (Exec::Done, ExecAction::Fail(e)),
        ExecEvent::Begin => match split_command(command) {
            Ok((program, args)) => {
                let child = Child { program, args, vars: Vec::new() };
                assert(child@.vars =~= Seq::<(Seq<char>, Seq<char>)>::empty());
                read_next(envs, stdin, child)
            },
            Err(e) => (Exec::Done, ExecAction::Fail(e)),
        },
        ExecEvent::Value(value) => match flow {
            Exec::Reading(child) => {
                let ghost before = child@;
                let i = child.vars.len();
                assert(texts(envs@)[i as int] == envs@[i as int]@);
                match split_env(envs[i].as_str()) {
                    Ok((var, _)) => {
                        let mut child = child;
                        let ghost pair = (var@, value@);
                        child.vars.push((var, value));
                        assert(child@.vars =~= before.vars.push(pair));
                        read_next(envs, stdin, child)
                    },
                    Err(e) => (Exec::Done, ExecAction::Fail(e)),
                }
            },
            Exec::Piping(child) => (Exec::Running, ExecAction::Run { child, stdin: Some(value) }),
            _ => (Exec::Done, ExecAction::Exit(1)),
        },
        ExecEvent::Ended(code) => (Exec::Done, ExecAction::Exit(exit_code(code))),
    }
}

/// The variables of a child are those that were named, in order.
pub open spec fn vars_named(envs: Seq<Seq<char>>, vars: Seq<(Seq<char>, Seq<char>)>) -> bool {
    vars.len() <= envs.len() && forall|i: int|
        #![trigger vars[i]]
        #![trigger envs[i]]
        0 <= i < vars.len() ==> split_once(envs[i], '=') is Some && vars[i].0 == (split_once(
            envs[i],
            '=',
        )->0).0
}

/// A child gets a variable for each that was named, holding the value of the secret that was read
/// for it, and nothing else: whatever step is taken, its variables are the first of those that were
/// named, and it runs with all of them.
pub proof fn a_child_gets_what_was_named(
    envs: Seq<Seq<char>>,
    stdin: Option<Seq<char>>,
    command: Seq<Seq<char>>,
    flow: Exec,
    event: ExecEvent,
    next: Exec,
    action: ExecAction,
)
    requires
        exec_fits(envs, flow, event),
        executes(envs, stdin, command, flow, event, next, action),
        flow matches Exec::Reading(child) ==> vars_named(envs, child@.vars),
        flow matches Exec::Piping(child) ==> vars_named(envs, child@.vars) && child@.vars.len()
            == envs.len(),
    ensures
        next matches Exec::Reading(child) ==> vars_named(envs, child@.vars),
        next matches Exec::Piping(child) ==> vars_named(envs, child@.vars) && child@.vars.len()
            == envs.len(),
        action matches ExecAction::Run { child, stdin: _ } ==> vars_named(envs, child@.vars)
            && child@.vars.len() == envs.len(),
{
    if let ExecEvent::Value(value) = event {
        if let Exec::Reading(child) = flow {
            let grown = with_var(envs, child@, value@);
            assert(child@.vars.len() < envs.len());
            assert(grown.vars.len() == child@.vars.len() + 1);
            assert forall|i: int|
                #![trigger grown.vars[i]]
                #![trigger envs[i]]
                0 <= i < grown.vars.len() implies split_once(envs[i], '=') is Some
                && grown.vars[i].0 == (split_once(envs[i], '=')->0).0 by {
                if i < child@.vars.len() {
                    assert(grown.vars[i] == child@.vars[i]);
                }
            }
            assert(vars_named(envs, grown.vars));
        }
    }
}

// ---------------------------------------------------------------------------------------------
// A sync

/// How far a sync has got.
pub enum Syncing {
    /// Nothing was done yet
    Start,
    /// Sync is being turned on
    Enabling,
    /// The store is being copied to and from this directory
    Copying(String),
    /// rclone runs
    Running,
    /// All but the history is done, or nothing will be
    Done,
}

/// What came of it.
pub enum SyncEvent {
    /// It begins, with or without turning sync on, in a directory that may hold a store, which may
    /// have a wrap that opens it elsewhere
    Begin { enable: bool, initialised: bool, portable: bool },
    /// Sync is on
    Enabled,
    /// The store was copied
    Copied(Report),
    /// rclone could be started, and ended well or not
    Ran(Option<bool>),
    /// What was to be done failed
    Failed(Problem),
}

/// What to do next.
pub enum SyncAction {
    /// Turn sync on
    Enable,
    /// Copy the store to and from this directory
    Copy(String),
    /// Call rclone with these arguments
    Rclone(Vec<String>),
    /// Forget the index where it may be out of step, say this, and push the history
    Finish { clear: bool, line: Option<String> },
    /// Stop
    Fail(Problem),
}

/// The event is what the flow waits for.
pub open spec fn sync_fits(flow: Syncing, event: SyncEvent) -> bool {
    match event {
        SyncEvent::Begin { .. } => flow is Start,
        SyncEvent::Enabled => flow is Enabling,
        SyncEvent::Copied(_) => flow is Copying,
        SyncEvent::Ran(_) => flow is Running,
        SyncEvent::Failed(_) => !(flow is Done),
    }
}

/// Where a copy goes: where this run was told, or else what the environment names, then whatever
/// was chosen, then the folder that Apple replicates.
pub open spec fn goes_to(
    given: Option<Seq<char>>,
    set: Option<Seq<char>>,
    raw: Option<Seq<char>>,
    home: Option<Seq<char>>,
) -> Option<Seq<char>> {
    if given is Some {
        given
    } else if set is Some {
        set
    } else if chosen_remote(raw) is Some {
        chosen_remote(raw)
    } else {
        match home {
            Some(h) => Some(
                path_join(h, "Library/Mobile Documents/com~apple~CloudDocs/passbox"@),
            ),
            None => None,
        }
    }
}

/// A copy is made, by what its destination is. git carries its own history, so there is no directory
/// to copy into.
pub open spec fn copies(
    store: Seq<char>,
    remote: Option<Seq<char>>,
    next: Syncing,
    action: SyncAction,
) -> bool {
    match remote {
        None => next is Done && action == SyncAction::Fail(Problem::HomeNotSet),
        Some(to) => match kind_of(to) {
            Kind::Git => next is Done && action == (SyncAction::Finish { clear: false, line: None }),
            Kind::Rclone => {
                &&& next is Running
                &&& action matches SyncAction::Rclone(args)
                &&& texts(args@) == rclone_words(store, to)
            },
            Kind::Directory => {
                &&& next matches Syncing::Copying(at)
                &&& at@ == to
                &&& action matches SyncAction::Copy(dir)
                &&& dir@ == to
            },
        },
    }
}

/// What comes next. Nothing travels before there is a way in elsewhere, unless this is a machine
/// joining: the wrap it needs arrives with the pull.
pub open spec fn syncs(
    store: Seq<char>,
    remote: Option<Seq<char>>,
    flow: Syncing,
    event: SyncEvent,
    next: Syncing,
    action: SyncAction,
) -> bool {
    match event {
        SyncEvent::Failed(e) => next is Done && action == SyncAction::Fail(e),
        SyncEvent::Begin { enable, initialised, portable } => if enable {
            next is Enabling && action is Enable
        } else if initialised && !portable {
            next is Done && action == SyncAction::Fail(Problem::SyncIsOff)
        } else {
            copies(store, remote, next, action)
        },
        SyncEvent::Enabled => copies(store, remote, next, action),
        SyncEvent::Copied(report) => {
            &&& flow matches Syncing::Copying(to)
            &&& next is Done
            &&& action matches SyncAction::Finish { clear, line }
            &&& clear == (report.pulled > 0)
            &&& line matches Some(text)
            &&& text@ == decimal(report.pushed as int) + " sent, "@ + decimal(
                report.pulled as int,
            ) + " received, "@ + to@
        },
        SyncEvent::Ran(ended) => {
            &&& next is Done
            &&& match ended {
                Some(true) => action == (SyncAction::Finish { clear: true, line: None }),
                Some(false) => action == SyncAction::Fail(Problem::RcloneFailed),
                None => action == SyncAction::Fail(Problem::NoRclone),
            }
        },
    }
}

fn start_copy(
    store: &Store,
    given: Option<String>,
    set: Option<String>,
    raw: Option<&str>,
    home: Option<&str>,
) -> (r: (Syncing, SyncAction))
    ensures
        copies(
            store.dir@,
            goes_to(maybe(given), maybe(set), seen(raw), seen(home)),
            r.0,
            r.1,
        ),
{
    let remote = match given {
        Some(remote) => remote,
        None => match default_remote(set, raw, home) {
            Ok(remote) => remote,
            Err(e) => {
                return (Syncing::Done, SyncAction::Fail(e));
            },
        },
    };
    match classify(remote.as_str()) {
        Kind::Git => (Syncing::Done, SyncAction::Finish { clear: false, line: None }),
        Kind::Rclone => {
            let args = rclone_args(store, remote.as_str());
            (Syncing::Running, SyncAction::Rclone(args))
        },
        Kind::Directory => {
            let at = remote.clone();
            (Syncing::Copying(at), SyncAction::Copy(remote))
        },
    }
}

/// Take the next step of a sync. `given` is where this run was told to copy to, `set` what the
/// environment names, `raw` what the file of the chosen destination holds, and `home` the home
/// directory.
pub fn run_sync(
    store: &Store,
    given: Option<String>,
    set: Option<String>,
    raw: Option<&str>,
    home: Option<&str>,
    flow: Syncing,
    event: SyncEvent,
) -> (r: (Syncing, SyncAction))
    requires
        sync_fits(flow, event),
    ensures
        syncs(
            store.dir@,
            goes_to(maybe(given), maybe(set), seen(raw), seen(home)),
            flow,
            event,
            r.0,
            r.1,
        ),
{
    match event {
        SyncEvent::Failed(e) => (Syncing::Done, SyncAction::Fail(e)),
        SyncEvent::Begin { enable, initialised, portable } => {
            if let Err(e) = check_sync(enable, initialised, portable) {
                return (Syncing::Done, SyncAction::Fail(e));
            }
            if enable {
                return (Syncing::Enabling, SyncAction::Enable);
            }
            start_copy(store, given, set, raw, home)
        },
        SyncEvent::Enabled => start_copy(store, given, set, raw, home),
        SyncEvent::Copied(report) => match flow {
            Syncing::Copying(to) => {
                let clear = may_have_pulled(Kind::Directory, report.pulled);
                let line = sync_line(report, to.as_str());
                (Syncing::Done, SyncAction::Finish { clear, line: Some(line) })
            },
            _ => (Syncing::Done, SyncAction::Enable),
        },
        SyncEvent::Ran(ended) => match sync_via_rclone(ended) {
            Ok(_) => {
                let clear = may_have_pulled(Kind::Rclone, 0);
                (Syncing::Done, SyncAction::Finish { clear, line: None })
            },
            Err(e) => (Syncing::Done, SyncAction::Fail(e)),
        },
    }
}

/// Nothing leaves the machine unless a wrap opens the store elsewhere, sync was just turned on, or
/// there is no store here yet.
pub proof fn sync_is_off_until_it_is_enabled(
    store: Seq<char>,
    remote: Option<Seq<char>>,
    flow: Syncing,
    event: SyncEvent,
    next: Syncing,
    action: SyncAction,
)
    requires
        sync_fits(flow, event),
        syncs(store, remote, flow, event, next, action),
        action is Copy || action is Rclone,
    ensures
        event is Enabled || (event matches SyncEvent::Begin { enable: _, initialised, portable }
            && (portable || !initialised)),
{
}

/// A sync that pulled anything, or may have, forgets the index, and one that did not leaves it.
pub proof fn a_pull_invalidates_the_index(
    store: Seq<char>,
    remote: Option<Seq<char>>,
    flow: Syncing,
    event: SyncEvent,
    next: Syncing,
    action: SyncAction,
)
    requires
        sync_fits(flow, event),
        syncs(store, remote, flow, event, next, action),
        action is Finish,
    ensures
        event matches SyncEvent::Copied(report) ==> action->clear == (report.pulled > 0),
        event is Ran ==> action->clear,
{
}

// ---------------------------------------------------------------------------------------------
// A whole run

/// One step of running a command.
pub struct ExecTurn {
    /// How far it had got
    pub flow: Exec,
    /// What came of the last thing that was to be done
    pub event: ExecEvent,
    /// How far it has got
    pub next: Exec,
    /// What is to be done
    pub action: ExecAction,
}

/// A command from its start on: each step goes on where the last one stopped, and every secret that
/// was to be read was.
pub open spec fn exec_course(
    envs: Seq<Seq<char>>,
    stdin: Option<Seq<char>>,
    command: Seq<Seq<char>>,
    turns: Seq<ExecTurn>,
) -> bool {
    &&& turns.len() > 0
    &&& turns[0].flow is Start
    &&& turns[0].event is Begin
    &&& forall|i: int|
        0 <= i < turns.len() ==> exec_fits(envs, (#[trigger] turns[i]).flow, turns[i].event)
            && executes(envs, stdin, command, turns[i].flow, turns[i].event, turns[i].next, turns[i].action)
    &&& forall|i: int| 0 < i < turns.len() ==> (#[trigger] turns[i]).event is Value
    &&& forall|i: int, j: int|
        0 <= i < turns.len() && j == i + 1 && j < turns.len() ==> (#[trigger] turns[i]).next == (
        #[trigger] turns[j]).flow
}

/// The pair is this variable and this secret, split at its first equals sign.
pub open spec fn pairs(pair: Seq<char>, var: Seq<char>, secret: Seq<char>) -> bool {
    pair == var + seq!['='] + secret && !var.contains('=')
}

/// The child so far: the command as it was given, and for each of the first so many pairs the variable
/// it names with the value that was read for it.
spec fn so_far(
    envs: Seq<Seq<char>>,
    command: Seq<Seq<char>>,
    turns: Seq<ExecTurn>,
    child: ChildV,
    n: int,
) -> bool {
    &&& command.len() > 0
    &&& child.program == command[0]
    &&& child.args == command.drop_first()
    &&& child.vars.len() == n
    &&& forall|j: int| 0 <= j < n ==> #[trigger] holds_read(envs, turns, child.vars, j)
}

/// The variable is the one that the pair names, with the value that was read for it.
spec fn holds_read(
    envs: Seq<Seq<char>>,
    turns: Seq<ExecTurn>,
    vars: Seq<(Seq<char>, Seq<char>)>,
    j: int,
) -> bool {
    &&& split_once(envs[j], '=') is Some
    &&& vars[j].0 == (split_once(envs[j], '=')->0).0
    &&& turns[j + 1].event matches ExecEvent::Value(v) && vars[j].1 == v@
}

proof fn lemma_so_far(
    envs: Seq<Seq<char>>,
    stdin: Option<Seq<char>>,
    command: Seq<Seq<char>>,
    turns: Seq<ExecTurn>,
    i: int,
)
    requires
        exec_course(envs, stdin, command, turns),
        0 <= i < turns.len(),
        turns[i].action is Read || turns[i].action is Run,
    ensures
        i <= envs.len() + 1,
        i == envs.len() + 1 ==> stdin is Some,
        i < envs.len() ==> (turns[i].next matches Exec::Reading(child) && so_far(
            envs,
            command,
            turns,
            child@,
            i,
        ) && split_once(envs[i], '=') is Some && (turns[i].action matches ExecAction::Read(n) && n@
            == (split_once(envs[i], '=')->0).1)),
        i == envs.len() && stdin is Some ==> (turns[i].next matches Exec::Piping(child) && so_far(
            envs,
            command,
            turns,
            child@,
            i,
        ) && (turns[i].action matches ExecAction::Read(n) && n@ == stdin->0)),
        i == envs.len() && stdin is None ==> turns[i].next is Running && (
        turns[i].action matches ExecAction::Run { child, stdin: piped } && so_far(
            envs,
            command,
            turns,
            child@,
            i,
        ) && piped is None),
        i == envs.len() + 1 ==> turns[i].next is Running && (turns[i].action matches ExecAction::Run {
            child,
            stdin: piped,
        } && so_far(envs, command, turns, child@, i - 1) && (
        turns[i].event matches ExecEvent::Value(v) && piped == Some(v))),
    decreases i,
{
    let t = turns[i];
    assert(executes(envs, stdin, command, t.flow, t.event, t.next, t.action));
    if i > 0 {
        let b = turns[i - 1];
        assert(exec_fits(envs, t.flow, t.event));
        assert(executes(envs, stdin, command, b.flow, b.event, b.next, b.action));
        assert(b.next == t.flow);
        assert(t.event is Value);
        lemma_so_far(envs, stdin, command, turns, i - 1);
        if let Exec::Reading(child) = t.flow {
            if let ExecEvent::Value(v) = t.event {
                let grown = with_var(envs, child@, v@);
                assert forall|j: int| 0 <= j < i implies #[trigger] holds_read(
                    envs,
                    turns,
                    grown.vars,
                    j,
                ) by {
                    if j < i - 1 {
                        assert(holds_read(envs, turns, child@.vars, j));
                        assert(grown.vars[j] == child@.vars[j]);
                    }
                }
                assert(so_far(envs, command, turns, grown, i));
            }
        }
    } else {
        if command.len() > 0 {
            let child = ChildV {
                program: command[0],
                args: command.drop_first(),
                vars: Seq::empty(),
            };
            assert(so_far(envs, command, turns, child, 0));
        }
    }
}

/// A command runs as it was given, with what was read for it and nothing else. Every pair asks for the
/// secret it names, in turn, then the one for the standard input is asked for where there is one, and
/// what the child gets is each value in the variable that was named for it, and on its standard input
/// the value that was read for that.
pub proof fn a_child_runs_with_what_was_read(
    envs: Seq<Seq<char>>,
    stdin: Option<Seq<char>>,
    command: Seq<Seq<char>>,
    turns: Seq<ExecTurn>,
    child: Child,
    piped: Option<String>,
    j: int,
    var: Seq<char>,
    secret: Seq<char>,
)
    requires
        exec_course(envs, stdin, command, turns),
        turns.last().action == (ExecAction::Run { child, stdin: piped }),
        0 <= j < envs.len(),
        pairs(envs[j], var, secret),
    ensures
        command.len() > 0 && child.program@ == command[0] && texts(child.args@) == command.drop_first(),
        turns.len() == envs.len() + 1 + if stdin is Some {
            1int
        } else {
            0
        },
        child.vars@.len() == envs.len(),
        turns[j].action matches ExecAction::Read(n) && n@ == secret,
        child.vars@[j].0@ == var,
        turns[j + 1].event matches ExecEvent::Value(v) && child.vars@[j].1@ == v@,
        stdin is None ==> piped is None,
        stdin is Some ==> (turns[envs.len() as int].action matches ExecAction::Read(n) && n@
            == stdin->0) && (turns.last().event matches ExecEvent::Value(v) && piped == Some(v)),
{
    let last = turns.len() - 1;
    lemma_so_far(envs, stdin, command, turns, last);
    lemma_reads_before(envs, stdin, command, turns, j);
    if last > envs.len() {
        lemma_reads_before(envs, stdin, command, turns, envs.len() as int);
    }
    crate::text::a_split_is_at_the_first_place(envs[j], '=', var, secret);
    assert(holds_read(envs, turns, child@.vars, j));
    assert(child@.vars[j] == (child.vars@[j].0@, child.vars@[j].1@));
}

/// Whatever comes before the last step of a run that went well reads a secret.
proof fn lemma_reads_before(
    envs: Seq<Seq<char>>,
    stdin: Option<Seq<char>>,
    command: Seq<Seq<char>>,
    turns: Seq<ExecTurn>,
    i: int,
)
    requires
        exec_course(envs, stdin, command, turns),
        0 <= i < turns.len() - 1,
    ensures
        turns[i].action is Read,
        i < envs.len() && split_once(envs[i], '=') is Some ==> (
        turns[i].action matches ExecAction::Read(n) && n@ == (split_once(envs[i], '=')->0).1),
        i == envs.len() && stdin is Some ==> (turns[i].action matches ExecAction::Read(n) && n@
            == stdin->0),
{
    let t = turns[i];
    let u = turns[i + 1];
    assert(executes(envs, stdin, command, t.flow, t.event, t.next, t.action));
    assert(exec_fits(envs, u.flow, u.event));
    assert(u.event is Value);
    assert(t.next == u.flow);
    assert(t.event is Begin || t.event is Value) by {
        if i > 0 {
            assert(turns[i].event is Value);
        }
    }
    assert(exec_fits(envs, t.flow, t.event));
    lemma_so_far(envs, stdin, command, turns, i);
}

/// A command ends as its child did, and with one where something killed it. A pair without an equals
/// sign, and nothing to run, stop it before anything runs.
pub proof fn a_command_ends_as_its_child(
    envs: Seq<Seq<char>>,
    stdin: Option<Seq<char>>,
    command: Seq<Seq<char>>,
    t: ExecTurn,
)
    requires
        exec_fits(envs, t.flow, t.event),
        executes(envs, stdin, command, t.flow, t.event, t.next, t.action),
    ensures
        t.event matches ExecEvent::Ended(Some(c)) ==> t.action == ExecAction::Exit(c),
        t.event matches ExecEvent::Ended(None) ==> t.action == ExecAction::Exit(1),
        t.event is Begin && command.len() == 0 ==> t.action == ExecAction::Fail(Problem::NoCommand),
        t.event is Begin && command.len() > 0 && envs.len() > 0 && !envs[0].contains('=') ==> (
        t.action matches ExecAction::Fail(Problem::NotAPair(p)) && p@ == envs[0]),
        t.event matches ExecEvent::Failed(e) ==> t.action == ExecAction::Fail(e),
{
    if envs.len() > 0 {
        crate::text::a_split_is_at_the_first_place(envs[0], '=', envs[0], envs[0]);
    }
}

// ---------------------------------------------------------------------------------------------
// Where a copy goes

/// What was typed goes before what is set, what is set before what was chosen, and what was chosen
/// before iCloud Drive. What was chosen counts without the space around it, and not where it is blank.
pub proof fn the_nearest_word_decides_where(
    given: Seq<char>,
    set: Seq<char>,
    raw: Option<Seq<char>>,
    chosen: Seq<char>,
    home: Seq<char>,
    any: Option<Seq<char>>,
    other: Option<Seq<char>>,
)
    requires
        raw is Some ==> trim(raw->0).len() == 0,
        trim(chosen).len() > 0,
    ensures
        goes_to(Some(given), any, other, Some(home)) == Some(given),
        goes_to(None, Some(set), other, any) == Some(set),
        goes_to(None, None, Some(chosen), any) == Some(trim(chosen)),
        goes_to(None, None, raw, Some(home)) == Some(
            path_join(home, "Library/Mobile Documents/com~apple~CloudDocs/passbox"@),
        ),
        goes_to(None, None, raw, None) is None,
{
}

/// A sync that is on copies: to a directory by itself, to an rclone remote through rclone, and for git
/// it is the history that goes.
pub proof fn a_sync_goes_where_it_is_told(
    store: Seq<char>,
    to: Seq<char>,
    flow: Syncing,
    event: SyncEvent,
    next: Syncing,
    action: SyncAction,
)
    requires
        sync_fits(flow, event),
        syncs(store, Some(to), flow, event, next, action),
        event is Enabled || (event matches SyncEvent::Begin { enable, initialised, portable }
            && !enable && (portable || !initialised)),
    ensures
        match kind_of(to) {
            Kind::Directory => action matches SyncAction::Copy(dir) && dir@ == to,
            Kind::Rclone => action matches SyncAction::Rclone(args) && args@.len() > 2 && args@[1]@
                == store && args@[2]@ == to,
            Kind::Git => action == (SyncAction::Finish { clear: false, line: None }),
        },
{
    if let SyncAction::Rclone(args) = action {
        let words = rclone_words(store, to);
        assert(words[1] == store && words[2] == to && words.len() == 14);
        assert(texts(args@).len() == args@.len());
        assert(texts(args@) == words);
        assert(args@[1]@ == texts(args@)[1] && args@[2]@ == texts(args@)[2]);
    }
}

/// Turning sync on comes before everything, and a store that nothing else opens is not copied.
pub proof fn a_sync_begins_only_with_a_way_in(
    store: Seq<char>,
    to: Option<Seq<char>>,
    enable: bool,
    initialised: bool,
    portable: bool,
    next: Syncing,
    action: SyncAction,
)
    requires
        syncs(
            store,
            to,
            Syncing::Start,
            SyncEvent::Begin { enable, initialised, portable },
            next,
            action,
        ),
    ensures
        enable ==> action is Enable,
        !enable && initialised && !portable ==> action == SyncAction::Fail(Problem::SyncIsOff),
        !enable && (portable || !initialised) && to is None ==> action == SyncAction::Fail(
            Problem::HomeNotSet,
        ),
{
}

/// What came of a copy is said: how much went, how much came, and where.
pub proof fn a_sync_says_what_moved(
    store: Seq<char>,
    to: Option<Seq<char>>,
    at: String,
    report: Report,
    next: Syncing,
    action: SyncAction,
)
    requires
        syncs(store, to, Syncing::Copying(at), SyncEvent::Copied(report), next, action),
    ensures
        action matches SyncAction::Finish { clear: _, line: Some(text) } && text@ == decimal(
            report.pushed as int,
        ) + " sent, "@ + decimal(report.pulled as int) + " received, "@ + at@,
{
}

} // verus!
