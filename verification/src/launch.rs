//! What to do when the program starts, and when a run has ended.

use vstd::prelude::*;

verus! {

/// A way to go on.
#[derive(Clone, Copy, Debug, PartialEq, Eq)]
pub enum Mode {
    /// Run the command, and tell nobody.
    Alone,
    /// Run the command, and let others watch.
    Serve,
    /// Watch the instance that is running.
    Attach,
    /// Ask the instance that is running to run its command once more.
    AskRestart,
}

/// What to do at the start.
pub open spec fn mode_at_start(multi: bool, restart: bool, running: bool) -> Mode {
    if multi {
        Mode::Alone
    } else if !running {
        Mode::Serve
    } else if restart {
        Mode::AskRestart
    } else {
        Mode::Attach
    }
}

/// What to do at the start: one instance runs a command at a time, unless `multi` allows more;
/// with `restart` it is asked to start over.
pub fn start_mode(multi: bool, restart: bool, running: bool) -> (r: Mode)
    ensures
        r == (if multi {
            Mode::Alone
        } else if !running {
            Mode::Serve
        } else if restart {
            Mode::AskRestart
        } else {
            Mode::Attach
        }),
        r == mode_at_start(multi, restart, running),
{
    if multi {
        Mode::Alone
    } else if !running {
        Mode::Serve
    } else if restart {
        Mode::AskRestart
    } else {
        Mode::Attach
    }
}

/// What to do once the running instance has been asked to start over.
pub open spec fn mode_once_asked(running: bool) -> Mode {
    if running {
        Mode::Attach
    } else {
        Mode::Serve
    }
}

/// What to do once the running instance has been asked to start over: watch it, if it is still
/// there, else take its place.
pub fn mode_after_restart(running: bool) -> (r: Mode)
    ensures
        r == (if running {
            Mode::Attach
        } else {
            Mode::Serve
        }),
        r == mode_once_asked(running),
{
    if running {
        Mode::Attach
    } else {
        Mode::Serve
    }
}

/// What follows a run.
#[derive(Clone, Copy, Debug, PartialEq, Eq)]
pub enum Next {
    /// The same command once more, with the same file for its output.
    Again,
    /// The end, with an exit code.
    Exit(i32),
}

/// What follows a run.
pub open spec fn next_step(restart_asked: bool, exit_code: i32) -> Next {
    if restart_asked {
        Next::Again
    } else {
        Next::Exit(exit_code)
    }
}

/// What follows a run that ended with `exit_code`.
pub fn after_run(restart_asked: bool, exit_code: i32) -> (r: Next)
    ensures
        r == (if restart_asked {
            Next::Again
        } else {
            Next::Exit(exit_code)
        }),
        r == next_step(restart_asked, exit_code),
{
    if restart_asked {
        Next::Again
    } else {
        Next::Exit(exit_code)
    }
}

/// No instance is run beside one that is running, unless that is allowed; then it is always run,
/// and nobody is told.
pub proof fn law_one_instance_at_a_time(multi: bool, restart: bool, running: bool)
    ensures
        mode_at_start(multi, restart, running) == Mode::Alone <==> multi,
        mode_at_start(multi, restart, running) == Mode::Serve ==> !running,
        !multi && !running ==> mode_at_start(multi, restart, running) == Mode::Serve,
{
}

/// An instance that is running is watched, and asked to start over just where that is wanted.
pub proof fn law_running_instance_is_joined(restart: bool)
    ensures
        mode_at_start(false, restart, true) == Mode::AskRestart <==> restart,
        mode_at_start(false, restart, true) == Mode::Attach <==> !restart,
{
}

/// One who asked for a restart ends up with an instance: the one that runs, or a new one.
pub proof fn law_restart_ends_with_an_instance(running: bool)
    ensures
        mode_once_asked(running) == Mode::Attach <==> running,
        mode_once_asked(running) == Mode::Serve <==> !running,
{
}

/// The command is run once more just where that was asked for; else the program ends with the exit
/// code of the command.
pub proof fn law_runs_again_when_asked(restart_asked: bool, exit_code: i32, code: i32)
    ensures
        next_step(restart_asked, exit_code) == Next::Again <==> restart_asked,
        next_step(restart_asked, exit_code) == Next::Exit(code) <==> !restart_asked && code
            == exit_code,
{
}

} // verus!
