//! What the user asks for.

use vstd::prelude::*;

verus! {

/// Options for the sync command.
#[derive(Clone, Copy, Debug, PartialEq, Eq, Structural)]
pub struct SyncOptions {
    /// Fetch from the remote first.
    pub fetch: bool,
    /// Sync all stacks, not only the one of the current branch.
    pub all: bool,
    /// Push the branches afterwards.
    pub push: bool,
    /// Remove integrated worktrees afterwards.
    pub prune: bool,
    /// Remove them even if they are dirty.
    pub force: bool,
    /// Show the git commands for rebases.
    pub verbose: bool,
    /// Show the plan and change no branch, worktree or file. If a fetch is asked for, it is done
    /// first all the same.
    pub dry_run: bool,
}

/// The flags of the command line.
#[derive(Clone, Copy, Debug, PartialEq, Eq, Structural)]
pub struct Flags {
    pub stack: bool,
    pub all: bool,
    pub fetch: bool,
    pub no_fetch: bool,
    pub push: bool,
    pub no_push: bool,
    pub prune: bool,
    pub no_prune: bool,
    pub force: bool,
    pub verbose: bool,
    pub dry_run: bool,
}

/// What a flag and its negation ask for.
pub open spec fn choice_of(positive: bool, negative: bool) -> Option<bool> {
    if positive {
        Some(true)
    } else if negative {
        Some(false)
    } else {
        None
    }
}

/// What flags ask for.
pub open spec fn options_of(flags: Flags) -> SyncOptions {
    SyncOptions {
        fetch: choice_of(flags.fetch, flags.no_fetch) == Some(true),
        all: flags.all && !flags.stack,
        push: choice_of(flags.push, flags.no_push) == Some(true),
        prune: choice_of(flags.prune, flags.no_prune) == Some(true),
        force: flags.force,
        verbose: flags.verbose,
        dry_run: flags.dry_run,
    }
}

/// A flag counts whether or not its negation is given too; the negation counts alone; without
/// either nothing is asked for.
pub proof fn law_choice(negative: bool)
    ensures
        choice_of(true, negative) == Some(true),
        choice_of(false, true) == Some(false),
        choice_of(false, false) is None,
{
}

/// Nothing is fetched, pushed or removed, shown or held back, and no force is used, unless the flag
/// for it is given; then it is, whatever the other flags say. Without `--all` only the current
/// stack is synced, and `--stack` has the last word.
pub proof fn law_options(flags: Flags)
    ensures
        options_of(flags).fetch <==> flags.fetch,
        options_of(flags).push <==> flags.push,
        options_of(flags).prune <==> flags.prune,
        options_of(flags).force <==> flags.force,
        options_of(flags).verbose <==> flags.verbose,
        options_of(flags).dry_run <==> flags.dry_run,
        !flags.all ==> !options_of(flags).all,
        flags.stack ==> !options_of(flags).all,
        flags.all && !flags.stack ==> options_of(flags).all,
{
}

/// What a flag and its negation ask for; the flag counts if both are given.
pub fn flag_pair(positive: bool, negative: bool) -> (choice: Option<bool>)
    ensures
        choice == choice_of(positive, negative),
        choice == (if positive {
            Some(true)
        } else if negative {
            Some(false)
        } else {
            None
        }),
{
    match (positive, negative) {
        (true, _) => Some(true),
        (_, true) => Some(false),
        _ => None,
    }
}

impl SyncOptions {
    /// What `flags` ask for. Nothing is fetched, pushed or removed unless a flag says so, and
    /// only the current stack is synced unless all are asked for.
    pub fn from_flags(flags: Flags) -> (opts: SyncOptions)
        ensures
            opts == options_of(flags),
            opts == (SyncOptions {
                fetch: flags.fetch,
                all: flags.all && !flags.stack,
                push: flags.push,
                prune: flags.prune,
                force: flags.force,
                verbose: flags.verbose,
                dry_run: flags.dry_run,
            }),
    {
        let all = if flags.stack {
            false
        } else {
            flags.all
        };
        SyncOptions {
            fetch: flag_pair(flags.fetch, flags.no_fetch).unwrap_or(false),
            all,
            push: flag_pair(flags.push, flags.no_push).unwrap_or(false),
            prune: flag_pair(flags.prune, flags.no_prune).unwrap_or(false),
            force: flags.force,
            verbose: flags.verbose,
            dry_run: flags.dry_run,
        }
    }
}

} // verus!
