//! Levels at which a step of the solver may pause for display.

use vstd::prelude::*;

verus! {

/// What a step of the solver is about, from the finest to the coarsest.
#[derive(Debug, Clone, Copy, PartialEq, Eq, Structural)]
pub enum CommandFlag {
    AstarFrontierOrUpdatePosterior,
    AstarInOut,
    UpdatePosteriorResult,
    ProbaModelResult,
    Auto,
}

/// What a step does about the display.
#[derive(Debug, Clone, Copy, PartialEq, Eq, Structural)]
pub enum DisplayAction {
    /// Nothing is shown.
    Skip,
    /// The state is shown as soon as the shell takes it, and the step
    /// waits for the shell to let it go on.
    RenderAndBlock,
    /// The state is shown and the step goes on.
    Render,
}

/// What a step with flag `flag` does about the display: nothing once a
/// stop is requested; where the shell asks for pauses at the level of
/// the flag or finer, it shows the state and waits; else it shows the
/// state if the shell is ready to take it.
pub open spec fn display_action(
    flag: CommandFlag,
    target_level: u8,
    stop_requested: bool,
    can_submit: bool,
) -> DisplayAction {
    if stop_requested {
        DisplayAction::Skip
    } else if target_level <= flag.level() {
        DisplayAction::RenderAndBlock
    } else if can_submit {
        DisplayAction::Render
    } else {
        DisplayAction::Skip
    }
}

impl CommandFlag {
    /// What a step with this flag does about the display.
    pub fn display_when_necessary(
        &self,
        target_level: u8,
        stop_requested: bool,
        can_submit: bool,
    ) -> (r: DisplayAction)
        ensures
            r == display_action(*self, target_level, stop_requested, can_submit),
    {
        if stop_requested {
            DisplayAction::Skip
        } else if target_level <= self.get_level() {
            DisplayAction::RenderAndBlock
        } else if can_submit {
            DisplayAction::Render
        } else {
            DisplayAction::Skip
        }
    }

    /// Position of the flag in the order from finest to coarsest.
    pub open spec fn level(self) -> int {
        match self {
            CommandFlag::AstarFrontierOrUpdatePosterior => 0,
            CommandFlag::AstarInOut => 1,
            CommandFlag::UpdatePosteriorResult => 2,
            CommandFlag::ProbaModelResult => 3,
            CommandFlag::Auto => 4,
        }
    }

    pub fn get_level(&self) -> (r: u8)
        ensures
            r == self.level(),
    {
        match self {
            CommandFlag::AstarFrontierOrUpdatePosterior => 0,
            CommandFlag::AstarInOut => 1,
            CommandFlag::UpdatePosteriorResult => 2,
            CommandFlag::ProbaModelResult => 3,
            CommandFlag::Auto => 4,
        }
    }

    /// Whether a step with this flag has to wait for the shell when the
    /// shell asks for pauses at `target_level` and finer.
    pub fn must_block(&self, target_level: u8) -> (r: bool)
        ensures
            r == (target_level <= self.level()),
    {
        target_level <= self.get_level()
    }
}

} // verus!
