//! An automaton: its live cells, its rule, and whether it is running.

use vstd::prelude::*;
use crate::cell::{Cell, interior};
use crate::cell_set::{CellSet, positions, toggled};
use crate::life::{next_generation, step_scanning, step_tallying};
use crate::rules::{Rules, parse_rule, rule_text, single_digits, lemma_parse_rule_text};
use crate::rules::INVALID_RULE_FORMAT;

verus! {

/// Whether the automaton advances when a frame is due.
#[derive(Clone, Copy, Debug, PartialEq, Eq, Structural)]
pub enum RunState {
    Running,
    Paused,
}

impl RunState {
    /// The other state.
    pub fn toggled(self) -> (other: RunState)
        ensures
            other == match self {
                RunState::Running => RunState::Paused,
                RunState::Paused => RunState::Running,
            },
    {
        match self {
            RunState::Running => RunState::Paused,
            RunState::Paused => RunState::Running,
        }
    }
}

/// A key as far as the automaton tells keys apart.
#[derive(Clone, Copy, Debug, PartialEq, Eq, Structural)]
pub enum Key {
    Space,
    S,
    L,
    Other,
}

/// What the caller is to do after a key was handled.
#[derive(Clone, Copy, Debug, PartialEq, Eq, Structural)]
pub enum Action {
    /// Nothing.
    Nothing,
    /// Write the state out.
    Save,
    /// Read a state in.
    Load,
}

/// The live cells and the rule of an automaton, as they are written out and
/// read back.
#[derive(Debug)]
pub struct SaveState {
    pub alive_cells: Vec<Cell>,
    pub rules: String,
}

/// What a saved state restores to: the live cells and the birth and survival
/// counts, or `None` where its rule text is not a rule.
pub open spec fn restored(cells: Seq<Cell>, rule: Seq<char>) -> Option<
    (Set<(int, int)>, Seq<nat>, Seq<nat>),
> {
    match parse_rule(rule) {
        Some((birth, survival)) => Some((positions(cells), birth, survival)),
        None => None,
    }
}

/// A state that was saved restores to the live cells and the counts it was
/// saved from: the cells listed, and the rule text read back.
pub proof fn lemma_save_load_round_trip(cells: Seq<Cell>, birth: Seq<nat>, survival: Seq<nat>)
    requires
        single_digits(birth),
        single_digits(survival),
    ensures
        restored(cells, rule_text(birth, survival)) == Some((positions(cells), birth, survival)),
{
    lemma_parse_rule_text(birth, survival);
}

/// A birth/survival automaton on the unbounded lattice.
pub struct Automaton {
    alive_cells: CellSet,
    rules: Rules,
    run_state: RunState,
}

impl Automaton {
    /// The live cells.
    pub closed spec fn alive(&self) -> Set<(int, int)> {
        self.alive_cells@
    }

    /// The rule.
    pub closed spec fn rules(&self) -> Rules {
        self.rules
    }

    /// Whether the automaton is running or paused.
    pub closed spec fn run_state(&self) -> RunState {
        self.run_state
    }

    /// Every live cell has all its neighbours in reach of a [`Cell`], so
    /// that the next generation can be held.
    pub open spec fn steppable(&self) -> bool {
        forall|p: (int, int)| self.alive().contains(p) ==> interior(p)
    }

    /// A running automaton with the cells of `initial_state` alive.
    pub fn new(initial_state: Vec<Cell>, rules: Rules) -> (automaton: Automaton)
        ensures
            automaton.alive() == positions(initial_state@),
            automaton.rules() == rules,
            automaton.run_state() == RunState::Running,
    {
        Automaton {
            alive_cells: CellSet::from_cells(&initial_state),
            rules,
            run_state: RunState::Running,
        }
    }

    /// Whether the automaton is running.
    pub fn is_running(&self) -> (running: bool)
        ensures
            running == (self.run_state() == RunState::Running),
    {
        match self.run_state {
            RunState::Running => true,
            RunState::Paused => false,
        }
    }

    /// Pauses a running automaton and resumes a paused one.
    pub fn toggle_running(&mut self)
        ensures
            final(self).run_state() == match old(self).run_state() {
                RunState::Running => RunState::Paused,
                RunState::Paused => RunState::Running,
            },
            final(self).alive() == old(self).alive(),
            final(self).rules() == old(self).rules(),
    {
        self.run_state = self.run_state.toggled();
    }

    /// Whether [`Automaton::step`] can be called.
    pub fn can_step(&self) -> (ok: bool)
        ensures
            ok == self.steppable(),
    {
        self.alive_cells.can_step()
    }

    /// Replaces the live cells by the next generation, found by tallying.
    pub fn step(&mut self)
        requires
            old(self).steppable(),
        ensures
            final(self).alive() == next_generation(old(self).alive(), old(self).rules()@),
            final(self).rules() == old(self).rules(),
            final(self).run_state() == old(self).run_state(),
    {
        self.alive_cells = step_tallying(&self.alive_cells, &self.rules);
    }

    /// Replaces the live cells by the next generation, found by scanning.
    pub fn step_scanning(&mut self)
        requires
            old(self).steppable(),
        ensures
            final(self).alive() == next_generation(old(self).alive(), old(self).rules()@),
            final(self).rules() == old(self).rules(),
            final(self).run_state() == old(self).run_state(),
    {
        self.alive_cells = step_scanning(&self.alive_cells, &self.rules);
    }

    /// What a frame does: a running automaton steps once, a paused one
    /// stays as it is.
    pub fn update(&mut self)
        requires
            old(self).run_state() == RunState::Running ==> old(self).steppable(),
        ensures
            final(self).alive() == match old(self).run_state() {
                RunState::Running => next_generation(old(self).alive(), old(self).rules()@),
                RunState::Paused => old(self).alive(),
            },
            final(self).rules() == old(self).rules(),
            final(self).run_state() == old(self).run_state(),
    {
        if self.is_running() {
            self.step();
        }
    }

    /// Flips the cell in column `x` of row `y`: a live cell dies, a dead one
    /// comes alive.
    pub fn toggle_cell(&mut self, x: i32, y: i32)
        ensures
            final(self).alive() == toggled(old(self).alive(), (x as int, y as int)),
            final(self).rules() == old(self).rules(),
            final(self).run_state() == old(self).run_state(),
    {
        self.alive_cells.toggle(Cell(x, y));
    }

    /// Whether `cell` is alive.
    pub fn is_alive(&self, cell: Cell) -> (alive: bool)
        ensures
            alive == self.alive().contains(cell@),
    {
        self.alive_cells.contains(cell)
    }

    /// The live cells, each once, in no particular order: the unit squares
    /// to draw.
    pub fn cells(&self) -> (cells: Vec<Cell>)
        ensures
            cells@.no_duplicates(),
            positions(cells@) == self.alive(),
    {
        self.alive_cells.cells()
    }

    /// Replaces the live cells by those that `cells` lists.
    pub fn set_cells(&mut self, cells: &Vec<Cell>)
        ensures
            final(self).alive() == positions(cells@),
            final(self).rules() == old(self).rules(),
            final(self).run_state() == old(self).run_state(),
    {
        self.alive_cells = CellSet::from_cells(cells);
    }

    /// The live cells and the rule, to be written out. Restored, the state
    /// gives the same live cells and the same counts.
    pub fn save_state(&self) -> (state: SaveState)
        ensures
            state.alive_cells@.no_duplicates(),
            positions(state.alive_cells@) == self.alive(),
            state.rules@ == rule_text(
                self.rules().birth_counts(),
                self.rules().survival_counts(),
            ),
            restored(state.alive_cells@, state.rules@) == Some(
                (self.alive(), self.rules().birth_counts(), self.rules().survival_counts()),
            ),
    {
        SaveState { alive_cells: self.alive_cells.cells(), rules: self.rules.notation() }
    }

    /// Replaces the live cells and the rule by those of `state`. Where the
    /// rule text of `state` is not a rule, the automaton stays as it is and
    /// the error is [`INVALID_RULE_FORMAT`].
    pub fn load_state(&mut self, state: &SaveState) -> (r: Result<(), String>)
        ensures
            match restored(state.alive_cells@, state.rules@) {
                Some((alive, birth, survival)) => {
                    &&& r is Ok
                    &&& final(self).alive() == alive
                    &&& final(self).rules().birth_counts() == birth
                    &&& final(self).rules().survival_counts() == survival
                },
                None => {
                    &&& r matches Err(msg)
                    &&& msg@ == INVALID_RULE_FORMAT@
                    &&& *final(self) == *old(self)
                },
            },
            final(self).run_state() == old(self).run_state(),
    {
        match Rules::from_string(state.rules.as_str()) {
            Ok(rules) => {
                self.alive_cells = CellSet::from_cells(&state.alive_cells);
                self.rules = rules;
                Ok(())
            },
            Err(msg) => Err(msg),
        }
    }

    /// What a key does. The space bar pauses or resumes and asks for
    /// nothing; `S` asks for the state to be saved, `L` for one to be
    /// loaded; any other key does nothing. The automaton itself changes on
    /// the space bar only.
    pub fn key_down(&mut self, key: Key) -> (action: Action)
        ensures
            action == match key {
                Key::S => Action::Save,
                Key::L => Action::Load,
                _ => Action::Nothing,
            },
            final(self).run_state() == match (key, old(self).run_state()) {
                (Key::Space, RunState::Running) => RunState::Paused,
                (Key::Space, RunState::Paused) => RunState::Running,
                (_, state) => state,
            },
            final(self).alive() == old(self).alive(),
            final(self).rules() == old(self).rules(),
    {
        match key {
            Key::Space => {
                self.toggle_running();
                Action::Nothing
            },
            Key::S => Action::Save,
            Key::L => Action::Load,
            Key::Other => Action::Nothing,
        }
    }
}

} // verus!
