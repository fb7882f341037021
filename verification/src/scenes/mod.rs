//! The modes of the program, and how one gives way to another.

pub mod editor;
pub mod menu;
pub mod simulation;

use vstd::prelude::*;
use crate::craft::components::Point;
use crate::craft::{Craft, CraftView};
use crate::scalar::Scalar;
use crate::scenes::editor::{Editor, EditorView};
use crate::scenes::menu::Menu;
use crate::scenes::simulation::{Phase, Simulation, SimulationView, GRAVITY_BITS};

verus! {

/// What a mode asks of the program.
#[derive(Debug)]
pub enum AppMessage {
    /// Nothing: go on.
    Nothing,
    /// End the program.
    Quit,
    /// Show the opening screen.
    OpenMenu,
    /// Edit the craft; an empty one if there is none.
    OpenEditor(Option<Craft>),
    /// Put the craft under the solver.
    OpenSimulation(Craft),
}

impl AppMessage {
    /// The craft that the message carries.
    pub open spec fn craft(self) -> Option<CraftView> {
        match self {
            AppMessage::OpenEditor(Some(craft)) => Some(craft@),
            AppMessage::OpenSimulation(craft) => Some(craft@),
            _ => None,
        }
    }

    /// A craft that is to go under the solver is consistent.
    pub open spec fn wf(self) -> bool {
        self is OpenSimulation ==> self.craft().unwrap().wf()
    }
}

/// The mode the program is in.
#[derive(Debug)]
pub enum Mode {
    Menu(Menu),
    Editor(Editor),
    Simulation(Simulation),
}

/// What a mode holds.
pub enum ModeView {
    Menu,
    Editor(EditorView),
    Simulation(SimulationView),
}

impl View for Mode {
    type V = ModeView;

    open spec fn view(&self) -> ModeView {
        match self {
            Mode::Menu(menu) => ModeView::Menu,
            Mode::Editor(editor) => ModeView::Editor(editor@),
            Mode::Simulation(simulation) => ModeView::Simulation(simulation@),
        }
    }
}

impl Mode {
    /// The mode that the program starts in.
    pub fn new() -> (r: Mode)
        ensures
            r@ is Menu,
    {
        Mode::Menu(Menu::new())
    }

    /// The mode after `message`; none when the program is to end. The
    /// editor opens without picks, and the solver opens between steps,
    /// under a pull of 500 downward.
    pub fn switch(self, message: AppMessage) -> (next: Option<Mode>)
        requires
            message.wf(),
        ensures
            match message {
                AppMessage::Nothing => next is Some && next->0@ == self@,
                AppMessage::Quit => next is None,
                AppMessage::OpenMenu => next is Some && next->0@ is Menu,
                AppMessage::OpenEditor(craft) => {
                    &&& next is Some
                    &&& next->0@ matches ModeView::Editor(editor)
                    &&& editor.selected_points.len() == 0
                    &&& editor.drag_start is None
                    &&& editor.drag_current is None
                    &&& match craft {
                        Some(craft) => editor.craft == craft@,
                        None => editor.craft.nodes.len() == 0 && editor.craft.rods.len() == 0,
                    }
                },
                AppMessage::OpenSimulation(craft) => {
                    &&& next is Some
                    &&& next->0@ matches ModeView::Simulation(simulation)
                    &&& simulation.wf()
                    &&& simulation.craft == craft@
                    &&& simulation.original_craft == craft@
                    &&& simulation.phase == Phase::Idle
                    &&& simulation.gravity == (Point {
                        x: Scalar { bits: 0 },
                        y: Scalar { bits: GRAVITY_BITS },
                    })
                    &&& simulation.dt == (Scalar { bits: 0 })
                    &&& simulation.time == (Scalar { bits: 0 })
                },
            },
    {
        match message {
            AppMessage::Nothing => Some(self),
            AppMessage::Quit => None,
            AppMessage::OpenMenu => Some(Mode::Menu(Menu::new())),
            AppMessage::OpenEditor(Some(craft)) => Some(Mode::Editor(Editor::edit_craft(craft))),
            AppMessage::OpenEditor(None) => Some(Mode::Editor(Editor::new())),
            AppMessage::OpenSimulation(craft) => Some(Mode::Simulation(Simulation::new(craft))),
        }
    }
}

impl Menu {
    /// What the opening screen asks for: the editor, with an empty craft,
    /// when the user asks to switch.
    pub fn update(&mut self, switch_scene: bool) -> (message: AppMessage)
        ensures
            switch_scene ==> message is OpenEditor && message->OpenEditor_0 is None,
            !switch_scene ==> message is Nothing,
    {
        if switch_scene {
            AppMessage::OpenEditor(None)
        } else {
            AppMessage::Nothing
        }
    }
}

impl Editor {
    /// What the editor asks for when the user asks to switch: the solver,
    /// on a copy of the craft.
    pub fn switch_scene(&self) -> (message: AppMessage)
        ensures
            message is OpenSimulation,
            message.craft() == Some(self@.craft),
    {
        AppMessage::OpenSimulation(self.manager.c.clone())
    }
}

impl Simulation {
    /// What the solver asks for when the user asks to switch: the editor,
    /// on a copy of the craft as it was before the solver had it.
    pub fn switch_scene(&self) -> (message: AppMessage)
        ensures
            message is OpenEditor,
            message.craft() == Some(self@.original_craft),
    {
        AppMessage::OpenEditor(Some(self.original_craft.clone()))
    }
}

} // verus!
