use vstd::prelude::*;

use crate::diagnostics::{active, filter_informational, views, with_just, Config, DiagView, Diagnostic};

verus! {

/// How many color themes a session can cycle through.
pub const PALETTE_COUNT: usize = 4;

/// The four modes of a review session.
#[derive(Clone, Copy, Debug, PartialEq, Eq, Structural)]
pub enum InputMode {
    Normal,
    Justification,
    ModelSelect,
    Error,
}

/// The logical input surface of a session: what a keystroke means, already
/// decoded by the surrounding user interface.
#[derive(Clone, Copy, Debug, PartialEq, Eq, Structural)]
pub enum InputEvent {
    Quit,
    SelectNext,
    SelectPrev,
    ThemeNext,
    ThemePrev,
    Save,
    EnterEdit,
    ExitEdit,
    AppendChar(char),
    Backspace,
    SwitchModel,
    ConfirmModel,
}

/// What the caller must do after a step: the session itself never touches
/// the outside world.
#[derive(Clone, Copy, Debug, PartialEq, Eq, Structural)]
pub enum Effect {
    /// Nothing to do: wait for the next event.
    Continue,
    /// End the session normally.
    Quit,
    /// Run the save pipeline for the active model and report back through
    /// `App::apply_save_result`.
    Save,
    /// Load the diagnostics of the newly active model and report back
    /// through `App::set_model`.
    LoadModel,
}

/// The views of a model-name list.
pub open spec fn model_views(ms: Seq<String>) -> Seq<Seq<char>> {
    ms.map_values(|m: String| m@)
}

/// The review session: the aggregate the whole engine runs on.
pub struct App {
    pub mode: InputMode,
    pub items: Vec<Diagnostic>,
    pub selected: Option<usize>,
    pub color_index: usize,
    pub model: String,
    pub config: Config,
    pub error_message: String,
}

/// The mathematical value of a session.
#[verifier::ext_equal]
pub struct AppView {
    pub mode: InputMode,
    pub items: Seq<DiagView>,
    pub selected: Option<int>,
    pub color_index: int,
    pub model: Seq<char>,
    pub modelpath: Seq<char>,
    pub models: Seq<Seq<char>>,
    pub error_message: Seq<char>,
}

impl View for App {
    type V = AppView;

    open spec fn view(&self) -> AppView {
        AppView {
            mode: self.mode,
            items: views(self.items@),
            selected: match self.selected {
                Some(i) => Some(i as int),
                None => None,
            },
            color_index: self.color_index as int,
            model: self.model@,
            modelpath: self.config.modelpath@,
            models: model_views(self.config.models@),
            error_message: self.error_message@,
        }
    }
}

/// How many entries the currently visible list has: the diagnostics in
/// `Normal` and `Justification`, the model names in `ModelSelect`, nothing
/// in `Error`.
pub open spec fn visible_len(v: AppView) -> int {
    match v.mode {
        InputMode::Normal => v.items.len() as int,
        InputMode::Justification => v.items.len() as int,
        InputMode::ModelSelect => v.models.len() as int,
        InputMode::Error => 0,
    }
}

/// Session well-formedness: the selection, when present, indexes the
/// currently visible list, and the theme index stays in range.
pub open spec fn wf(v: AppView) -> bool {
    &&& match v.mode {
        InputMode::Normal => v.selected matches Some(i) ==> 0 <= i < v.items.len(),
        InputMode::Justification => v.selected matches Some(i) ==> 0 <= i < v.items.len(),
        InputMode::ModelSelect => v.selected matches Some(i) ==> 0 <= i < v.models.len(),
        InputMode::Error => true,
    }
    &&& 0 <= v.color_index < PALETTE_COUNT
}

/// Selection after moving one step forward: wraps past the end, lands on
/// the head when nothing was selected, and empties on an empty list.
pub open spec fn wrap_next(sel: Option<int>, count: int) -> Option<int> {
    if count == 0 {
        None
    } else {
        match sel {
            Some(i) => if i >= count - 1 {
                Some(0)
            } else {
                Some(i + 1)
            },
            None => Some(0),
        }
    }
}

/// Selection after moving one step back: wraps at the head, lands on the
/// head when nothing was selected, and empties on an empty list.
pub open spec fn wrap_prev(sel: Option<int>, count: int) -> Option<int> {
    if count == 0 {
        None
    } else {
        match sel {
            Some(i) => if i == 0 {
                Some(count - 1)
            } else {
                Some(i - 1)
            },
            None => Some(0),
        }
    }
}

pub open spec fn with_selected(v: AppView, sel: Option<int>) -> AppView {
    AppView { selected: sel, ..v }
}

pub open spec fn select_next_s(v: AppView) -> AppView {
    with_selected(v, wrap_next(v.selected, visible_len(v)))
}

pub open spec fn select_prev_s(v: AppView) -> AppView {
    with_selected(v, wrap_prev(v.selected, visible_len(v)))
}

pub open spec fn theme_next_s(v: AppView) -> AppView {
    AppView { color_index: (v.color_index + 1) % (PALETTE_COUNT as int), ..v }
}

pub open spec fn theme_prev_s(v: AppView) -> AppView {
    AppView { color_index: (v.color_index + PALETTE_COUNT - 1) % (PALETTE_COUNT as int), ..v }
}

/// A selection that no longer fits the visible list falls back to its head,
/// or to nothing when the list is empty.
pub open spec fn revalidate(sel: Option<int>, len: int) -> Option<int> {
    match sel {
        Some(i) => if 0 <= i < len {
            Some(i)
        } else if len > 0 {
            Some(0)
        } else {
            None
        },
        None => None,
    }
}

pub open spec fn set_mode_s(v: AppView, m: InputMode) -> AppView {
    let v2 = AppView { mode: m, ..v };
    AppView { selected: revalidate(v.selected, visible_len(v2)), ..v2 }
}

pub open spec fn set_error_s(v: AppView, msg: Seq<char>) -> AppView {
    AppView { mode: InputMode::Error, error_message: msg, ..v }
}

pub open spec fn append_char_s(v: AppView, c: char) -> AppView {
    match v.selected {
        Some(i) => if 0 <= i < v.items.len() {
            AppView {
                items: v.items.update(i, with_just(v.items[i], v.items[i].justification.push(c))),
                ..v
            }
        } else {
            v
        },
        None => v,
    }
}

pub open spec fn backspace_s(v: AppView) -> AppView {
    match v.selected {
        Some(i) => if 0 <= i < v.items.len() && v.items[i].justification.len() > 0 {
            AppView {
                items: v.items.update(
                    i,
                    with_just(v.items[i], v.items[i].justification.drop_last()),
                ),
                ..v
            }
        } else {
            v
        },
        None => v,
    }
}

pub open spec fn confirm_model_s(v: AppView) -> (AppView, Effect) {
    match v.selected {
        Some(i) => if 0 <= i < v.models.len() {
            (AppView { model: v.models[i], ..v }, Effect::LoadModel)
        } else {
            (v, Effect::Continue)
        },
        None => (v, Effect::Continue),
    }
}

pub open spec fn set_model_s(
    v: AppView,
    model: Seq<char>,
    loaded: Result<Seq<DiagView>, Seq<char>>,
) -> AppView {
    match loaded {
        Ok(data) => {
            let act = active(data);
            AppView {
                model: model,
                items: act,
                selected: if act.len() > 0 {
                    Some(0)
                } else {
                    None
                },
                mode: InputMode::Normal,
                ..v
            }
        },
        Err(e) => AppView { model: model, mode: InputMode::Error, error_message: e, ..v },
    }
}

/// The whole transition table: what one logical event makes of a session,
/// and which effect the caller owes in return.
pub open spec fn step_s(v: AppView, ev: InputEvent) -> (AppView, Effect) {
    match v.mode {
        InputMode::Normal => match ev {
            InputEvent::Quit => (v, Effect::Quit),
            InputEvent::SelectNext => (select_next_s(v), Effect::Continue),
            InputEvent::SelectPrev => (select_prev_s(v), Effect::Continue),
            InputEvent::ThemeNext => (theme_next_s(v), Effect::Continue),
            InputEvent::ThemePrev => (theme_prev_s(v), Effect::Continue),
            InputEvent::Save => (v, Effect::Save),
            InputEvent::EnterEdit => (set_mode_s(v, InputMode::Justification), Effect::Continue),
            InputEvent::SwitchModel => (set_mode_s(v, InputMode::ModelSelect), Effect::Continue),
            _ => (v, Effect::Continue),
        },
        InputMode::Justification => match ev {
            InputEvent::ExitEdit => (set_mode_s(v, InputMode::Normal), Effect::Continue),
            InputEvent::AppendChar(c) => (append_char_s(v, c), Effect::Continue),
            InputEvent::Backspace => (backspace_s(v), Effect::Continue),
            _ => (v, Effect::Continue),
        },
        InputMode::ModelSelect => match ev {
            InputEvent::Quit => (v, Effect::Quit),
            InputEvent::SelectNext => (select_next_s(v), Effect::Continue),
            InputEvent::SelectPrev => (select_prev_s(v), Effect::Continue),
            InputEvent::ThemeNext => (theme_next_s(v), Effect::Continue),
            InputEvent::ThemePrev => (theme_prev_s(v), Effect::Continue),
            InputEvent::ConfirmModel => confirm_model_s(v),
            _ => (v, Effect::Continue),
        },
        InputMode::Error => match ev {
            InputEvent::Quit => (v, Effect::Quit),
            _ => (v, Effect::Continue),
        },
    }
}

impl App {
    /// A fresh session: model selection is up first, nothing is in error.
    pub fn new(data_vec: Vec<Diagnostic>, config: Config, model: String) -> (r: App)
        ensures
            r@ == (AppView {
                mode: InputMode::ModelSelect,
                items: views(data_vec@),
                selected: if config.models@.len() > 0 {
                    Some(0 as int)
                } else {
                    None
                },
                color_index: 0,
                model: model@,
                modelpath: config.modelpath@,
                models: model_views(config.models@),
                error_message: Seq::<char>::empty(),
            }),
            wf(r@),
    {
        let selected: Option<usize> = if config.models.len() > 0 {
            Some(0)
        } else {
            None
        };
        let r = App {
            mode: InputMode::ModelSelect,
            items: data_vec,
            selected,
            color_index: 0,
            model,
            config,
            error_message: String::new(),
        };
        proof {
            assert(r@ =~= AppView {
                mode: InputMode::ModelSelect,
                items: views(r.items@),
                selected: if r.config.models@.len() > 0 {
                    Some(0 as int)
                } else {
                    None
                },
                color_index: 0,
                model: r.model@,
                modelpath: r.config.modelpath@,
                models: model_views(r.config.models@),
                error_message: Seq::<char>::empty(),
            });
        }
        r
    }

    /// Moves the selection one step forward over a list of `count` entries,
    /// wrapping past the end.
    pub fn next(&mut self, count: usize)
        ensures
            final(self)@ == with_selected(old(self)@, wrap_next(old(self)@.selected, count as int)),
    {
        if count == 0 {
            self.selected = None;
        } else {
            let i: usize = match self.selected {
                Some(i) => if i >= count - 1 {
                    0
                } else {
                    i + 1
                },
                None => 0,
            };
            self.selected = Some(i);
        }
        proof {
            assert(self@ =~= with_selected(old(self)@, wrap_next(old(self)@.selected, count as int)));
        }
    }

    /// Moves the selection one step back over a list of `count` entries,
    /// wrapping at the head.
    pub fn previous(&mut self, count: usize)
        ensures
            final(self)@ == with_selected(old(self)@, wrap_prev(old(self)@.selected, count as int)),
    {
        if count == 0 {
            self.selected = None;
        } else {
            let i: usize = match self.selected {
                Some(i) => if i == 0 {
                    count - 1
                } else {
                    i - 1
                },
                None => 0,
            };
            self.selected = Some(i);
        }
        proof {
            assert(self@ =~= with_selected(old(self)@, wrap_prev(old(self)@.selected, count as int)));
        }
    }

    /// Rotates the color theme forward, wrapping.
    pub fn next_color(&mut self)
        requires
            old(self)@.color_index < PALETTE_COUNT,
        ensures
            final(self)@ == theme_next_s(old(self)@),
    {
        self.color_index = if self.color_index >= PALETTE_COUNT - 1 {
            0
        } else {
            self.color_index + 1
        };
        proof {
            assert(self@ =~= theme_next_s(old(self)@));
        }
    }

    /// Rotates the color theme back, wrapping.
    pub fn previous_color(&mut self)
        requires
            old(self)@.color_index < PALETTE_COUNT,
        ensures
            final(self)@ == theme_prev_s(old(self)@),
    {
        self.color_index = if self.color_index == 0 {
            PALETTE_COUNT - 1
        } else {
            self.color_index - 1
        };
        proof {
            assert(self@ =~= theme_prev_s(old(self)@));
        }
    }

    /// The selected diagnostic, when the selection points into the list.
    pub fn get_selected(&self) -> (r: Option<&Diagnostic>)
        ensures
            (match r {
                Some(d) => Some(d@),
                None => None::<DiagView>,
            }) == (match self@.selected {
                Some(i) => if 0 <= i < self@.items.len() {
                    Some(self@.items[i])
                } else {
                    None
                },
                None => None::<DiagView>,
            }),
    {
        if self.items.len() < 1 {
            return None;
        }
        match self.selected {
            Some(idx) => {
                if idx >= self.items.len() {
                    return None;
                }
                Some(&self.items[idx])
            },
            None => None,
        }
    }

    /// Appends one character at the end of the selected diagnostic's
    /// justification; without a valid selection nothing changes.
    pub fn push_justification(&mut self, c: char)
        ensures
            final(self)@ == append_char_s(old(self)@, c),
    {
        match self.selected {
            Some(idx) => {
                if idx < self.items.len() {
                    let ghost items0 = views(self.items@);
                    self.items[idx].justification.push(c);
                    proof {
                        assert(views(self.items@) =~= items0.update(
                            idx as int,
                            with_just(items0[idx as int], items0[idx as int].justification.push(c)),
                        ));
                        assert(self@ =~= append_char_s(old(self)@, c));
                    }
                } else {
                    proof {
                        assert(self@ =~= append_char_s(old(self)@, c));
                    }
                }
            },
            None => {
                proof {
                    assert(self@ =~= append_char_s(old(self)@, c));
                }
            },
        }
    }

    /// Removes the last character of the selected diagnostic's
    /// justification; an empty justification or no valid selection leaves
    /// everything unchanged.
    pub fn pop_justification(&mut self)
        ensures
            final(self)@ == backspace_s(old(self)@),
    {
        match self.selected {
            Some(idx) => {
                if idx < self.items.len() {
                    let ghost items0 = views(self.items@);
                    self.items[idx].justification.pop();
                    proof {
                        if items0[idx as int].justification.len() > 0 {
                            assert(views(self.items@) =~= items0.update(
                                idx as int,
                                with_just(
                                    items0[idx as int],
                                    items0[idx as int].justification.drop_last(),
                                ),
                            ));
                        } else {
                            assert(views(self.items@) =~= items0);
                        }
                        assert(self@ =~= backspace_s(old(self)@));
                    }
                } else {
                    proof {
                        assert(self@ =~= backspace_s(old(self)@));
                    }
                }
            },
            None => {
                proof {
                    assert(self@ =~= backspace_s(old(self)@));
                }
            },
        }
    }

    /// Switches the mode, pulling an out-of-range selection back to the
    /// head of the newly visible list.
    pub fn set_mode(&mut self, mode: InputMode)
        ensures
            final(self)@ == set_mode_s(old(self)@, mode),
    {
        self.mode = mode;
        let len: usize = match self.mode {
            InputMode::Normal => self.items.len(),
            InputMode::Justification => self.items.len(),
            InputMode::ModelSelect => self.config.models.len(),
            InputMode::Error => 0,
        };
        match self.selected {
            Some(i) => {
                if i >= len {
                    self.selected = if len > 0 {
                        Some(0)
                    } else {
                        None
                    };
                }
            },
            None => {},
        }
        proof {
            assert(self@ =~= set_mode_s(old(self)@, mode));
        }
    }

    /// Enters `Error` mode carrying a message; nothing else of the session
    /// changes.
    pub fn set_error(&mut self, error_message: String)
        ensures
            final(self)@ == set_error_s(old(self)@, error_message@),
            wf(old(self)@) ==> wf(final(self)@),
    {
        self.mode = InputMode::Error;
        self.error_message = error_message;
        proof {
            assert(self@ =~= set_error_s(old(self)@, error_message@));
        }
    }

    /// Makes `model` the active model and applies what its loader returned:
    /// a fresh diagnostic list replaces the old one wholesale, informational
    /// findings are dropped, and the selection resets to the head; a load
    /// failure turns into `Error` mode and leaves the list untouched.
    pub fn set_model(&mut self, model: String, loaded: Result<Vec<Diagnostic>, String>)
        ensures
            final(self)@ == set_model_s(old(self)@, model@, match loaded {
                Ok(data) => Ok(views(data@)),
                Err(e) => Err(e@),
            }),
            wf(old(self)@) ==> wf(final(self)@),
    {
        self.model = model;
        match loaded {
            Ok(data) => {
                let ghost data_view = views(data@);
                let filtered = filter_informational(data);
                let has_items = filtered.len() > 0;
                self.items = filtered;
                self.selected = if has_items {
                    Some(0)
                } else {
                    None
                };
                self.mode = InputMode::Normal;
                proof {
                    assert(self@ =~= set_model_s(old(self)@, self.model@, Ok(data_view)));
                }
            },
            Err(e) => {
                self.mode = InputMode::Error;
                self.error_message = e;
                proof {
                    assert(self@ =~= set_model_s(old(self)@, self.model@, Err(
                        self.error_message@,
                    )));
                }
            },
        }
    }

    /// The selected model name, when the selection points into the list.
    pub fn get_selected_model(&self) -> (r: Option<&String>)
        ensures
            (match r {
                Some(m) => Some(m@),
                None => None::<Seq<char>>,
            }) == (match self@.selected {
                Some(i) => if 0 <= i < self@.models.len() {
                    Some(self@.models[i])
                } else {
                    None
                },
                None => None::<Seq<char>>,
            }),
    {
        if self.config.models.len() < 1 {
            return None;
        }
        match self.selected {
            Some(idx) => {
                if idx >= self.config.models.len() {
                    return None;
                }
                Some(&self.config.models[idx])
            },
            None => None,
        }
    }

    /// Applies what the save pipeline reported: success changes nothing,
    /// failure turns into `Error` mode with the failure's message — the
    /// diagnostics and their justifications stay exactly as they were, so
    /// the save can be retried without re-entering text.
    pub fn apply_save_result(&mut self, outcome: Result<(), String>)
        ensures
            outcome matches Ok(_) ==> final(self)@ == old(self)@,
            outcome matches Err(e) ==> final(self)@ == set_error_s(old(self)@, e@),
            wf(old(self)@) ==> wf(final(self)@),
    {
        match outcome {
            Ok(_) => {},
            Err(e) => {
                self.set_error(e);
            },
        }
    }

    /// Runs one logical event through the transition table and returns the
    /// effect the caller owes.  This is the session's only input surface.
    pub fn step(&mut self, event: InputEvent) -> (eff: Effect)
        requires
            wf(old(self)@),
        ensures
            final(self)@ == step_s(old(self)@, event).0,
            eff == step_s(old(self)@, event).1,
            wf(final(self)@),
    {
        match self.mode {
            InputMode::Normal => match event {
                InputEvent::Quit => Effect::Quit,
                InputEvent::SelectNext => {
                    let count = self.items.len();
                    self.next(count);
                    Effect::Continue
                },
                InputEvent::SelectPrev => {
                    let count = self.items.len();
                    self.previous(count);
                    Effect::Continue
                },
                InputEvent::ThemeNext => {
                    self.next_color();
                    Effect::Continue
                },
                InputEvent::ThemePrev => {
                    self.previous_color();
                    Effect::Continue
                },
                InputEvent::Save => Effect::Save,
                InputEvent::EnterEdit => {
                    self.set_mode(InputMode::Justification);
                    Effect::Continue
                },
                InputEvent::SwitchModel => {
                    self.set_mode(InputMode::ModelSelect);
                    Effect::Continue
                },
                _ => Effect::Continue,
            },
            InputMode::Justification => match event {
                InputEvent::ExitEdit => {
                    self.set_mode(InputMode::Normal);
                    Effect::Continue
                },
                InputEvent::AppendChar(c) => {
                    self.push_justification(c);
                    Effect::Continue
                },
                InputEvent::Backspace => {
                    self.pop_justification();
                    Effect::Continue
                },
                _ => Effect::Continue,
            },
            InputMode::ModelSelect => match event {
                InputEvent::Quit => Effect::Quit,
                InputEvent::SelectNext => {
                    let count = self.config.models.len();
                    self.next(count);
                    Effect::Continue
                },
                InputEvent::SelectPrev => {
                    let count = self.config.models.len();
                    self.previous(count);
                    Effect::Continue
                },
                InputEvent::ThemeNext => {
                    self.next_color();
                    Effect::Continue
                },
                InputEvent::ThemePrev => {
                    self.previous_color();
                    Effect::Continue
                },
                InputEvent::ConfirmModel => {
                    let name = match self.get_selected_model() {
                        Some(m) => Some(m.clone()),
                        None => None,
                    };
                    match name {
                        Some(m) => {
                            self.model = m;
                            proof {
                                assert(self@ =~= confirm_model_s(old(self)@).0);
                            }
                            Effect::LoadModel
                        },
                        None => Effect::Continue,
                    }
                },
                _ => Effect::Continue,
            },
            InputMode::Error => match event {
                InputEvent::Quit => Effect::Quit,
                _ => Effect::Continue,
            },
        }
    }
}

} // verus!
