use vstd::prelude::*;
use crate::input::Key;
use crate::text::{
    lower_of, lowercase, pop_char, push_char, sort_strings, spec_sort, str_starts_with, strs_view,
};
use crate::selector::auto::{spec_dedup, spec_matching};

verus! {

/// Which part of the parameter form the user is driving.
#[derive(Debug)]
pub enum InputMode {
    Normal,
    Editing,
}

/// The state of the parameter form: target team size, cost cap, the core
/// units being typed in with autocomplete, and which row is active.
pub struct App {
    pub should_quit: bool,
    pub selected_size: usize,
    pub max_cost: u32,
    pub active_selector: usize,
    pub input_mode: InputMode,
    pub input_buffer: String,
    pub core_units: Vec<String>,
    pub available_champions: Vec<String>,
    pub selected_suggestion: usize,
    pub autocomplete_suggestions: Vec<String>,
}

/// Mathematical image of an `App`.
pub ghost struct AppView {
    pub quit: bool,
    pub size: int,
    pub cost: int,
    pub row: int,
    pub editing: bool,
    pub input: Seq<char>,
    pub core: Seq<Seq<char>>,
    pub options: Seq<Seq<char>>,
    pub cursor: int,
    pub suggestions: Seq<Seq<char>>,
}

impl View for App {
    type V = AppView;

    open spec fn view(&self) -> AppView {
        AppView {
            quit: self.should_quit,
            size: self.selected_size as int,
            cost: self.max_cost as int,
            row: self.active_selector as int,
            editing: self.input_mode is Editing,
            input: self.input_buffer@,
            core: strs_view(self.core_units@),
            options: strs_view(self.available_champions@),
            cursor: self.selected_suggestion as int,
            suggestions: strs_view(self.autocomplete_suggestions@),
        }
    }
}

/// Recomputing the suggestions: an empty buffer clears them and leaves
/// the cursor alone; otherwise the matching champions are sorted and the
/// cursor returns to the top.
pub open spec fn spec_app_update(v: AppView) -> AppView {
    if v.input.len() == 0 {
        AppView { suggestions: Seq::empty(), ..v }
    } else {
        AppView { suggestions: spec_sort(spec_matching(v.options, v.input)), cursor: 0, ..v }
    }
}

/// One key press while navigating the form.
pub open spec fn spec_app_normal_step(v: AppView, key: Key) -> AppView {
    match key {
        Key::Char(c) => if c == 'q' {
            AppView { quit: true, ..v }
        } else {
            v
        },
        Key::Up => AppView { row: if v.row > 0 { v.row - 1 } else { 0 }, ..v },
        Key::Down => AppView { row: if v.row + 1 < 4 { v.row + 1 } else { 4 }, ..v },
        Key::Left => if v.row == 0 && v.size > 1 {
            AppView { size: v.size - 1, ..v }
        } else if v.row == 2 && v.cost > 1 {
            AppView { cost: v.cost - 1, ..v }
        } else {
            v
        },
        Key::Right => if v.row == 0 && v.size < 10 {
            AppView { size: v.size + 1, ..v }
        } else if v.row == 2 && v.cost < 6 {
            AppView { cost: v.cost + 1, ..v }
        } else {
            v
        },
        Key::Enter => if v.row == 1 {
            AppView { editing: true, input: Seq::empty(), ..v }
        } else {
            v
        },
        _ => v,
    }
}

/// One key press while typing a core unit.
pub open spec fn spec_app_editing_step(v: AppView, key: Key) -> AppView {
    match key {
        Key::Esc => AppView {
            editing: false,
            input: Seq::empty(),
            suggestions: Seq::empty(),
            ..v
        },
        Key::Up => if v.suggestions.len() > 0 {
            AppView { cursor: if v.cursor > 0 { v.cursor - 1 } else { 0 }, ..v }
        } else {
            v
        },
        Key::Down => if v.suggestions.len() > 0 {
            AppView {
                cursor: if v.cursor + 1 < v.suggestions.len() {
                    v.cursor + 1
                } else {
                    v.suggestions.len() - 1
                },
                ..v
            }
        } else {
            v
        },
        Key::Enter => if v.suggestions.len() > 0 {
            if 0 <= v.cursor < v.suggestions.len() {
                AppView {
                    core: v.core.push(v.suggestions[v.cursor]),
                    input: Seq::empty(),
                    suggestions: Seq::empty(),
                    ..v
                }
            } else {
                v
            }
        } else if v.input.len() > 0 {
            AppView { core: v.core.push(v.input), input: Seq::empty(), ..v }
        } else {
            v
        },
        Key::Char(c) => spec_app_update(AppView { input: v.input.push(c), ..v }),
        Key::Backspace => if v.input.len() > 0 {
            spec_app_update(AppView { input: v.input.drop_last(), ..v })
        } else if v.core.len() > 0 {
            spec_app_update(AppView { input: v.core.last(), core: v.core.drop_last(), ..v })
        } else {
            v
        },
        _ => v,
    }
}

/// One key press of the form: the active mode decides.
pub open spec fn spec_app_step(v: AppView, key: Key) -> AppView {
    if v.editing {
        spec_app_editing_step(v, key)
    } else {
        spec_app_normal_step(v, key)
    }
}

impl App {
    /// Builds the form over the given champion names, keeping the first
    /// occurrence of each; the team size starts at 7 and the cost cap at
    /// its maximum of 6.
    pub fn new(champion_names: Vec<String>) -> (r: App)
        ensures
            r@ == (AppView {
                quit: false,
                size: 7,
                cost: 6,
                row: 0,
                editing: false,
                input: Seq::<char>::empty(),
                core: Seq::<Seq<char>>::empty(),
                options: spec_dedup(strs_view(champion_names@)),
                cursor: 0,
                suggestions: Seq::<Seq<char>>::empty(),
            }),
    {
        let ghost ov = strs_view(champion_names@);
        let mut distinct: Vec<String> = Vec::new();
        let mut i: usize = 0;
        while i < champion_names.len()
            invariant
                i <= ov.len(),
                ov == strs_view(champion_names@),
                strs_view(distinct@) == spec_dedup(ov.take(i as int)),
            decreases ov.len() - i,
        {
            proof {
                assert(ov.take(i + 1).drop_last() =~= ov.take(i as int));
                assert(ov.take(i + 1).last() == ov[i as int]);
            }
            if !crate::champions::contains_name(&distinct, &champion_names[i]) {
                let ghost d0 = distinct@;
                distinct.push(champion_names[i].clone());
                proof {
                    assert(strs_view(distinct@) =~= strs_view(d0).push(ov[i as int]));
                }
            }
            i = i + 1;
        }
        proof {
            assert(ov.take(ov.len() as int) =~= ov);
        }
        let r = App {
            should_quit: false,
            selected_size: 7,
            max_cost: 6,
            active_selector: 0,
            input_mode: InputMode::Normal,
            input_buffer: String::new(),
            core_units: Vec::new(),
            available_champions: distinct,
            selected_suggestion: 0,
            autocomplete_suggestions: Vec::new(),
        };
        proof {
            assert(strs_view(r.core_units@) =~= Seq::<Seq<char>>::empty());
            assert(strs_view(r.autocomplete_suggestions@) =~= Seq::<Seq<char>>::empty());
        }
        r
    }

    /// Recomputes the suggestions from the current buffer.
    pub(crate) fn update_suggestions(&mut self)
        ensures
            final(self)@ == spec_app_update(old(self)@),
    {
        if self.input_buffer.as_str().is_empty() {
            self.autocomplete_suggestions = Vec::new();
            proof {
                assert(strs_view(self.autocomplete_suggestions@) =~= Seq::<Seq<char>>::empty());
            }
            return;
        }
        let ghost ov = strs_view(self.available_champions@);
        let input_lowercase = lowercase(&self.input_buffer);
        let mut matches: Vec<String> = Vec::new();
        let mut i: usize = 0;
        while i < self.available_champions.len()
            invariant
                i <= ov.len(),
                ov == strs_view(self.available_champions@),
                input_lowercase@ == lower_of(self.input_buffer@),
                strs_view(matches@) == spec_matching(ov.take(i as int), self.input_buffer@),
            decreases ov.len() - i,
        {
            proof {
                assert(ov.take(i + 1).drop_last() =~= ov.take(i as int));
                assert(ov.take(i + 1).last() == ov[i as int]);
            }
            let lowered = lowercase(&self.available_champions[i]);
            if str_starts_with(&lowered, &input_lowercase) {
                let ghost m0 = matches@;
                matches.push(self.available_champions[i].clone());
                proof {
                    assert(strs_view(matches@) =~= strs_view(m0).push(ov[i as int]));
                }
            }
            i = i + 1;
        }
        proof {
            assert(ov.take(ov.len() as int) =~= ov);
        }
        self.autocomplete_suggestions = sort_strings(&matches);
        self.selected_suggestion = 0;
    }

    /// Applies one key press.
    pub fn on_key(&mut self, key: Key)
        ensures
            final(self)@ == spec_app_step(old(self)@, key),
    {
        match self.input_mode {
            InputMode::Normal => {
                match key {
                    Key::Char(c) => {
                        if c == 'q' {
                            self.should_quit = true;
                        }
                    },
                    Key::Up => {
                        if self.active_selector > 0 {
                            self.active_selector = self.active_selector - 1;
                        }
                    },
                    Key::Down => {
                        if self.active_selector < 3 {
                            self.active_selector = self.active_selector + 1;
                        } else {
                            self.active_selector = 4;
                        }
                    },
                    Key::Left => {
                        if self.active_selector == 0 && self.selected_size > 1 {
                            self.selected_size = self.selected_size - 1;
                        } else if self.active_selector == 2 && self.max_cost > 1 {
                            self.max_cost = self.max_cost - 1;
                        }
                    },
                    Key::Right => {
                        if self.active_selector == 0 && self.selected_size < 10 {
                            self.selected_size = self.selected_size + 1;
                        } else if self.active_selector == 2 && self.max_cost < 6 {
                            self.max_cost = self.max_cost + 1;
                        }
                    },
                    Key::Enter => {
                        if self.active_selector == 1 {
                            self.input_mode = InputMode::Editing;
                            self.input_buffer = String::new();
                        }
                    },
                    _ => {},
                }
            },
            InputMode::Editing => {
                match key {
                    Key::Esc => {
                        self.input_mode = InputMode::Normal;
                        self.input_buffer = String::new();
                        self.autocomplete_suggestions = Vec::new();
                        proof {
                            assert(strs_view(self.autocomplete_suggestions@) =~= Seq::<
                                Seq<char>,
                            >::empty());
                        }
                    },
                    Key::Up => {
                        if self.autocomplete_suggestions.len() > 0 {
                            if self.selected_suggestion > 0 {
                                self.selected_suggestion = self.selected_suggestion - 1;
                            }
                        }
                    },
                    Key::Down => {
                        if self.autocomplete_suggestions.len() > 0 {
                            if self.selected_suggestion < self.autocomplete_suggestions.len() - 1 {
                                self.selected_suggestion = self.selected_suggestion + 1;
                            } else {
                                self.selected_suggestion = self.autocomplete_suggestions.len() - 1;
                            }
                        }
                    },
                    Key::Enter => {
                        if self.autocomplete_suggestions.len() > 0 {
                            if self.selected_suggestion < self.autocomplete_suggestions.len() {
                                let ghost c0 = strs_view(self.core_units@);
                                let chosen = self.autocomplete_suggestions[self.selected_suggestion].clone();
                                self.core_units.push(chosen);
                                self.input_buffer = String::new();
                                self.autocomplete_suggestions = Vec::new();
                                proof {
                                    assert(strs_view(self.core_units@) =~= c0.push(
                                        old(self)@.suggestions[old(self)@.cursor],
                                    ));
                                    assert(strs_view(self.autocomplete_suggestions@) =~= Seq::<
                                        Seq<char>,
                                    >::empty());
                                }
                            }
                        } else if !self.input_buffer.as_str().is_empty() {
                            let ghost c0 = strs_view(self.core_units@);
                            let typed = self.input_buffer.clone();
                            self.core_units.push(typed);
                            self.input_buffer = String::new();
                            proof {
                                assert(strs_view(self.core_units@) =~= c0.push(
                                    old(self)@.input,
                                ));
                            }
                        }
                    },
                    Key::Char(c) => {
                        push_char(&mut self.input_buffer, c);
                        self.update_suggestions();
                    },
                    Key::Backspace => {
                        if !self.input_buffer.as_str().is_empty() {
                            pop_char(&mut self.input_buffer);
                            self.update_suggestions();
                        } else if self.core_units.len() > 0 {
                            let ghost c0 = strs_view(self.core_units@);
                            match self.core_units.pop() {
                                Some(last) => {
                                    self.input_buffer = last;
                                    proof {
                                        assert(strs_view(self.core_units@) =~= c0.drop_last());
                                        assert(self.input_buffer@ == c0.last());
                                    }
                                    self.update_suggestions();
                                },
                                None => {
                                    proof {
                                        assert(false);
                                    }
                                },
                            }
                        }
                    },
                    _ => {},
                }
            },
        }
    }
}

} // verus!
