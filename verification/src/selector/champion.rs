use vstd::prelude::*;
use crate::input::Key;
use crate::selector::auto::{AutoView, spec_auto_step, spec_dedup, spec_update};
use crate::text::{lower_of, lowercase, pop_char, push_char, sort_strings, str_starts_with, strs_view};

verus! {

/// Which part of the champion selector the user is driving.
#[derive(Debug)]
pub enum InputMode {
    Normal,
    Editing,
}

/// A selector for champions, with autocomplete over their names.
pub struct ChampionSelector {
    pub input_buffer: String,
    pub selected_values: Vec<String>,
    pub available_options: Vec<String>,
    pub suggestions: Vec<String>,
    pub selected_suggestion: usize,
}

impl View for ChampionSelector {
    type V = AutoView;

    open spec fn view(&self) -> AutoView {
        AutoView {
            input: self.input_buffer@,
            selected: strs_view(self.selected_values@),
            options: strs_view(self.available_options@),
            suggestions: strs_view(self.suggestions@),
            cursor: self.selected_suggestion as int,
        }
    }
}

impl ChampionSelector {
    /// Builds a selector over the given champion names, keeping the first
    /// occurrence of each.
    pub fn new(available_champions: Vec<String>) -> (r: ChampionSelector)
        ensures
            r@ == (AutoView {
                input: Seq::<char>::empty(),
                selected: Seq::<Seq<char>>::empty(),
                options: spec_dedup(strs_view(available_champions@)),
                suggestions: Seq::<Seq<char>>::empty(),
                cursor: 0,
            }),
    {
        let ghost ov = strs_view(available_champions@);
        let mut distinct: Vec<String> = Vec::new();
        let mut i: usize = 0;
        while i < available_champions.len()
            invariant
                i <= ov.len(),
                ov == strs_view(available_champions@),
                strs_view(distinct@) == spec_dedup(ov.take(i as int)),
            decreases ov.len() - i,
        {
            proof {
                assert(ov.take(i + 1).drop_last() =~= ov.take(i as int));
                assert(ov.take(i + 1).last() == ov[i as int]);
            }
            if !crate::champions::contains_name(&distinct, &available_champions[i]) {
                let ghost d0 = distinct@;
                distinct.push(available_champions[i].clone());
                proof {
                    assert(strs_view(distinct@) =~= strs_view(d0).push(ov[i as int]));
                }
            }
            i = i + 1;
        }
        proof {
            assert(ov.take(ov.len() as int) =~= ov);
        }
        let r = ChampionSelector {
            input_buffer: String::new(),
            selected_values: Vec::new(),
            available_options: distinct,
            suggestions: Vec::new(),
            selected_suggestion: 0,
        };
        proof {
            assert(strs_view(r.selected_values@) =~= Seq::<Seq<char>>::empty());
            assert(strs_view(r.suggestions@) =~= Seq::<Seq<char>>::empty());
        }
        r
    }

    /// Recomputes the suggestions from the current buffer.
    pub(crate) fn update_suggestions(&mut self)
        ensures
            final(self)@ == spec_update(old(self)@),
    {
        if self.input_buffer.as_str().is_empty() {
            self.suggestions = Vec::new();
            proof {
                assert(strs_view(self.suggestions@) =~= Seq::<Seq<char>>::empty());
            }
            return;
        }
        let ghost ov = strs_view(self.available_options@);
        let input_lowercase = lowercase(&self.input_buffer);
        let mut matches: Vec<String> = Vec::new();
        let mut i: usize = 0;
        while i < self.available_options.len()
            invariant
                i <= ov.len(),
                ov == strs_view(self.available_options@),
                input_lowercase@ == lower_of(self.input_buffer@),
                strs_view(matches@) == crate::selector::auto::spec_matching(
                    ov.take(i as int),
                    self.input_buffer@,
                ),
            decreases ov.len() - i,
        {
            proof {
                assert(ov.take(i + 1).drop_last() =~= ov.take(i as int));
                assert(ov.take(i + 1).last() == ov[i as int]);
            }
            let lowered = lowercase(&self.available_options[i]);
            if str_starts_with(&lowered, &input_lowercase) {
                let ghost m0 = matches@;
                matches.push(self.available_options[i].clone());
                proof {
                    assert(strs_view(matches@) =~= strs_view(m0).push(ov[i as int]));
                }
            }
            i = i + 1;
        }
        proof {
            assert(ov.take(ov.len() as int) =~= ov);
        }
        self.suggestions = sort_strings(&matches);
        self.selected_suggestion = 0;
    }

    /// Applies one key press.
    pub fn on_key(&mut self, key: Key)
        ensures
            final(self)@ == spec_auto_step(old(self)@, key),
    {
        match key {
            Key::Up => {
                if self.suggestions.len() > 0 {
                    if self.selected_suggestion > 0 {
                        self.selected_suggestion = self.selected_suggestion - 1;
                    }
                }
            },
            Key::Down => {
                if self.suggestions.len() > 0 {
                    if self.selected_suggestion < self.suggestions.len() - 1 {
                        self.selected_suggestion = self.selected_suggestion + 1;
                    } else {
                        self.selected_suggestion = self.suggestions.len() - 1;
                    }
                }
            },
            Key::Enter => {
                if self.suggestions.len() > 0 {
                    if self.selected_suggestion < self.suggestions.len() {
                        let ghost s0 = strs_view(self.selected_values@);
                        let chosen = self.suggestions[self.selected_suggestion].clone();
                        self.selected_values.push(chosen);
                        self.input_buffer = String::new();
                        self.suggestions = Vec::new();
                        proof {
                            assert(strs_view(self.selected_values@) =~= s0.push(
                                old(self)@.suggestions[old(self)@.cursor],
                            ));
                            assert(strs_view(self.suggestions@) =~= Seq::<Seq<char>>::empty());
                        }
                    }
                }
            },
            Key::Char(c) => {
                push_char(&mut self.input_buffer, c);
                self.update_suggestions();
            },
            Key::Backspace => {
                if !self.input_buffer.as_str().is_empty() {
                    pop_char(&mut self.input_buffer);
                    self.update_suggestions();
                } else if self.selected_values.len() > 0 {
                    let ghost s0 = strs_view(self.selected_values@);
                    match self.selected_values.pop() {
                        Some(last) => {
                            self.input_buffer = last;
                            proof {
                                assert(strs_view(self.selected_values@) =~= s0.drop_last());
                                assert(self.input_buffer@ == s0.last());
                            }
                            self.update_suggestions();
                        },
                        None => {
                            proof {
                                assert(false);
                            }
                        },
                    }
                }
            },
            _ => {},
        }
    }
}

} // verus!
