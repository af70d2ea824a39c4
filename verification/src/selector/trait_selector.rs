use vstd::prelude::*;
use crate::champions::bonuses_view;
use crate::input::Key;
use crate::selector::auto::{AutoSelector, AutoView, spec_auto_step};
use crate::text::{all_digits, digits_val, parse_digits, pop_char, push_char};

verus! {

/// A selector for (trait, count) requirements: a trait name is picked by
/// autocomplete, then a count is typed for it.
pub struct TraitSelector {
    pub auto_selector: AutoSelector,
    pub number_input: String,
    pub selected_values: Vec<(String, u32)>,
    pub is_entering_number: bool,
}

/// Mathematical image of a `TraitSelector`.
pub ghost struct TraitSelView {
    pub auto: AutoView,
    pub number: Seq<char>,
    pub selected: Seq<(Seq<char>, u32)>,
    pub entering: bool,
}

impl View for TraitSelector {
    type V = TraitSelView;

    open spec fn view(&self) -> TraitSelView {
        TraitSelView {
            auto: self.auto_selector@,
            number: self.number_input@,
            selected: bonuses_view(self.selected_values@),
            entering: self.is_entering_number,
        }
    }
}

/// One key press of the requirement selector.
pub open spec fn spec_trait_step(v: TraitSelView, key: Key) -> TraitSelView {
    if v.entering {
        match key {
            Key::Char(c) => if '0' <= c <= '9' {
                TraitSelView { number: v.number.push(c), ..v }
            } else {
                v
            },
            Key::Backspace => {
                let v1 = if v.number.len() > 0 {
                    TraitSelView { number: v.number.drop_last(), ..v }
                } else {
                    TraitSelView { entering: false, ..v }
                };
                if v1.number.len() > 0 {
                    TraitSelView { number: v1.number.drop_last(), ..v1 }
                } else {
                    v1
                }
            },
            Key::Enter => if v.number.len() > 0 && digits_val(v.number) <= u32::MAX
                && v.auto.input.len() > 0 {
                TraitSelView {
                    auto: AutoView { input: Seq::empty(), ..v.auto },
                    number: Seq::empty(),
                    selected: v.selected.push((v.auto.input, digits_val(v.number) as u32)),
                    entering: false,
                }
            } else {
                v
            },
            Key::Esc => TraitSelView {
                auto: AutoView { input: Seq::empty(), ..v.auto },
                number: Seq::empty(),
                selected: v.selected,
                entering: false,
            },
            _ => v,
        }
    } else {
        match key {
            Key::Backspace => if v.auto.input.len() > 0 {
                TraitSelView { auto: spec_auto_step(v.auto, key), ..v }
            } else if v.selected.len() > 0 {
                TraitSelView {
                    auto: AutoView { input: v.selected.last().0, ..v.auto },
                    number: v.number,
                    selected: v.selected.drop_last(),
                    entering: false,
                }
            } else {
                v
            },
            Key::Enter => if v.auto.suggestions.len() > 0 && 0 <= v.auto.cursor
                < v.auto.suggestions.len() {
                TraitSelView {
                    auto: AutoView {
                        input: v.auto.suggestions[v.auto.cursor],
                        suggestions: Seq::empty(),
                        ..v.auto
                    },
                    entering: true,
                    ..v
                }
            } else {
                v
            },
            _ => TraitSelView { auto: spec_auto_step(v.auto, key), ..v },
        }
    }
}

impl TraitSelector {
    /// Builds a requirement selector over the given trait names.
    pub fn new(available_traits: Vec<String>) -> (r: TraitSelector)
        ensures
            r@.auto == (AutoView {
                input: Seq::<char>::empty(),
                selected: Seq::<Seq<char>>::empty(),
                options: crate::selector::auto::spec_dedup(
                    crate::text::strs_view(available_traits@),
                ),
                suggestions: Seq::<Seq<char>>::empty(),
                cursor: 0,
            }),
            r@.number == Seq::<char>::empty(),
            r@.selected == Seq::<(Seq<char>, u32)>::empty(),
            r@.entering == false,
    {
        let r = TraitSelector {
            auto_selector: AutoSelector::new(available_traits),
            number_input: String::new(),
            selected_values: Vec::new(),
            is_entering_number: false,
        };
        proof {
            assert(bonuses_view(r.selected_values@) =~= Seq::<(Seq<char>, u32)>::empty());
        }
        r
    }

    /// Applies one key press. The count buffer only ever holds decimal
    /// digits.
    pub fn on_key(&mut self, key: Key)
        requires
            all_digits(old(self)@.number),
        ensures
            final(self)@ == spec_trait_step(old(self)@, key),
            all_digits(final(self)@.number),
    {
        if self.is_entering_number {
            match key {
                Key::Char(c) => {
                    if c >= '0' && c <= '9' {
                        push_char(&mut self.number_input, c);
                    }
                },
                Key::Backspace => {
                    if !self.number_input.as_str().is_empty() {
                        pop_char(&mut self.number_input);
                    } else {
                        self.is_entering_number = false;
                    }
                    pop_char(&mut self.number_input);
                },
                Key::Enter => {
                    match parse_digits(&self.number_input) {
                        Some(number) => {
                            if !self.auto_selector.input_buffer.as_str().is_empty() {
                                let ghost s0 = bonuses_view(self.selected_values@);
                                let ghost name0 = self.auto_selector.input_buffer@;
                                let trait_name = self.auto_selector.input_buffer.clone();
                                self.auto_selector.input_buffer = String::new();
                                self.selected_values.push((trait_name, number));
                                self.number_input = String::new();
                                self.is_entering_number = false;
                                proof {
                                    assert(bonuses_view(self.selected_values@) =~= s0.push(
                                        (name0, number),
                                    ));
                                }
                            }
                        },
                        None => {},
                    }
                },
                Key::Esc => {
                    self.number_input = String::new();
                    self.auto_selector.input_buffer = String::new();
                    self.is_entering_number = false;
                },
                _ => {},
            }
        } else {
            match key {
                Key::Backspace => {
                    if !self.auto_selector.input_buffer.as_str().is_empty() {
                        self.auto_selector.on_key(key);
                    } else if self.selected_values.len() > 0 {
                        let ghost s0 = bonuses_view(self.selected_values@);
                        match self.selected_values.pop() {
                            Some(pair) => {
                                self.auto_selector.input_buffer = pair.0;
                                self.is_entering_number = false;
                                proof {
                                    assert(bonuses_view(self.selected_values@) =~= s0.drop_last());
                                    assert(self.auto_selector.input_buffer@ == s0.last().0);
                                }
                            },
                            None => {
                                proof {
                                    assert(false);
                                }
                            },
                        }
                    }
                },
                Key::Enter => {
                    if self.auto_selector.suggestions.len() > 0 {
                        if self.auto_selector.selected_suggestion
                            < self.auto_selector.suggestions.len() {
                            let chosen = self.auto_selector.suggestions[self.auto_selector.selected_suggestion].clone();
                            self.auto_selector.input_buffer = chosen;
                            self.auto_selector.suggestions = Vec::new();
                            self.is_entering_number = true;
                            proof {
                                assert(crate::text::strs_view(self.auto_selector.suggestions@)
                                    =~= Seq::<Seq<char>>::empty());
                            }
                        }
                    }
                },
                _ => {
                    self.auto_selector.on_key(key);
                },
            }
        }
    }
}

} // verus!
