//! Settings of the editor's labelled sliders. Drawing them is up to the
//! user interface; the library keeps what each slider was built with.
use std::ops::RangeInclusive;
use vstd::prelude::*;

verus! {

/// A labelled slider bound to a numeric value within an inclusive range.
pub struct Slider<'a, N> {
    value: &'a mut N,
    range: RangeInclusive<N>,
    label: String,
    suffix: String,
    logarithmic: bool,
    percentage: bool,
}

/// What a slider was built with, apart from the value it edits.
pub struct SliderSettings {
    pub label: Seq<char>,
    pub suffix: Seq<char>,
    pub logarithmic: bool,
    pub percentage: bool,
}

impl<'a, N> Slider<'a, N> {
    /// The slider's label, suffix and flags.
    pub closed spec fn settings(&self) -> SliderSettings {
        SliderSettings {
            label: self.label@,
            suffix: self.suffix@,
            logarithmic: self.logarithmic,
            percentage: self.percentage,
        }
    }

    /// The value the slider edits, as it stands.
    pub closed spec fn current(&self) -> N {
        *self.value
    }

    /// The range the slider offers.
    pub closed spec fn bounds(&self) -> RangeInclusive<N> {
        self.range
    }

    /// A slider over `range` for `value`, without label or suffix, linear
    /// and not shown as a percentage.
    pub fn new(value: &'a mut N, range: RangeInclusive<N>) -> (slider: Self)
        ensures
            slider.settings() == (SliderSettings {
                label: Seq::empty(),
                suffix: Seq::empty(),
                logarithmic: false,
                percentage: false,
            }),
            slider.current() == *old(value),
            slider.bounds() == range,
    {
        Slider { value, range, label: String::new(), suffix: String::new(), logarithmic: false, percentage: false }
    }

    /// The same slider with the label `label`.
    pub fn text(self, label: &str) -> (slider: Self)
        ensures
            slider.settings() == (SliderSettings { label: label@, ..self.settings() }),
            slider.current() == self.current(),
            slider.bounds() == self.bounds(),
    {
        let mut slider = self;
        slider.label = label.to_owned();
        slider
    }

    /// The same slider with `suffix` after the value.
    pub fn suffix(self, suffix: &str) -> (slider: Self)
        ensures
            slider.settings() == (SliderSettings { suffix: suffix@, ..self.settings() }),
            slider.current() == self.current(),
            slider.bounds() == self.bounds(),
    {
        let mut slider = self;
        slider.suffix = suffix.to_owned();
        slider
    }

    /// The same slider on a logarithmic scale or not.
    pub fn logarithmic(self, logarithmic: bool) -> (slider: Self)
        ensures
            slider.settings() == (SliderSettings { logarithmic, ..self.settings() }),
            slider.current() == self.current(),
            slider.bounds() == self.bounds(),
    {
        let mut slider = self;
        slider.logarithmic = logarithmic;
        slider
    }

    /// The same slider showing its value as a percentage, with the suffix `%`.
    pub fn percentage(self) -> (slider: Self)
        ensures
            slider.settings() == (SliderSettings { percentage: true, suffix: "%"@, ..self.settings() }),
            slider.current() == self.current(),
            slider.bounds() == self.bounds(),
    {
        let mut slider = self;
        slider.percentage = true;
        slider.suffix = "%".to_owned();
        slider
    }

    /// The label.
    pub fn label_text(&self) -> (label: &str)
        ensures
            label@ == self.settings().label,
    {
        self.label.as_str()
    }

    /// The text shown after the value.
    pub fn suffix_text(&self) -> (suffix: &str)
        ensures
            suffix@ == self.settings().suffix,
    {
        self.suffix.as_str()
    }

    /// Whether the scale is logarithmic.
    pub fn is_logarithmic(&self) -> (logarithmic: bool)
        ensures
            logarithmic == self.settings().logarithmic,
    {
        self.logarithmic
    }

    /// Whether the value is shown as a percentage.
    pub fn is_percentage(&self) -> (percentage: bool)
        ensures
            percentage == self.settings().percentage,
    {
        self.percentage
    }
}

} // verus!
