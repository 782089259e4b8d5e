//! Layer blend modes, their display names and their order.
use vstd::prelude::*;

verus! {

/// How a layer's colors combine with what lies below it.
#[derive(Clone, Copy, Debug, PartialEq, Eq, Structural)]
pub enum BlendMode {
    Normal,
    Multiply,
    Screen,
    Overlay,
    Darken,
    Lighten,
    Difference,
    ColorDodge,
    ColorBurn,
    Hue,
    Saturation,
    Color,
    Luminosity,
}

/// The display name of `mode`.
pub open spec fn mode_name(mode: BlendMode) -> Seq<char> {
    match mode {
        BlendMode::Normal => "Normal"@,
        BlendMode::Multiply => "Multiply"@,
        BlendMode::Screen => "Screen"@,
        BlendMode::Overlay => "Overlay"@,
        BlendMode::Darken => "Darken"@,
        BlendMode::Lighten => "Lighten"@,
        BlendMode::Difference => "Difference"@,
        BlendMode::ColorDodge => "Color Dodge"@,
        BlendMode::ColorBurn => "Color Burn"@,
        BlendMode::Hue => "Hue"@,
        BlendMode::Saturation => "Saturation"@,
        BlendMode::Color => "Color"@,
        BlendMode::Luminosity => "Luminosity"@,
    }
}

/// The position of `mode` in the list of all modes, which is also the code
/// the renderer receives for it.
pub open spec fn mode_index(mode: BlendMode) -> int {
    match mode {
        BlendMode::Normal => 0,
        BlendMode::Multiply => 1,
        BlendMode::Screen => 2,
        BlendMode::Overlay => 3,
        BlendMode::Darken => 4,
        BlendMode::Lighten => 5,
        BlendMode::Difference => 6,
        BlendMode::ColorDodge => 7,
        BlendMode::ColorBurn => 8,
        BlendMode::Hue => 9,
        BlendMode::Saturation => 10,
        BlendMode::Color => 11,
        BlendMode::Luminosity => 12,
    }
}

/// Number of blend modes.
pub const MODE_COUNT: usize = 13;

impl Default for BlendMode {
    /// `Normal`.
    fn default() -> (mode: Self)
        ensures
            mode == BlendMode::Normal,
    {
        BlendMode::Normal
    }
}

impl BlendMode {
    /// Every blend mode, in the order the editor lists them.
    pub fn all() -> (modes: [BlendMode; 13])
        ensures
            forall|i: int| 0 <= i < 13 ==> mode_index(#[trigger] modes@[i]) == i,
    {
        [
            BlendMode::Normal,
            BlendMode::Multiply,
            BlendMode::Screen,
            BlendMode::Overlay,
            BlendMode::Darken,
            BlendMode::Lighten,
            BlendMode::Difference,
            BlendMode::ColorDodge,
            BlendMode::ColorBurn,
            BlendMode::Hue,
            BlendMode::Saturation,
            BlendMode::Color,
            BlendMode::Luminosity,
        ]
    }

    /// The name shown for this mode and written to project files.
    pub fn name(self) -> (name: &'static str)
        ensures
            name@ == mode_name(self),
    {
        match self {
            BlendMode::Normal => "Normal",
            BlendMode::Multiply => "Multiply",
            BlendMode::Screen => "Screen",
            BlendMode::Overlay => "Overlay",
            BlendMode::Darken => "Darken",
            BlendMode::Lighten => "Lighten",
            BlendMode::Difference => "Difference",
            BlendMode::ColorDodge => "Color Dodge",
            BlendMode::ColorBurn => "Color Burn",
            BlendMode::Hue => "Hue",
            BlendMode::Saturation => "Saturation",
            BlendMode::Color => "Color",
            BlendMode::Luminosity => "Luminosity",
        }
    }

    /// The position of this mode in `all()`.
    pub fn index(self) -> (index: u32)
        ensures
            index == mode_index(self),
    {
        match self {
            BlendMode::Normal => 0,
            BlendMode::Multiply => 1,
            BlendMode::Screen => 2,
            BlendMode::Overlay => 3,
            BlendMode::Darken => 4,
            BlendMode::Lighten => 5,
            BlendMode::Difference => 6,
            BlendMode::ColorDodge => 7,
            BlendMode::ColorBurn => 8,
            BlendMode::Hue => 9,
            BlendMode::Saturation => 10,
            BlendMode::Color => 11,
            BlendMode::Luminosity => 12,
        }
    }

    /// The mode whose name is `name`, if there is one.
    pub fn from_name(name: &str) -> (mode: Option<BlendMode>)
        ensures
            mode == named(name@),
    {
        let wanted = name.to_owned();
        let modes = BlendMode::all();
        let mut i: usize = 0;
        while i < MODE_COUNT
            invariant
                i <= MODE_COUNT,
                wanted@ == name@,
                forall|j: int| 0 <= j < 13 ==> mode_index(#[trigger] modes@[j]) == j,
                forall|j: int| 0 <= j < i ==> mode_name(#[trigger] modes@[j]) != name@,
            decreases MODE_COUNT - i,
        {
            let candidate = modes[i].name().to_owned();
            if candidate == wanted {
                proof {
                    lemma_named(modes@[i as int]);
                }
                return Some(modes[i]);
            }
            i = i + 1;
        }
        assert forall|m: BlendMode| mode_name(m) != name@ by {
            let j = mode_index(m);
            assert(mode_name(modes@[j]) != name@);
            lemma_index_determines(m, modes@[j]);
        }
        None
    }
}

/// Two modes at the same position are the same mode.
proof fn lemma_index_determines(a: BlendMode, b: BlendMode)
    requires
        mode_index(a) == mode_index(b),
    ensures
        a == b,
{
}

/// Different modes have different names, so a name read back identifies
/// the mode that was written.
pub proof fn lemma_names_distinct(a: BlendMode, b: BlendMode)
    requires
        a != b,
    ensures
        mode_name(a) != mode_name(b),
{
    reveal_strlit("Normal");
    reveal_strlit("Multiply");
    reveal_strlit("Screen");
    reveal_strlit("Overlay");
    reveal_strlit("Darken");
    reveal_strlit("Lighten");
    reveal_strlit("Difference");
    reveal_strlit("Color Dodge");
    reveal_strlit("Color Burn");
    reveal_strlit("Hue");
    reveal_strlit("Saturation");
    reveal_strlit("Color");
    reveal_strlit("Luminosity");
    if mode_name(a) == mode_name(b) {
        assert(mode_name(a).len() == mode_name(b).len());
        assert(mode_name(a)[0] == mode_name(b)[0]);
    }
}

/// The mode named `name`, if any mode has that name.
pub open spec fn named(name: Seq<char>) -> Option<BlendMode> {
    if exists|m: BlendMode| mode_name(m) == name {
        Some(choose|m: BlendMode| mode_name(m) == name)
    } else {
        None
    }
}

/// Looking a mode up by its own name gives that mode back.
pub proof fn lemma_named(mode: BlendMode)
    ensures
        named(mode_name(mode)) == Some(mode),
{
    let m = choose|m: BlendMode| mode_name(m) == mode_name(mode);
    if m != mode {
        lemma_names_distinct(m, mode);
    }
}

} // verus!
