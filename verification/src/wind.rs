//! The wind plugin's scripting surface: the two mutations a script can call.
//! Reading the wind goes through the reflection path, so only these are
//! declared; whichever language backend is loaded builds them.

use vstd::prelude::*;

verus! {

/// The kind of value a script passes for an argument.
#[derive(Clone, Copy, PartialEq, Eq, Debug, Structural)]
pub enum ParamKind {
    Float,
}

/// One script-callable action: its script name, the action it raises, its
/// arguments and its documentation line.
pub struct Binding {
    pub name: &'static str,
    pub action: &'static str,
    pub args: Vec<(&'static str, ParamKind)>,
    pub doc: &'static str,
}

/// The wind's scripting extension.
pub struct WindScriptExtension;

/// The argument names of the wind's two actions, in order.
pub open spec fn set_wind_args() -> Seq<Seq<char>> {
    seq!["speed"@, "direction"@]
}

pub open spec fn set_gusts_args() -> Seq<Seq<char>> {
    seq!["strength"@, "frequency"@, "turbulence"@]
}

/// The names of a binding's arguments.
pub open spec fn arg_names(b: Binding) -> Seq<Seq<char>> {
    b.args@.map_values(|a: (&'static str, ParamKind)| a.0@)
}

/// Every argument of a binding is a float.
pub open spec fn all_float(b: Binding) -> bool {
    forall|i: int| 0 <= i < b.args@.len() ==> #[trigger] b.args@[i].1 == ParamKind::Float
}

impl WindScriptExtension {
    /// The extension's name, which scripts see as the namespace.
    pub fn name(&self) -> (n: &'static str)
        ensures
            n@ == "wind"@,
    {
        "wind"
    }

    /// `set_wind(speed, direction)` and
    /// `set_wind_gusts(strength, frequency, turbulence)`, all floats.
    pub fn bindings(&self) -> (b: Vec<Binding>)
        ensures
            b@.len() == 2,
            b@[0].name@ == "set_wind"@,
            b@[0].action@ == "set_wind"@,
            arg_names(b@[0]) == set_wind_args(),
            all_float(b@[0]),
            b@[0].doc@ == "Set the world wind: speed in m/s, direction in degrees the wind travels toward."@,
            b@[1].name@ == "set_wind_gusts"@,
            b@[1].action@ == "set_wind_gusts"@,
            arg_names(b@[1]) == set_gusts_args(),
            all_float(b@[1]),
            b@[1].doc@ == "Set gust depth (0-1), gusts per second, and cross-wind turbulence (0-1)."@,
    {
        let mut wind_args: Vec<(&'static str, ParamKind)> = Vec::new();
        wind_args.push(("speed", ParamKind::Float));
        wind_args.push(("direction", ParamKind::Float));
        let mut gust_args: Vec<(&'static str, ParamKind)> = Vec::new();
        gust_args.push(("strength", ParamKind::Float));
        gust_args.push(("frequency", ParamKind::Float));
        gust_args.push(("turbulence", ParamKind::Float));
        let set_wind = Binding {
            name: "set_wind",
            action: "set_wind",
            args: wind_args,
            doc: "Set the world wind: speed in m/s, direction in degrees the wind travels toward.",
        };
        let set_gusts = Binding {
            name: "set_wind_gusts",
            action: "set_wind_gusts",
            args: gust_args,
            doc: "Set gust depth (0-1), gusts per second, and cross-wind turbulence (0-1).",
        };
        proof {
            assert(arg_names(set_wind) =~= set_wind_args());
            assert(arg_names(set_gusts) =~= set_gusts_args());
        }
        let mut b: Vec<Binding> = Vec::new();
        b.push(set_wind);
        b.push(set_gusts);
        b
    }
}

} // verus!
