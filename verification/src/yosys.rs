//! A synthesized design as Yosys writes it: modules of cells connected by numbered signals.

use vstd::prelude::*;

use crate::cell_params::{assoc_get, assoc_lookup, CellExt, CellGetAttribError, ParamLookup};
use crate::design::SignalType;
use crate::text::{int_literal, parse_i64_binary, str_eq, value_within};

verus! {

/// A synthesized design.
pub struct Design {
    pub creator: String,
    pub modules: Vec<(String, Module)>,
}

/// A module: its ports, cells and named nets.
pub struct Module {
    pub attributes: Vec<(String, String)>,
    pub parameter_default_values: Option<Vec<(String, String)>>,
    pub ports: Vec<(String, Port)>,
    pub cells: Vec<(String, Cell)>,
    pub netnames: Vec<(String, NetName)>,
}

/// A connection bit: a constant written as a string, or a signal number.
pub enum ConstOrSignal {
    Const(String),
    Signal(i64),
}

/// The placed-design reading of a connection bit.
pub open spec fn spec_to_type(c: ConstOrSignal) -> SignalType {
    match c {
        ConstOrSignal::Const(s) => if s@ == "0"@ {
            SignalType::Constant(0)
        } else if s@ == "1"@ {
            SignalType::Constant(1)
        } else {
            SignalType::Constant(2)
        },
        ConstOrSignal::Signal(s) => SignalType::Id(s),
    }
}

impl ConstOrSignal {
    /// The placed-design reading of this bit: constants `"0"` and `"1"` keep their value,
    /// any other constant becomes 2, and signals keep their number.
    pub fn to_type(&self) -> (r: SignalType)
        ensures
            r == spec_to_type(*self),
    {
        match self {
            ConstOrSignal::Const(s) => if str_eq(s.as_str(), "0") {
                SignalType::Constant(0)
            } else if str_eq(s.as_str(), "1") {
                SignalType::Constant(1)
            } else {
                SignalType::Constant(2)
            },
            ConstOrSignal::Signal(s) => SignalType::Id(*s),
        }
    }
}

/// A module port.
pub struct Port {
    pub direction: PortDirection,
    pub bits: Vec<ConstOrSignal>,
}

/// A cell of a module.
pub struct Cell {
    pub hide_name: usize,
    pub ty: String,
    pub parameters: Vec<(String, String)>,
    pub attributes: Vec<(String, String)>,
    /// Map from port name to direction.
    pub port_directions: Vec<(String, PortDirection)>,
    /// Map from port name to signal indexes.
    pub connections: Vec<(String, Vec<ConstOrSignal>)>,
}

/// Direction of a port.
#[derive(Clone, Copy, Debug, PartialEq, Eq, Structural)]
pub enum PortDirection {
    Input,
    Output,
}

/// A named net.
pub struct NetName {
    pub hide_name: usize,
    pub bits: Vec<ConstOrSignal>,
    pub attributes: Vec<(String, String)>,
}

/// The numeric reading of a parameter written as a binary string.
pub open spec fn binary_param(p: Option<String>) -> ParamLookup {
    match p {
        None => ParamLookup::Missing,
        Some(s) => if value_within(int_literal(s@, 2, true), i64::MIN as int, i64::MAX as int) {
            ParamLookup::Value(int_literal(s@, 2, true).unwrap() as i64)
        } else {
            ParamLookup::Unparsable
        },
    }
}

impl CellExt for Cell {
    open spec fn param_lookup(&self, name: Seq<char>) -> ParamLookup {
        binary_param(assoc_lookup(self.parameters@, name))
    }

    fn get_param_i64(&self, name: &str) -> (r: Result<i64, CellGetAttribError>) {
        match assoc_get(&self.parameters, name) {
            None => Err(CellGetAttribError::AttributeMissing(name.to_string())),
            Some(v) => match parse_i64_binary(v.as_str()) {
                Ok(x) => Ok(x),
                Err(e) => Err(CellGetAttribError::ParseFailed(e)),
            },
        }
    }
}

} // verus!
