//! A placed design: cells at block positions with their parameters and connections.

use vstd::prelude::*;

use crate::cell_params::{assoc_get, assoc_lookup, CellExt, CellGetAttribError, ParamLookup};
use crate::text::{int_literal, parse_i64_decimal, value_within};

verus! {

/// What a connection bit is tied to.
#[derive(Clone, Copy, Debug, PartialEq, Eq, Structural)]
pub enum SignalType {
    /// A constant: 0, 1, or 2 for anything else.
    Constant(u32),
    /// The net with the given index.
    Id(i64),
}

/// One bit of a connection.
#[derive(Clone, Copy, Debug, PartialEq, Eq, Structural)]
pub struct Signal {
    pub ty: Option<SignalType>,
}

/// The bits of a port.
#[derive(Debug)]
pub struct BitVector {
    pub signal: Vec<Signal>,
}

/// The value of a parameter or attribute.
#[derive(Debug)]
pub enum ParameterValue {
    Int(i64),
    Str(String),
}

/// A parameter or attribute.
#[derive(Debug)]
pub struct Parameter {
    pub value: Option<ParameterValue>,
}

/// Block position of a placed cell's minimum corner.
#[derive(Clone, Copy, Debug, PartialEq, Eq, Structural)]
pub struct Position {
    pub x: u32,
    pub y: u32,
    pub z: u32,
}

/// A placed cell.
#[derive(Debug)]
pub struct Cell {
    pub pos: Option<Position>,
    /// Type of this cell (either a built-in magic cell, or the name of an NBT file).
    pub ty: String,
    pub parameter: Vec<(String, Parameter)>,
    pub attribute: Vec<(String, Parameter)>,
    /// Bits of each port.
    pub connection: Vec<(String, BitVector)>,
}

/// Metadata about a named net.
#[derive(Debug)]
pub struct NetMetadata {
    pub hide_name: bool,
    pub bits: Option<BitVector>,
    pub attributes: Vec<(String, Parameter)>,
}

/// A placed design.
#[derive(Debug)]
pub struct PlacedDesign {
    pub creator: String,
    pub nets: Vec<(String, NetMetadata)>,
    pub cells: Vec<Cell>,
}

/// The numeric reading of a parameter value: integers as they are, strings parsed as decimal.
pub open spec fn decimal_param(p: Option<Parameter>) -> ParamLookup {
    match p {
        None => ParamLookup::Missing,
        Some(p) => match p.value {
            None => ParamLookup::Missing,
            Some(ParameterValue::Int(i)) => ParamLookup::Value(i),
            Some(ParameterValue::Str(s)) => if value_within(int_literal(s@, 10, true), i64::MIN as int, i64::MAX as int) {
                ParamLookup::Value(int_literal(s@, 10, true).unwrap() as i64)
            } else {
                ParamLookup::Unparsable
            },
        },
    }
}

impl CellExt for Cell {
    open spec fn param_lookup(&self, name: Seq<char>) -> ParamLookup {
        decimal_param(assoc_lookup(self.parameter@, name))
    }

    fn get_param_i64(&self, name: &str) -> (r: Result<i64, CellGetAttribError>) {
        let value = match assoc_get(&self.parameter, name) {
            Some(p) => match &p.value {
                Some(v) => v,
                None => return Err(CellGetAttribError::AttributeMissing(name.to_string())),
            },
            None => return Err(CellGetAttribError::AttributeMissing(name.to_string())),
        };
        match value {
            ParameterValue::Int(i) => Ok(*i),
            ParameterValue::Str(s) => match parse_i64_decimal(s.as_str()) {
                Ok(v) => Ok(v),
                Err(e) => Err(CellGetAttribError::ParseFailed(e)),
            },
        }
    }
}

} // verus!
