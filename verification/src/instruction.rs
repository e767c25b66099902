//! The instruction set and address resolution.

use vstd::prelude::*;
use crate::datacube::DataCube;
use crate::errors::{AsmParseError, HRMRuntimeError};
use crate::text::{dec_val, is_usize_numeral, parse_usize, str_eq};

verus! {

/// A floor address: direct, naming a tile, or indirect, naming the tile
/// whose index is stored at the given tile.
#[derive(Clone, Copy, Debug, PartialEq, Eq, Structural)]
pub enum Address {
    Direct(usize),
    Indirect(usize),
}

/// One instruction of the machine. Labels are names; a program resolves
/// them through its label table.
#[derive(Clone, Debug, PartialEq)]
pub enum Instruction {
    Inbox,
    Outbox,
    CopyFrom(Address),
    CopyTo(Address),
    Add(Address),
    Sub(Address),
    BumpUp(Address),
    BumpDn(Address),
    _Label(String),
    Jump(String),
    JumpZ(String),
    JumpN(String),
}

impl Address {
    /// The tile index this address finally names on the given floor, or
    /// the error raised while resolving it. A direct index is returned
    /// unchecked; an indirect one must go through an in-range tile that
    /// holds a non-negative number.
    pub open spec fn spec_raw_address(
        self,
        floor: Seq<Option<DataCube>>,
    ) -> Result<int, HRMRuntimeError> {
        match self {
            Address::Direct(x) => Ok(x as int),
            Address::Indirect(x) => {
                if x >= floor.len() {
                    Err(HRMRuntimeError::BadTileAddress)
                } else {
                    match floor[x as int] {
                        Some(DataCube::Number(m)) => {
                            if m >= 0 {
                                Ok(m as int)
                            } else {
                                Err(HRMRuntimeError::BadTileAddress)
                            }
                        },
                        Some(DataCube::Letter(_)) => Err(HRMRuntimeError::LetterAddress),
                        None => Err(HRMRuntimeError::EmptyFloor),
                    }
                }
            },
        }
    }

    /// The tile this address names for reading: resolution followed by a
    /// bounds check.
    pub open spec fn spec_follow(
        self,
        floor: Seq<Option<DataCube>>,
    ) -> Result<Option<DataCube>, HRMRuntimeError> {
        match self.spec_raw_address(floor) {
            Ok(i) => {
                if i < floor.len() {
                    Ok(floor[i])
                } else {
                    Err(HRMRuntimeError::BadTileAddress)
                }
            },
            Err(e) => Err(e),
        }
    }

    /// The address a token denotes, if any: `k` is direct, `[k]` indirect,
    /// with `k` a decimal numeral that fits a `usize`.
    pub open spec fn spec_address_of(v: Seq<char>) -> Option<Address> {
        if v.len() >= 2 && v[0] == '[' && v[v.len() - 1] == ']' {
            let inner = v.subrange(1, v.len() - 1);
            if is_usize_numeral(inner) {
                Some(Address::Indirect(dec_val(inner) as usize))
            } else {
                None
            }
        } else {
            if is_usize_numeral(v) {
                Some(Address::Direct(dec_val(v) as usize))
            } else {
                None
            }
        }
    }

    /// Reads the text form of an address: `k` is direct, `[k]` indirect.
    pub fn parse(s: &str) -> (r: Result<Address, AsmParseError>)
        ensures
            match Address::spec_address_of(s@) {
                Some(a) => r == Ok::<Address, AsmParseError>(a),
                None => r matches Err(AsmParseError::IntParseError),
            },
    {
        let n = s.unicode_len();
        if n >= 2 && s.get_char(0) == '[' && s.get_char(n - 1) == ']' {
            let inner = s.substring_char(1, n - 1);
            match parse_usize(inner) {
                Some(x) => Ok(Address::Indirect(x)),
                None => Err(AsmParseError::IntParseError),
            }
        } else {
            match parse_usize(s) {
                Some(x) => Ok(Address::Direct(x)),
                None => Err(AsmParseError::IntParseError),
            }
        }
    }

    /// Resolves the address without touching the floor.
    pub fn raw_address(&self, floor: &Vec<Option<DataCube>>) -> (r: Result<
        usize,
        HRMRuntimeError,
    >)
        ensures
            r is Ok <==> self.spec_raw_address(floor@) is Ok,
            r is Ok ==> r->Ok_0 as int == self.spec_raw_address(floor@)->Ok_0,
            r is Err ==> Err::<int, HRMRuntimeError>(r->Err_0) == self.spec_raw_address(floor@),
    {
        match self {
            Address::Direct(x) => Ok(*x),
            Address::Indirect(x) => {
                if *x >= floor.len() {
                    Err(HRMRuntimeError::BadTileAddress)
                } else {
                    match floor[*x] {
                        Some(DataCube::Number(m)) => {
                            if m >= 0 {
                                Ok(m as usize)
                            } else {
                                Err(HRMRuntimeError::BadTileAddress)
                            }
                        },
                        Some(DataCube::Letter(_)) => Err(HRMRuntimeError::LetterAddress),
                        None => Err(HRMRuntimeError::EmptyFloor),
                    }
                }
            },
        }
    }

    /// The datum at the tile this address names, by value.
    pub fn follow(&self, floor: &Vec<Option<DataCube>>) -> (r: Result<
        Option<DataCube>,
        HRMRuntimeError,
    >)
        ensures
            r == self.spec_follow(floor@),
    {
        let i = match self.raw_address(floor) {
            Ok(i) => i,
            Err(e) => {
                return Err(e);
            },
        };
        if i < floor.len() {
            Ok(floor[i])
        } else {
            Err(HRMRuntimeError::BadTileAddress)
        }
    }

    /// The tile index this address names for writing: resolution plus the
    /// guarantee that the index is inside the floor.
    pub fn follow_mut(&self, floor: &Vec<Option<DataCube>>) -> (r: Result<usize, HRMRuntimeError>)
        ensures
            ({
                match self.spec_follow(floor@) {
                    Ok(_) => r is Ok && r->Ok_0 as int == self.spec_raw_address(floor@)->Ok_0
                        && r->Ok_0 < floor@.len(),
                    Err(e) => r == Err::<usize, HRMRuntimeError>(e),
                }
            }),
    {
        let i = match self.raw_address(floor) {
            Ok(i) => i,
            Err(e) => {
                return Err(e);
            },
        };
        if i < floor.len() {
            Ok(i)
        } else {
            Err(HRMRuntimeError::BadTileAddress)
        }
    }
}

impl Instruction {
    /// Whether this instruction transfers control.
    pub open spec fn spec_is_jump(&self) -> bool {
        match self {
            Instruction::Jump(_) | Instruction::JumpZ(_) | Instruction::JumpN(_) => true,
            _ => false,
        }
    }

    /// An exec test matching `spec_is_jump`.
    pub fn is_jump(&self) -> (r: bool)
        ensures
            r == self.spec_is_jump(),
    {
        match self {
            Instruction::Jump(_) | Instruction::JumpZ(_) | Instruction::JumpN(_) => true,
            _ => false,
        }
    }

    /// What `parse_from_args` must hand back for a statement token and an
    /// optional argument token. A trailing `:` declares a label; `INBOX`
    /// and `OUTBOX` take no argument; the memory mnemonics take an
    /// address; the jump mnemonics take a label name; anything else is an
    /// unexpected token.
    pub open spec fn spec_parse_from_args(
        st: Seq<char>,
        arg: Option<Seq<char>>,
        r: Result<Instruction, AsmParseError>,
    ) -> bool {
        if st.len() > 0 && st.last() == ':' {
            match arg {
                Some(a) => r matches Err(AsmParseError::UnexpectedToken(t)) && t@ == a,
                None => r matches Ok(Instruction::_Label(l)) && l@ == st.drop_last(),
            }
        } else if st == "INBOX"@ {
            match arg {
                Some(a) => r matches Err(AsmParseError::UnexpectedToken(t)) && t@ == a,
                None => r == Ok::<Instruction, AsmParseError>(Instruction::Inbox),
            }
        } else if st == "OUTBOX"@ {
            match arg {
                Some(a) => r matches Err(AsmParseError::UnexpectedToken(t)) && t@ == a,
                None => r == Ok::<Instruction, AsmParseError>(Instruction::Outbox),
            }
        } else if st == "COPYFROM"@ {
            Instruction::address_case(arg, r, |a: Address| Instruction::CopyFrom(a))
        } else if st == "COPYTO"@ {
            Instruction::address_case(arg, r, |a: Address| Instruction::CopyTo(a))
        } else if st == "ADD"@ {
            Instruction::address_case(arg, r, |a: Address| Instruction::Add(a))
        } else if st == "SUB"@ {
            Instruction::address_case(arg, r, |a: Address| Instruction::Sub(a))
        } else if st == "BUMPUP"@ {
            Instruction::address_case(arg, r, |a: Address| Instruction::BumpUp(a))
        } else if st == "BUMPDN"@ {
            Instruction::address_case(arg, r, |a: Address| Instruction::BumpDn(a))
        } else if st == "JUMP"@ {
            match arg {
                Some(a) => r matches Ok(Instruction::Jump(l)) && l@ == a,
                None => r matches Err(AsmParseError::ExpectedToken),
            }
        } else if st == "JUMPZ"@ {
            match arg {
                Some(a) => r matches Ok(Instruction::JumpZ(l)) && l@ == a,
                None => r matches Err(AsmParseError::ExpectedToken),
            }
        } else if st == "JUMPN"@ {
            match arg {
                Some(a) => r matches Ok(Instruction::JumpN(l)) && l@ == a,
                None => r matches Err(AsmParseError::ExpectedToken),
            }
        } else {
            r matches Err(AsmParseError::UnexpectedToken(t)) && t@ == st
        }
    }

    /// The outcome of a mnemonic that takes one address argument.
    pub open spec fn address_case(
        arg: Option<Seq<char>>,
        r: Result<Instruction, AsmParseError>,
        make: spec_fn(Address) -> Instruction,
    ) -> bool {
        match arg {
            Some(a) => match Address::spec_address_of(a) {
                Some(addr) => r == Ok::<Instruction, AsmParseError>(make(addr)),
                None => r matches Err(AsmParseError::IntParseError),
            },
            None => r matches Err(AsmParseError::ExpectedToken),
        }
    }

    /// Reads one statement token and its optional argument token.
    pub fn parse_from_args(statement: &str, arg: Option<&str>) -> (r: Result<
        Instruction,
        AsmParseError,
    >)
        ensures
            Instruction::spec_parse_from_args(
                statement@,
                match arg {
                    Some(a) => Some(a@),
                    None => None,
                },
                r,
            ),
    {
        let n = statement.unicode_len();
        if n > 0 && statement.get_char(n - 1) == ':' {
            return match arg {
                Some(a) => Err(AsmParseError::UnexpectedToken(a.to_owned())),
                None => Ok(Instruction::_Label(statement.substring_char(0, n - 1).to_owned())),
            };
        }
        if str_eq(statement, "INBOX") {
            return match arg {
                Some(a) => Err(AsmParseError::UnexpectedToken(a.to_owned())),
                None => Ok(Instruction::Inbox),
            };
        }
        if str_eq(statement, "OUTBOX") {
            return match arg {
                Some(a) => Err(AsmParseError::UnexpectedToken(a.to_owned())),
                None => Ok(Instruction::Outbox),
            };
        }
        if str_eq(statement, "COPYFROM") {
            return match arg {
                Some(a) => match Address::parse(a) {
                    Ok(addr) => Ok(Instruction::CopyFrom(addr)),
                    Err(e) => Err(e),
                },
                None => Err(AsmParseError::ExpectedToken),
            };
        }
        if str_eq(statement, "COPYTO") {
            return match arg {
                Some(a) => match Address::parse(a) {
                    Ok(addr) => Ok(Instruction::CopyTo(addr)),
                    Err(e) => Err(e),
                },
                None => Err(AsmParseError::ExpectedToken),
            };
        }
        if str_eq(statement, "ADD") {
            return match arg {
                Some(a) => match Address::parse(a) {
                    Ok(addr) => Ok(Instruction::Add(addr)),
                    Err(e) => Err(e),
                },
                None => Err(AsmParseError::ExpectedToken),
            };
        }
        if str_eq(statement, "SUB") {
            return match arg {
                Some(a) => match Address::parse(a) {
                    Ok(addr) => Ok(Instruction::Sub(addr)),
                    Err(e) => Err(e),
                },
                None => Err(AsmParseError::ExpectedToken),
            };
        }
        if str_eq(statement, "BUMPUP") {
            return match arg {
                Some(a) => match Address::parse(a) {
                    Ok(addr) => Ok(Instruction::BumpUp(addr)),
                    Err(e) => Err(e),
                },
                None => Err(AsmParseError::ExpectedToken),
            };
        }
        if str_eq(statement, "BUMPDN") {
            return match arg {
                Some(a) => match Address::parse(a) {
                    Ok(addr) => Ok(Instruction::BumpDn(addr)),
                    Err(e) => Err(e),
                },
                None => Err(AsmParseError::ExpectedToken),
            };
        }
        if str_eq(statement, "JUMP") {
            return match arg {
                Some(a) => Ok(Instruction::Jump(a.to_owned())),
                None => Err(AsmParseError::ExpectedToken),
            };
        }
        if str_eq(statement, "JUMPZ") {
            return match arg {
                Some(a) => Ok(Instruction::JumpZ(a.to_owned())),
                None => Err(AsmParseError::ExpectedToken),
            };
        }
        if str_eq(statement, "JUMPN") {
            return match arg {
                Some(a) => Ok(Instruction::JumpN(a.to_owned())),
                None => Err(AsmParseError::ExpectedToken),
            };
        }
        Err(AsmParseError::UnexpectedToken(statement.to_owned()))
    }

    /// A structural copy with the same label text and addresses.
    pub fn duplicate(&self) -> (r: Instruction)
        ensures
            r == *self,
    {
        match self {
            Instruction::Inbox => Instruction::Inbox,
            Instruction::Outbox => Instruction::Outbox,
            Instruction::CopyFrom(a) => Instruction::CopyFrom(*a),
            Instruction::CopyTo(a) => Instruction::CopyTo(*a),
            Instruction::Add(a) => Instruction::Add(*a),
            Instruction::Sub(a) => Instruction::Sub(*a),
            Instruction::BumpUp(a) => Instruction::BumpUp(*a),
            Instruction::BumpDn(a) => Instruction::BumpDn(*a),
            Instruction::_Label(l) => Instruction::_Label(l.clone()),
            Instruction::Jump(l) => Instruction::Jump(l.clone()),
            Instruction::JumpZ(l) => Instruction::JumpZ(l.clone()),
            Instruction::JumpN(l) => Instruction::JumpN(l.clone()),
        }
    }
}

} // verus!
