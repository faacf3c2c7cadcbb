//! Bytecode IR: the on-disk LuaJIT 2.x format as parsed.
//!
//! This module is the single source of truth for bytecode-format data
//! types ([`Module`], [`Proto`], [`Instruction`], [`Opcode`], the
//! constant enums, [`UpvalDesc`], [`DebugInfo`]) and the flag constants
//! that describe their on-disk layout. It is data plus the small
//! accessors needed to interpret that data; the parser that produces it
//! lives in [`crate::frontend`].
//!
//! A floating-point constant is held as its IEEE-754 bit pattern.

use vstd::prelude::*;
use vstd::string::StringExecFns;

use crate::text;
use crate::DecompilerError;
use crate::Fault;

verus! {

// ---- Header-level flags ----------------------------------------------

/// `BCDUMP_F_BE`: big-endian byte order. Only little-endian is supported.
pub const FLAG_BE: u32 = 0x01;

/// `BCDUMP_F_STRIP`: debug info stripped (no chunkname, no line/var info).
pub const FLAG_STRIP: u32 = 0x02;

/// `BCDUMP_F_FFI`: dump contains FFI cdata constants.
pub const FLAG_FFI: u32 = 0x04;

/// `BCDUMP_F_FR2`: 2-slot frame layout. Affects how call operands are
/// read during recovery, not the parsing itself.
pub const FLAG_FR2: u32 = 0x08;

/// Mask of all known flag bits.
pub const FLAGS_KNOWN_MASK: u32 = 0x0F;

// ---- Prototype-level flags -------------------------------------------

/// `PROTO_CHILD`: has nested child prototypes (referenced via FNEW).
pub const PROTO_CHILD: u8 = 0x01;

/// `PROTO_VARARG`: vararg function (`...`).
pub const PROTO_VARARG: u8 = 0x02;

/// `PROTO_FFI`: uses FFI.
pub const PROTO_FFI: u8 = 0x04;

/// The type byte from which a var-info record starts with a name: the
/// byte is then the first character of that name.
pub const VAR_STR: u8 = 7;

// ---- Module-level types ----------------------------------------------

/// A parsed bytecode module: the file-level header plus every
/// prototype, in on-disk (children-first post-order) order. The main
/// chunk is the last element of `protos`.
#[derive(Clone, Debug)]
pub struct Module {
    pub header: ModuleHeader,
    pub protos: Vec<Proto>,
}

/// The mathematical value of a [`Module`].
pub struct ModuleV {
    pub header: ModuleHeaderV,
    pub protos: Seq<ProtoV>,
}

impl View for Module {
    type V = ModuleV;

    open spec fn view(&self) -> ModuleV {
        ModuleV { header: self.header@, protos: text::views(self.protos@) }
    }
}

impl Module {
    /// The main (root) proto: the last one in the dump.
    pub fn main_proto(&self) -> (main: &Proto)
        requires
            self.protos@.len() > 0,
        ensures
            *main == self.protos@.last(),
    {
        &self.protos[self.protos.len() - 1]
    }
}

/// File-level header. The chunkname is preserved verbatim, including
/// its `@`/`=`/binary first-byte prefix.
#[derive(Clone, Debug)]
pub struct ModuleHeader {
    /// Raw header flags.
    pub flags: u32,
    /// The chunkname, including the `@`/`=` prefix when present.
    /// `None` when `BCDUMP_F_STRIP` was set.
    pub chunkname: Option<Vec<u8>>,
}

/// The mathematical value of a [`ModuleHeader`].
pub struct ModuleHeaderV {
    pub flags: u32,
    pub chunkname: Option<Seq<u8>>,
}

impl View for ModuleHeader {
    type V = ModuleHeaderV;

    open spec fn view(&self) -> ModuleHeaderV {
        ModuleHeaderV {
            flags: self.flags,
            chunkname: match self.chunkname {
                Some(name) => Some(name@),
                None => None,
            },
        }
    }
}

/// Whether the header says that debug info is stripped.
pub open spec fn flags_stripped(flags: u32) -> bool {
    flags & FLAG_STRIP != 0
}

/// Whether the header says that the frame layout has two slots.
pub open spec fn flags_fr2(flags: u32) -> bool {
    flags & FLAG_FR2 != 0
}

impl ModuleHeader {
    pub fn is_stripped(&self) -> (b: bool)
        ensures
            b == flags_stripped(self.flags),
    {
        self.flags & FLAG_STRIP != 0
    }

    pub fn is_big_endian(&self) -> (b: bool)
        ensures
            b == (self.flags & FLAG_BE != 0),
    {
        self.flags & FLAG_BE != 0
    }

    pub fn is_fr2(&self) -> (b: bool)
        ensures
            b == flags_fr2(self.flags),
    {
        self.flags & FLAG_FR2 != 0
    }
}

/// A single prototype (function body).
#[derive(Clone, Debug)]
pub struct Proto {
    pub flags: u8,
    pub numparams: u8,
    pub framesize: u8,
    pub upvalues: Vec<UpvalDesc>,
    pub gc_consts: Vec<GcConst>,
    pub num_consts: Vec<NumConst>,
    /// Bytecode instructions, with the synthetic FUNC* header at index
    /// 0. Real instructions from disk start at index 1.
    pub insts: Vec<Instruction>,
    pub debug: Option<DebugInfo>,
}

/// The mathematical value of a [`Proto`].
pub struct ProtoV {
    pub flags: u8,
    pub numparams: u8,
    pub framesize: u8,
    pub upvalues: Seq<UpvalDesc>,
    pub gc_consts: Seq<GcConstV>,
    pub num_consts: Seq<NumConst>,
    pub insts: Seq<Instruction>,
    pub debug: Option<DebugInfoV>,
}

impl View for Proto {
    type V = ProtoV;

    open spec fn view(&self) -> ProtoV {
        ProtoV {
            flags: self.flags,
            numparams: self.numparams,
            framesize: self.framesize,
            upvalues: self.upvalues@,
            gc_consts: text::views(self.gc_consts@),
            num_consts: self.num_consts@,
            insts: self.insts@,
            debug: match self.debug {
                Some(debug) => Some(debug@),
                None => None,
            },
        }
    }
}

/// The reason given for a GC-constant operand outside the table.
pub open spec fn gc_range_reason(d: nat, len: nat) -> Seq<char> {
    "GC constant operand "@ + text::decimal(d) + " out of range (table has "@ + text::decimal(len)
        + " entries)"@
}

/// The GC constant that operand `d` refers to. The table is in file
/// order and is referenced from its end: operand 0 is the last entry.
pub open spec fn gc_const_at(gc_consts: Seq<GcConstV>, d: u16) -> Result<GcConstV, Fault> {
    if d < gc_consts.len() {
        Ok(gc_consts[gc_consts.len() - 1 - d])
    } else {
        Err(
            Fault::InvalidBytecode {
                offset: 0,
                reason: gc_range_reason(d as nat, gc_consts.len()),
            },
        )
    }
}

/// Whether a record names `slot` as a local that is live at the real
/// instruction `index`.
pub open spec fn record_live(v: VarInfoV, slot: u8, index: int) -> bool {
    &&& v.kind == VarKind::Name
    &&& v.name is Some
    &&& v.slot == slot
    &&& v.scope_begin <= index <= v.scope_end
}

/// Whether a record declares `slot` as a named local at exactly the
/// real instruction `index`.
pub open spec fn record_declares(v: VarInfoV, slot: u8, index: int) -> bool {
    record_live(v, slot, index) && v.scope_begin == index
}

/// The name of the first record, from `from` on, that is live in `slot`
/// at `index`.
pub open spec fn live_name_from(records: Seq<VarInfoV>, slot: u8, index: int, from: int) -> Option<
    Seq<char>,
>
    decreases records.len() - from,
{
    if from < 0 || from >= records.len() {
        None
    } else if record_live(records[from], slot, index) {
        records[from].name
    } else {
        live_name_from(records, slot, index, from + 1)
    }
}

/// The name under which the debug section knows `slot` at the real
/// instruction `index`.
pub open spec fn live_name(debug: Option<DebugInfoV>, slot: u8, index: int) -> Option<Seq<char>> {
    match debug {
        Some(d) => live_name_from(d.var_info, slot, index, 0),
        None => None,
    }
}

/// Whether some record of the debug section declares `slot` at `index`.
pub open spec fn declared_at(debug: Option<DebugInfoV>, slot: u8, index: int) -> bool {
    match debug {
        Some(d) => exists|i: int|
            0 <= i < d.var_info.len() && record_declares(#[trigger] d.var_info[i], slot, index),
        None => false,
    }
}

/// Whether the prototype is vararg.
pub open spec fn proto_vararg(flags: u8) -> bool {
    flags & PROTO_VARARG != 0
}

impl Proto {
    pub fn is_vararg(&self) -> (b: bool)
        ensures
            b == proto_vararg(self.flags),
    {
        self.flags & PROTO_VARARG != 0
    }

    /// Resolve a GC-constant operand (from KSTR, FNEW, TDUP, etc.) to
    /// the GC constant it references.
    ///
    /// GC constants are stored in file order but referenced from the
    /// end: operand `d` resolves to `gc_consts[len() - 1 - d]`. This
    /// helper centralizes that arithmetic so call sites can't
    /// accidentally use forward indexing. It is a resolution after
    /// parsing, so there is no byte offset to report: a fault carries
    /// offset 0 and the indices in its reason.
    pub fn gc_const_for_operand(&self, d: u16) -> (res: Result<&GcConst, DecompilerError>)
        ensures
            match res {
                Ok(gc) => gc_const_at(self@.gc_consts, d) == Ok::<GcConstV, Fault>(gc@),
                Err(e) => gc_const_at(self@.gc_consts, d) == Err::<GcConstV, Fault>(e@),
            },
            res matches Ok(gc) ==> d < self.gc_consts@.len()
                && *gc == self.gc_consts@[self.gc_consts@.len() - 1 - d],
    {
        let len: usize = self.gc_consts.len();
        if (d as usize) < len {
            Ok(&self.gc_consts[len - 1 - d as usize])
        } else {
            let mut reason = String::from_str("GC constant operand ");
            text::push_decimal(&mut reason, d as u64);
            reason.append(" out of range (table has ");
            text::push_decimal(&mut reason, len as u64);
            reason.append(" entries)");
            Err(DecompilerError::InvalidBytecode { offset: 0, reason })
        }
    }

    /// The name of the local that lives in `slot` at the real
    /// instruction `inst_index` (0 is the first one after the FUNC*
    /// header), or `None` when the debug section names none.
    pub fn var_name_at(&self, slot: u8, inst_index: usize) -> (name: Option<&String>)
        ensures
            match name {
                Some(n) => live_name(self@.debug, slot, inst_index as int) == Some(n@),
                None => live_name(self@.debug, slot, inst_index as int) is None,
            },
    {
        match &self.debug {
            None => None,
            Some(debug) => {
                let mut i: usize = 0;
                while i < debug.var_info.len()
                    invariant
                        self.debug == Some(*debug),
                        i <= debug.var_info.len(),
                        live_name_from(debug@.var_info, slot, inst_index as int, 0)
                            == live_name_from(debug@.var_info, slot, inst_index as int, i as int),
                    decreases debug.var_info.len() - i,
                {
                    let v = &debug.var_info[i];
                    assert(debug@.var_info[i as int] == v@);
                    if v.is_live(slot, inst_index) {
                        return v.name.as_ref();
                    }
                    i = i + 1;
                }
                None
            },
        }
    }

    /// Whether the real instruction `inst_index` is where a named local
    /// in `slot` begins its scope.
    pub fn is_var_declaration_at(&self, slot: u8, inst_index: usize) -> (b: bool)
        ensures
            b == declared_at(self@.debug, slot, inst_index as int),
    {
        match &self.debug {
            None => false,
            Some(debug) => {
                let mut i: usize = 0;
                while i < debug.var_info.len()
                    invariant
                        self.debug == Some(*debug),
                        i <= debug.var_info.len(),
                        forall|k: int|
                            0 <= k < i ==> !record_declares(
                                #[trigger] debug@.var_info[k],
                                slot,
                                inst_index as int,
                            ),
                    decreases debug.var_info.len() - i,
                {
                    let v = &debug.var_info[i];
                    assert(debug@.var_info[i as int] == v@);
                    if v.is_live(slot, inst_index) && v.scope_begin as usize == inst_index {
                        proof {
                            let d = self@.debug->Some_0;
                            assert(d == debug@);
                            assert(0 <= i < d.var_info.len());
                            assert(record_declares(d.var_info[i as int], slot, inst_index as int));
                            assert(declared_at(self@.debug, slot, inst_index as int));
                        }
                        return true;
                    }
                    i = i + 1;
                }
                false
            },
        }
    }
}

// ---- Instruction types -----------------------------------------------

/// Every opcode the LuaJIT 2.x interpreter recognizes, in the order of
/// their opcode bytes. Variants marked "internal" or "JIT" never appear
/// in dumped bytecode but are still valid opcode bytes.
#[derive(Copy, Clone, Debug, Eq, PartialEq, Hash, Structural)]
pub enum Opcode {
    // Comparison / test ops (AD format; D is a jump target)
    Islt,
    Isge,
    Isle,
    Isgt,
    Iseqv,
    Isnev,
    Iseqs,
    Isnes,
    Iseqn,
    Isnen,
    Iseqp,
    Isnep,
    Istc,
    Isfc,
    Ist,
    Isf,
    Istype, // internal; not in dumped bytecode
    Isnum,  // internal; not in dumped bytecode

    // Unary ops (AD)
    Mov,
    Not,
    Unm,
    Len,

    // Binary arithmetic (ABC)
    Addvn,
    Subvn,
    Mulvn,
    Divvn,
    Modvn,
    Addnv,
    Subnv,
    Mulnv,
    Divnv,
    Modnv,
    Addvv,
    Subvv,
    Mulvv,
    Divvv,
    Modvv,
    Pow,
    Cat,

    // Constant load ops (AD)
    Kstr,
    Kcdata,
    Kshort,
    Knum,
    Kpri,
    Knil,

    // Upvalue / function ops (AD)
    Uget,
    Usetv,
    Usets,
    Usetn,
    Usetp,
    Uclo,
    Fnew,

    // Table ops
    Tnew,  // AD
    Tdup,  // AD
    Gget,  // AD
    Gset,  // AD
    Tgetv, // ABC
    Tgets, // ABC
    Tgetb, // ABC
    Tgetr, // ABC (FFI; rare)
    Tsetv, // ABC
    Tsets, // ABC
    Tsetb, // ABC
    Tsetm, // AD
    Tsetr, // ABC (FFI; rare)

    // Calls and vararg (ABC unless noted)
    Callm,
    Call,
    Callmt, // AD
    Callt,  // AD
    Iterc,
    Itern,
    Varg,
    Isnext, // AD

    // Returns (AD)
    Retm,
    Ret,
    Ret0,
    Ret1,

    // Loops and branches (AD; D is jump unless noted)
    Fori,
    Jfori, // JIT; not in dumped bytecode
    Forl,
    Iforl, // JIT; not in dumped bytecode
    Jforl, // JIT; not in dumped bytecode
    Iterl,
    Iiterl, // JIT; not in dumped bytecode
    Jiterl, // JIT; not in dumped bytecode
    Loop,
    Iloop, // JIT; not in dumped bytecode
    Jloop, // JIT; not in dumped bytecode
    Jmp,

    // Function-header opcodes (synthetic; never on disk, but valid
    // opcode bytes occupying bc[0] in the in-memory representation).
    Funcf,
    Ifuncf,
    Jfuncf,
    Funcv,
    Ifuncv,
    Jfuncv,
    Funcc,
    Funccw,
}

/// The byte that encodes an opcode.
pub open spec fn opcode_byte(op: Opcode) -> u8 {
    match op {
        Opcode::Islt => 0x00,
        Opcode::Isge => 0x01,
        Opcode::Isle => 0x02,
        Opcode::Isgt => 0x03,
        Opcode::Iseqv => 0x04,
        Opcode::Isnev => 0x05,
        Opcode::Iseqs => 0x06,
        Opcode::Isnes => 0x07,
        Opcode::Iseqn => 0x08,
        Opcode::Isnen => 0x09,
        Opcode::Iseqp => 0x0a,
        Opcode::Isnep => 0x0b,
        Opcode::Istc => 0x0c,
        Opcode::Isfc => 0x0d,
        Opcode::Ist => 0x0e,
        Opcode::Isf => 0x0f,
        Opcode::Istype => 0x10,
        Opcode::Isnum => 0x11,
        Opcode::Mov => 0x12,
        Opcode::Not => 0x13,
        Opcode::Unm => 0x14,
        Opcode::Len => 0x15,
        Opcode::Addvn => 0x16,
        Opcode::Subvn => 0x17,
        Opcode::Mulvn => 0x18,
        Opcode::Divvn => 0x19,
        Opcode::Modvn => 0x1a,
        Opcode::Addnv => 0x1b,
        Opcode::Subnv => 0x1c,
        Opcode::Mulnv => 0x1d,
        Opcode::Divnv => 0x1e,
        Opcode::Modnv => 0x1f,
        Opcode::Addvv => 0x20,
        Opcode::Subvv => 0x21,
        Opcode::Mulvv => 0x22,
        Opcode::Divvv => 0x23,
        Opcode::Modvv => 0x24,
        Opcode::Pow => 0x25,
        Opcode::Cat => 0x26,
        Opcode::Kstr => 0x27,
        Opcode::Kcdata => 0x28,
        Opcode::Kshort => 0x29,
        Opcode::Knum => 0x2a,
        Opcode::Kpri => 0x2b,
        Opcode::Knil => 0x2c,
        Opcode::Uget => 0x2d,
        Opcode::Usetv => 0x2e,
        Opcode::Usets => 0x2f,
        Opcode::Usetn => 0x30,
        Opcode::Usetp => 0x31,
        Opcode::Uclo => 0x32,
        Opcode::Fnew => 0x33,
        Opcode::Tnew => 0x34,
        Opcode::Tdup => 0x35,
        Opcode::Gget => 0x36,
        Opcode::Gset => 0x37,
        Opcode::Tgetv => 0x38,
        Opcode::Tgets => 0x39,
        Opcode::Tgetb => 0x3a,
        Opcode::Tgetr => 0x3b,
        Opcode::Tsetv => 0x3c,
        Opcode::Tsets => 0x3d,
        Opcode::Tsetb => 0x3e,
        Opcode::Tsetm => 0x3f,
        Opcode::Tsetr => 0x40,
        Opcode::Callm => 0x41,
        Opcode::Call => 0x42,
        Opcode::Callmt => 0x43,
        Opcode::Callt => 0x44,
        Opcode::Iterc => 0x45,
        Opcode::Itern => 0x46,
        Opcode::Varg => 0x47,
        Opcode::Isnext => 0x48,
        Opcode::Retm => 0x49,
        Opcode::Ret => 0x4a,
        Opcode::Ret0 => 0x4b,
        Opcode::Ret1 => 0x4c,
        Opcode::Fori => 0x4d,
        Opcode::Jfori => 0x4e,
        Opcode::Forl => 0x4f,
        Opcode::Iforl => 0x50,
        Opcode::Jforl => 0x51,
        Opcode::Iterl => 0x52,
        Opcode::Iiterl => 0x53,
        Opcode::Jiterl => 0x54,
        Opcode::Loop => 0x55,
        Opcode::Iloop => 0x56,
        Opcode::Jloop => 0x57,
        Opcode::Jmp => 0x58,
        Opcode::Funcf => 0x59,
        Opcode::Ifuncf => 0x5a,
        Opcode::Jfuncf => 0x5b,
        Opcode::Funcv => 0x5c,
        Opcode::Ifuncv => 0x5d,
        Opcode::Jfuncv => 0x5e,
        Opcode::Funcc => 0x5f,
        Opcode::Funccw => 0x60,
    }
}

/// The last opcode byte.
pub const LAST_OPCODE: u8 = 0x60;

/// The reason given for a byte that encodes no opcode.
pub open spec fn opcode_reason(byte: u8) -> Seq<char> {
    "unknown opcode byte 0x"@ + text::zero_padded(text::hex(byte as nat), 2)
}

/// Whether an opcode uses the ABC operand layout.
pub open spec fn op_is_abc(op: Opcode) -> bool {
    matches!(
            op,
            
            Opcode::Addvn
                | Opcode::Subvn
                | Opcode::Mulvn
                | Opcode::Divvn
                | Opcode::Modvn
                | Opcode::Addnv
                | Opcode::Subnv
                | Opcode::Mulnv
                | Opcode::Divnv
                | Opcode::Modnv
                | Opcode::Addvv
                | Opcode::Subvv
                | Opcode::Mulvv
                | Opcode::Divvv
                | Opcode::Modvv
                | Opcode::Pow
                | Opcode::Cat
                | Opcode::Tgetv
                | Opcode::Tgets
                | Opcode::Tgetb
                | Opcode::Tgetr
                | Opcode::Tsetv
                | Opcode::Tsets
                | Opcode::Tsetb
                | Opcode::Tsetr
                | Opcode::Callm
                | Opcode::Call
                | Opcode::Iterc
                | Opcode::Itern
                | Opcode::Varg
        )
}

impl Opcode {
    /// Convert a raw opcode byte into an [`Opcode`]. Fails for any
    /// value outside `0x00..=0x60`.
    pub fn from_byte(byte: u8, offset: usize) -> (res: Result<Self, DecompilerError>)
        ensures
            match res {
                Ok(op) => byte <= LAST_OPCODE && opcode_byte(op) == byte,
                Err(e) => byte > LAST_OPCODE && e@ == (Fault::InvalidBytecode {
                    offset: offset as int,
                    reason: opcode_reason(byte),
                }),
            },
    {
        let op = match byte {
            0x00 => Opcode::Islt,
            0x01 => Opcode::Isge,
            0x02 => Opcode::Isle,
            0x03 => Opcode::Isgt,
            0x04 => Opcode::Iseqv,
            0x05 => Opcode::Isnev,
            0x06 => Opcode::Iseqs,
            0x07 => Opcode::Isnes,
            0x08 => Opcode::Iseqn,
            0x09 => Opcode::Isnen,
            0x0a => Opcode::Iseqp,
            0x0b => Opcode::Isnep,
            0x0c => Opcode::Istc,
            0x0d => Opcode::Isfc,
            0x0e => Opcode::Ist,
            0x0f => Opcode::Isf,
            0x10 => Opcode::Istype,
            0x11 => Opcode::Isnum,
            0x12 => Opcode::Mov,
            0x13 => Opcode::Not,
            0x14 => Opcode::Unm,
            0x15 => Opcode::Len,
            0x16 => Opcode::Addvn,
            0x17 => Opcode::Subvn,
            0x18 => Opcode::Mulvn,
            0x19 => Opcode::Divvn,
            0x1a => Opcode::Modvn,
            0x1b => Opcode::Addnv,
            0x1c => Opcode::Subnv,
            0x1d => Opcode::Mulnv,
            0x1e => Opcode::Divnv,
            0x1f => Opcode::Modnv,
            0x20 => Opcode::Addvv,
            0x21 => Opcode::Subvv,
            0x22 => Opcode::Mulvv,
            0x23 => Opcode::Divvv,
            0x24 => Opcode::Modvv,
            0x25 => Opcode::Pow,
            0x26 => Opcode::Cat,
            0x27 => Opcode::Kstr,
            0x28 => Opcode::Kcdata,
            0x29 => Opcode::Kshort,
            0x2a => Opcode::Knum,
            0x2b => Opcode::Kpri,
            0x2c => Opcode::Knil,
            0x2d => Opcode::Uget,
            0x2e => Opcode::Usetv,
            0x2f => Opcode::Usets,
            0x30 => Opcode::Usetn,
            0x31 => Opcode::Usetp,
            0x32 => Opcode::Uclo,
            0x33 => Opcode::Fnew,
            0x34 => Opcode::Tnew,
            0x35 => Opcode::Tdup,
            0x36 => Opcode::Gget,
            0x37 => Opcode::Gset,
            0x38 => Opcode::Tgetv,
            0x39 => Opcode::Tgets,
            0x3a => Opcode::Tgetb,
            0x3b => Opcode::Tgetr,
            0x3c => Opcode::Tsetv,
            0x3d => Opcode::Tsets,
            0x3e => Opcode::Tsetb,
            0x3f => Opcode::Tsetm,
            0x40 => Opcode::Tsetr,
            0x41 => Opcode::Callm,
            0x42 => Opcode::Call,
            0x43 => Opcode::Callmt,
            0x44 => Opcode::Callt,
            0x45 => Opcode::Iterc,
            0x46 => Opcode::Itern,
            0x47 => Opcode::Varg,
            0x48 => Opcode::Isnext,
            0x49 => Opcode::Retm,
            0x4a => Opcode::Ret,
            0x4b => Opcode::Ret0,
            0x4c => Opcode::Ret1,
            0x4d => Opcode::Fori,
            0x4e => Opcode::Jfori,
            0x4f => Opcode::Forl,
            0x50 => Opcode::Iforl,
            0x51 => Opcode::Jforl,
            0x52 => Opcode::Iterl,
            0x53 => Opcode::Iiterl,
            0x54 => Opcode::Jiterl,
            0x55 => Opcode::Loop,
            0x56 => Opcode::Iloop,
            0x57 => Opcode::Jloop,
            0x58 => Opcode::Jmp,
            0x59 => Opcode::Funcf,
            0x5a => Opcode::Ifuncf,
            0x5b => Opcode::Jfuncf,
            0x5c => Opcode::Funcv,
            0x5d => Opcode::Ifuncv,
            0x5e => Opcode::Jfuncv,
            0x5f => Opcode::Funcc,
            0x60 => Opcode::Funccw,
            _ => {
                let mut reason = String::from_str("unknown opcode byte 0x");
                text::push_hex(&mut reason, byte as u64, 2);
                return Err(DecompilerError::InvalidBytecode { offset, reason });
            },
        };
        Ok(op)
    }

    /// Whether this opcode uses ABC format (vs the default AD): the
    /// arithmetic *VN/*NV/*VV/POW/CAT, all TGET/TSET variants except
    /// TSETM, and CALLM/CALL/ITERC/ITERN/VARG.
    pub fn is_abc(self) -> (b: bool)
        ensures
            b == op_is_abc(self),
    {
        matches!(
            self,
            Opcode::Addvn
                | Opcode::Subvn
                | Opcode::Mulvn
                | Opcode::Divvn
                | Opcode::Modvn
                | Opcode::Addnv
                | Opcode::Subnv
                | Opcode::Mulnv
                | Opcode::Divnv
                | Opcode::Modnv
                | Opcode::Addvv
                | Opcode::Subvv
                | Opcode::Mulvv
                | Opcode::Divvv
                | Opcode::Modvv
                | Opcode::Pow
                | Opcode::Cat
                | Opcode::Tgetv
                | Opcode::Tgets
                | Opcode::Tgetb
                | Opcode::Tgetr
                | Opcode::Tsetv
                | Opcode::Tsets
                | Opcode::Tsetb
                | Opcode::Tsetr
                | Opcode::Callm
                | Opcode::Call
                | Opcode::Iterc
                | Opcode::Itern
                | Opcode::Varg
        )
    }
}

/// A decoded bytecode instruction.
///
/// The format is opcode-determined (ABC or AD per [`Opcode::is_abc`]).
/// This struct stores the union of both layouts: `b_or_d` holds B (for
/// ABC) or D (for AD); `c` is C for ABC and 0 for AD. The helper
/// methods [`Instruction::b`] and [`Instruction::d`] expose the value
/// with the right width.
#[derive(Copy, Clone, Debug, Eq, PartialEq, Structural)]
pub struct Instruction {
    pub op: Opcode,
    pub a: u8,
    /// B (ABC format) or D (AD format). Stored wide so a single field
    /// serves both; only the low 8 bits are meaningful when read as B,
    /// and the low 16 bits when read as D.
    pub b_or_d: u32,
    /// C (ABC format). Always 0 for AD-format opcodes.
    pub c: u8,
}

/// The B operand of an instruction.
pub open spec fn inst_b(inst: Instruction) -> u8 {
    (inst.b_or_d % 0x100) as u8
}

/// The D operand of an instruction.
pub open spec fn inst_d(inst: Instruction) -> u16 {
    (inst.b_or_d % 0x1_0000) as u16
}

impl Instruction {
    /// The B operand, as an 8-bit value (ABC semantics).
    pub fn b(&self) -> (b: u8)
        ensures
            b == inst_b(*self),
    {
        (self.b_or_d % 0x100) as u8
    }

    /// The D operand, as a 16-bit value (AD semantics).
    pub fn d(&self) -> (d: u16)
        ensures
            d == inst_d(*self),
    {
        (self.b_or_d % 0x1_0000) as u16
    }

    /// Build a synthetic FUNC* header instruction for in-memory slot 0.
    /// This word isn't stored on disk: the reader inserts it with
    /// A=framesize. Opcode is FUNCF for normal fixed-arg protos, FUNCV
    /// when the proto is vararg.
    pub fn synthetic_header(op: Opcode, framesize: u8) -> (inst: Self)
        ensures
            inst == (Instruction { op, a: framesize, b_or_d: 0, c: 0 }),
    {
        Instruction { op, a: framesize, b_or_d: 0, c: 0 }
    }
}

/// A 32-bit value read as two's complement.
pub open spec fn signed32(v: u32) -> i32 {
    if v < 0x8000_0000 {
        v as i32
    } else {
        (v - 0x1_0000_0000) as i32
    }
}

/// A 16-bit value read as two's complement.
pub open spec fn signed16(v: u16) -> i32 {
    if v < 0x8000 {
        v as i32
    } else {
        (v - 0x1_0000) as i32
    }
}

/// Reads a 32-bit value as two's complement.
pub fn sign_extend32(v: u32) -> (n: i32)
    ensures
        n == signed32(v),
{
    if v < 0x8000_0000 {
        v as i32
    } else {
        (v as i64 - 0x1_0000_0000) as i32
    }
}

/// Reads a 16-bit value as two's complement.
pub fn sign_extend16(v: u16) -> (n: i32)
    ensures
        n == signed16(v),
{
    if v < 0x8000 {
        v as i32
    } else {
        v as i32 - 0x1_0000
    }
}

// ---- Constant types --------------------------------------------------

/// A GC constant.
#[derive(Clone, Debug)]
pub enum GcConst {
    /// `KGC_CHILD`: a reference to a previously-read child prototype.
    /// The child itself lives earlier in the module's `protos` vector.
    Child,
    /// `KGC_TAB`: a template table copied by `TDUP`.
    Tab(TableConst),
    /// `KGC_I64`: FFI signed 64-bit cdata.
    I64(u64),
    /// `KGC_U64`: FFI unsigned 64-bit cdata.
    U64(u64),
    /// `KGC_COMPLEX`: FFI complex number (bit patterns of the real and
    /// imaginary doubles).
    Complex { real: u64, imag: u64 },
    /// `KGC_STR`: a string constant, stored as raw bytes (the format
    /// does not guarantee UTF-8).
    Str(Vec<u8>),
}

/// The mathematical value of a [`GcConst`].
pub enum GcConstV {
    Child,
    Tab(TableConstV),
    I64(u64),
    U64(u64),
    Complex { real: u64, imag: u64 },
    Str(Seq<u8>),
}

impl View for GcConst {
    type V = GcConstV;

    open spec fn view(&self) -> GcConstV {
        match *self {
            GcConst::Child => GcConstV::Child,
            GcConst::Tab(table) => GcConstV::Tab(table@),
            GcConst::I64(v) => GcConstV::I64(v),
            GcConst::U64(v) => GcConstV::U64(v),
            GcConst::Complex { real: r, imag: i } => GcConstV::Complex { real: r, imag: i },
            GcConst::Str(bytes) => GcConstV::Str(bytes@),
        }
    }
}

/// A template-table constant.
#[derive(Clone, Debug)]
pub struct TableConst {
    /// Array part (positional keys 1, 2, ...).
    pub array: Vec<KtabK>,
    /// Hash part (explicit key/value pairs).
    pub hash: Vec<(KtabK, KtabK)>,
}

/// The mathematical value of a [`TableConst`].
pub struct TableConstV {
    pub array: Seq<KtabKV>,
    pub hash: Seq<(KtabKV, KtabKV)>,
}

impl View for TableConst {
    type V = TableConstV;

    open spec fn view(&self) -> TableConstV {
        TableConstV { array: text::views(self.array@), hash: text::views(self.hash@) }
    }
}

impl Default for TableConst {
    fn default() -> (t: Self)
        ensures
            t@.array.len() == 0,
            t@.hash.len() == 0,
    {
        TableConst { array: Vec::new(), hash: Vec::new() }
    }
}

/// A single key or value inside a template table (`BCDUMP_KTAB_*`).
#[derive(Clone, Debug)]
pub enum KtabK {
    Nil,
    False,
    True,
    Int(u64),
    /// The bit pattern of a double.
    Num(u64),
    Str(Vec<u8>),
}

/// The mathematical value of a [`KtabK`].
pub enum KtabKV {
    Nil,
    False,
    True,
    Int(u64),
    Num(u64),
    Str(Seq<u8>),
}

impl View for KtabK {
    type V = KtabKV;

    open spec fn view(&self) -> KtabKV {
        match *self {
            KtabK::Nil => KtabKV::Nil,
            KtabK::False => KtabKV::False,
            KtabK::True => KtabKV::True,
            KtabK::Int(n) => KtabKV::Int(n),
            KtabK::Num(bits) => KtabKV::Num(bits),
            KtabK::Str(bytes) => KtabKV::Str(bytes@),
        }
    }
}

/// A number constant. The tag bit of its 33-bit encoding tells integer
/// and floating-point storage apart.
#[derive(Copy, Clone, Debug)]
pub enum NumConst {
    /// Tag bit 0: signed 32-bit integer constant.
    Int(i32),
    /// Tag bit 1: IEEE-754 double constant, as its bit pattern.
    Num(u64),
}

impl View for NumConst {
    type V = NumConst;

    open spec fn view(&self) -> NumConst {
        *self
    }
}

impl View for Instruction {
    type V = Instruction;

    open spec fn view(&self) -> Instruction {
        *self
    }
}

impl View for UpvalDesc {
    type V = UpvalDesc;

    open spec fn view(&self) -> UpvalDesc {
        *self
    }
}

// ---- Upvalue descriptor ----------------------------------------------

/// A single upvalue descriptor: a 16-bit little-endian value whose top
/// bits encode locality and immutability.
#[derive(Copy, Clone, Debug, Eq, PartialEq, Structural)]
pub struct UpvalDesc {
    /// Raw 16-bit descriptor:
    /// - bit 15 (`0x8000`): set = open (a register of the parent);
    ///   clear = closed (an upvalue of the parent).
    /// - bit 14 (`0x4000`): immutable.
    /// - bits 0-13 (`0x3FFF`): index into the parent's registers or
    ///   upvalue table.
    pub raw: u16,
}

/// Whether a descriptor refers to a register of the parent.
pub open spec fn upval_open(uv: UpvalDesc) -> bool {
    uv.raw & UpvalDesc::LOCAL != 0
}

/// The parent-side index of a descriptor.
pub open spec fn upval_index(uv: UpvalDesc) -> u16 {
    uv.raw & UpvalDesc::INDEX_MASK
}

impl UpvalDesc {
    pub const LOCAL: u16 = 0x8000;

    pub const IMMUTABLE: u16 = 0x4000;

    pub const INDEX_MASK: u16 = 0x3FFF;

    /// True if this upvalue is open (a register in the parent).
    pub fn is_open(&self) -> (b: bool)
        ensures
            b == upval_open(*self),
    {
        self.raw & Self::LOCAL != 0
    }

    /// True if this upvalue is closed (an upvalue of the parent).
    pub fn is_closed(&self) -> (b: bool)
        ensures
            b == !upval_open(*self),
    {
        !self.is_open()
    }

    /// True if this upvalue is immutable.
    pub fn is_immutable(&self) -> (b: bool)
        ensures
            b == (self.raw & UpvalDesc::IMMUTABLE != 0),
    {
        self.raw & Self::IMMUTABLE != 0
    }

    /// The parent-side register or upvalue index.
    pub fn index(&self) -> (i: u16)
        ensures
            i == upval_index(*self),
    {
        self.raw & Self::INDEX_MASK
    }
}

// ---- Debug info ------------------------------------------------------

/// Per-prototype debug info. Present only when the dump is not stripped
/// and the prototype's debug size is not zero.
#[derive(Clone, Debug)]
pub struct DebugInfo {
    /// First source line of the proto.
    pub firstline: u32,
    /// Number of source lines spanned by the proto. Determines the
    /// width of a line-info entry.
    pub numline: u32,
    /// Source line per real instruction. Indexed by the on-disk
    /// instruction index (0 = first real instruction; does NOT count
    /// the synthetic FUNC* header).
    pub line_info: Vec<u32>,
    /// Upvalue names, parallel to `Proto::upvalues`.
    pub upvalue_names: Vec<String>,
    /// Variable scope records.
    pub var_info: Vec<VarInfo>,
}

/// The mathematical value of a [`DebugInfo`].
pub struct DebugInfoV {
    pub firstline: u32,
    pub numline: u32,
    pub line_info: Seq<u32>,
    pub upvalue_names: Seq<Seq<char>>,
    pub var_info: Seq<VarInfoV>,
}

impl View for DebugInfo {
    type V = DebugInfoV;

    open spec fn view(&self) -> DebugInfoV {
        DebugInfoV {
            firstline: self.firstline,
            numline: self.numline,
            line_info: self.line_info@,
            upvalue_names: text::views(self.upvalue_names@),
            var_info: text::views(self.var_info@),
        }
    }
}

impl Default for DebugInfo {
    fn default() -> (d: Self)
        ensures
            d@ == (DebugInfoV {
                firstline: 0,
                numline: 0,
                line_info: seq![],
                upvalue_names: seq![],
                var_info: seq![],
            }),
    {
        let d = DebugInfo {
            firstline: 0,
            numline: 0,
            line_info: Vec::new(),
            upvalue_names: Vec::new(),
            var_info: Vec::new(),
        };
        assert(d@.upvalue_names =~= seq![]);
        assert(d@.var_info =~= seq![]);
        d
    }
}

/// A variable scope record from the debug section.
#[derive(Clone, Debug)]
pub struct VarInfo {
    pub kind: VarKind,
    /// Source name when `kind == VarKind::Name`; `None` otherwise.
    pub name: Option<String>,
    /// Whether this record describes a parameter.
    pub is_parameter: bool,
    /// The register that holds the variable. Not on disk: derived from
    /// the order and the scopes of the records.
    pub slot: u8,
    /// On-disk instruction index where the variable's scope begins.
    /// For parameters this is conceptually 0.
    pub scope_begin: u32,
    /// On-disk instruction index where the variable's scope ends
    /// (inclusive).
    pub scope_end: u32,
}

/// The mathematical value of a [`VarInfo`].
pub struct VarInfoV {
    pub kind: VarKind,
    pub name: Option<Seq<char>>,
    pub is_parameter: bool,
    pub slot: u8,
    pub scope_begin: u32,
    pub scope_end: u32,
}

impl View for VarInfo {
    type V = VarInfoV;

    open spec fn view(&self) -> VarInfoV {
        VarInfoV {
            kind: self.kind,
            name: match self.name {
                Some(name) => Some(name@),
                None => None,
            },
            is_parameter: self.is_parameter,
            slot: self.slot,
            scope_begin: self.scope_begin,
            scope_end: self.scope_end,
        }
    }
}

impl VarInfo {
    /// Whether this record names `slot` as a local live at the real
    /// instruction `inst_index`.
    pub fn is_live(&self, slot: u8, inst_index: usize) -> (b: bool)
        ensures
            b == record_live(self@, slot, inst_index as int),
    {
        self.kind == VarKind::Name
            && self.name.is_some()
            && self.slot == slot
            && self.scope_begin as usize <= inst_index
            && inst_index <= self.scope_end as usize
    }
}

/// The kind tag for a [`VarInfo`] record.
#[derive(Copy, Clone, Debug, Eq, PartialEq, Structural)]
pub enum VarKind {
    /// A named local variable (the type byte was the first character
    /// of the name; type byte >= `VAR_STR`).
    Name,
    /// For-loop index (`type byte == 1`).
    ForIdx,
    /// For-loop stop (`type byte == 2`).
    ForStop,
    /// For-loop step (`type byte == 3`).
    ForStep,
    /// Generic-for generator (`type byte == 4`).
    ForGen,
    /// Generic-for state (`type byte == 5`).
    ForState,
    /// Generic-for control (`type byte == 6`).
    ForCtl,
}

} // verus!
