//! The binary module format: data model and decoder.
//!
//! A module is a little-endian magic number and version followed by
//! sections until the buffer ends. Each section is an id, a payload
//! length, and a payload whose shape depends on the id. The grammar is
//! written down as specification functions over the byte sequence; every
//! executable parser is proved to return exactly what the grammar says,
//! both on success and on each failure.

use vstd::prelude::*;
use vstd::utf8::valid_utf8;
use vstd::utf8::decode_utf8;
use crate::leb::VarintError;
use crate::leb::spec_sleb;
use crate::leb::spec_encode_nonneg;
use crate::leb::lemma_sleb_size_bounds;
use crate::leb::lemma_decode_encode_nonneg;
use crate::leb::lemma_pow128_vals;
use crate::leb::decode_signed;
use crate::leb::euclid_rem;

verus! {

/// The magic number that opens every module, `"\0asm"` read little-endian.
pub const MAGIC_NUMBER: u32 = 0x6d73_6100;

/// The only supported format version.
pub const SUPPORTED_VERSION: u32 = 1;

/// Why a byte stream failed to decode as a module.
#[derive(Debug, Clone, Copy, PartialEq, Eq)]
pub enum ParseError {
    /// The stream does not open with the magic number; carries the value
    /// actually read.
    BadMagic(u32),
    /// The stream's version field is not the supported version; carries
    /// the value actually read.
    UnsupportedVersion(u32),
    /// A value-type tag is none of the four known tags; carries the tag.
    InvalidValueType(i8),
    /// An export's kind byte is none of the four known kinds; carries the
    /// byte.
    InvalidExternalKind(u8),
    /// The stream ended inside a field.
    Truncated,
    /// An export name is not valid UTF-8.
    Utf8Error,
    /// A malformed variable-length integer.
    DecodeError,
}

/// One of the four primitive value kinds.
#[derive(Debug, Clone, Copy, PartialEq, Eq)]
pub enum ValueType {
    I32,
    I64,
    F32,
    F64,
}

/// What an export names.
#[derive(Debug, Clone, Copy, PartialEq, Eq)]
pub enum ExternalKind {
    Function,
    Table,
    Memory,
    Global,
}

/// A run of locals of one type.
#[derive(Debug, Clone, Copy, PartialEq, Eq)]
pub struct LocalEntry {
    pub count: u32,
    pub ty: ValueType,
}

/// Memory size limits: an initial size and an optional maximum.
#[derive(Debug, Clone, Copy, PartialEq, Eq)]
pub struct ResizableLimits {
    pub initial: u32,
    pub maximum: Option<u32>,
}

/// One linear memory declaration.
#[derive(Debug, Clone, Copy, PartialEq, Eq)]
pub struct MemoryType {
    pub limits: ResizableLimits,
}

/// A function signature: a form tag, parameter types, and an optional
/// return type.
#[derive(Debug, Clone, PartialEq, Eq)]
pub struct FuncType {
    pub form: i8,
    pub param_types: Vec<ValueType>,
    pub return_type: Option<ValueType>,
}

/// One export: a name, what kind of thing it names, and its index.
#[derive(Debug, Clone, PartialEq, Eq)]
pub struct ExportEntry {
    pub field_name: String,
    pub kind: ExternalKind,
    pub index: u32,
}

/// A function's local declarations and its raw opcode bytes, exclusive of
/// the terminating end marker.
#[derive(Debug, Clone, PartialEq, Eq)]
pub struct FunctionBody {
    pub locals: Vec<LocalEntry>,
    pub code: Vec<u8>,
}

/// One decoded section.
#[allow(inconsistent_fields)]
#[derive(Debug, Clone, PartialEq, Eq)]
pub enum Section {
    Custom,
    Type { entries: Vec<FuncType> },
    Function { types: Vec<u32> },
    Memory { entries: Vec<MemoryType> },
    Export { entries: Vec<ExportEntry> },
    Start { index: u32 },
    Code { bodies: Vec<FunctionBody> },
    Unknown { id: u32 },
}

/// A decoded module: header fields and the sections in encounter order.
#[derive(Debug, Clone, PartialEq, Eq)]
pub struct Module {
    pub magic_number: u32,
    pub version: u32,
    pub sections: Vec<Section>,
}

/// The mathematical image of a [`FuncType`].
pub struct SpecFuncType {
    pub form: i8,
    pub param_types: Seq<ValueType>,
    pub return_type: Option<ValueType>,
}

/// The mathematical image of an [`ExportEntry`].
pub struct SpecExportEntry {
    pub field_name: Seq<char>,
    pub kind: ExternalKind,
    pub index: u32,
}

/// The mathematical image of a [`FunctionBody`].
pub struct SpecFunctionBody {
    pub locals: Seq<LocalEntry>,
    pub code: Seq<u8>,
}

/// The mathematical image of a [`Section`].
#[allow(inconsistent_fields)]
pub enum SpecSection {
    Custom,
    Type { entries: Seq<SpecFuncType> },
    Function { types: Seq<u32> },
    Memory { entries: Seq<MemoryType> },
    Export { entries: Seq<SpecExportEntry> },
    Start { index: u32 },
    Code { bodies: Seq<SpecFunctionBody> },
    Unknown { id: u32 },
}

/// The mathematical image of a [`Module`].
pub struct SpecModule {
    pub magic_number: u32,
    pub version: u32,
    pub sections: Seq<SpecSection>,
}

impl View for FuncType {
    type V = SpecFuncType;

    open spec fn view(&self) -> SpecFuncType {
        SpecFuncType {
            form: self.form,
            param_types: self.param_types@,
            return_type: self.return_type,
        }
    }
}

impl View for ExportEntry {
    type V = SpecExportEntry;

    open spec fn view(&self) -> SpecExportEntry {
        SpecExportEntry { field_name: self.field_name@, kind: self.kind, index: self.index }
    }
}

impl View for FunctionBody {
    type V = SpecFunctionBody;

    open spec fn view(&self) -> SpecFunctionBody {
        SpecFunctionBody { locals: self.locals@, code: self.code@ }
    }
}

/// The images of a run of function signatures.
pub open spec fn func_type_views(v: Seq<FuncType>) -> Seq<SpecFuncType> {
    v.map_values(|e: FuncType| e@)
}

/// The images of a run of export entries.
pub open spec fn export_entry_views(v: Seq<ExportEntry>) -> Seq<SpecExportEntry> {
    v.map_values(|e: ExportEntry| e@)
}

/// The images of a run of function bodies.
pub open spec fn function_body_views(v: Seq<FunctionBody>) -> Seq<SpecFunctionBody> {
    v.map_values(|b: FunctionBody| b@)
}

/// The images of a run of sections.
pub open spec fn section_views(v: Seq<Section>) -> Seq<SpecSection> {
    v.map_values(|s: Section| s@)
}

impl View for Section {
    type V = SpecSection;

    open spec fn view(&self) -> SpecSection {
        match self {
            Section::Custom => SpecSection::Custom,
            Section::Type { entries } => SpecSection::Type { entries: func_type_views(entries@) },
            Section::Function { types } => SpecSection::Function { types: types@ },
            Section::Memory { entries } => SpecSection::Memory { entries: entries@ },
            Section::Export { entries } => SpecSection::Export {
                entries: export_entry_views(entries@),
            },
            Section::Start { index } => SpecSection::Start { index: *index },
            Section::Code { bodies } => SpecSection::Code { bodies: function_body_views(bodies@) },
            Section::Unknown { id } => SpecSection::Unknown { id: *id },
        }
    }
}

impl View for Module {
    type V = SpecModule;

    open spec fn view(&self) -> SpecModule {
        SpecModule {
            magic_number: self.magic_number,
            version: self.version,
            sections: section_views(self.sections@),
        }
    }
}

/// The error a failed varint becomes at the module grammar's level.
pub open spec fn varint_err(e: VarintError) -> ParseError {
    match e {
        VarintError::Truncated => ParseError::Truncated,
        VarintError::Malformed => ParseError::DecodeError,
    }
}

/// A signed LEB128 value reinterpreted as an unsigned 32-bit integer by
/// truncation.
pub open spec fn trunc_u32(v: int) -> u32 {
    (v % 0x1_0000_0000) as u32
}

/// A signed LEB128 value narrowed to an unsigned 8-bit integer by
/// truncation.
pub open spec fn trunc_u8(v: int) -> u8 {
    (v % 0x100) as u8
}

/// A signed LEB128 value narrowed to a signed 8-bit integer by truncation.
pub open spec fn trunc_i8(v: int) -> i8 {
    if v % 0x100 >= 0x80 {
        (v % 0x100 - 0x100) as i8
    } else {
        (v % 0x100) as i8
    }
}

/// The varuint32 call shape: a signed LEB128 decode whose bit pattern is
/// reinterpreted as an unsigned 32-bit integer.
pub open spec fn spec_varuint32(s: Seq<u8>, pos: int) -> Result<(u32, int), ParseError> {
    match spec_sleb(s, pos) {
        Ok((v, end)) => Ok((trunc_u32(v), end)),
        Err(e) => Err(varint_err(e)),
    }
}

/// The varint7 call shape: a signed LEB128 decode narrowed to a signed
/// 8-bit integer.
pub open spec fn spec_varint7(s: Seq<u8>, pos: int) -> Result<(i8, int), ParseError> {
    match spec_sleb(s, pos) {
        Ok((v, end)) => Ok((trunc_i8(v), end)),
        Err(e) => Err(varint_err(e)),
    }
}

/// The varuint1 call shape: a signed LEB128 decode narrowed to an unsigned
/// 8-bit integer, used for one-bit flags.
pub open spec fn spec_varuint1(s: Seq<u8>, pos: int) -> Result<(u8, int), ParseError> {
    match spec_sleb(s, pos) {
        Ok((v, end)) => Ok((trunc_u8(v), end)),
        Err(e) => Err(varint_err(e)),
    }
}

/// The little-endian 32-bit integer at `pos`.
pub open spec fn le32_at(s: Seq<u8>, pos: int) -> u32
    recommends
        0 <= pos,
        pos + 4 <= s.len(),
{
    (s[pos] + 0x100 * s[pos + 1] + 0x1_0000 * s[pos + 2] + 0x100_0000 * s[pos + 3]) as u32
}

pub proof fn lemma_sleb_wf(s: Seq<u8>, pos: int)
    requires
        spec_sleb(s, pos) is Ok,
    ensures
        pos < spec_sleb(s, pos)->Ok_0.1 <= s.len(),
{
    lemma_sleb_size_bounds(s, pos, 0);
}

/// The value-type grammar: a varint7 tag naming one of the four types.
pub open spec fn spec_parse_value_type(s: Seq<u8>, pos: int) -> Result<
    (ValueType, int),
    ParseError,
> {
    match spec_varint7(s, pos) {
        Ok((t, end)) => if t == -1 {
            Ok((ValueType::I32, end))
        } else if t == -2 {
            Ok((ValueType::I64, end))
        } else if t == -3 {
            Ok((ValueType::F32, end))
        } else if t == -4 {
            Ok((ValueType::F64, end))
        } else {
            Err(ParseError::InvalidValueType(t))
        },
        Err(e) => Err(e),
    }
}

pub proof fn lemma_value_type_wf(s: Seq<u8>, pos: int)
    requires
        spec_parse_value_type(s, pos) is Ok,
    ensures
        pos < spec_parse_value_type(s, pos)->Ok_0.1 <= s.len(),
{
    lemma_sleb_wf(s, pos);
}

/// A count-prefixed run of value types, `count` entries long.
pub open spec fn spec_parse_value_types(s: Seq<u8>, pos: int, count: nat) -> Result<
    (Seq<ValueType>, int),
    ParseError,
>
    decreases count,
{
    if count == 0 {
        Ok((seq![], pos))
    } else {
        match spec_parse_value_type(s, pos) {
            Ok((t, p)) => match spec_parse_value_types(s, p, (count - 1) as nat) {
                Ok((rest, end)) => Ok((seq![t] + rest, end)),
                Err(e) => Err(e),
            },
            Err(e) => Err(e),
        }
    }
}

pub proof fn lemma_value_types_wf(s: Seq<u8>, pos: int, count: nat)
    requires
        spec_parse_value_types(s, pos, count) is Ok,
        pos <= s.len(),
    ensures
        pos <= spec_parse_value_types(s, pos, count)->Ok_0.1 <= s.len(),
    decreases count,
{
    if count != 0 {
        lemma_value_type_wf(s, pos);
        let p = spec_parse_value_type(s, pos)->Ok_0.1;
        lemma_value_types_wf(s, p, (count - 1) as nat);
    }
}

/// The function-signature grammar: form tag, parameter count and types,
/// and a flag-guarded return type.
pub open spec fn spec_parse_func_type(s: Seq<u8>, pos: int) -> Result<
    (SpecFuncType, int),
    ParseError,
> {
    match spec_varint7(s, pos) {
        Ok((form, p1)) => match spec_varuint32(s, p1) {
            Ok((param_count, p2)) => match spec_parse_value_types(s, p2, param_count as nat) {
                Ok((params, p3)) => match spec_varuint1(s, p3) {
                    Ok((ret_count, p4)) => if ret_count > 0 {
                        match spec_parse_value_type(s, p4) {
                            Ok((rt, p5)) => Ok(
                                (
                                    SpecFuncType {
                                        form: form,
                                        param_types: params,
                                        return_type: Some(rt),
                                    },
                                    p5,
                                ),
                            ),
                            Err(e) => Err(e),
                        }
                    } else {
                        Ok(
                            (
                                SpecFuncType { form: form, param_types: params, return_type: None },
                                p4,
                            ),
                        )
                    },
                    Err(e) => Err(e),
                },
                Err(e) => Err(e),
            },
            Err(e) => Err(e),
        },
        Err(e) => Err(e),
    }
}

pub proof fn lemma_func_type_wf(s: Seq<u8>, pos: int)
    requires
        spec_parse_func_type(s, pos) is Ok,
    ensures
        pos < spec_parse_func_type(s, pos)->Ok_0.1 <= s.len(),
{
    lemma_sleb_wf(s, pos);
    let p1 = spec_varint7(s, pos)->Ok_0.1;
    lemma_sleb_wf(s, p1);
    let p2 = spec_varuint32(s, p1)->Ok_0.1;
    let count = spec_varuint32(s, p1)->Ok_0.0;
    lemma_value_types_wf(s, p2, count as nat);
    let p3 = spec_parse_value_types(s, p2, count as nat)->Ok_0.1;
    lemma_sleb_wf(s, p3);
    let p4 = spec_varuint1(s, p3)->Ok_0.1;
    if spec_varuint1(s, p3)->Ok_0.0 > 0 {
        lemma_value_type_wf(s, p4);
    }
}

/// A count-prefixed run of function signatures.
pub open spec fn spec_parse_func_types(s: Seq<u8>, pos: int, count: nat) -> Result<
    (Seq<SpecFuncType>, int),
    ParseError,
>
    decreases count,
{
    if count == 0 {
        Ok((seq![], pos))
    } else {
        match spec_parse_func_type(s, pos) {
            Ok((t, p)) => match spec_parse_func_types(s, p, (count - 1) as nat) {
                Ok((rest, end)) => Ok((seq![t] + rest, end)),
                Err(e) => Err(e),
            },
            Err(e) => Err(e),
        }
    }
}

pub proof fn lemma_func_types_wf(s: Seq<u8>, pos: int, count: nat)
    requires
        spec_parse_func_types(s, pos, count) is Ok,
        pos <= s.len(),
    ensures
        pos <= spec_parse_func_types(s, pos, count)->Ok_0.1 <= s.len(),
    decreases count,
{
    if count != 0 {
        lemma_func_type_wf(s, pos);
        let p = spec_parse_func_type(s, pos)->Ok_0.1;
        lemma_func_types_wf(s, p, (count - 1) as nat);
    }
}

/// The type section: a count-prefixed run of function signatures.
pub open spec fn spec_parse_type_section(s: Seq<u8>, pos: int) -> Result<
    (SpecSection, int),
    ParseError,
> {
    match spec_varuint32(s, pos) {
        Ok((count, p1)) => match spec_parse_func_types(s, p1, count as nat) {
            Ok((entries, end)) => Ok((SpecSection::Type { entries }, end)),
            Err(e) => Err(e),
        },
        Err(e) => Err(e),
    }
}

/// A count-prefixed run of varuint32 type indices.
pub open spec fn spec_parse_indices(s: Seq<u8>, pos: int, count: nat) -> Result<
    (Seq<u32>, int),
    ParseError,
>
    decreases count,
{
    if count == 0 {
        Ok((seq![], pos))
    } else {
        match spec_varuint32(s, pos) {
            Ok((t, p)) => match spec_parse_indices(s, p, (count - 1) as nat) {
                Ok((rest, end)) => Ok((seq![t] + rest, end)),
                Err(e) => Err(e),
            },
            Err(e) => Err(e),
        }
    }
}

pub proof fn lemma_indices_wf(s: Seq<u8>, pos: int, count: nat)
    requires
        spec_parse_indices(s, pos, count) is Ok,
        pos <= s.len(),
    ensures
        pos <= spec_parse_indices(s, pos, count)->Ok_0.1 <= s.len(),
    decreases count,
{
    if count != 0 {
        lemma_sleb_wf(s, pos);
        let p = spec_varuint32(s, pos)->Ok_0.1;
        lemma_indices_wf(s, p, (count - 1) as nat);
    }
}

/// The function section: a count-prefixed run of type indices.
pub open spec fn spec_parse_function_section(s: Seq<u8>, pos: int) -> Result<
    (SpecSection, int),
    ParseError,
> {
    match spec_varuint32(s, pos) {
        Ok((count, p1)) => match spec_parse_indices(s, p1, count as nat) {
            Ok((types, end)) => Ok((SpecSection::Function { types }, end)),
            Err(e) => Err(e),
        },
        Err(e) => Err(e),
    }
}

/// Memory limits: a one-bit flag, the initial size, and a maximum exactly
/// when the flag equals one.
pub open spec fn spec_parse_limits(s: Seq<u8>, pos: int) -> Result<
    (ResizableLimits, int),
    ParseError,
> {
    match spec_varuint1(s, pos) {
        Ok((flags, p1)) => match spec_varuint32(s, p1) {
            Ok((initial, p2)) => if flags == 1 {
                match spec_varuint32(s, p2) {
                    Ok((max, p3)) => Ok(
                        (ResizableLimits { initial: initial, maximum: Some(max) }, p3),
                    ),
                    Err(e) => Err(e),
                }
            } else {
                Ok((ResizableLimits { initial: initial, maximum: None }, p2))
            },
            Err(e) => Err(e),
        },
        Err(e) => Err(e),
    }
}

pub proof fn lemma_limits_wf(s: Seq<u8>, pos: int)
    requires
        spec_parse_limits(s, pos) is Ok,
    ensures
        pos < spec_parse_limits(s, pos)->Ok_0.1 <= s.len(),
{
    lemma_sleb_wf(s, pos);
    let p1 = spec_varuint1(s, pos)->Ok_0.1;
    lemma_sleb_wf(s, p1);
    let p2 = spec_varuint32(s, p1)->Ok_0.1;
    if spec_varuint1(s, pos)->Ok_0.0 == 1 {
        lemma_sleb_wf(s, p2);
    }
}

/// A count-prefixed run of memory declarations.
pub open spec fn spec_parse_memory_types(s: Seq<u8>, pos: int, count: nat) -> Result<
    (Seq<MemoryType>, int),
    ParseError,
>
    decreases count,
{
    if count == 0 {
        Ok((seq![], pos))
    } else {
        match spec_parse_limits(s, pos) {
            Ok((limits, p)) => match spec_parse_memory_types(s, p, (count - 1) as nat) {
                Ok((rest, end)) => Ok((seq![MemoryType { limits }] + rest, end)),
                Err(e) => Err(e),
            },
            Err(e) => Err(e),
        }
    }
}

pub proof fn lemma_memory_types_wf(s: Seq<u8>, pos: int, count: nat)
    requires
        spec_parse_memory_types(s, pos, count) is Ok,
        pos <= s.len(),
    ensures
        pos <= spec_parse_memory_types(s, pos, count)->Ok_0.1 <= s.len(),
    decreases count,
{
    if count != 0 {
        lemma_limits_wf(s, pos);
        let p = spec_parse_limits(s, pos)->Ok_0.1;
        lemma_memory_types_wf(s, p, (count - 1) as nat);
    }
}

/// The memory section: a count-prefixed run of memory declarations.
pub open spec fn spec_parse_memory_section(s: Seq<u8>, pos: int) -> Result<
    (SpecSection, int),
    ParseError,
> {
    match spec_varuint32(s, pos) {
        Ok((count, p1)) => match spec_parse_memory_types(s, p1, count as nat) {
            Ok((entries, end)) => Ok((SpecSection::Memory { entries }, end)),
            Err(e) => Err(e),
        },
        Err(e) => Err(e),
    }
}

/// One export entry: a length-prefixed name, a kind byte, and an index.
/// The name's UTF-8 validity is checked only after the rest of the entry
/// has been read.
pub open spec fn spec_parse_export_entry(s: Seq<u8>, pos: int) -> Result<
    (SpecExportEntry, int),
    ParseError,
> {
    match spec_varuint32(s, pos) {
        Ok((field_len, p1)) => if s.len() - p1 < field_len {
            Err(ParseError::Truncated)
        } else {
            let name_bytes = s.subrange(p1, p1 + field_len);
            let p2 = p1 + field_len;
            if s.len() - p2 < 1 {
                Err(ParseError::Truncated)
            } else {
                let kind_byte = s[p2];
                if kind_byte > 3 {
                    Err(ParseError::InvalidExternalKind(kind_byte))
                } else {
                    let kind = if kind_byte == 0 {
                        ExternalKind::Function
                    } else if kind_byte == 1 {
                        ExternalKind::Table
                    } else if kind_byte == 2 {
                        ExternalKind::Memory
                    } else {
                        ExternalKind::Global
                    };
                    match spec_varuint32(s, p2 + 1) {
                        Ok((index, p3)) => if valid_utf8(name_bytes) {
                            Ok(
                                (
                                    SpecExportEntry {
                                        field_name: decode_utf8(name_bytes),
                                        kind: kind,
                                        index: index,
                                    },
                                    p3,
                                ),
                            )
                        } else {
                            Err(ParseError::Utf8Error)
                        },
                        Err(e) => Err(e),
                    }
                }
            }
        },
        Err(e) => Err(e),
    }
}

pub proof fn lemma_export_entry_wf(s: Seq<u8>, pos: int)
    requires
        spec_parse_export_entry(s, pos) is Ok,
    ensures
        pos < spec_parse_export_entry(s, pos)->Ok_0.1 <= s.len(),
{
    lemma_sleb_wf(s, pos);
    let p1 = spec_varuint32(s, pos)->Ok_0.1;
    let field_len = spec_varuint32(s, pos)->Ok_0.0;
    let p2 = p1 + field_len;
    lemma_sleb_wf(s, p2 + 1);
}

/// A count-prefixed run of export entries.
pub open spec fn spec_parse_export_entries(s: Seq<u8>, pos: int, count: nat) -> Result<
    (Seq<SpecExportEntry>, int),
    ParseError,
>
    decreases count,
{
    if count == 0 {
        Ok((seq![], pos))
    } else {
        match spec_parse_export_entry(s, pos) {
            Ok((e0, p)) => match spec_parse_export_entries(s, p, (count - 1) as nat) {
                Ok((rest, end)) => Ok((seq![e0] + rest, end)),
                Err(e) => Err(e),
            },
            Err(e) => Err(e),
        }
    }
}

pub proof fn lemma_export_entries_wf(s: Seq<u8>, pos: int, count: nat)
    requires
        spec_parse_export_entries(s, pos, count) is Ok,
        pos <= s.len(),
    ensures
        pos <= spec_parse_export_entries(s, pos, count)->Ok_0.1 <= s.len(),
    decreases count,
{
    if count != 0 {
        lemma_export_entry_wf(s, pos);
        let p = spec_parse_export_entry(s, pos)->Ok_0.1;
        lemma_export_entries_wf(s, p, (count - 1) as nat);
    }
}

/// The export section: a count-prefixed run of export entries.
pub open spec fn spec_parse_export_section(s: Seq<u8>, pos: int) -> Result<
    (SpecSection, int),
    ParseError,
> {
    match spec_varuint32(s, pos) {
        Ok((count, p1)) => match spec_parse_export_entries(s, p1, count as nat) {
            Ok((entries, end)) => Ok((SpecSection::Export { entries }, end)),
            Err(e) => Err(e),
        },
        Err(e) => Err(e),
    }
}

/// The start section: the entry function's index.
pub open spec fn spec_parse_start_section(s: Seq<u8>, pos: int) -> Result<
    (SpecSection, int),
    ParseError,
> {
    match spec_varuint32(s, pos) {
        Ok((index, end)) => Ok((SpecSection::Start { index }, end)),
        Err(e) => Err(e),
    }
}

/// Opcode bytes up to and excluding the end marker `0x0b`; the marker is
/// consumed.
pub open spec fn spec_parse_code_bytes(s: Seq<u8>, pos: int) -> Result<(Seq<u8>, int), ParseError>
    decreases s.len() - pos,
{
    if pos < 0 || pos >= s.len() {
        Err(ParseError::Truncated)
    } else if s[pos] == 0x0b {
        Ok((seq![], pos + 1))
    } else {
        match spec_parse_code_bytes(s, pos + 1) {
            Ok((rest, end)) => Ok((seq![s[pos]] + rest, end)),
            Err(e) => Err(e),
        }
    }
}

pub proof fn lemma_code_bytes_wf(s: Seq<u8>, pos: int)
    requires
        spec_parse_code_bytes(s, pos) is Ok,
    ensures
        pos < spec_parse_code_bytes(s, pos)->Ok_0.1 <= s.len(),
    decreases s.len() - pos,
{
    if 0 <= pos < s.len() && s[pos] != 0x0b {
        lemma_code_bytes_wf(s, pos + 1);
    }
}

/// One run of locals: a count and a value type.
pub open spec fn spec_parse_local_entry(s: Seq<u8>, pos: int) -> Result<
    (LocalEntry, int),
    ParseError,
> {
    match spec_varuint32(s, pos) {
        Ok((count, p1)) => match spec_parse_value_type(s, p1) {
            Ok((ty, end)) => Ok((LocalEntry { count, ty }, end)),
            Err(e) => Err(e),
        },
        Err(e) => Err(e),
    }
}

pub proof fn lemma_local_entry_wf(s: Seq<u8>, pos: int)
    requires
        spec_parse_local_entry(s, pos) is Ok,
    ensures
        pos < spec_parse_local_entry(s, pos)->Ok_0.1 <= s.len(),
{
    lemma_sleb_wf(s, pos);
    let p1 = spec_varuint32(s, pos)->Ok_0.1;
    lemma_value_type_wf(s, p1);
}

/// A count-prefixed run of local declarations.
pub open spec fn spec_parse_local_entries(s: Seq<u8>, pos: int, count: nat) -> Result<
    (Seq<LocalEntry>, int),
    ParseError,
>
    decreases count,
{
    if count == 0 {
        Ok((seq![], pos))
    } else {
        match spec_parse_local_entry(s, pos) {
            Ok((e0, p)) => match spec_parse_local_entries(s, p, (count - 1) as nat) {
                Ok((rest, end)) => Ok((seq![e0] + rest, end)),
                Err(e) => Err(e),
            },
            Err(e) => Err(e),
        }
    }
}

pub proof fn lemma_local_entries_wf(s: Seq<u8>, pos: int, count: nat)
    requires
        spec_parse_local_entries(s, pos, count) is Ok,
        pos <= s.len(),
    ensures
        pos <= spec_parse_local_entries(s, pos, count)->Ok_0.1 <= s.len(),
    decreases count,
{
    if count != 0 {
        lemma_local_entry_wf(s, pos);
        let p = spec_parse_local_entry(s, pos)->Ok_0.1;
        lemma_local_entries_wf(s, p, (count - 1) as nat);
    }
}

/// One function body: an ignored size prefix, the locals, and the opcode
/// bytes up to the end marker.
pub open spec fn spec_parse_function_body(s: Seq<u8>, pos: int) -> Result<
    (SpecFunctionBody, int),
    ParseError,
> {
    match spec_varuint32(s, pos) {
        Ok((_body_size, p1)) => match spec_varuint32(s, p1) {
            Ok((local_count, p2)) => match spec_parse_local_entries(s, p2, local_count as nat) {
                Ok((locals, p3)) => match spec_parse_code_bytes(s, p3) {
                    Ok((code, end)) => Ok((SpecFunctionBody { locals, code }, end)),
                    Err(e) => Err(e),
                },
                Err(e) => Err(e),
            },
            Err(e) => Err(e),
        },
        Err(e) => Err(e),
    }
}

pub proof fn lemma_function_body_wf(s: Seq<u8>, pos: int)
    requires
        spec_parse_function_body(s, pos) is Ok,
    ensures
        pos < spec_parse_function_body(s, pos)->Ok_0.1 <= s.len(),
{
    lemma_sleb_wf(s, pos);
    let p1 = spec_varuint32(s, pos)->Ok_0.1;
    lemma_sleb_wf(s, p1);
    let p2 = spec_varuint32(s, p1)->Ok_0.1;
    let count = spec_varuint32(s, p1)->Ok_0.0;
    lemma_local_entries_wf(s, p2, count as nat);
    let p3 = spec_parse_local_entries(s, p2, count as nat)->Ok_0.1;
    lemma_code_bytes_wf(s, p3);
}

/// A count-prefixed run of function bodies.
pub open spec fn spec_parse_function_bodies(s: Seq<u8>, pos: int, count: nat) -> Result<
    (Seq<SpecFunctionBody>, int),
    ParseError,
>
    decreases count,
{
    if count == 0 {
        Ok((seq![], pos))
    } else {
        match spec_parse_function_body(s, pos) {
            Ok((b0, p)) => match spec_parse_function_bodies(s, p, (count - 1) as nat) {
                Ok((rest, end)) => Ok((seq![b0] + rest, end)),
                Err(e) => Err(e),
            },
            Err(e) => Err(e),
        }
    }
}

pub proof fn lemma_function_bodies_wf(s: Seq<u8>, pos: int, count: nat)
    requires
        spec_parse_function_bodies(s, pos, count) is Ok,
        pos <= s.len(),
    ensures
        pos <= spec_parse_function_bodies(s, pos, count)->Ok_0.1 <= s.len(),
    decreases count,
{
    if count != 0 {
        lemma_function_body_wf(s, pos);
        let p = spec_parse_function_body(s, pos)->Ok_0.1;
        lemma_function_bodies_wf(s, p, (count - 1) as nat);
    }
}

/// The code section: a count-prefixed run of function bodies.
pub open spec fn spec_parse_code_section(s: Seq<u8>, pos: int) -> Result<
    (SpecSection, int),
    ParseError,
> {
    match spec_varuint32(s, pos) {
        Ok((count, p1)) => match spec_parse_function_bodies(s, p1, count as nat) {
            Ok((bodies, end)) => Ok((SpecSection::Code { bodies }, end)),
            Err(e) => Err(e),
        },
        Err(e) => Err(e),
    }
}

/// A custom section: a length-prefixed name and opaque payload bytes, both
/// counted against the payload length; nothing of it is retained.
pub open spec fn spec_parse_custom_section(s: Seq<u8>, pos: int, payload_len: u32) -> Result<
    (SpecSection, int),
    ParseError,
> {
    match spec_varuint32(s, pos) {
        Ok((name_len, p1)) => if p1 - pos + name_len > payload_len {
            Err(ParseError::DecodeError)
        } else if s.len() < pos + payload_len {
            Err(ParseError::Truncated)
        } else {
            Ok((SpecSection::Custom, pos + payload_len))
        },
        Err(e) => Err(e),
    }
}

/// An unrecognized section: its payload is consumed and only the id kept.
pub open spec fn spec_parse_unknown_section(s: Seq<u8>, pos: int, id: u32, payload_len: u32) -> Result<
    (SpecSection, int),
    ParseError,
> {
    if s.len() - pos < payload_len {
        Err(ParseError::Truncated)
    } else {
        Ok((SpecSection::Unknown { id }, pos + payload_len))
    }
}

/// One section: an id, a payload length, and the payload dispatched on the
/// id.
pub open spec fn spec_parse_section(s: Seq<u8>, pos: int) -> Result<(SpecSection, int), ParseError> {
    match spec_varuint32(s, pos) {
        Ok((id, p1)) => match spec_varuint32(s, p1) {
            Ok((payload_len, p2)) => if id == 0 {
                spec_parse_custom_section(s, p2, payload_len)
            } else if id == 1 {
                spec_parse_type_section(s, p2)
            } else if id == 3 {
                spec_parse_function_section(s, p2)
            } else if id == 5 {
                spec_parse_memory_section(s, p2)
            } else if id == 7 {
                spec_parse_export_section(s, p2)
            } else if id == 8 {
                spec_parse_start_section(s, p2)
            } else if id == 10 {
                spec_parse_code_section(s, p2)
            } else {
                spec_parse_unknown_section(s, p2, id, payload_len)
            },
            Err(e) => Err(e),
        },
        Err(e) => Err(e),
    }
}

pub proof fn lemma_section_wf(s: Seq<u8>, pos: int)
    requires
        spec_parse_section(s, pos) is Ok,
        0 <= pos,
    ensures
        pos < spec_parse_section(s, pos)->Ok_0.1 <= s.len(),
{
    lemma_sleb_wf(s, pos);
    let p1 = spec_varuint32(s, pos)->Ok_0.1;
    let id = spec_varuint32(s, pos)->Ok_0.0;
    lemma_sleb_wf(s, p1);
    let p2 = spec_varuint32(s, p1)->Ok_0.1;
    let payload_len = spec_varuint32(s, p1)->Ok_0.0;
    if id == 0 {
        lemma_sleb_wf(s, p2);
    } else if id == 1 {
        lemma_sleb_wf(s, p2);
        let q = spec_varuint32(s, p2)->Ok_0.1;
        let count = spec_varuint32(s, p2)->Ok_0.0;
        lemma_func_types_wf(s, q, count as nat);
    } else if id == 3 {
        lemma_sleb_wf(s, p2);
        let q = spec_varuint32(s, p2)->Ok_0.1;
        let count = spec_varuint32(s, p2)->Ok_0.0;
        lemma_indices_wf(s, q, count as nat);
    } else if id == 5 {
        lemma_sleb_wf(s, p2);
        let q = spec_varuint32(s, p2)->Ok_0.1;
        let count = spec_varuint32(s, p2)->Ok_0.0;
        lemma_memory_types_wf(s, q, count as nat);
    } else if id == 7 {
        lemma_sleb_wf(s, p2);
        let q = spec_varuint32(s, p2)->Ok_0.1;
        let count = spec_varuint32(s, p2)->Ok_0.0;
        lemma_export_entries_wf(s, q, count as nat);
    } else if id == 8 {
        lemma_sleb_wf(s, p2);
    } else if id == 10 {
        lemma_sleb_wf(s, p2);
        let q = spec_varuint32(s, p2)->Ok_0.1;
        let count = spec_varuint32(s, p2)->Ok_0.0;
        lemma_function_bodies_wf(s, q, count as nat);
    }
}

/// The run of sections from `pos` to the end of the buffer. A buffer
/// exhausted exactly at a section boundary is the clean end of the list.
pub open spec fn spec_parse_sections(s: Seq<u8>, pos: int) -> Result<Seq<SpecSection>, ParseError>
    decreases s.len() - pos,
        when 0 <= pos <= s.len()
{
    if pos >= s.len() {
        Ok(seq![])
    } else {
        match spec_parse_section(s, pos) {
            Ok((sec, end)) => {
                proof {
                    lemma_section_wf(s, pos);
                }
                match spec_parse_sections(s, end) {
                    Ok(rest) => Ok(seq![sec] + rest),
                    Err(e) => Err(e),
                }
            },
            Err(e) => Err(e),
        }
    }
}

/// The whole module grammar: magic number, version, then sections to the
/// end of the buffer.
pub open spec fn spec_parse_module(s: Seq<u8>) -> Result<SpecModule, ParseError> {
    if s.len() < 4 {
        Err(ParseError::Truncated)
    } else if le32_at(s, 0) != MAGIC_NUMBER {
        Err(ParseError::BadMagic(le32_at(s, 0)))
    } else if s.len() < 8 {
        Err(ParseError::Truncated)
    } else if le32_at(s, 4) != SUPPORTED_VERSION {
        Err(ParseError::UnsupportedVersion(le32_at(s, 4)))
    } else {
        match spec_parse_sections(s, 8) {
            Ok(sections) => Ok(
                SpecModule {
                    magic_number: MAGIC_NUMBER,
                    version: SUPPORTED_VERSION,
                    sections: sections,
                },
            ),
            Err(e) => Err(e),
        }
    }
}

/// Law: a stream of at least four bytes whose leading little-endian word
/// is not the magic number fails with `BadMagic` carrying that word, and
/// nothing after it is read.
pub proof fn lemma_bad_magic(s: Seq<u8>)
    requires
        s.len() >= 4,
        le32_at(s, 0) != MAGIC_NUMBER,
    ensures
        spec_parse_module(s) == Err::<SpecModule, ParseError>(ParseError::BadMagic(le32_at(s, 0))),
{
}

/// Law: a stream with the magic number whose version word is not the
/// supported version fails with `UnsupportedVersion` carrying that word;
/// no section is read.
pub proof fn lemma_unsupported_version(s: Seq<u8>)
    requires
        s.len() >= 8,
        le32_at(s, 0) == MAGIC_NUMBER,
        le32_at(s, 4) != SUPPORTED_VERSION,
    ensures
        spec_parse_module(s) == Err::<SpecModule, ParseError>(
            ParseError::UnsupportedVersion(le32_at(s, 4)),
        ),
{
}

/// Law: the eight-byte stream of magic number and version alone is the
/// minimal module, and it decodes with an empty section sequence.
pub proof fn lemma_minimal_module(s: Seq<u8>)
    requires
        s.len() == 8,
        le32_at(s, 0) == MAGIC_NUMBER,
        le32_at(s, 4) == SUPPORTED_VERSION,
    ensures
        spec_parse_module(s) == Ok::<SpecModule, ParseError>(
            SpecModule {
                magic_number: MAGIC_NUMBER,
                version: SUPPORTED_VERSION,
                sections: Seq::<SpecSection>::empty(),
            },
        ),
{
    assert(spec_parse_sections(s, 8) == Ok::<Seq<SpecSection>, ParseError>(seq![]));
    assert(seq![] =~= Seq::<SpecSection>::empty());
}

/// Law: round trip of the varuint32 path. Encoding any 32-bit value and
/// decoding it through the varuint32 grammar yields the value back, at the
/// position just past the encoding.
pub proof fn lemma_varuint32_round_trip(v: u32)
    ensures
        spec_varuint32(spec_encode_nonneg(v as nat), 0) == Ok::<(u32, int), ParseError>(
            (v, spec_encode_nonneg(v as nat).len() as int),
        ),
{
    lemma_pow128_vals();
    lemma_decode_encode_nonneg(v as nat);
    assert(trunc_u32(v as int) == v);
}


pub proof fn lemma_func_type_views_push(v: Seq<FuncType>, x: FuncType)
    ensures
        func_type_views(v.push(x)) == func_type_views(v).push(x@),
{
    assert(func_type_views(v.push(x)) =~= func_type_views(v).push(x@));
}

pub proof fn lemma_export_entry_views_push(v: Seq<ExportEntry>, x: ExportEntry)
    ensures
        export_entry_views(v.push(x)) == export_entry_views(v).push(x@),
{
    assert(export_entry_views(v.push(x)) =~= export_entry_views(v).push(x@));
}

pub proof fn lemma_function_body_views_push(v: Seq<FunctionBody>, x: FunctionBody)
    ensures
        function_body_views(v.push(x)) == function_body_views(v).push(x@),
{
    assert(function_body_views(v.push(x)) =~= function_body_views(v).push(x@));
}

pub proof fn lemma_section_views_push(v: Seq<Section>, x: Section)
    ensures
        section_views(v.push(x)) == section_views(v).push(x@),
{
    assert(section_views(v.push(x)) =~= section_views(v).push(x@));
}

/// Read the little-endian 32-bit integer at `pos`.
pub fn read_le_u32(bytes: &Vec<u8>, pos: usize) -> (r: u32)
    requires
        pos + 4 <= bytes@.len(),
    ensures
        r == le32_at(bytes@, pos as int),
{
    let n: usize = bytes.len();
    proof {
        assert(n == bytes@.len());
    }
    let b0 = bytes[pos] as u32;
    let b1 = bytes[pos + 1] as u32;
    let b2 = bytes[pos + 2] as u32;
    let b3 = bytes[pos + 3] as u32;
    b0 + 0x100 * b1 + 0x1_0000 * b2 + 0x100_0000 * b3
}

/// Relies on `String::from_utf8` of std: it succeeds exactly on input that
/// is valid UTF-8, and the returned string's characters are the UTF-8
/// decoding of the input bytes.
#[verifier::external_body]
fn bytes_to_string(bytes: Vec<u8>) -> (r: Option<String>)
    ensures
        r is Some <==> valid_utf8(bytes@),
        (r matches Some(s) ==> s@ == decode_utf8(bytes@)),
{
    String::from_utf8(bytes).ok()
}

impl Section {
    /// The varuint32 call shape: signed LEB128, reinterpreted unsigned.
    pub fn parse_varuint32(bytes: &Vec<u8>, pos: usize) -> (r: Result<(u32, usize), ParseError>)
        ensures
            (match (r, spec_varuint32(bytes@, pos as int)) {
                (Ok((v, end)), Ok((sv, send))) => v == sv && end as int == send,
                (Err(e1), Err(e2)) => e1 == e2,
                _ => false,
            }),
    {
        match decode_signed(bytes, pos) {
            Ok((v, end)) => {
                let m = euclid_rem(v, 0x1_0000_0000);
                Ok((m as u32, end))
            },
            Err(VarintError::Truncated) => Err(ParseError::Truncated),
            Err(VarintError::Malformed) => Err(ParseError::DecodeError),
        }
    }

    /// The varint7 call shape: signed LEB128, narrowed to a signed byte.
    pub fn parse_varint7(bytes: &Vec<u8>, pos: usize) -> (r: Result<(i8, usize), ParseError>)
        ensures
            (match (r, spec_varint7(bytes@, pos as int)) {
                (Ok((v, end)), Ok((sv, send))) => v == sv && end as int == send,
                (Err(e1), Err(e2)) => e1 == e2,
                _ => false,
            }),
    {
        match decode_signed(bytes, pos) {
            Ok((v, end)) => {
                let m = euclid_rem(v, 0x100);
                let t: i8 = if m >= 0x80 {
                    (m as i64 - 0x100) as i8
                } else {
                    m as i8
                };
                Ok((t, end))
            },
            Err(VarintError::Truncated) => Err(ParseError::Truncated),
            Err(VarintError::Malformed) => Err(ParseError::DecodeError),
        }
    }

    /// The varuint1 call shape: signed LEB128, narrowed to an unsigned
    /// byte, read for one-bit flags.
    pub fn parse_varuint1(bytes: &Vec<u8>, pos: usize) -> (r: Result<(u8, usize), ParseError>)
        ensures
            (match (r, spec_varuint1(bytes@, pos as int)) {
                (Ok((v, end)), Ok((sv, send))) => v == sv && end as int == send,
                (Err(e1), Err(e2)) => e1 == e2,
                _ => false,
            }),
    {
        match decode_signed(bytes, pos) {
            Ok((v, end)) => {
                let m = euclid_rem(v, 0x100);
                Ok((m as u8, end))
            },
            Err(VarintError::Truncated) => Err(ParseError::Truncated),
            Err(VarintError::Malformed) => Err(ParseError::DecodeError),
        }
    }

    /// One value-type tag.
    pub fn parse_value_type(bytes: &Vec<u8>, pos: usize) -> (r: Result<
        (ValueType, usize),
        ParseError,
    >)
        ensures
            (match (r, spec_parse_value_type(bytes@, pos as int)) {
                (Ok((t, end)), Ok((st, send))) => t == st && end as int == send,
                (Err(e1), Err(e2)) => e1 == e2,
                _ => false,
            }),
    {
        let (t, end) = match Self::parse_varint7(bytes, pos) {
            Ok(x) => x,
            Err(e) => return Err(e),
        };
        if t == -1 {
            Ok((ValueType::I32, end))
        } else if t == -2 {
            Ok((ValueType::I64, end))
        } else if t == -3 {
            Ok((ValueType::F32, end))
        } else if t == -4 {
            Ok((ValueType::F64, end))
        } else {
            Err(ParseError::InvalidValueType(t))
        }
    }

    /// One run of locals: a count and a value type.
    pub fn parse_local_entry(bytes: &Vec<u8>, pos: usize) -> (r: Result<
        (LocalEntry, usize),
        ParseError,
    >)
        ensures
            (match (r, spec_parse_local_entry(bytes@, pos as int)) {
                (Ok((e0, end)), Ok((se, send))) => e0 == se && end as int == send,
                (Err(e1), Err(e2)) => e1 == e2,
                _ => false,
            }),
    {
        let (count, p1) = match Self::parse_varuint32(bytes, pos) {
            Ok(x) => x,
            Err(e) => return Err(e),
        };
        let (ty, end) = match Self::parse_value_type(bytes, p1) {
            Ok(x) => x,
            Err(e) => return Err(e),
        };
        Ok((LocalEntry { count, ty }, end))
    }

    /// Memory limits: flag, initial size, and a maximum iff the flag is
    /// one.
    pub fn parse_resizable_limits(bytes: &Vec<u8>, pos: usize) -> (r: Result<
        (ResizableLimits, usize),
        ParseError,
    >)
        ensures
            (match (r, spec_parse_limits(bytes@, pos as int)) {
                (Ok((l, end)), Ok((sl, send))) => l == sl && end as int == send,
                (Err(e1), Err(e2)) => e1 == e2,
                _ => false,
            }),
    {
        let (flags, p1) = match Self::parse_varuint1(bytes, pos) {
            Ok(x) => x,
            Err(e) => return Err(e),
        };
        let (initial, p2) = match Self::parse_varuint32(bytes, p1) {
            Ok(x) => x,
            Err(e) => return Err(e),
        };
        if flags == 1 {
            let (max, p3) = match Self::parse_varuint32(bytes, p2) {
                Ok(x) => x,
                Err(e) => return Err(e),
            };
            Ok((ResizableLimits { initial, maximum: Some(max) }, p3))
        } else {
            Ok((ResizableLimits { initial, maximum: None }, p2))
        }
    }

    /// One linear memory declaration.
    pub fn parse_memory_type(bytes: &Vec<u8>, pos: usize) -> (r: Result<
        (MemoryType, usize),
        ParseError,
    >)
        ensures
            (match (r, spec_parse_limits(bytes@, pos as int)) {
                (Ok((m, end)), Ok((sl, send))) => m == (MemoryType { limits: sl }) && end as int
                    == send,
                (Err(e1), Err(e2)) => e1 == e2,
                _ => false,
            }),
    {
        let (limits, end) = match Self::parse_resizable_limits(bytes, pos) {
            Ok(x) => x,
            Err(e) => return Err(e),
        };
        Ok((MemoryType { limits }, end))
    }

    /// One function signature.
    #[verifier::loop_isolation(false)]
    #[verifier::rlimit(60)]
    pub fn parse_func_type(bytes: &Vec<u8>, pos: usize) -> (r: Result<
        (FuncType, usize),
        ParseError,
    >)
        ensures
            (match (r, spec_parse_func_type(bytes@, pos as int)) {
                (Ok((ft, end)), Ok((sft, send))) => ft@ == sft && end as int == send,
                (Err(e1), Err(e2)) => e1 == e2,
                _ => false,
            }),
    {
        let (form, p1) = match Self::parse_varint7(bytes, pos) {
            Ok(x) => x,
            Err(e) => return Err(e),
        };
        let (param_count, p0) = match Self::parse_varuint32(bytes, p1) {
            Ok(x) => x,
            Err(e) => return Err(e),
        };
        proof {
            lemma_sleb_wf(bytes@, p1 as int);
        }
        let ghost start = p0 as int;
        let mut param_types: Vec<ValueType> = Vec::new();
        let mut p: usize = p0;
        let mut i: u32 = 0;
        proof {
            assert(param_types@ =~= Seq::<ValueType>::empty());
            match spec_parse_value_types(bytes@, start, param_count as nat) {
                Ok((rest, send)) => {
                    assert(param_types@ + rest =~= rest);
                },
                Err(e) => {},
            }
        }
        while i < param_count
            invariant
                i <= param_count,
                p <= bytes@.len(),
                (match spec_parse_value_types(bytes@, p as int, (param_count - i) as nat) {
                    Ok((rest, send)) => spec_parse_value_types(bytes@, start, param_count as nat)
                        == Ok::<(Seq<ValueType>, int), ParseError>((param_types@ + rest, send)),
                    Err(e) => spec_parse_value_types(bytes@, start, param_count as nat) == Err::<
                        (Seq<ValueType>, int),
                        ParseError,
                    >(e),
                }),
            decreases param_count - i,
        {
            let (ty, p2) = match Self::parse_value_type(bytes, p) {
                Ok(x) => x,
                Err(e) => return Err(e),
            };
            proof {
                lemma_value_type_wf(bytes@, p as int);
                match spec_parse_value_types(bytes@, p2 as int, (param_count - i - 1) as nat) {
                    Ok((rest2, send2)) => {
                        assert(param_types@ + (seq![ty] + rest2) =~= param_types@.push(ty)
                            + rest2);
                    },
                    Err(e) => {},
                }
            }
            param_types.push(ty);
            p = p2;
            i = i + 1;
        }
        proof {
            assert(param_types@ + Seq::<ValueType>::empty() =~= param_types@);
        }
        let (ret_count, p4) = match Self::parse_varuint1(bytes, p) {
            Ok(x) => x,
            Err(e) => return Err(e),
        };
        if ret_count > 0 {
            let (rt, p5) = match Self::parse_value_type(bytes, p4) {
                Ok(x) => x,
                Err(e) => return Err(e),
            };
            Ok((FuncType { form, param_types, return_type: Some(rt) }, p5))
        } else {
            Ok((FuncType { form, param_types, return_type: None }, p4))
        }
    }

    /// One export entry.
    #[verifier::loop_isolation(false)]
    pub fn parse_export_entry(bytes: &Vec<u8>, pos: usize) -> (r: Result<
        (ExportEntry, usize),
        ParseError,
    >)
        ensures
            (match (r, spec_parse_export_entry(bytes@, pos as int)) {
                (Ok((e0, end)), Ok((se, send))) => e0@ == se && end as int == send,
                (Err(e1), Err(e2)) => e1 == e2,
                _ => false,
            }),
    {
        let (field_len, p1) = match Self::parse_varuint32(bytes, pos) {
            Ok(x) => x,
            Err(e) => return Err(e),
        };
        proof {
            lemma_sleb_wf(bytes@, pos as int);
        }
        let len = bytes.len();
        let field_len_us = field_len as usize;
        if len - p1 < field_len_us {
            return Err(ParseError::Truncated);
        }
        let mut name_bytes: Vec<u8> = Vec::new();
        let mut j: usize = 0;
        proof {
            assert(name_bytes@ =~= bytes@.subrange(p1 as int, p1 as int));
        }
        while j < field_len_us
            invariant
                j <= field_len_us,
                p1 + field_len_us <= bytes@.len(),
                name_bytes@ == bytes@.subrange(p1 as int, p1 + j),
            decreases field_len_us - j,
        {
            let b = bytes[p1 + j];
            proof {
                assert(bytes@.subrange(p1 as int, p1 + j + 1) =~= bytes@.subrange(
                    p1 as int,
                    p1 + j,
                ).push(b));
            }
            name_bytes.push(b);
            j = j + 1;
        }
        let p2 = p1 + field_len_us;
        if len - p2 < 1 {
            return Err(ParseError::Truncated);
        }
        let kind_byte = bytes[p2];
        if kind_byte > 3 {
            return Err(ParseError::InvalidExternalKind(kind_byte));
        }
        let kind = if kind_byte == 0 {
            ExternalKind::Function
        } else if kind_byte == 1 {
            ExternalKind::Table
        } else if kind_byte == 2 {
            ExternalKind::Memory
        } else {
            ExternalKind::Global
        };
        let (index, p3) = match Self::parse_varuint32(bytes, p2 + 1) {
            Ok(x) => x,
            Err(e) => return Err(e),
        };
        match bytes_to_string(name_bytes) {
            Some(field_name) => Ok((ExportEntry { field_name, kind, index }, p3)),
            None => Err(ParseError::Utf8Error),
        }
    }

    /// The type section's payload.
    #[verifier::loop_isolation(false)]
    #[verifier::rlimit(60)]
    pub fn parse_type_section(bytes: &Vec<u8>, pos: usize) -> (r: Result<
        (Section, usize),
        ParseError,
    >)
        ensures
            (match (r, spec_parse_type_section(bytes@, pos as int)) {
                (Ok((sec, end)), Ok((ssec, send))) => sec@ == ssec && end as int == send,
                (Err(e1), Err(e2)) => e1 == e2,
                _ => false,
            }),
    {
        let (count, p0) = match Self::parse_varuint32(bytes, pos) {
            Ok(x) => x,
            Err(e) => return Err(e),
        };
        proof {
            lemma_sleb_wf(bytes@, pos as int);
        }
        let ghost start = p0 as int;
        let mut entries: Vec<FuncType> = Vec::new();
        let mut p: usize = p0;
        let mut i: u32 = 0;
        proof {
            assert(func_type_views(entries@) =~= Seq::<SpecFuncType>::empty());
            match spec_parse_func_types(bytes@, start, count as nat) {
                Ok((rest, send)) => {
                    assert(func_type_views(entries@) + rest =~= rest);
                },
                Err(e) => {},
            }
        }
        while i < count
            invariant
                i <= count,
                p <= bytes@.len(),
                (match spec_parse_func_types(bytes@, p as int, (count - i) as nat) {
                    Ok((rest, send)) => spec_parse_func_types(bytes@, start, count as nat) == Ok::<
                        (Seq<SpecFuncType>, int),
                        ParseError,
                    >((func_type_views(entries@) + rest, send)),
                    Err(e) => spec_parse_func_types(bytes@, start, count as nat) == Err::<
                        (Seq<SpecFuncType>, int),
                        ParseError,
                    >(e),
                }),
            decreases count - i,
        {
            let (ft, p2) = match Self::parse_func_type(bytes, p) {
                Ok(x) => x,
                Err(e) => return Err(e),
            };
            proof {
                lemma_func_type_wf(bytes@, p as int);
                lemma_func_type_views_push(entries@, ft);
                match spec_parse_func_types(bytes@, p2 as int, (count - i - 1) as nat) {
                    Ok((rest2, send2)) => {
                        assert(func_type_views(entries@) + (seq![ft@] + rest2) =~= func_type_views(
                            entries@,
                        ).push(ft@) + rest2);
                    },
                    Err(e) => {},
                }
            }
            entries.push(ft);
            p = p2;
            i = i + 1;
        }
        proof {
            assert(func_type_views(entries@) + Seq::<SpecFuncType>::empty() =~= func_type_views(
                entries@,
            ));
        }
        Ok((Section::Type { entries }, p))
    }

    /// The function section's payload.
    #[verifier::loop_isolation(false)]
    #[verifier::rlimit(60)]
    pub fn parse_function_section(bytes: &Vec<u8>, pos: usize) -> (r: Result<
        (Section, usize),
        ParseError,
    >)
        ensures
            (match (r, spec_parse_function_section(bytes@, pos as int)) {
                (Ok((sec, end)), Ok((ssec, send))) => sec@ == ssec && end as int == send,
                (Err(e1), Err(e2)) => e1 == e2,
                _ => false,
            }),
    {
        let (count, p0) = match Self::parse_varuint32(bytes, pos) {
            Ok(x) => x,
            Err(e) => return Err(e),
        };
        proof {
            lemma_sleb_wf(bytes@, pos as int);
        }
        let ghost start = p0 as int;
        let mut types: Vec<u32> = Vec::new();
        let mut p: usize = p0;
        let mut i: u32 = 0;
        proof {
            assert(types@ =~= Seq::<u32>::empty());
            match spec_parse_indices(bytes@, start, count as nat) {
                Ok((rest, send)) => {
                    assert(types@ + rest =~= rest);
                },
                Err(e) => {},
            }
        }
        while i < count
            invariant
                i <= count,
                p <= bytes@.len(),
                (match spec_parse_indices(bytes@, p as int, (count - i) as nat) {
                    Ok((rest, send)) => spec_parse_indices(bytes@, start, count as nat) == Ok::<
                        (Seq<u32>, int),
                        ParseError,
                    >((types@ + rest, send)),
                    Err(e) => spec_parse_indices(bytes@, start, count as nat) == Err::<
                        (Seq<u32>, int),
                        ParseError,
                    >(e),
                }),
            decreases count - i,
        {
            let (t, p2) = match Self::parse_varuint32(bytes, p) {
                Ok(x) => x,
                Err(e) => return Err(e),
            };
            proof {
                lemma_sleb_wf(bytes@, p as int);
                match spec_parse_indices(bytes@, p2 as int, (count - i - 1) as nat) {
                    Ok((rest2, send2)) => {
                        assert(types@ + (seq![t] + rest2) =~= types@.push(t) + rest2);
                    },
                    Err(e) => {},
                }
            }
            types.push(t);
            p = p2;
            i = i + 1;
        }
        proof {
            assert(types@ + Seq::<u32>::empty() =~= types@);
        }
        Ok((Section::Function { types }, p))
    }

    /// The memory section's payload.
    #[verifier::loop_isolation(false)]
    #[verifier::rlimit(60)]
    pub fn parse_memory_section(bytes: &Vec<u8>, pos: usize) -> (r: Result<
        (Section, usize),
        ParseError,
    >)
        ensures
            (match (r, spec_parse_memory_section(bytes@, pos as int)) {
                (Ok((sec, end)), Ok((ssec, send))) => sec@ == ssec && end as int == send,
                (Err(e1), Err(e2)) => e1 == e2,
                _ => false,
            }),
    {
        let (count, p0) = match Self::parse_varuint32(bytes, pos) {
            Ok(x) => x,
            Err(e) => return Err(e),
        };
        proof {
            lemma_sleb_wf(bytes@, pos as int);
        }
        let ghost start = p0 as int;
        let mut entries: Vec<MemoryType> = Vec::new();
        let mut p: usize = p0;
        let mut i: u32 = 0;
        proof {
            assert(entries@ =~= Seq::<MemoryType>::empty());
            match spec_parse_memory_types(bytes@, start, count as nat) {
                Ok((rest, send)) => {
                    assert(entries@ + rest =~= rest);
                },
                Err(e) => {},
            }
        }
        while i < count
            invariant
                i <= count,
                p <= bytes@.len(),
                (match spec_parse_memory_types(bytes@, p as int, (count - i) as nat) {
                    Ok((rest, send)) => spec_parse_memory_types(bytes@, start, count as nat)
                        == Ok::<(Seq<MemoryType>, int), ParseError>((entries@ + rest, send)),
                    Err(e) => spec_parse_memory_types(bytes@, start, count as nat) == Err::<
                        (Seq<MemoryType>, int),
                        ParseError,
                    >(e),
                }),
            decreases count - i,
        {
            let (m, p2) = match Self::parse_memory_type(bytes, p) {
                Ok(x) => x,
                Err(e) => return Err(e),
            };
            proof {
                lemma_limits_wf(bytes@, p as int);
                match spec_parse_memory_types(bytes@, p2 as int, (count - i - 1) as nat) {
                    Ok((rest2, send2)) => {
                        assert(entries@ + (seq![m] + rest2) =~= entries@.push(m) + rest2);
                    },
                    Err(e) => {},
                }
            }
            entries.push(m);
            p = p2;
            i = i + 1;
        }
        proof {
            assert(entries@ + Seq::<MemoryType>::empty() =~= entries@);
        }
        Ok((Section::Memory { entries }, p))
    }

    /// The export section's payload.
    #[verifier::loop_isolation(false)]
    #[verifier::rlimit(60)]
    pub fn parse_export_section(bytes: &Vec<u8>, pos: usize) -> (r: Result<
        (Section, usize),
        ParseError,
    >)
        ensures
            (match (r, spec_parse_export_section(bytes@, pos as int)) {
                (Ok((sec, end)), Ok((ssec, send))) => sec@ == ssec && end as int == send,
                (Err(e1), Err(e2)) => e1 == e2,
                _ => false,
            }),
    {
        let (count, p0) = match Self::parse_varuint32(bytes, pos) {
            Ok(x) => x,
            Err(e) => return Err(e),
        };
        proof {
            lemma_sleb_wf(bytes@, pos as int);
        }
        let ghost start = p0 as int;
        let mut entries: Vec<ExportEntry> = Vec::new();
        let mut p: usize = p0;
        let mut i: u32 = 0;
        proof {
            assert(export_entry_views(entries@) =~= Seq::<SpecExportEntry>::empty());
            match spec_parse_export_entries(bytes@, start, count as nat) {
                Ok((rest, send)) => {
                    assert(export_entry_views(entries@) + rest =~= rest);
                },
                Err(e) => {},
            }
        }
        while i < count
            invariant
                i <= count,
                p <= bytes@.len(),
                (match spec_parse_export_entries(bytes@, p as int, (count - i) as nat) {
                    Ok((rest, send)) => spec_parse_export_entries(bytes@, start, count as nat)
                        == Ok::<(Seq<SpecExportEntry>, int), ParseError>(
                        (export_entry_views(entries@) + rest, send),
                    ),
                    Err(e) => spec_parse_export_entries(bytes@, start, count as nat) == Err::<
                        (Seq<SpecExportEntry>, int),
                        ParseError,
                    >(e),
                }),
            decreases count - i,
        {
            let (e0, p2) = match Self::parse_export_entry(bytes, p) {
                Ok(x) => x,
                Err(e) => return Err(e),
            };
            proof {
                lemma_export_entry_wf(bytes@, p as int);
                lemma_export_entry_views_push(entries@, e0);
                match spec_parse_export_entries(bytes@, p2 as int, (count - i - 1) as nat) {
                    Ok((rest2, send2)) => {
                        assert(export_entry_views(entries@) + (seq![e0@] + rest2)
                            =~= export_entry_views(entries@).push(e0@) + rest2);
                    },
                    Err(e) => {},
                }
            }
            entries.push(e0);
            p = p2;
            i = i + 1;
        }
        proof {
            assert(export_entry_views(entries@) + Seq::<SpecExportEntry>::empty()
                =~= export_entry_views(entries@));
        }
        Ok((Section::Export { entries }, p))
    }

    /// The start section's payload.
    pub fn parse_start_section(bytes: &Vec<u8>, pos: usize) -> (r: Result<
        (Section, usize),
        ParseError,
    >)
        ensures
            (match (r, spec_parse_start_section(bytes@, pos as int)) {
                (Ok((sec, end)), Ok((ssec, send))) => sec@ == ssec && end as int == send,
                (Err(e1), Err(e2)) => e1 == e2,
                _ => false,
            }),
    {
        let (index, end) = match Self::parse_varuint32(bytes, pos) {
            Ok(x) => x,
            Err(e) => return Err(e),
        };
        Ok((Section::Start { index }, end))
    }

    /// One function body: ignored size prefix, locals, and opcode bytes up
    /// to the end marker.
    #[verifier::loop_isolation(false)]
    #[verifier::rlimit(60)]
    pub fn parse_function_body(bytes: &Vec<u8>, pos: usize) -> (r: Result<
        (FunctionBody, usize),
        ParseError,
    >)
        ensures
            (match (r, spec_parse_function_body(bytes@, pos as int)) {
                (Ok((fb, end)), Ok((sfb, send))) => fb@ == sfb && end as int == send,
                (Err(e1), Err(e2)) => e1 == e2,
                _ => false,
            }),
    {
        let (_body_size, p1) = match Self::parse_varuint32(bytes, pos) {
            Ok(x) => x,
            Err(e) => return Err(e),
        };
        let (local_count, p0) = match Self::parse_varuint32(bytes, p1) {
            Ok(x) => x,
            Err(e) => return Err(e),
        };
        proof {
            lemma_sleb_wf(bytes@, p1 as int);
        }
        let ghost start = p0 as int;
        let mut locals: Vec<LocalEntry> = Vec::new();
        let mut p: usize = p0;
        let mut i: u32 = 0;
        proof {
            assert(locals@ =~= Seq::<LocalEntry>::empty());
            match spec_parse_local_entries(bytes@, start, local_count as nat) {
                Ok((rest, send)) => {
                    assert(locals@ + rest =~= rest);
                },
                Err(e) => {},
            }
        }
        while i < local_count
            invariant
                i <= local_count,
                p <= bytes@.len(),
                (match spec_parse_local_entries(bytes@, p as int, (local_count - i) as nat) {
                    Ok((rest, send)) => spec_parse_local_entries(
                        bytes@,
                        start,
                        local_count as nat,
                    ) == Ok::<(Seq<LocalEntry>, int), ParseError>((locals@ + rest, send)),
                    Err(e) => spec_parse_local_entries(bytes@, start, local_count as nat) == Err::<
                        (Seq<LocalEntry>, int),
                        ParseError,
                    >(e),
                }),
            decreases local_count - i,
        {
            let (e0, p2) = match Self::parse_local_entry(bytes, p) {
                Ok(x) => x,
                Err(e) => return Err(e),
            };
            proof {
                lemma_local_entry_wf(bytes@, p as int);
                match spec_parse_local_entries(bytes@, p2 as int, (local_count - i - 1) as nat) {
                    Ok((rest2, send2)) => {
                        assert(locals@ + (seq![e0] + rest2) =~= locals@.push(e0) + rest2);
                    },
                    Err(e) => {},
                }
            }
            locals.push(e0);
            p = p2;
            i = i + 1;
        }
        proof {
            assert(locals@ + Seq::<LocalEntry>::empty() =~= locals@);
        }
        let ghost code_start = p as int;
        let mut code: Vec<u8> = Vec::new();
        let mut q: usize = p;
        let len = bytes.len();
        proof {
            assert(code@ =~= Seq::<u8>::empty());
            match spec_parse_code_bytes(bytes@, code_start) {
                Ok((rest, send)) => {
                    assert(code@ + rest =~= rest);
                },
                Err(e) => {},
            }
        }
        loop
            invariant
                q <= bytes@.len(),
                len == bytes@.len(),
                (match spec_parse_code_bytes(bytes@, q as int) {
                    Ok((rest, send)) => spec_parse_code_bytes(bytes@, code_start) == Ok::<
                        (Seq<u8>, int),
                        ParseError,
                    >((code@ + rest, send)),
                    Err(e) => spec_parse_code_bytes(bytes@, code_start) == Err::<
                        (Seq<u8>, int),
                        ParseError,
                    >(e),
                }),
            decreases bytes@.len() - q,
        {
            if q == len {
                return Err(ParseError::Truncated);
            }
            let b = bytes[q];
            if b == 0x0b {
                proof {
                    assert(code@ + Seq::<u8>::empty() =~= code@);
                }
                return Ok((FunctionBody { locals, code }, q + 1));
            }
            proof {
                match spec_parse_code_bytes(bytes@, q + 1) {
                    Ok((rest2, send2)) => {
                        assert(code@ + (seq![b] + rest2) =~= code@.push(b) + rest2);
                    },
                    Err(e) => {},
                }
            }
            code.push(b);
            q = q + 1;
        }
    }

    /// The code section's payload.
    #[verifier::loop_isolation(false)]
    #[verifier::rlimit(60)]
    pub fn parse_code_section(bytes: &Vec<u8>, pos: usize) -> (r: Result<
        (Section, usize),
        ParseError,
    >)
        ensures
            (match (r, spec_parse_code_section(bytes@, pos as int)) {
                (Ok((sec, end)), Ok((ssec, send))) => sec@ == ssec && end as int == send,
                (Err(e1), Err(e2)) => e1 == e2,
                _ => false,
            }),
    {
        let (count, p0) = match Self::parse_varuint32(bytes, pos) {
            Ok(x) => x,
            Err(e) => return Err(e),
        };
        proof {
            lemma_sleb_wf(bytes@, pos as int);
        }
        let ghost start = p0 as int;
        let mut bodies: Vec<FunctionBody> = Vec::new();
        let mut p: usize = p0;
        let mut i: u32 = 0;
        proof {
            assert(function_body_views(bodies@) =~= Seq::<SpecFunctionBody>::empty());
            match spec_parse_function_bodies(bytes@, start, count as nat) {
                Ok((rest, send)) => {
                    assert(function_body_views(bodies@) + rest =~= rest);
                },
                Err(e) => {},
            }
        }
        while i < count
            invariant
                i <= count,
                p <= bytes@.len(),
                (match spec_parse_function_bodies(bytes@, p as int, (count - i) as nat) {
                    Ok((rest, send)) => spec_parse_function_bodies(bytes@, start, count as nat)
                        == Ok::<(Seq<SpecFunctionBody>, int), ParseError>(
                        (function_body_views(bodies@) + rest, send),
                    ),
                    Err(e) => spec_parse_function_bodies(bytes@, start, count as nat) == Err::<
                        (Seq<SpecFunctionBody>, int),
                        ParseError,
                    >(e),
                }),
            decreases count - i,
        {
            let (b0, p2) = match Self::parse_function_body(bytes, p) {
                Ok(x) => x,
                Err(e) => return Err(e),
            };
            proof {
                lemma_function_body_wf(bytes@, p as int);
                lemma_function_body_views_push(bodies@, b0);
                match spec_parse_function_bodies(bytes@, p2 as int, (count - i - 1) as nat) {
                    Ok((rest2, send2)) => {
                        assert(function_body_views(bodies@) + (seq![b0@] + rest2)
                            =~= function_body_views(bodies@).push(b0@) + rest2);
                    },
                    Err(e) => {},
                }
            }
            bodies.push(b0);
            p = p2;
            i = i + 1;
        }
        proof {
            assert(function_body_views(bodies@) + Seq::<SpecFunctionBody>::empty()
                =~= function_body_views(bodies@));
        }
        Ok((Section::Code { bodies }, p))
    }

    /// A custom section: length-prefixed name and opaque payload, checked
    /// against the payload length and not retained.
    pub fn parse_custom_section(bytes: &Vec<u8>, pos: usize, payload_len: u32) -> (r: Result<
        (Section, usize),
        ParseError,
    >)
        requires
            pos <= bytes@.len(),
        ensures
            (match (r, spec_parse_custom_section(bytes@, pos as int, payload_len)) {
                (Ok((sec, end)), Ok((ssec, send))) => sec@ == ssec && end as int == send,
                (Err(e1), Err(e2)) => e1 == e2,
                _ => false,
            }),
    {
        let (name_len, p1) = match Self::parse_varuint32(bytes, pos) {
            Ok(x) => x,
            Err(e) => return Err(e),
        };
        proof {
            lemma_sleb_wf(bytes@, pos as int);
            lemma_sleb_size_bounds(bytes@, pos as int, 0);
        }
        let consumed = p1 - pos;
        if consumed as u64 + name_len as u64 > payload_len as u64 {
            return Err(ParseError::DecodeError);
        }
        let payload_us = payload_len as usize;
        if bytes.len() - pos < payload_us {
            return Err(ParseError::Truncated);
        }
        Ok((Section::Custom, pos + payload_us))
    }

    /// An unrecognized section: the payload is skipped and the id kept.
    pub fn parse_unknown_section(bytes: &Vec<u8>, pos: usize, id: u32, payload_len: u32) -> (r:
        Result<(Section, usize), ParseError>)
        requires
            pos <= bytes@.len(),
        ensures
            (match (r, spec_parse_unknown_section(bytes@, pos as int, id, payload_len)) {
                (Ok((sec, end)), Ok((ssec, send))) => sec@ == ssec && end as int == send,
                (Err(e1), Err(e2)) => e1 == e2,
                _ => false,
            }),
    {
        let payload_us = payload_len as usize;
        if bytes.len() - pos < payload_us {
            return Err(ParseError::Truncated);
        }
        Ok((Section::Unknown { id }, pos + payload_us))
    }

    /// One section at `pos`, or `None` at the clean end of the buffer.
    pub fn parse(bytes: &Vec<u8>, pos: usize) -> (r: Result<
        Option<(Section, usize)>,
        ParseError,
    >)
        ensures
            (pos as int) >= bytes@.len() ==> (r matches Ok(o) && o is None),
            (pos as int) < bytes@.len() ==> (match (r, spec_parse_section(bytes@, pos as int)) {
                (Ok(Some((sec, end))), Ok((ssec, send))) => sec@ == ssec && end as int == send,
                (Err(e1), Err(e2)) => e1 == e2,
                _ => false,
            }),
    {
        if pos >= bytes.len() {
            return Ok(None);
        }
        let (id, p1) = match Self::parse_varuint32(bytes, pos) {
            Ok(x) => x,
            Err(e) => return Err(e),
        };
        let (payload_len, p2) = match Self::parse_varuint32(bytes, p1) {
            Ok(x) => x,
            Err(e) => return Err(e),
        };
        proof {
            lemma_sleb_wf(bytes@, pos as int);
            lemma_sleb_wf(bytes@, p1 as int);
        }
        let res = if id == 0 {
            Self::parse_custom_section(bytes, p2, payload_len)
        } else if id == 1 {
            Self::parse_type_section(bytes, p2)
        } else if id == 3 {
            Self::parse_function_section(bytes, p2)
        } else if id == 5 {
            Self::parse_memory_section(bytes, p2)
        } else if id == 7 {
            Self::parse_export_section(bytes, p2)
        } else if id == 8 {
            Self::parse_start_section(bytes, p2)
        } else if id == 10 {
            Self::parse_code_section(bytes, p2)
        } else {
            Self::parse_unknown_section(bytes, p2, id, payload_len)
        };
        match res {
            Ok((sec, end)) => Ok(Some((sec, end))),
            Err(e) => Err(e),
        }
    }
}

/// The index carried by the last start section, if any.
pub open spec fn last_start_index(sections: Seq<SpecSection>) -> Option<u32>
    decreases sections.len(),
{
    if sections.len() == 0 {
        None
    } else {
        match sections.last() {
            SpecSection::Start { index } => Some(index),
            _ => last_start_index(sections.drop_last()),
        }
    }
}

/// The bodies of the first code section, if any.
pub open spec fn first_code_bodies(sections: Seq<SpecSection>) -> Option<Seq<SpecFunctionBody>>
    decreases sections.len(),
{
    if sections.len() == 0 {
        None
    } else {
        match sections[0] {
            SpecSection::Code { bodies } => Some(bodies),
            _ => first_code_bodies(sections.drop_first()),
        }
    }
}

impl Module {
    /// Decode a whole module from a byte buffer.
    #[verifier::loop_isolation(false)]
    #[verifier::rlimit(60)]
    pub fn parse(bytes: &Vec<u8>) -> (r: Result<Module, ParseError>)
        ensures
            (match (r, spec_parse_module(bytes@)) {
                (Ok(m), Ok(sm)) => m@ == sm,
                (Err(e1), Err(e2)) => e1 == e2,
                _ => false,
            }),
    {
        if bytes.len() < 4 {
            return Err(ParseError::Truncated);
        }
        let magic_number = read_le_u32(bytes, 0);
        if magic_number != MAGIC_NUMBER {
            return Err(ParseError::BadMagic(magic_number));
        }
        if bytes.len() < 8 {
            return Err(ParseError::Truncated);
        }
        let version = read_le_u32(bytes, 4);
        if version != SUPPORTED_VERSION {
            return Err(ParseError::UnsupportedVersion(version));
        }
        let mut sections: Vec<Section> = Vec::new();
        let mut p: usize = 8;
        proof {
            assert(section_views(sections@) =~= Seq::<SpecSection>::empty());
            match spec_parse_sections(bytes@, 8) {
                Ok(rest) => {
                    assert(section_views(sections@) + rest =~= rest);
                },
                Err(e) => {},
            }
        }
        loop
            invariant
                8 <= p <= bytes@.len(),
                (match spec_parse_sections(bytes@, p as int) {
                    Ok(rest) => spec_parse_sections(bytes@, 8) == Ok::<
                        Seq<SpecSection>,
                        ParseError,
                    >(section_views(sections@) + rest),
                    Err(e) => spec_parse_sections(bytes@, 8) == Err::<
                        Seq<SpecSection>,
                        ParseError,
                    >(e),
                }),
            decreases bytes@.len() - p,
        {
            let step = match Section::parse(bytes, p) {
                Ok(x) => x,
                Err(e) => return Err(e),
            };
            match step {
                None => {
                    proof {
                        assert(section_views(sections@) + Seq::<SpecSection>::empty()
                            =~= section_views(sections@));
                    }
                    break;
                },
                Some((sec, p2)) => {
                    proof {
                        lemma_section_wf(bytes@, p as int);
                        lemma_section_views_push(sections@, sec);
                        match spec_parse_sections(bytes@, p2 as int) {
                            Ok(rest2) => {
                                assert(section_views(sections@) + (seq![sec@] + rest2)
                                    =~= section_views(sections@).push(sec@) + rest2);
                            },
                            Err(e) => {},
                        }
                    }
                    sections.push(sec);
                    p = p2;
                },
            }
        }
        Ok(Module { magic_number, version, sections })
    }

    /// The body the module's last start section designates, if any: the
    /// body at that index in the first code section. Returns `None` when
    /// there is no start section, no code section, or the index is out of
    /// range.
    #[verifier::loop_isolation(false)]
    pub fn find_start_func(&self) -> (r: Option<&FunctionBody>)
        ensures
            (match last_start_index(self@.sections) {
                None => r is None,
                Some(idx) => (match first_code_bodies(self@.sections) {
                    None => r is None,
                    Some(bodies) => (if (idx as int) < bodies.len() {
                        r matches Some(fb) && fb@ == bodies[idx as int]
                    } else {
                        r is None
                    }),
                }),
            }),
    {
        let mut start_idx: Option<u32> = None;
        let n = self.sections.len();
        let mut j: usize = 0;
        proof {
            assert(section_views(self.sections@).take(0) =~= Seq::<SpecSection>::empty());
        }
        while j < n
            invariant
                j <= n,
                n == self.sections@.len(),
                start_idx == last_start_index(section_views(self.sections@).take(j as int)),
            decreases n - j,
        {
            let sec = vstd::slice::slice_index_get(self.sections.as_slice(), j);
            proof {
                let views = section_views(self.sections@);
                assert(views.take(j + 1).drop_last() =~= views.take(j as int));
                assert(views.take(j + 1).last() == views[j as int]);
                assert(views[j as int] == self.sections@[j as int]@);
            }
            match sec {
                Section::Start { index } => {
                    start_idx = Some(*index);
                },
                _ => {},
            }
            j = j + 1;
        }
        proof {
            assert(section_views(self.sections@).take(n as int) =~= section_views(
                self.sections@,
            ));
        }
        match start_idx {
            Some(idx) => self.find_func(idx as usize),
            None => None,
        }
    }

    /// The body at `idx` in the first code section, if both exist.
    #[verifier::loop_isolation(false)]
    pub fn find_func(&self, idx: usize) -> (r: Option<&FunctionBody>)
        ensures
            (match first_code_bodies(self@.sections) {
                None => r is None,
                Some(bodies) => (if (idx as int) < bodies.len() {
                    r matches Some(fb) && fb@ == bodies[idx as int]
                } else {
                    r is None
                }),
            }),
    {
        let n = self.sections.len();
        let mut j: usize = 0;
        proof {
            assert(section_views(self.sections@).skip(0) =~= section_views(self.sections@));
        }
        while j < n
            invariant
                j <= n,
                n == self.sections@.len(),
                first_code_bodies(section_views(self.sections@)) == first_code_bodies(
                    section_views(self.sections@).skip(j as int),
                ),
            decreases n - j,
        {
            let sec = vstd::slice::slice_index_get(self.sections.as_slice(), j);
            proof {
                let views = section_views(self.sections@);
                assert(views.skip(j as int)[0] == views[j as int]);
                assert(views.skip(j as int).drop_first() =~= views.skip(j + 1));
                assert(views[j as int] == self.sections@[j as int]@);
            }
            match sec {
                Section::Code { bodies } => {
                    if idx < bodies.len() {
                        return Some(vstd::slice::slice_index_get(bodies.as_slice(), idx));
                    } else {
                        return None;
                    }
                },
                _ => {},
            }
            j = j + 1;
        }
        proof {
            assert(section_views(self.sections@).skip(n as int) =~= Seq::<SpecSection>::empty());
        }
        None
    }
}

} // verus!
