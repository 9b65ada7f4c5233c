//! Error types for LEPCC operations
use vstd::prelude::*;
use crate::types::ErrCode;
use crate::text::{decimal, signed_decimal, hex_digits, push_str_lit, push_decimal, push_signed_decimal, push_hex};

verus! {

/// Error type for LEPCC operations
#[derive(Debug, Clone, PartialEq)]
pub enum LepccError {
    /// Generic failure
    Failed(String),
    /// Wrong parameter
    WrongParam(String),
    /// Wrong version
    WrongVersion { found: u16, expected: u16 },
    /// Wrong checksum
    WrongChecksum { expected: u32, found: u32 },
    /// Not valid LEPCC data
    NotLepcc(String),
    NotClusterRgb(String),
    NotIntensity(String),
    NotFlagBytes(String),
    /// Buffer too small
    BufferTooSmall { needed: usize, provided: usize },
    /// Output array too small
    OutArrayTooSmall { needed: usize, provided: usize },
    /// Quantize virtual raster too big
    QuantizeVirtualRasterTooBig,
    /// Quantize index out of range
    QuantizeIndexOutOfRange { index: i64, limit: usize },
    /// I/O error
    IoError(String),
}

/// Result type alias for LEPCC operations
pub type Result<T> = core::result::Result<T, LepccError>;

/// `e` is `Failed` with the message `text`.
pub open spec fn is_failed(e: LepccError, text: Seq<char>) -> bool {
    e matches LepccError::Failed(m) && m@ == text
}

/// `e` is `WrongParam` with the message `text`.
pub open spec fn is_wrong_param(e: LepccError, text: Seq<char>) -> bool {
    e matches LepccError::WrongParam(m) && m@ == text
}

/// `e` is `NotLepcc` with the message `text`.
pub open spec fn is_not_lepcc(e: LepccError, text: Seq<char>) -> bool {
    e matches LepccError::NotLepcc(m) && m@ == text
}

/// `e` is `BufferTooSmall` with these sizes.
pub open spec fn is_too_small(e: LepccError, needed: int, provided: int) -> bool {
    e == LepccError::BufferTooSmall { needed: needed as usize, provided: provided as usize }
}

/// The human-readable text of an error.
pub open spec fn error_text(e: LepccError) -> Seq<char> {
    match e {
        LepccError::Failed(m) => "Failed: "@ + m@,
        LepccError::WrongParam(m) => "Wrong Parameter: "@ + m@,
        LepccError::WrongVersion { found, expected } => "Wrong Version: found "@ + decimal(
            found as nat,
        ) + ", expected "@ + decimal(expected as nat),
        LepccError::WrongChecksum { expected, found } => "Wrong Checksum: expected 0x"@
            + hex_digits(expected as nat, 8) + ", found 0x"@ + hex_digits(found as nat, 8),
        LepccError::NotLepcc(m) => "Not Lepcc: "@ + m@,
        LepccError::NotClusterRgb(m) => "Not ClusterRgb: "@ + m@,
        LepccError::NotIntensity(m) => "Not Intensity: "@ + m@,
        LepccError::NotFlagBytes(m) => "Not FlagBytes: "@ + m@,
        LepccError::BufferTooSmall { needed, provided } => "Buffer Too Small: needed "@ + decimal(
            needed as nat,
        ) + " bytes, provided "@ + decimal(provided as nat) + " bytes"@,
        LepccError::OutArrayTooSmall { needed, provided } => "Output Array Too Small: needed "@
            + decimal(needed as nat) + " elements, provided "@ + decimal(provided as nat),
        LepccError::QuantizeVirtualRasterTooBig => "Quantize Virtual Raster Too Big"@,
        LepccError::QuantizeIndexOutOfRange { index, limit } => "Quantize Index Out Of Range: index "@
            + signed_decimal(index as int) + ", limit "@ + decimal(limit as nat),
        LepccError::IoError(m) => "I/O Error: "@ + m@,
    }
}

/// The error that stands for a failed operation with code `code`.
pub open spec fn error_for_code(code: ErrCode, e: LepccError) -> bool {
    match code {
        ErrCode::Success => is_failed(e, "Ok should not be converted to error"@),
        ErrCode::Failed => is_failed(e, "Operation failed"@),
        ErrCode::WrongParam => is_wrong_param(e, "Invalid parameter"@),
        ErrCode::WrongVersion => e == LepccError::WrongVersion { found: 0, expected: 1 },
        ErrCode::WrongChecksum => e == LepccError::WrongChecksum { expected: 0, found: 0 },
        ErrCode::NotLepcc => is_not_lepcc(e, "Invalid magic bytes"@),
        ErrCode::NotClusterRgb => e matches LepccError::NotClusterRgb(m) && m@
            == "Not ClusterRGB data"@,
        ErrCode::NotIntensity => e matches LepccError::NotIntensity(m) && m@
            == "Not Intensity data"@,
        ErrCode::NotFlagBytes => e matches LepccError::NotFlagBytes(m) && m@
            == "Not FlagBytes data"@,
        ErrCode::BufferTooSmall => e == LepccError::BufferTooSmall { needed: 0, provided: 0 },
        ErrCode::OutArrayTooSmall => e == LepccError::OutArrayTooSmall { needed: 0, provided: 0 },
        ErrCode::QuantizeVirtualRasterTooBig => e == LepccError::QuantizeVirtualRasterTooBig,
        ErrCode::QuantizeIndexOutOfRange => e == LepccError::QuantizeIndexOutOfRange {
            index: 0,
            limit: 0,
        },
    }
}

/// A `Failed` error with the given message.
pub fn failed(text: &str) -> (e: LepccError)
    ensures
        is_failed(e, text@),
{
    LepccError::Failed(String::from_str(text))
}

/// A `WrongParam` error with the given message.
pub fn wrong_param(text: &str) -> (e: LepccError)
    ensures
        is_wrong_param(e, text@),
{
    LepccError::WrongParam(String::from_str(text))
}

/// A `NotLepcc` error with the given message.
pub fn not_lepcc(text: &str) -> (e: LepccError)
    ensures
        is_not_lepcc(e, text@),
{
    LepccError::NotLepcc(String::from_str(text))
}

impl LepccError {
    /// The human-readable text of the error.
    pub fn to_display_string(&self) -> (s: String)
        ensures
            s@ == error_text(*self),
    {
        let mut s = String::new();
        match self {
            LepccError::Failed(m) => {
                push_str_lit(&mut s, "Failed: ");
                push_str_lit(&mut s, m.as_str());
            },
            LepccError::WrongParam(m) => {
                push_str_lit(&mut s, "Wrong Parameter: ");
                push_str_lit(&mut s, m.as_str());
            },
            LepccError::WrongVersion { found, expected } => {
                push_str_lit(&mut s, "Wrong Version: found ");
                push_decimal(&mut s, *found as u64);
                push_str_lit(&mut s, ", expected ");
                push_decimal(&mut s, *expected as u64);
            },
            LepccError::WrongChecksum { expected, found } => {
                push_str_lit(&mut s, "Wrong Checksum: expected 0x");
                push_hex(&mut s, *expected as u64, 8);
                push_str_lit(&mut s, ", found 0x");
                push_hex(&mut s, *found as u64, 8);
            },
            LepccError::NotLepcc(m) => {
                push_str_lit(&mut s, "Not Lepcc: ");
                push_str_lit(&mut s, m.as_str());
            },
            LepccError::NotClusterRgb(m) => {
                push_str_lit(&mut s, "Not ClusterRgb: ");
                push_str_lit(&mut s, m.as_str());
            },
            LepccError::NotIntensity(m) => {
                push_str_lit(&mut s, "Not Intensity: ");
                push_str_lit(&mut s, m.as_str());
            },
            LepccError::NotFlagBytes(m) => {
                push_str_lit(&mut s, "Not FlagBytes: ");
                push_str_lit(&mut s, m.as_str());
            },
            LepccError::BufferTooSmall { needed, provided } => {
                push_str_lit(&mut s, "Buffer Too Small: needed ");
                push_decimal(&mut s, *needed as u64);
                push_str_lit(&mut s, " bytes, provided ");
                push_decimal(&mut s, *provided as u64);
                push_str_lit(&mut s, " bytes");
            },
            LepccError::OutArrayTooSmall { needed, provided } => {
                push_str_lit(&mut s, "Output Array Too Small: needed ");
                push_decimal(&mut s, *needed as u64);
                push_str_lit(&mut s, " elements, provided ");
                push_decimal(&mut s, *provided as u64);
            },
            LepccError::QuantizeVirtualRasterTooBig => {
                push_str_lit(&mut s, "Quantize Virtual Raster Too Big");
            },
            LepccError::QuantizeIndexOutOfRange { index, limit } => {
                push_str_lit(&mut s, "Quantize Index Out Of Range: index ");
                push_signed_decimal(&mut s, *index);
                push_str_lit(&mut s, ", limit ");
                push_decimal(&mut s, *limit as u64);
            },
            LepccError::IoError(m) => {
                push_str_lit(&mut s, "I/O Error: ");
                push_str_lit(&mut s, m.as_str());
            },
        }
        proof {
            assert(s@ =~= error_text(*self));
        }
        s
    }
}

impl From<ErrCode> for LepccError {
    /// The error standing for a failure code. `ErrCode::Ok` stands for no failure;
    /// converting it gives a `Failed` error that says so.
    fn from(code: ErrCode) -> (e: Self)
        ensures
            error_for_code(code, e),
    {
        match code {
            ErrCode::Success => failed("Ok should not be converted to error"),
            ErrCode::Failed => failed("Operation failed"),
            ErrCode::WrongParam => wrong_param("Invalid parameter"),
            ErrCode::WrongVersion => LepccError::WrongVersion { found: 0, expected: 1 },
            ErrCode::WrongChecksum => LepccError::WrongChecksum { expected: 0, found: 0 },
            ErrCode::NotLepcc => not_lepcc("Invalid magic bytes"),
            ErrCode::NotClusterRgb => LepccError::NotClusterRgb(
                String::from_str("Not ClusterRGB data"),
            ),
            ErrCode::NotIntensity => LepccError::NotIntensity(
                String::from_str("Not Intensity data"),
            ),
            ErrCode::NotFlagBytes => LepccError::NotFlagBytes(String::from_str("Not FlagBytes data")),
            ErrCode::BufferTooSmall => LepccError::BufferTooSmall { needed: 0, provided: 0 },
            ErrCode::OutArrayTooSmall => LepccError::OutArrayTooSmall { needed: 0, provided: 0 },
            ErrCode::QuantizeVirtualRasterTooBig => LepccError::QuantizeVirtualRasterTooBig,
            ErrCode::QuantizeIndexOutOfRange => LepccError::QuantizeIndexOutOfRange {
                index: 0,
                limit: 0,
            },
        }
    }
}

impl vstd::std_specs::convert::FromSpecImpl<ErrCode> for LepccError {
    open spec fn obeys_from_spec() -> bool {
        false
    }

    open spec fn from_spec(code: ErrCode) -> LepccError {
        vstd::pervasive::arbitrary()
    }
}

/// The code of an error; an I/O error has none.
pub open spec fn code_of(e: LepccError) -> core::result::Result<ErrCode, ()> {
    match e {
        LepccError::Failed(_) => Ok(ErrCode::Failed),
        LepccError::WrongParam(_) => Ok(ErrCode::WrongParam),
        LepccError::WrongVersion { .. } => Ok(ErrCode::WrongVersion),
        LepccError::WrongChecksum { .. } => Ok(ErrCode::WrongChecksum),
        LepccError::NotLepcc(_) => Ok(ErrCode::NotLepcc),
        LepccError::NotClusterRgb(_) => Ok(ErrCode::NotClusterRgb),
        LepccError::NotIntensity(_) => Ok(ErrCode::NotIntensity),
        LepccError::NotFlagBytes(_) => Ok(ErrCode::NotFlagBytes),
        LepccError::BufferTooSmall { .. } => Ok(ErrCode::BufferTooSmall),
        LepccError::OutArrayTooSmall { .. } => Ok(ErrCode::OutArrayTooSmall),
        LepccError::QuantizeVirtualRasterTooBig => Ok(ErrCode::QuantizeVirtualRasterTooBig),
        LepccError::QuantizeIndexOutOfRange { .. } => Ok(ErrCode::QuantizeIndexOutOfRange),
        LepccError::IoError(_) => Err(()),
    }
}

impl TryFrom<LepccError> for ErrCode {
    type Error = ();

    fn try_from(error: LepccError) -> (r: core::result::Result<Self, Self::Error>) {
        match error {
            LepccError::Failed(_) => Ok(ErrCode::Failed),
            LepccError::WrongParam(_) => Ok(ErrCode::WrongParam),
            LepccError::WrongVersion { .. } => Ok(ErrCode::WrongVersion),
            LepccError::WrongChecksum { .. } => Ok(ErrCode::WrongChecksum),
            LepccError::NotLepcc(_) => Ok(ErrCode::NotLepcc),
            LepccError::NotClusterRgb(_) => Ok(ErrCode::NotClusterRgb),
            LepccError::NotIntensity(_) => Ok(ErrCode::NotIntensity),
            LepccError::NotFlagBytes(_) => Ok(ErrCode::NotFlagBytes),
            LepccError::BufferTooSmall { .. } => Ok(ErrCode::BufferTooSmall),
            LepccError::OutArrayTooSmall { .. } => Ok(ErrCode::OutArrayTooSmall),
            LepccError::QuantizeVirtualRasterTooBig => Ok(ErrCode::QuantizeVirtualRasterTooBig),
            LepccError::QuantizeIndexOutOfRange { .. } => Ok(ErrCode::QuantizeIndexOutOfRange),
            LepccError::IoError(_) => Err(()),
        }
    }
}

impl vstd::std_specs::convert::TryFromSpecImpl<LepccError> for ErrCode {
    open spec fn obeys_try_from_spec() -> bool {
        true
    }

    open spec fn try_from_spec(error: LepccError) -> core::result::Result<Self, Self::Error> {
        code_of(error)
    }
}

/// The error a failure code converts to converts back to that code.
pub proof fn lemma_code_roundtrip(code: ErrCode, e: LepccError)
    requires
        code != ErrCode::Success,
        error_for_code(code, e),
    ensures
        code_of(e) == Ok::<ErrCode, ()>(code),
{
}

} // verus!