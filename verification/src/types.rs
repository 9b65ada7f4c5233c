//! Plain data types shared by the codecs.
use vstd::prelude::*;

verus! {

/// Byte type alias
pub type Byte = u8;

/// Unsigned 16-bit integer
pub type U16 = u16;

/// Unsigned 32-bit integer
pub type U32 = u32;

/// Unsigned 64-bit integer
pub type U64 = u64;

/// Signed 64-bit integer
pub type I64 = i64;

/// RGB color representation
#[derive(Debug, Clone, Copy, PartialEq, Eq, Hash, Structural)]
pub struct RGB {
    pub r: u8,
    pub g: u8,
    pub b: u8,
}

impl RGB {
    pub fn new(r: u8, g: u8, b: u8) -> (c: Self)
        ensures
            c == (RGB { r, g, b }),
    {
        RGB { r, g, b }
    }

    pub fn black() -> (c: Self)
        ensures
            c == (RGB { r: 0, g: 0, b: 0 }),
    {
        RGB::new(0, 0, 0)
    }

    pub fn white() -> (c: Self)
        ensures
            c == (RGB { r: 255, g: 255, b: 255 }),
    {
        RGB::new(255, 255, 255)
    }

    /// The text `RGB(r, g, b)` with the components in decimal.
    pub fn to_display_string(&self) -> (s: String)
        ensures
            s@ == seq!['R', 'G', 'B', '('] + crate::text::decimal(self.r as nat) + seq![',', ' ']
                + crate::text::decimal(self.g as nat) + seq![',', ' '] + crate::text::decimal(
                self.b as nat,
            ) + seq![')'],
    {
        let mut s = String::from_str("RGB(");
        proof {
            reveal_strlit("RGB(");
        }
        crate::text::push_decimal(&mut s, self.r as u64);
        crate::text::push_str_lit(&mut s, ", ");
        crate::text::push_decimal(&mut s, self.g as u64);
        crate::text::push_str_lit(&mut s, ", ");
        crate::text::push_decimal(&mut s, self.b as u64);
        crate::text::push_str_lit(&mut s, ")");
        proof {
            reveal_strlit(", ");
            reveal_strlit(")");
            assert(s@ =~= seq!['R', 'G', 'B', '('] + crate::text::decimal(self.r as nat) + seq![',', ' ']
                + crate::text::decimal(self.g as nat) + seq![',', ' '] + crate::text::decimal(
                self.b as nat,
            ) + seq![')']);
        }
        s
    }
}

impl Default for RGB {
    fn default() -> (c: Self)
        ensures
            c == (RGB { r: 0, g: 0, b: 0 }),
    {
        RGB::new(0, 0, 0)
    }
}

/// Error codes for LEPCC operations
#[derive(Debug, Clone, Copy, PartialEq, Eq, Structural)]
pub enum ErrCode {
    Success,
    Failed,
    WrongParam,
    WrongVersion,
    WrongChecksum,
    NotLepcc,
    NotClusterRgb,
    NotIntensity,
    NotFlagBytes,
    BufferTooSmall,
    OutArrayTooSmall,
    QuantizeVirtualRasterTooBig,
    QuantizeIndexOutOfRange,
}

/// Blob type identifiers
#[derive(Debug, Clone, Copy, PartialEq, Eq, Structural)]
pub enum BlobType {
    Xyz,
    Rgb,
    Intensity,
    FlagBytes,
}


/// The text of an error code.
pub open spec fn err_code_text(c: ErrCode) -> Seq<char> {
    match c {
        ErrCode::Success => "Ok"@,
        ErrCode::Failed => "Failed"@,
        ErrCode::WrongParam => "Wrong Parameter"@,
        ErrCode::WrongVersion => "Wrong Version"@,
        ErrCode::WrongChecksum => "Wrong Checksum"@,
        ErrCode::NotLepcc => "Not LEPCC data"@,
        ErrCode::NotClusterRgb => "Not ClusterRGB data"@,
        ErrCode::NotIntensity => "Not Intensity data"@,
        ErrCode::NotFlagBytes => "Not FlagBytes data"@,
        ErrCode::BufferTooSmall => "Buffer Too Small"@,
        ErrCode::OutArrayTooSmall => "Output Array Too Small"@,
        ErrCode::QuantizeVirtualRasterTooBig => "Quantize Virtual Raster Too Big"@,
        ErrCode::QuantizeIndexOutOfRange => "Quantize Index Out Of Range"@,
    }
}

impl ErrCode {
    /// The text of the code.
    pub fn to_display_string(&self) -> (s: String)
        ensures
            s@ == err_code_text(*self),
    {
        match self {
            ErrCode::Success => String::from_str("Ok"),
            ErrCode::Failed => String::from_str("Failed"),
            ErrCode::WrongParam => String::from_str("Wrong Parameter"),
            ErrCode::WrongVersion => String::from_str("Wrong Version"),
            ErrCode::WrongChecksum => String::from_str("Wrong Checksum"),
            ErrCode::NotLepcc => String::from_str("Not LEPCC data"),
            ErrCode::NotClusterRgb => String::from_str("Not ClusterRGB data"),
            ErrCode::NotIntensity => String::from_str("Not Intensity data"),
            ErrCode::NotFlagBytes => String::from_str("Not FlagBytes data"),
            ErrCode::BufferTooSmall => String::from_str("Buffer Too Small"),
            ErrCode::OutArrayTooSmall => String::from_str("Output Array Too Small"),
            ErrCode::QuantizeVirtualRasterTooBig => String::from_str("Quantize Virtual Raster Too Big"),
            ErrCode::QuantizeIndexOutOfRange => String::from_str("Quantize Index Out Of Range"),
        }
    }
}

/// The name of a blob type.
pub open spec fn blob_type_text(t: BlobType) -> Seq<char> {
    match t {
        BlobType::Xyz => "XYZ"@,
        BlobType::Rgb => "RGB"@,
        BlobType::Intensity => "Intensity"@,
        BlobType::FlagBytes => "FlagBytes"@,
    }
}

/// The number that stands for a blob type.
pub open spec fn blob_type_code(t: BlobType) -> u32 {
    match t {
        BlobType::Xyz => 0,
        BlobType::Rgb => 1,
        BlobType::Intensity => 2,
        BlobType::FlagBytes => 3,
    }
}

/// The blob type that a number stands for.
pub open spec fn blob_type_from_code(v: u32) -> core::result::Result<BlobType, ErrCode> {
    if v == 0 {
        Ok(BlobType::Xyz)
    } else if v == 1 {
        Ok(BlobType::Rgb)
    } else if v == 2 {
        Ok(BlobType::Intensity)
    } else if v == 3 {
        Ok(BlobType::FlagBytes)
    } else {
        Err(ErrCode::WrongParam)
    }
}

impl BlobType {
    /// The name of the blob type.
    pub fn to_display_string(&self) -> (s: String)
        ensures
            s@ == blob_type_text(*self),
    {
        match self {
            BlobType::Xyz => String::from_str("XYZ"),
            BlobType::Rgb => String::from_str("RGB"),
            BlobType::Intensity => String::from_str("Intensity"),
            BlobType::FlagBytes => String::from_str("FlagBytes"),
        }
    }
}

impl TryFrom<u32> for BlobType {
    type Error = ErrCode;

    fn try_from(value: u32) -> (r: core::result::Result<Self, Self::Error>) {
        match value {
            0 => Ok(BlobType::Xyz),
            1 => Ok(BlobType::Rgb),
            2 => Ok(BlobType::Intensity),
            3 => Ok(BlobType::FlagBytes),
            _ => Err(ErrCode::WrongParam),
        }
    }
}

impl vstd::std_specs::convert::TryFromSpecImpl<u32> for BlobType {
    open spec fn obeys_try_from_spec() -> bool {
        true
    }

    open spec fn try_from_spec(value: u32) -> core::result::Result<Self, Self::Error> {
        blob_type_from_code(value)
    }
}

impl From<BlobType> for u32 {
    fn from(blob_type: BlobType) -> (v: Self) {
        match blob_type {
            BlobType::Xyz => 0,
            BlobType::Rgb => 1,
            BlobType::Intensity => 2,
            BlobType::FlagBytes => 3,
        }
    }
}

impl vstd::std_specs::convert::FromSpecImpl<BlobType> for u32 {
    open spec fn obeys_from_spec() -> bool {
        true
    }

    open spec fn from_spec(blob_type: BlobType) -> u32 {
        blob_type_code(blob_type)
    }
}

/// A flat array of colors: `[r0, g0, b0, r1, g1, b1, ...]`.
pub struct FlatRgbSlice<'a> {
    pub data: &'a [u8],
}

impl<'a> FlatRgbSlice<'a> {
    pub fn from_slice(data: &'a [u8]) -> (s: Self)
        ensures
            s.data@ == data@,
    {
        Self { data }
    }

    /// Number of whole colors.
    pub fn len(&self) -> (n: usize)
        ensures
            n == self.data@.len() / 3,
    {
        self.data.len() / 3
    }

    /// There is no whole color.
    pub fn is_empty(&self) -> (b: bool)
        ensures
            b == (self.data@.len() / 3 == 0),
    {
        self.len() == 0
    }

    /// Color `index`, when the array holds it whole.
    pub fn get(&self, index: usize) -> (c: Option<RGB>)
        ensures
            index * 3 + 2 < self.data@.len() ==> c == Some(
                RGB { r: self.data@[index * 3], g: self.data@[index * 3 + 1], b: self.data@[index * 3 + 2] },
            ),
            index * 3 + 2 >= self.data@.len() ==> c is None,
    {
        if index < self.data.len() / 3 {
            Some(RGB { r: self.data[index * 3], g: self.data[index * 3 + 1], b: self.data[index * 3 + 2] })
        } else {
            None
        }
    }
}

/// A blob type's number stands for that type, and only numbers below 4 stand for one.
pub proof fn lemma_blob_type_code_roundtrip(t: BlobType, v: u32)
    ensures
        blob_type_from_code(blob_type_code(t)) == Ok::<BlobType, ErrCode>(t),
        blob_type_from_code(v) is Ok <==> v < 4,
        blob_type_from_code(v) matches Ok(u) ==> blob_type_code(u) == v,
{
}

} // verus!