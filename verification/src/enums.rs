//! The two request-level selectors of the protocol: the asset size class and
//! the device variant a request resolves assets for.

use vstd::prelude::*;

verus! {

/// Which size class of the asset set a resolution call asks for.
#[derive(Debug, Clone, Copy, PartialEq, Eq, Structural)]
pub enum AssetSize {
    Full,
    Short,
}

impl AssetSize {
    /// The value the service expects in the `asset_size` header.
    pub open spec fn wire_name(self) -> Seq<char> {
        match self {
            AssetSize::Full => "fulfill"@,
            AssetSize::Short => "shortened"@,
        }
    }

    pub fn to_string(&self) -> (r: String)
        ensures
            r@ == self.wire_name(),
    {
        match self {
            AssetSize::Full => "fulfill".to_owned(),
            AssetSize::Short => "shortened".to_owned(),
        }
    }
}

/// The platform a request resolves assets for. `All` is not a wire value: it
/// instructs the client to resolve for both concrete platforms and merge.
#[derive(Debug, Clone, Copy, PartialEq, Eq, Structural)]
pub enum DeviceType {
    Ios,
    Android,
    All,
}

impl DeviceType {
    /// The value the service expects in the `device` header.
    pub open spec fn wire_name(self) -> Seq<char> {
        match self {
            DeviceType::Ios => "1"@,
            DeviceType::Android => "2"@,
            DeviceType::All => "3"@,
        }
    }

    pub fn to_string(&self) -> (r: String)
        ensures
            r@ == self.wire_name(),
    {
        match self {
            DeviceType::Ios => "1".to_owned(),
            DeviceType::Android => "2".to_owned(),
            DeviceType::All => "3".to_owned(),
        }
    }
}

} // verus!
