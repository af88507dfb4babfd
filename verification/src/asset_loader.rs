//! Domain files as assets: what the loader of an asset pipeline needs to know.

use crate::dsl::DomainDef;
use crate::error::HtnError;
use crate::text::join2;
use vstd::prelude::*;

verus! {

/// A parsed domain file.
#[derive(Debug)]
pub struct HtnAsset {
    /// What the file says.
    pub domain: DomainDef,
}

/// The settings of the loader: there are none.
#[derive(Debug, Clone, Copy, PartialEq, Eq, Structural)]
pub struct HtnAssetSettings {}

impl Default for HtnAssetSettings {
    fn default() -> (s: HtnAssetSettings)
        ensures
            s == (HtnAssetSettings {  }),
    {
        HtnAssetSettings {  }
    }
}

/// Why a domain file was not loaded.
#[derive(Debug)]
pub enum HtnAssetError {
    /// The text is no domain file.
    Parse(HtnError),
    /// The bytes could not be read.
    Io(String),
}

impl From<HtnError> for HtnAssetError {
    fn from(error: HtnError) -> HtnAssetError {
        HtnAssetError::Parse(error)
    }
}

impl vstd::std_specs::convert::FromSpecImpl<HtnError> for HtnAssetError {
    open spec fn obeys_from_spec() -> bool {
        true
    }

    open spec fn from_spec(error: HtnError) -> HtnAssetError {
        HtnAssetError::Parse(error)
    }
}

impl HtnAssetError {
    /// What the error says.
    pub fn message(&self) -> (text: String)
        ensures
            text@ == (match self {
                HtnAssetError::Parse(e) => "Failed to parse HTN asset: "@ + e.message_spec(),
                HtnAssetError::Io(why) => "IO error loading HTN asset: "@ + why@,
            }),
    {
        match self {
            HtnAssetError::Parse(e) => {
                let why = e.message();
                join2("Failed to parse HTN asset: ", why.as_str())
            },
            HtnAssetError::Io(why) => join2("IO error loading HTN asset: ", why.as_str()),
        }
    }
}

/// Loads domain files.
#[derive(Debug, Clone, Copy)]
pub struct HtnAssetLoader;

impl HtnAssetLoader {
    /// The file extensions that the loader is for.
    pub fn extensions(&self) -> (list: Vec<&'static str>)
        ensures
            list@.len() == 1,
            list@[0]@ == "htn"@,
    {
        let mut list: Vec<&'static str> = Vec::new();
        list.push("htn");
        list
    }
}

} // verus!
