pub mod text;
pub mod tlv;
pub mod json;
pub mod encode;
pub mod host;
pub mod roundtrip;
