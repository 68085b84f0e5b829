//! Reading and writing EDN (Extensible Data Notation).
use vstd::prelude::*;

pub mod chars;
pub mod types;
pub mod value;
pub mod tags;
pub mod grammar;
pub mod de;
pub mod ser;
pub mod roundtrip;
pub mod read_back;
pub mod laws;
pub mod edn_types;
pub mod decode;

pub use types::{Error, Keyword, ParseError, Symbol};
pub use value::Value;
pub use edn_types::{EdnList, EdnSet, FromEdn, ToEdn};
pub use tags::{format_inst_ms, handle_tagged_value};

verus! {

/// Reads the first EDN value of `s` and decodes it as a `T`.
pub fn from_str<T: FromEdn>(s: &str) -> (r: Result<T, Error>)
    ensures
        match de::parse_edn(s@) {
            Err(e) => r matches Err(x) && x@ == e,
            Ok(v) => {
                &&& (r is Ok <==> T::accepts(v))
                &&& (r matches Ok(x) ==> T::decodes(v, x))
                &&& (r matches Err(x) ==> x@ == types::ErrorView::Custom(T::rejection(v)))
            },
        },
{
    match de::parse_str(s) {
        Ok(v) => T::from_edn(&v),
        Err(e) => Err(e),
    }
}

/// Writes the EDN value of `value` as text.
pub fn to_string<T: ToEdn>(value: &T) -> (r: Result<String, Error>)
    ensures
        value.edn_known() ==> match ser::write_value(value.edn()) {
            Ok(t) => r matches Ok(s) && s@ == t,
            Err(m) => r matches Err(e) && e@ == types::ErrorView::Custom(m),
        },
{
    let v = value.to_edn();
    ser::to_string(&v)
}

} // verus!
