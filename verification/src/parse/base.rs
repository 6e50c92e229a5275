//! The type of a value as an entry names it: a width with, optionally, a byte
//! order.

use vstd::prelude::*;
use crate::error::Error;
use crate::error::ErrorView;
use crate::to_bytes::ByteOrder;
use crate::to_bytes::Endianness;
use crate::to_bytes::IntType;
use crate::to_bytes::encode;
use crate::to_bytes::outcome;
use crate::to_bytes::suffix_endianness;
use crate::to_bytes::suffix_int_part;
use crate::to_bytes::suffix_int_type;
use crate::token::Ident;
use crate::token::IdentView;

verus! {

/// An integer type with the byte order that its name asks for, if it asks
/// for one.
#[derive(Debug, Clone)]
pub struct PrimitiveSpec {
    ident: Ident,
    int_type: IntType,
    endianness: Option<Endianness>,
}

/// The mathematical form of a [`PrimitiveSpec`].
pub struct PrimitiveSpecView {
    pub ident: IdentView,
    pub int_type: IntType,
    pub endianness: Option<Endianness>,
}

impl View for PrimitiveSpec {
    type V = PrimitiveSpecView;

    closed spec fn view(&self) -> PrimitiveSpecView {
        PrimitiveSpecView { ident: self.ident@, int_type: self.int_type, endianness: self.endianness }
    }
}

impl PrimitiveSpecView {
    /// The byte order that values of this type are written in, where
    /// `default_endianness` is the mode in force and `native` the byte order
    /// of the machine.
    pub open spec fn order(self, default_endianness: Endianness, native: ByteOrder) -> ByteOrder {
        match self.endianness {
            Some(e) => e.resolved(native),
            None => default_endianness.resolved(native),
        }
    }
}

/// What the name of a type stands for.
pub open spec fn primitive_of(ident: IdentView) -> Result<PrimitiveSpecView, ErrorView> {
    match suffix_int_type(suffix_int_part(ident.name)) {
        Some(t) => Ok(PrimitiveSpecView { ident, int_type: t, endianness: suffix_endianness(ident.name) }),
        None => Err(ErrorView::InvalidSuffix { site: ident.site }),
    }
}

impl PrimitiveSpec {
    /// Reads the name of a type: an integer type, with a byte order at its
    /// end or without.
    pub fn parse(ident: Ident) -> (r: Result<PrimitiveSpec, Error>)
        ensures
            outcome(r) == primitive_of(ident@),
    {
        let mut suffix: &str = ident.name.as_str();
        let endianness: Option<Endianness> = Endianness::parse_from_suffix(&mut suffix);
        match IntType::from_suffix(suffix) {
            Some(int_type) => Ok(PrimitiveSpec { ident, int_type, endianness }),
            None => Err(Error::InvalidSuffix { site: ident.site }),
        }
    }

    pub fn int_type(&self) -> (r: IntType)
        ensures
            r == self@.int_type,
    {
        self.int_type
    }

    pub fn endianness(&self) -> (r: Option<Endianness>)
        ensures
            r == self@.endianness,
    {
        self.endianness
    }

    /// Writes `n` as a value of this type over the first bytes of `buffer`.
    pub fn write_int(
        &self,
        default_endianness: Endianness,
        native: ByteOrder,
        n: i128,
        buffer: &mut [u8],
    ) -> (r: Result<(), Error>)
        requires
            old(buffer)@.len() >= self@.int_type.width(),
        ensures
            self@.int_type.holds(n as int) ==> r is Ok && final(buffer)@ == encode(
                self@.int_type,
                self@.order(default_endianness, native),
                n as int,
            ) + old(buffer)@.skip(self@.int_type.width() as int),
            !self@.int_type.holds(n as int) ==> {
                &&& r == Err::<(), Error>(Error::OutOfRange)
                &&& final(buffer)@ == old(buffer)@
            },
    {
        let int_type: IntType = self.int_type();
        let endianness: Endianness = match self.endianness {
            Some(e) => e,
            None => default_endianness,
        };
        int_type.write_bytes_from_bigint(n, endianness, native, buffer)
    }
}

} // verus!
