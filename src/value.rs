//! Typed variable declarations and their tagged encoding.

use vstd::prelude::*;
use vstd::utf8::{encode_utf8, valid_utf8};

use aluvm::data::NumberLayout;

use crate::codec::{
    enc_text, enc_word_bytes, get_text, get_u16, get_u8, get_word_bytes, is_prefix_at, le16,
    lemma_prefix_join, lemma_prefix_split, lemma_word_round_trip, put_text, put_u16, put_u8,
    put_word_bytes, ReadError,
};
use crate::error::ModuleError;

verus! {

/// Byte width of each float layout code of the virtual machine.
pub open spec fn float_layout_width(code: u8) -> Option<u16> {
    if code == 2 || code == 3 {
        Some(2u16)
    } else if code == 4 {
        Some(4u16)
    } else if code == 5 {
        Some(8u16)
    } else if code == 6 {
        Some(10u16)
    } else if code == 7 {
        Some(16u16)
    } else if code == 8 {
        Some(32u16)
    } else if code == 9 {
        Some(64u16)
    } else {
        None
    }
}

/// Relies on aluvm's `FloatLayout::with`, which recognises the codes 2 to 9,
/// and on `FloatLayout::bytes`, the byte width of each.
#[verifier::external_body]
fn float_layout_bytes(code: u8) -> (r: Option<u16>)
    ensures
        r == float_layout_width(code),
{
    match aluvm::data::FloatLayout::with(code) {
        Some(layout) => Some(layout.bytes()),
        None => None,
    }
}

/// Layout of an integer: signedness and byte width.
#[derive(Clone, Copy, Debug, PartialEq, Eq, Hash, PartialOrd, Ord)]
pub struct IntLayout {
    pub signed: bool,
    pub bytes: u16,
}

/// Type of a declared input, with an optional default value given as its
/// little-endian bytes.
#[derive(Clone, Debug, PartialEq, Eq, Hash, PartialOrd, Ord)]
pub enum DataType {
    /// A byte string; `None` when it has no default.
    ByteStr(Option<Vec<u8>>),
    /// An integer of the given layout.
    Int(IntLayout, Option<Vec<u8>>),
    /// A float, by the virtual machine's float layout code.
    Float(u8, Option<Vec<u8>>),
}

/// Abstract data type.
pub enum DataTypeV {
    ByteStr(Option<Seq<u8>>),
    Int(bool, u16, Option<Seq<u8>>),
    Float(u8, Option<Seq<u8>>),
}

pub open spec fn opt_view(o: Option<Vec<u8>>) -> Option<Seq<u8>> {
    match o {
        Some(b) => Some(b@),
        None => None,
    }
}

impl View for DataType {
    type V = DataTypeV;

    open spec fn view(&self) -> DataTypeV {
        match self {
            DataType::ByteStr(d) => DataTypeV::ByteStr(opt_view(*d)),
            DataType::Int(l, d) => DataTypeV::Int(l.signed, l.bytes, opt_view(*d)),
            DataType::Float(c, d) => DataTypeV::Float(*c, opt_view(*d)),
        }
    }
}

/// A declared input: description and type.
#[derive(Clone, Debug, PartialEq, Eq, Hash, PartialOrd, Ord)]
pub struct Variable {
    pub info: String,
    pub data: DataType,
}

impl View for Variable {
    type V = (Seq<char>, DataTypeV);

    open spec fn view(&self) -> (Seq<char>, DataTypeV) {
        (self.info@, self.data@)
    }
}

/// The declared width and the actual width of a default that does not match
/// its layout; `None` where it matches, or the float layout is unknown.
pub open spec fn layout_mismatch(d: DataTypeV) -> Option<(u16, u16)> {
    match d {
        DataTypeV::Int(_, w, Some(b)) => if b.len() != w {
            Some((w, b.len() as u16))
        } else {
            None
        },
        DataTypeV::Float(c, Some(b)) => match float_layout_width(c) {
            Some(w) => if b.len() != w {
                Some((w, b.len() as u16))
            } else {
                None
            },
            None => None,
        },
        _ => None,
    }
}

/// A default matches its declared width.
pub open spec fn default_fits(d: Option<Seq<u8>>, width: u16) -> bool {
    d matches Some(b) ==> b.len() == width
}

/// What can be encoded and read back as it was.
pub open spec fn data_type_valid(d: DataTypeV) -> bool {
    match d {
        DataTypeV::ByteStr(o) => o matches Some(b) ==> 1 <= b.len() <= 65535,
        DataTypeV::Int(_, w, o) => default_fits(o, w),
        DataTypeV::Float(c, o) => float_layout_width(c) matches Some(w) && default_fits(o, w),
    }
}

pub open spec fn variable_valid(v: (Seq<char>, DataTypeV)) -> bool {
    encode_utf8(v.0).len() <= 255 && data_type_valid(v.1)
}

/// An optional default: a flag byte (0 absent, 1 present), then the value's
/// little-endian bytes behind a word length. The length is written so that a
/// reader can report a default whose width differs from its layout's; this is
/// the format's own encoding, not aluvm's number codec, whose encoder writes
/// a two-byte flag where its decoder reads one byte.
pub open spec fn enc_default(d: Option<Seq<u8>>) -> Seq<u8> {
    match d {
        Some(b) => seq![1u8] + enc_word_bytes(b),
        None => seq![0u8],
    }
}

/// Tag byte first: 0xFF a byte string, 0 or 1 an unsigned or signed integer,
/// any other a float layout code.
pub open spec fn enc_data_type(d: DataTypeV) -> Seq<u8> {
    match d {
        DataTypeV::ByteStr(Some(b)) => seq![0xFFu8] + enc_word_bytes(b),
        DataTypeV::ByteStr(None) => seq![0xFFu8] + enc_word_bytes(Seq::<u8>::empty()),
        DataTypeV::Int(s, w, o) => seq![if s { 1u8 } else { 0u8 }] + le16(w) + enc_default(o),
        DataTypeV::Float(c, o) => seq![c] + enc_default(o),
    }
}

pub open spec fn enc_variable(v: (Seq<char>, DataTypeV)) -> Seq<u8> {
    enc_text(v.0) + enc_data_type(v.1)
}

/// Every default fits behind a word length prefix.
pub open spec fn data_type_fits(d: DataTypeV) -> bool {
    match d {
        DataTypeV::ByteStr(o) => o matches Some(b) ==> b.len() <= 65535,
        DataTypeV::Int(_, _, o) => o matches Some(b) ==> b.len() <= 65535,
        DataTypeV::Float(_, o) => o matches Some(b) ==> b.len() <= 65535,
    }
}

fn put_default(out: &mut Vec<u8>, d: &Option<Vec<u8>>) -> (r: bool)
    ensures
        r <==> (opt_view(*d) matches Some(b) ==> b.len() <= 65535),
        r ==> final(out)@ == old(out)@ + enc_default(opt_view(*d)),
        !r ==> final(out)@ == old(out)@,
{
    match d {
        Some(b) => {
            if b.len() > 65535 {
                return false;
            }
            put_u8(out, 1);
            put_word_bytes(out, b.as_slice());
            assert(final(out)@ =~= old(out)@ + enc_default(opt_view(*d)));
            true
        },
        None => {
            put_u8(out, 0);
            true
        },
    }
}

impl DataType {
    /// Appends the encoding; `false`, with nothing written, when a default is
    /// longer than 65535 bytes.
    pub fn encode(&self, out: &mut Vec<u8>) -> (r: bool)
        ensures
            r <==> data_type_fits(self@),
            r ==> final(out)@ == old(out)@ + enc_data_type(self@),
            !r ==> final(out)@ == old(out)@,
    {
        match self {
            DataType::ByteStr(d) => {
                if let Some(b) = d {
                    if b.len() > 65535 {
                        return false;
                    }
                }
                put_u8(out, 0xFF);
                match d {
                    Some(b) => {
                        put_word_bytes(out, b.as_slice());
                    },
                    None => {
                        put_u16(out, 0);
                        assert(le16(0) =~= enc_word_bytes(Seq::<u8>::empty()));
                    },
                }
                assert(final(out)@ =~= old(out)@ + enc_data_type(self@));
                true
            },
            DataType::Int(l, d) => {
                if let Some(b) = d {
                    if b.len() > 65535 {
                        return false;
                    }
                }
                put_u8(out, if l.signed { 1 } else { 0 });
                put_u16(out, l.bytes);
                put_default(out, d);
                assert(final(out)@ =~= old(out)@ + enc_data_type(self@));
                true
            },
            DataType::Float(c, d) => {
                if let Some(b) = d {
                    if b.len() > 65535 {
                        return false;
                    }
                }
                put_u8(out, *c);
                put_default(out, d);
                assert(final(out)@ =~= old(out)@ + enc_data_type(self@));
                true
            },
        }
    }
}

/// Reads an optional default at `pos`.
fn get_default(bytes: &[u8], pos: usize, info: &String) -> (r: Result<(Option<Vec<u8>>, usize), ModuleError>)
    ensures
        r matches Ok((o, p)) ==> is_prefix_at(bytes@, pos as int, enc_default(opt_view(o))) && p
            == pos + enc_default(opt_view(o)).len() && (opt_view(o) matches Some(b) ==> b.len() <= 65535),
        r matches Err(e) ==> e == ModuleError::Io || (pos < bytes@.len() && e == ModuleError::VarWrongDefaultFlag(bytes@[pos as int], *info)),
        pos < bytes@.len() && bytes@[pos as int] > 1 ==> r == Err::<(Option<Vec<u8>>, usize), ModuleError>(
            ModuleError::VarWrongDefaultFlag(bytes@[pos as int], *info),
        ),
        forall|o: Option<Seq<u8>>|
            #![trigger enc_default(o)]
            (o matches Some(b) ==> b.len() <= 65535) && is_prefix_at(bytes@, pos as int, enc_default(o))
                ==> (r matches Ok((x, p)) && opt_view(x) == o && p == pos + enc_default(o).len()),
{
    let n = bytes.len();
    let (flag, p) = match get_u8(bytes, pos) {
        Ok(x) => x,
        Err(_) => {
            return Err(ModuleError::Io);
        },
    };
    proof {
        assert forall|o: Option<Seq<u8>>|
            #![trigger enc_default(o)]
            is_prefix_at(bytes@, pos as int, enc_default(o)) implies flag == enc_default(o)[0] by {
            assert(bytes@[pos as int] == bytes@.subrange(pos as int, pos + enc_default(o).len())[0]);
        }
    }
    if flag == 0 {
        assert(bytes@.subrange(pos as int, p as int) =~= enc_default(None));
        assert(is_prefix_at(bytes@, pos as int, enc_default(opt_view(None))));
        Ok((None, p))
    } else if flag == 1 {
        match get_word_bytes(bytes, p) {
            Ok((b, q)) => {
                proof {
                    assert(bytes@.subrange(pos as int, q as int) =~= seq![1u8] + enc_word_bytes(b@));
                    assert(enc_default(opt_view(Some(b))) == seq![1u8] + enc_word_bytes(b@));
                    assert(is_prefix_at(bytes@, pos as int, enc_default(opt_view(Some(b)))));
                    assert forall|o: Option<Seq<u8>>|
                        #![trigger enc_default(o)]
                        (o matches Some(c) ==> c.len() <= 65535) && is_prefix_at(bytes@, pos as int, enc_default(o))
                        implies opt_view(Some(b)) == o && q == pos + enc_default(o).len() by {
                        if let Some(c) = o {
                            lemma_prefix_split(bytes@, pos as int, seq![1u8], enc_word_bytes(c));
                            assert(enc_word_bytes(c) == enc_word_bytes(c));
                        }
                    }
                }
                Ok((Some(b), q))
            },
            Err(_) => {
                proof {
                    assert forall|o: Option<Seq<u8>>|
                        #![trigger enc_default(o)]
                        (o matches Some(c) ==> c.len() <= 65535) && is_prefix_at(bytes@, pos as int, enc_default(o))
                        implies false by {
                        if let Some(c) = o {
                            lemma_prefix_split(bytes@, pos as int, seq![1u8], enc_word_bytes(c));
                            assert(enc_word_bytes(c) == enc_word_bytes(c));
                        }
                    }
                }
                Err(ModuleError::Io)
            },
        }
    } else {
        Err(ModuleError::VarWrongDefaultFlag(flag, info.clone()))
    }
}

/// The data type encodings that start with `tag`.
pub open spec fn tag_of(d: DataTypeV) -> u8 {
    enc_data_type(d)[0]
}

fn decode_byte_str(bytes: &[u8], pos: usize) -> (r: Result<(DataType, usize), ModuleError>)
    requires
        pos < bytes@.len(),
        bytes@[pos as int] == 0xFF,
    ensures
        r matches Ok((d, p)) ==> data_type_valid(d@) && data_type_fits(d@) && is_prefix_at(
            bytes@,
            pos as int,
            enc_data_type(d@),
        ) && p == pos + enc_data_type(d@).len(),
        r matches Err(e) ==> e == ModuleError::Io,
        forall|d: DataTypeV|
            #![trigger enc_data_type(d)]
            d is ByteStr && data_type_valid(d) && data_type_fits(d) && is_prefix_at(bytes@, pos as int, enc_data_type(d))
                ==> (r matches Ok((x, p)) && x@ == d && p == pos + enc_data_type(d).len()),
{
    let n = bytes.len();
    let p = pos + 1;
    proof {
        assert forall|e: DataTypeV|
            #![trigger enc_data_type(e)]
            e is ByteStr && data_type_fits(e) && is_prefix_at(bytes@, pos as int, enc_data_type(e))
            implies is_prefix_at(bytes@, p as int, enc_word_bytes(match e->ByteStr_0 { Some(c) => c, None => Seq::<u8>::empty() })) by {
            let c = match e->ByteStr_0 { Some(c) => c, None => Seq::<u8>::empty() };
            lemma_prefix_split(bytes@, pos as int, seq![0xFFu8], enc_word_bytes(c));
        }
    }
    let (b, q) = match get_word_bytes(bytes, p) {
        Ok(x) => x,
        Err(_) => {
            proof {
                assert forall|e: DataTypeV|
                    #![trigger enc_data_type(e)]
                    e is ByteStr && data_type_valid(e) && data_type_fits(e) && is_prefix_at(bytes@, pos as int, enc_data_type(e))
                    implies false by {
                    let c = match e->ByteStr_0 { Some(c) => c, None => Seq::<u8>::empty() };
                    assert(enc_word_bytes(c) == enc_word_bytes(c));
                }
            }
            return Err(ModuleError::Io);
        },
    };
    let d = if b.len() == 0 {
        DataType::ByteStr(None)
    } else {
        DataType::ByteStr(Some(b))
    };
    proof {
        if b@.len() == 0 {
            assert(b@ =~= Seq::<u8>::empty());
        }
        assert(bytes@.subrange(pos as int, q as int) =~= enc_data_type(d@));
        assert forall|e: DataTypeV|
            #![trigger enc_data_type(e)]
            e is ByteStr && data_type_valid(e) && data_type_fits(e) && is_prefix_at(bytes@, pos as int, enc_data_type(e))
            implies d@ == e && q == pos + enc_data_type(e).len() by {
            let c = match e->ByteStr_0 { Some(c) => c, None => Seq::<u8>::empty() };
            assert(enc_word_bytes(c) == enc_word_bytes(c));
        }
    }
    Ok((d, q))
}

fn decode_int(bytes: &[u8], pos: usize, info: &String) -> (r: Result<(DataType, usize), ModuleError>)
    requires
        pos < bytes@.len(),
        bytes@[pos as int] <= 1,
    ensures
        r matches Ok((d, p)) ==> data_type_valid(d@) && data_type_fits(d@) && is_prefix_at(
            bytes@,
            pos as int,
            enc_data_type(d@),
        ) && p == pos + enc_data_type(d@).len(),
        r matches Err(e) ==> e == ModuleError::Io || e is VarWrongLayout || e is VarWrongDefaultFlag,
        forall|d: DataTypeV|
            #![trigger enc_data_type(d)]
            d is Int && data_type_valid(d) && data_type_fits(d) && is_prefix_at(bytes@, pos as int, enc_data_type(d))
                ==> (r matches Ok((x, p)) && x@ == d && p == pos + enc_data_type(d).len()),
        forall|d: DataTypeV|
            #![trigger enc_data_type(d)]
            d is Int && data_type_fits(d) && layout_mismatch(d) is Some && is_prefix_at(
                bytes@,
                pos as int,
                enc_data_type(d),
            ) ==> r == Err::<(DataType, usize), ModuleError>(
                ModuleError::VarWrongLayout {
                    layout_bytes: layout_mismatch(d)->Some_0.0,
                    data_bytes: layout_mismatch(d)->Some_0.1,
                    info: *info,
                },
            ),
        pos + 3 < bytes@.len() && bytes@[pos + 3] > 1 ==> r == Err::<(DataType, usize), ModuleError>(
            ModuleError::VarWrongDefaultFlag(bytes@[pos + 3], *info),
        ),
{
    let n = bytes.len();
    let tag = bytes[pos];
    let p = pos + 1;
    let (w, p2) = match get_u16(bytes, p) {
        Ok(x) => x,
        Err(_) => {
            return Err(ModuleError::Io);
        },
    };
    proof {
        assert forall|e: DataTypeV|
            #![trigger enc_data_type(e)]
            is_prefix_at(bytes@, pos as int, enc_data_type(e)) && e is Int
            implies w == e->Int_1 && tag == (if e->Int_0 { 1u8 } else { 0u8 }) && is_prefix_at(bytes@, pos + 3, enc_default(e->Int_2)) by {
            let (s, ew, o) = (e->Int_0, e->Int_1, e->Int_2);
            let head = seq![if s { 1u8 } else { 0u8 }];
            assert(enc_data_type(e) == head + le16(ew) + enc_default(o));
            lemma_prefix_split(bytes@, pos as int, head + le16(ew), enc_default(o));
            lemma_prefix_split(bytes@, pos as int, head, le16(ew));
            assert(bytes@[pos as int] == head[0]);
            assert(bytes@[pos + 1] == le16(ew)[0]);
            assert(bytes@[pos + 2] == le16(ew)[1]);
            lemma_word_round_trip(ew);
        }
    }
    let (dflt, q) = get_default(bytes, p2, info)?;
    if let Some(b) = &dflt {
        if b.len() != w as usize {
            return Err(
                ModuleError::VarWrongLayout { layout_bytes: w, data_bytes: b.len() as u16, info: info.clone() },
            );
        }
    }
    let d = DataType::Int(IntLayout { signed: tag == 1, bytes: w }, dflt);
    proof {
        assert(bytes@.subrange(pos as int, q as int) =~= enc_data_type(d@));
    }
    Ok((d, q))
}

fn decode_float(bytes: &[u8], pos: usize, info: &String) -> (r: Result<(DataType, usize), ModuleError>)
    requires
        pos < bytes@.len(),
        bytes@[pos as int] > 1,
        bytes@[pos as int] != 0xFF,
    ensures
        r matches Ok((d, p)) ==> data_type_valid(d@) && data_type_fits(d@) && is_prefix_at(
            bytes@,
            pos as int,
            enc_data_type(d@),
        ) && p == pos + enc_data_type(d@).len(),
        r matches Err(e) ==> e == ModuleError::Io || e is VarWrongLayout || e is VarWrongDefaultFlag
            || e is VarWrongFloatType,
        forall|d: DataTypeV|
            #![trigger enc_data_type(d)]
            d is Float && data_type_valid(d) && data_type_fits(d) && is_prefix_at(bytes@, pos as int, enc_data_type(d))
                ==> (r matches Ok((x, p)) && x@ == d && p == pos + enc_data_type(d).len()),
        float_layout_width(bytes@[pos as int]) is None ==> r == Err::<(DataType, usize), ModuleError>(
            ModuleError::VarWrongFloatType(bytes@[pos as int], *info),
        ),
        float_layout_width(bytes@[pos as int]) is Some && pos + 1 < bytes@.len() && bytes@[pos + 1] > 1
            ==> r == Err::<(DataType, usize), ModuleError>(
            ModuleError::VarWrongDefaultFlag(bytes@[pos + 1], *info),
        ),
        forall|d: DataTypeV|
            #![trigger enc_data_type(d)]
            d is Float && data_type_fits(d) && layout_mismatch(d) is Some && is_prefix_at(
                bytes@,
                pos as int,
                enc_data_type(d),
            ) ==> r == Err::<(DataType, usize), ModuleError>(
                ModuleError::VarWrongLayout {
                    layout_bytes: layout_mismatch(d)->Some_0.0,
                    data_bytes: layout_mismatch(d)->Some_0.1,
                    info: *info,
                },
            ),
{
    let n = bytes.len();
    let tag = bytes[pos];
    let p = pos + 1;
    proof {
        assert forall|e: DataTypeV|
            #![trigger enc_data_type(e)]
            is_prefix_at(bytes@, pos as int, enc_data_type(e)) && e is Float
            implies tag == e->Float_0 && is_prefix_at(bytes@, pos + 1, enc_default(e->Float_1)) by {
            lemma_prefix_split(bytes@, pos as int, seq![e->Float_0], enc_default(e->Float_1));
            assert(bytes@[pos as int] == seq![e->Float_0][0]);
        }
    }
    let width = match float_layout_bytes(tag) {
        Some(x) => x,
        None => {
            return Err(ModuleError::VarWrongFloatType(tag, info.clone()));
        },
    };
    let (dflt, q) = get_default(bytes, p, info)?;
    if let Some(b) = &dflt {
        if b.len() != width as usize {
            return Err(
                ModuleError::VarWrongLayout { layout_bytes: width, data_bytes: b.len() as u16, info: info.clone() },
            );
        }
    }
    let d = DataType::Float(tag, dflt);
    proof {
        assert(bytes@.subrange(pos as int, q as int) =~= enc_data_type(d@));
    }
    Ok((d, q))
}

impl DataType {
    /// Reads a data type at `pos`; `info` is the description of the variable
    /// it belongs to, for the errors.
    pub fn decode(bytes: &[u8], pos: usize, info: &String) -> (r: Result<(DataType, usize), ModuleError>)
        ensures
            r matches Ok((d, p)) ==> data_type_valid(d@) && data_type_fits(d@) && is_prefix_at(
                bytes@,
                pos as int,
                enc_data_type(d@),
            ) && p == pos + enc_data_type(d@).len(),
            forall|d: DataTypeV|
                #![trigger enc_data_type(d)]
                data_type_valid(d) && data_type_fits(d) && is_prefix_at(bytes@, pos as int, enc_data_type(d))
                    ==> (r matches Ok((x, p)) && x@ == d && p == pos + enc_data_type(d).len()),
            forall|d: DataTypeV|
                #![trigger enc_data_type(d)]
                data_type_fits(d) && layout_mismatch(d) is Some && is_prefix_at(
                    bytes@,
                    pos as int,
                    enc_data_type(d),
                ) ==> r == Err::<(DataType, usize), ModuleError>(
                    ModuleError::VarWrongLayout {
                        layout_bytes: layout_mismatch(d)->Some_0.0,
                        data_bytes: layout_mismatch(d)->Some_0.1,
                        info: *info,
                    },
                ),
            pos + 3 < bytes@.len() && bytes@[pos as int] <= 1 && bytes@[pos + 3] > 1 ==> r == Err::<
                (DataType, usize),
                ModuleError,
            >(ModuleError::VarWrongDefaultFlag(bytes@[pos + 3], *info)),
            pos + 1 < bytes@.len() && bytes@[pos as int] > 1 && bytes@[pos as int] != 0xFF
                && float_layout_width(bytes@[pos as int]) is Some && bytes@[pos + 1] > 1 ==> r == Err::<
                (DataType, usize),
                ModuleError,
            >(ModuleError::VarWrongDefaultFlag(bytes@[pos + 1], *info)),
            pos < bytes@.len() && bytes@[pos as int] > 1 && bytes@[pos as int] != 0xFF
                && float_layout_width(bytes@[pos as int]) is None ==> r == Err::<(DataType, usize), ModuleError>(
                ModuleError::VarWrongFloatType(bytes@[pos as int], *info),
            ),
            pos >= bytes@.len() ==> r == Err::<(DataType, usize), ModuleError>(ModuleError::Io),
            r matches Err(e) ==> e == ModuleError::Io || e is VarWrongLayout || e is VarWrongFloatType
                || e is VarWrongDefaultFlag,
    {
        if pos >= bytes.len() {
            return Err(ModuleError::Io);
        }
        let tag = bytes[pos];
        proof {
            assert forall|d: DataTypeV|
                #![trigger enc_data_type(d)]
                is_prefix_at(bytes@, pos as int, enc_data_type(d)) implies tag == enc_data_type(d)[0] by {
                assert(bytes@[pos as int] == bytes@.subrange(pos as int, pos + enc_data_type(d).len())[0]);
            }
        }
        if tag == 0xFF {
            decode_byte_str(bytes, pos)
        } else if tag <= 1 {
            decode_int(bytes, pos, info)
        } else {
            decode_float(bytes, pos, info)
        }
    }
}

impl Variable {
    /// Appends the encoding; `false`, with nothing written, where the
    /// description or a default does not fit its length prefix.
    pub fn encode(&self, out: &mut Vec<u8>) -> (r: bool)
        ensures
            r <==> encode_utf8(self.info@).len() <= 255 && data_type_fits(self.data@),
            r ==> final(out)@ == old(out)@ + enc_variable(self@),
            !r ==> final(out)@ == old(out)@,
    {
        if self.info.as_str().as_bytes().len() > 255 {
            return false;
        }
        let ghost start = out@;
        let mut tmp: Vec<u8> = Vec::new();
        if !self.data.encode(&mut tmp) {
            return false;
        }
        put_text(out, &self.info);
        crate::codec::put_bytes(out, tmp.as_slice());
        assert(out@ =~= start + enc_variable(self@));
        true
    }

    /// Reads a variable at `pos`.
    pub fn decode(bytes: &[u8], pos: usize) -> (r: Result<(Variable, usize), ModuleError>)
        ensures
            r matches Ok((v, p)) ==> variable_valid(v@) && data_type_fits(v@.1) && is_prefix_at(
                bytes@,
                pos as int,
                enc_variable(v@),
            ) && p == pos + enc_variable(v@).len(),
            forall|v: (Seq<char>, DataTypeV)|
                #![trigger enc_variable(v)]
                variable_valid(v) && data_type_fits(v.1) && is_prefix_at(bytes@, pos as int, enc_variable(v))
                    ==> (r matches Ok((x, p)) && x@ == v && p == pos + enc_variable(v).len()),
            forall|t: Seq<char>, d: DataTypeV|
                #![trigger enc_text(t), enc_data_type(d)]
                encode_utf8(t).len() <= 255 && data_type_fits(d) && layout_mismatch(d) is Some
                    && is_prefix_at(bytes@, pos as int, enc_text(t) + enc_data_type(d)) ==> (r matches Err(
                    ModuleError::VarWrongLayout { layout_bytes, data_bytes, info },
                ) && layout_bytes == layout_mismatch(d)->Some_0.0 && data_bytes == layout_mismatch(d)->Some_0.1
                    && info@ == t),
            forall|t: Seq<char>|
                #![trigger enc_text(t)]
                encode_utf8(t).len() <= 255 && is_prefix_at(bytes@, pos as int, enc_text(t)) && pos
                    + enc_text(t).len() < bytes@.len() && bytes@[pos + enc_text(t).len()] > 1
                    && bytes@[pos + enc_text(t).len()] != 0xFF && float_layout_width(
                    bytes@[pos + enc_text(t).len()],
                ) is None ==> (r matches Err(ModuleError::VarWrongFloatType(tag, info)) && tag == bytes@[pos
                    + enc_text(t).len()] && info@ == t),
            pos < bytes@.len() && pos + 1 + bytes@[pos as int] <= bytes@.len() && !valid_utf8(
                bytes@.subrange(pos + 1, pos + 1 + bytes@[pos as int]),
            ) ==> r matches Err(ModuleError::VarNonUtf8(_)),
            r matches Err(e) ==> e == ModuleError::Io || e is VarNonUtf8 || e is VarWrongLayout || e is VarWrongFloatType || e is VarWrongDefaultFlag,
    {
        let n = bytes.len();
        proof {
            assert forall|v: (Seq<char>, DataTypeV)|
                #![trigger enc_variable(v)]
                is_prefix_at(bytes@, pos as int, enc_variable(v)) implies is_prefix_at(
                    bytes@,
                    pos as int,
                    enc_text(v.0),
                ) && is_prefix_at(bytes@, pos + enc_text(v.0).len(), enc_data_type(v.1)) by {
                lemma_prefix_split(bytes@, pos as int, enc_text(v.0), enc_data_type(v.1));
            }
        }
        proof {
            assert forall|t: Seq<char>, d: DataTypeV|
                #![trigger enc_text(t), enc_data_type(d)]
                is_prefix_at(bytes@, pos as int, enc_text(t) + enc_data_type(d))
                implies is_prefix_at(bytes@, pos as int, enc_text(t)) by {
                lemma_prefix_split(bytes@, pos as int, enc_text(t), enc_data_type(d));
            }
        }
        let (info, p) = match get_text(bytes, pos) {
            Ok(x) => x,
            Err(ReadError::Eof) => {
                return Err(ModuleError::Io);
            },
            Err(ReadError::NonUtf8(b)) => {
                return Err(ModuleError::VarNonUtf8(b));
            },
        };
        proof {
            assert forall|t: Seq<char>, d: DataTypeV|
                #![trigger enc_text(t), enc_data_type(d)]
                encode_utf8(t).len() <= 255 && is_prefix_at(bytes@, pos as int, enc_text(t) + enc_data_type(d))
                implies info@ == t && is_prefix_at(bytes@, p as int, enc_data_type(d)) by {
                lemma_prefix_split(bytes@, pos as int, enc_text(t), enc_data_type(d));
            }
        }
        let (data, q) = DataType::decode(bytes, p, &info)?;
        let v = Variable { info, data };
        proof {
            lemma_prefix_join(bytes@, pos as int, enc_text(info@), enc_data_type(data@));
        }
        Ok((v, q))
    }
}

} // verus!
