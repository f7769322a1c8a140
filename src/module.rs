//! The module container and its wire format.

use vstd::prelude::*;
use vstd::utf8::encode_utf8;

use crate::call_table::{enc_table, table_fits, table_wf, CallTable, CallTableError};
use crate::codec::{
    enc_text, enc_word_bytes, get_text, get_u16, get_u8, get_word_bytes, is_prefix_at, le16,
    lemma_le16_of_word, lemma_prefix_join, lemma_prefix_split, lemma_word_at, lemma_word_round_trip,
    put_bytes, put_text, put_u16, put_u8, put_word_bytes, ReadError,
};
use crate::codec::word_of;
use crate::error::ModuleError;
use crate::libid::{lemma_lex_asymmetric, lemma_lex_transitive, lex_less, lex_lt, LibId};
use crate::value::{data_type_fits, enc_variable, variable_valid, DataTypeV, Variable};

verus! {

/// A linkable unit: code, static data, referenced libraries, the call table
/// of external routines, exported routines and declared inputs.
#[derive(Clone, Debug)]
pub struct Module {
    /// Identifiers of the ISA extensions the code uses.
    pub isae: String,
    pub code: Vec<u8>,
    pub data: Vec<u8>,
    /// Referenced libraries.
    pub libs: Vec<LibId>,
    pub vars: Vec<Variable>,
    pub imports: CallTable,
    /// Local routine names with their code offsets.
    pub exports: Vec<(String, u16)>,
}

pub open spec fn libs_view(libs: Seq<LibId>) -> Seq<Seq<u8>> {
    libs.map_values(|l: LibId| l@)
}

pub open spec fn exports_view(e: Seq<(String, u16)>) -> Seq<(Seq<char>, u16)> {
    e.map_values(|x: (String, u16)| (x.0@, x.1))
}

pub open spec fn vars_view(v: Seq<Variable>) -> Seq<(Seq<char>, DataTypeV)> {
    v.map_values(|x: Variable| x@)
}

pub open spec fn enc_lib_ids(ls: Seq<Seq<u8>>) -> Seq<u8>
    decreases ls.len(),
{
    if ls.len() == 0 {
        seq![]
    } else {
        enc_lib_ids(ls.drop_last()) + ls.last()
    }
}

pub open spec fn enc_export(e: (Seq<char>, u16)) -> Seq<u8> {
    enc_text(e.0) + le16(e.1)
}

pub open spec fn enc_exports(es: Seq<(Seq<char>, u16)>) -> Seq<u8>
    decreases es.len(),
{
    if es.len() == 0 {
        seq![]
    } else {
        enc_exports(es.drop_last()) + enc_export(es.last())
    }
}

pub open spec fn enc_vars(vs: Seq<(Seq<char>, DataTypeV)>) -> Seq<u8>
    decreases vs.len(),
{
    if vs.len() == 0 {
        seq![]
    } else {
        enc_vars(vs.drop_last()) + enc_variable(vs.last())
    }
}

/// The fields in order: ISA extensions, code, data, libraries (byte count),
/// call table, exports (word count), variables (word count).
#[verifier::opaque]
pub open spec fn enc_module(m: Module) -> Seq<u8> {
    enc_text(m.isae@) + enc_word_bytes(m.code@) + enc_word_bytes(m.data@) + seq![
        m.libs@.len() as u8,
    ] + enc_lib_ids(libs_view(m.libs@)) + enc_table(m.imports@) + le16(m.exports@.len() as u16)
        + enc_exports(exports_view(m.exports@)) + le16(m.vars@.len() as u16) + enc_vars(
        vars_view(m.vars@),
    )
}

/// Library identifiers in strictly increasing order: a set.
pub open spec fn ids_increasing(ls: Seq<Seq<u8>>) -> bool {
    forall|i: int, j: int| 0 <= i < j < ls.len() ==> lex_lt(ls[i], ls[j])
}

/// Export names in strictly increasing order of their bytes: a map by name.
pub open spec fn names_increasing(es: Seq<(Seq<char>, u16)>) -> bool {
    forall|i: int, j: int| 0 <= i < j < es.len() ==> lex_lt(encode_utf8(es[i].0), encode_utf8(es[j].0))
}

/// Every field fits its length prefix, libraries form a set and exports a
/// map ordered by name.
pub open spec fn module_fits(m: Module) -> bool {
    &&& encode_utf8(m.isae@).len() <= 255
    &&& m.code@.len() <= 65535
    &&& m.data@.len() <= 65535
    &&& m.libs@.len() <= 255
    &&& ids_increasing(libs_view(m.libs@))
    &&& names_increasing(exports_view(m.exports@))
    &&& table_fits(m.imports@)
    &&& m.exports@.len() <= 65535
    &&& forall|i: int| 0 <= i < m.exports@.len() ==> encode_utf8((#[trigger] m.exports@[i]).0@).len() <= 255
    &&& m.vars@.len() <= 65535
    &&& forall|i: int| 0 <= i < m.vars@.len() ==> encode_utf8((#[trigger] m.vars@[i]).info@).len() <= 255
        && data_type_fits(m.vars@[i].data@)
}

/// Library identifiers of 32 bytes each.
pub open spec fn lib_ids_ok(ls: Seq<Seq<u8>>) -> bool {
    forall|a: int| 0 <= a < ls.len() ==> (#[trigger] ls[a]).len() == 32
}

/// Export names that fit their length byte.
pub open spec fn exports_ok(es: Seq<(Seq<char>, u16)>) -> bool {
    forall|a: int| 0 <= a < es.len() ==> encode_utf8((#[trigger] es[a]).0).len() <= 255
}

proof fn lemma_lib_ids_take_prefix(bytes: Seq<u8>, pos: int, ls: Seq<Seq<u8>>, i: int)
    requires
        is_prefix_at(bytes, pos, enc_lib_ids(ls)),
        0 <= i <= ls.len(),
    ensures
        is_prefix_at(bytes, pos, enc_lib_ids(ls.take(i))),
    decreases ls.len(),
{
    if i < ls.len() {
        lemma_prefix_split(bytes, pos, enc_lib_ids(ls.drop_last()), ls.last());
        assert(ls.drop_last().take(i) =~= ls.take(i));
        lemma_lib_ids_take_prefix(bytes, pos, ls.drop_last(), i);
    } else {
        assert(ls.take(i) =~= ls);
    }
}

proof fn lemma_exports_take_prefix(bytes: Seq<u8>, pos: int, es: Seq<(Seq<char>, u16)>, i: int)
    requires
        is_prefix_at(bytes, pos, enc_exports(es)),
        0 <= i <= es.len(),
    ensures
        is_prefix_at(bytes, pos, enc_exports(es.take(i))),
    decreases es.len(),
{
    if i < es.len() {
        lemma_prefix_split(bytes, pos, enc_exports(es.drop_last()), enc_export(es.last()));
        assert(es.drop_last().take(i) =~= es.take(i));
        lemma_exports_take_prefix(bytes, pos, es.drop_last(), i);
    } else {
        assert(es.take(i) =~= es);
    }
}

/// Reads the referenced libraries at `pos`: a byte count, then the identifiers.
fn decode_libs(bytes: &[u8], pos: usize) -> (r: Result<(Vec<LibId>, usize), ModuleError>)
    ensures
        r matches Ok((v, p)) ==> v@.len() <= 255 && ids_increasing(libs_view(v@)) && is_prefix_at(
            bytes@,
            pos as int,
            seq![v@.len() as u8] + enc_lib_ids(libs_view(v@)),
        ) && p == pos + 1 + enc_lib_ids(libs_view(v@)).len(),
        forall|ls: Seq<Seq<u8>>|
            #![trigger enc_lib_ids(ls)]
            ls.len() <= 255 && lib_ids_ok(ls) && ids_increasing(ls) && is_prefix_at(bytes@, pos as int, seq![ls.len() as u8] + enc_lib_ids(ls))
                ==> (r matches Ok((v, p)) && libs_view(v@) == ls && p == pos + 1 + enc_lib_ids(ls).len()),
        r matches Err(e) ==> e == ModuleError::Io || e == ModuleError::LibsUnordered,
{
    let n = bytes.len();
    let (nl, p4) = match get_u8(bytes, pos) {
        Ok(x) => x,
        Err(_) => {
            return Err(ModuleError::Io);
        },
    };
    let mut libs: Vec<LibId> = Vec::new();
    let mut p = p4;
    let mut i: usize = 0;
    assert(bytes@.subrange(p4 as int, p as int) =~= enc_lib_ids(libs_view(libs@)));
    proof {
        assert forall|ls: Seq<Seq<u8>>|
            #![trigger enc_lib_ids(ls)]
            ls.len() <= 255 && is_prefix_at(bytes@, pos as int, seq![ls.len() as u8] + enc_lib_ids(ls))
            implies ls.len() == nl && is_prefix_at(bytes@, p4 as int, enc_lib_ids(ls))
                && libs_view(libs@) == ls.take(0) && p == p4 + enc_lib_ids(ls.take(0)).len() by {
            lemma_prefix_split(bytes@, pos as int, seq![ls.len() as u8], enc_lib_ids(ls));
            assert(bytes@[pos as int] == seq![ls.len() as u8][0]);
            assert(libs_view(libs@) =~= ls.take(0));
        }
    }
    while i < nl as usize
        invariant
            n == bytes@.len(),
            p4 <= p <= n,
            libs@.len() == i,
            i <= nl,
            ids_increasing(libs_view(libs@)),
            bytes@.subrange(p4 as int, p as int) == enc_lib_ids(libs_view(libs@)),
            forall|ls: Seq<Seq<u8>>|
                #![trigger enc_lib_ids(ls)]
                ls.len() <= 255 && is_prefix_at(bytes@, pos as int, seq![ls.len() as u8] + enc_lib_ids(ls))
                    ==> ls.len() == nl && is_prefix_at(bytes@, p4 as int, enc_lib_ids(ls)),
            forall|ls: Seq<Seq<u8>>|
                #![trigger enc_lib_ids(ls)]
                ls.len() == nl && lib_ids_ok(ls) && ids_increasing(ls) && is_prefix_at(bytes@, p4 as int, enc_lib_ids(ls))
                    ==> libs_view(libs@) == ls.take(i as int) && p == p4 + enc_lib_ids(ls.take(i as int)).len(),
        decreases nl - i,
    {
        proof {
            assert forall|ls: Seq<Seq<u8>>|
                #![trigger enc_lib_ids(ls)]
                ls.len() == nl && lib_ids_ok(ls) && ids_increasing(ls) && is_prefix_at(bytes@, p4 as int, enc_lib_ids(ls))
                implies is_prefix_at(bytes@, p as int, ls[i as int]) && ls[i as int].len() == 32 by {
                lemma_lib_ids_take_prefix(bytes@, p4 as int, ls, i + 1);
                assert(ls.take(i + 1).drop_last() =~= ls.take(i as int));
                lemma_prefix_split(bytes@, p4 as int, enc_lib_ids(ls.take(i as int)), ls[i as int]);
            }
        }
        if n - p < 32 {
            return Err(ModuleError::Io);
        }
        let id = LibId::read(bytes, p);
        proof {
            assert forall|ls: Seq<Seq<u8>>|
                #![trigger enc_lib_ids(ls)]
                ls.len() == nl && lib_ids_ok(ls) && ids_increasing(ls) && is_prefix_at(bytes@, p4 as int, enc_lib_ids(ls))
                implies id@ == ls[i as int] by {
            }
        }
        if i > 0 && libs[i - 1].compare(&id) >= 0 {
            proof {
                assert forall|ls: Seq<Seq<u8>>|
                    #![trigger enc_lib_ids(ls)]
                    ls.len() == nl && lib_ids_ok(ls) && ids_increasing(ls) && is_prefix_at(bytes@, p4 as int, enc_lib_ids(ls))
                    implies false by {
                    assert(libs_view(libs@)[i - 1] == ls.take(i as int)[i - 1]);
                    assert(libs_view(libs@)[i - 1] == libs@[i - 1]@);
                    lemma_lex_asymmetric(ls[i - 1], ls[i as int]);
                }
            }
            return Err(ModuleError::LibsUnordered);
        }
        let ghost old_libs = libs@;
        libs.push(id);
        proof {
            let lv = libs_view(libs@);
            if i > 0 {
                assert(lv[i - 1] == libs@[i - 1]@);
            }
            assert forall|a: int, b: int| 0 <= a < b < lv.len() implies #[trigger] lex_lt(lv[a], lv[b]) by {
                assert(lv[a] == libs_view(old_libs)[a]);
                if b < i {
                    assert(lv[b] == libs_view(old_libs)[b]);
                } else if a < i - 1 {
                    assert(lv[i - 1] == libs_view(old_libs)[i - 1]);
                    lemma_lex_transitive(lv[a], lv[i - 1], lv[b]);
                }
            }
        }
        proof {
            assert(libs_view(libs@).drop_last() =~= libs_view(old_libs));
            assert(libs_view(libs@) =~= libs_view(old_libs).push(id@));
            assert(bytes@.subrange(p4 as int, p + 32) =~= bytes@.subrange(p4 as int, p as int)
                + bytes@.subrange(p as int, p + 32));
            assert forall|ls: Seq<Seq<u8>>|
                #![trigger enc_lib_ids(ls)]
                ls.len() == nl && lib_ids_ok(ls) && ids_increasing(ls) && is_prefix_at(bytes@, p4 as int, enc_lib_ids(ls))
                implies libs_view(libs@) == ls.take(i + 1) && p + 32 == p4 + enc_lib_ids(ls.take(i + 1)).len() by {
                assert(ls.take(i + 1).drop_last() =~= ls.take(i as int));
                assert(ls.take(i + 1) =~= ls.take(i as int).push(ls[i as int]));
            }
        }
        p = p + 32;
        i = i + 1;
    }
    proof {
        assert(bytes@.subrange(pos as int, p as int) =~= seq![nl] + enc_lib_ids(libs_view(libs@)));
        assert forall|ls: Seq<Seq<u8>>|
            #![trigger enc_lib_ids(ls)]
            ls.len() == nl && lib_ids_ok(ls) && ids_increasing(ls) && is_prefix_at(bytes@, p4 as int, enc_lib_ids(ls))
            implies libs_view(libs@) == ls by {
            assert(ls.take(i as int) =~= ls);
        }
    }
    Ok((libs, p))
}

/// Reads the exports at `pos`: a word count, then names with offsets.
fn decode_exports(bytes: &[u8], pos: usize) -> (r: Result<(Vec<(String, u16)>, usize), ModuleError>)
    ensures
        r matches Ok((v, p)) ==> v@.len() <= 65535 && exports_ok(exports_view(v@)) && names_increasing(exports_view(v@)) && is_prefix_at(
            bytes@,
            pos as int,
            le16(v@.len() as u16) + enc_exports(exports_view(v@)),
        ) && p == pos + 2 + enc_exports(exports_view(v@)).len(),
        forall|es: Seq<(Seq<char>, u16)>|
            #![trigger enc_exports(es)]
            es.len() <= 65535 && exports_ok(es) && names_increasing(es) && is_prefix_at(bytes@, pos as int, le16(es.len() as u16) + enc_exports(es))
                ==> (r matches Ok((v, p)) && exports_view(v@) == es && p == pos + 2 + enc_exports(es).len()),
        r matches Err(e) ==> e == ModuleError::Io || e is ExternalNonUtf8 || e == ModuleError::ExportsUnordered,
{
    let n = bytes.len();
    let (ne, p7) = match get_u16(bytes, pos) {
        Ok(x) => x,
        Err(_) => {
            return Err(ModuleError::Io);
        },
    };
    let mut exports: Vec<(String, u16)> = Vec::new();
    let mut p = p7;
    let mut i: usize = 0;
    assert(bytes@.subrange(p7 as int, p as int) =~= enc_exports(exports_view(exports@)));
    proof {
        lemma_le16_of_word(bytes@, pos as int, ne);
        assert forall|es: Seq<(Seq<char>, u16)>|
            #![trigger enc_exports(es)]
            es.len() <= 65535 && is_prefix_at(bytes@, pos as int, le16(es.len() as u16) + enc_exports(es))
            implies es.len() == ne && is_prefix_at(bytes@, p7 as int, enc_exports(es))
                && exports_view(exports@) == es.take(0) && p == p7 + enc_exports(es.take(0)).len() by {
            lemma_prefix_split(bytes@, pos as int, le16(es.len() as u16), enc_exports(es));
            lemma_word_at(bytes@, pos as int, es.len() as u16);
            assert(exports_view(exports@) =~= es.take(0));
        }
    }
    while i < ne as usize
        invariant
            n == bytes@.len(),
            p7 <= p <= n,
            exports@.len() == i,
            i <= ne,
            exports_ok(exports_view(exports@)),
            names_increasing(exports_view(exports@)),
            bytes@.subrange(p7 as int, p as int) == enc_exports(exports_view(exports@)),
            forall|es: Seq<(Seq<char>, u16)>|
                #![trigger enc_exports(es)]
                es.len() <= 65535 && is_prefix_at(bytes@, pos as int, le16(es.len() as u16) + enc_exports(es))
                    ==> es.len() == ne && is_prefix_at(bytes@, p7 as int, enc_exports(es)),
            forall|es: Seq<(Seq<char>, u16)>|
                #![trigger enc_exports(es)]
                es.len() == ne && exports_ok(es) && names_increasing(es) && is_prefix_at(bytes@, p7 as int, enc_exports(es))
                    ==> exports_view(exports@) == es.take(i as int) && p == p7 + enc_exports(es.take(i as int)).len(),
        decreases ne - i,
    {
        proof {
            assert forall|es: Seq<(Seq<char>, u16)>|
                #![trigger enc_exports(es)]
                es.len() == ne && exports_ok(es) && names_increasing(es) && is_prefix_at(bytes@, p7 as int, enc_exports(es))
                implies is_prefix_at(bytes@, p as int, enc_text(es[i as int].0))
                    && is_prefix_at(bytes@, p + enc_text(es[i as int].0).len(), le16(es[i as int].1))
                    && encode_utf8(es[i as int].0).len() <= 255 by {
                lemma_exports_take_prefix(bytes@, p7 as int, es, i + 1);
                assert(es.take(i + 1).drop_last() =~= es.take(i as int));
                lemma_prefix_split(bytes@, p7 as int, enc_exports(es.take(i as int)), enc_export(es[i as int]));
                lemma_prefix_split(bytes@, p as int, enc_text(es[i as int].0), le16(es[i as int].1));
            }
        }
        let (name, q) = match get_text(bytes, p) {
            Ok(x) => x,
            Err(ReadError::Eof) => {
                return Err(ModuleError::Io);
            },
            Err(ReadError::NonUtf8(b)) => {
                return Err(ModuleError::ExternalNonUtf8(b));
            },
        };
        let (off, q2) = match get_u16(bytes, q) {
            Ok(x) => x,
            Err(_) => {
                return Err(ModuleError::Io);
            },
        };
        proof {
            assert forall|es: Seq<(Seq<char>, u16)>|
                #![trigger enc_exports(es)]
                es.len() == ne && exports_ok(es) && names_increasing(es) && is_prefix_at(bytes@, p7 as int, enc_exports(es))
                implies name@ == es[i as int].0 by {
                assert(enc_text(es[i as int].0) == enc_text(es[i as int].0));
            }
        }
        if i > 0 && !lex_less(exports[i - 1].0.as_str().as_bytes(), name.as_str().as_bytes()) {
            proof {
                assert forall|es: Seq<(Seq<char>, u16)>|
                    #![trigger enc_exports(es)]
                    es.len() == ne && exports_ok(es) && names_increasing(es) && is_prefix_at(bytes@, p7 as int, enc_exports(es))
                    implies false by {
                    assert(exports_view(exports@)[i - 1] == es.take(i as int)[i - 1]);
                    assert(exports_view(exports@)[i - 1].0 == exports@[i - 1].0@);
                }
            }
            return Err(ModuleError::ExportsUnordered);
        }
        let ghost old_exports = exports@;
        exports.push((name, off));
        proof {
            let ev = exports_view(exports@);
            if i > 0 {
                assert(ev[i - 1].0 == exports@[i - 1].0@);
            }
            assert(ev[i as int].0 == name@);
            assert forall|a: int, b: int| 0 <= a < b < ev.len() implies #[trigger] lex_lt(encode_utf8(ev[a].0), encode_utf8(ev[b].0)) by {
                assert(ev[a] == exports_view(old_exports)[a]);
                if b < i {
                    assert(ev[b] == exports_view(old_exports)[b]);
                } else if a < i - 1 {
                    assert(ev[i - 1] == exports_view(old_exports)[i - 1]);
                    lemma_lex_transitive(encode_utf8(ev[a].0), encode_utf8(ev[i - 1].0), encode_utf8(ev[b].0));
                }
            }
        }
        proof {
            lemma_le16_of_word(bytes@, q as int, off);
            assert(exports_view(exports@).drop_last() =~= exports_view(old_exports));
            assert(exports_view(exports@) =~= exports_view(old_exports).push((name@, off)));
            assert(bytes@.subrange(p7 as int, q2 as int) =~= bytes@.subrange(p7 as int, p as int)
                + bytes@.subrange(p as int, q as int) + bytes@.subrange(q as int, q2 as int));
            assert forall|es: Seq<(Seq<char>, u16)>|
                #![trigger enc_exports(es)]
                es.len() == ne && exports_ok(es) && names_increasing(es) && is_prefix_at(bytes@, p7 as int, enc_exports(es))
                implies exports_view(exports@) == es.take(i + 1) && q2 == p7 + enc_exports(es.take(i + 1)).len() by {
                assert(es.take(i + 1).drop_last() =~= es.take(i as int));
                assert(es.take(i + 1) =~= es.take(i as int).push(es[i as int]));
                assert(enc_text(es[i as int].0) == enc_text(es[i as int].0));
                lemma_word_at(bytes@, q as int, es[i as int].1);
            }
        }
        p = q2;
        i = i + 1;
    }
    proof {
        assert(bytes@.subrange(pos as int, p as int) =~= bytes@.subrange(pos as int, p7 as int) + bytes@.subrange(p7 as int, p as int));
        assert forall|es: Seq<(Seq<char>, u16)>|
            #![trigger enc_exports(es)]
            es.len() == ne && exports_ok(es) && names_increasing(es) && is_prefix_at(bytes@, p7 as int, enc_exports(es))
            implies exports_view(exports@) == es by {
            assert(es.take(i as int) =~= es);
        }
    }
    Ok((exports, p))
}

/// The leading fields: ISA extensions text, code, data.
pub open spec fn enc_head(isae: Seq<char>, code: Seq<u8>, data: Seq<u8>) -> Seq<u8> {
    enc_text(isae) + enc_word_bytes(code) + enc_word_bytes(data)
}

/// Reads the leading fields at the start of `bytes`.
fn decode_head(bytes: &[u8]) -> (r: Result<(String, Vec<u8>, Vec<u8>, usize), ModuleError>)
    ensures
        r matches Ok((i, c, d, p)) ==> encode_utf8(i@).len() <= 255 && c@.len() <= 65535 && d@.len()
            <= 65535 && is_prefix_at(bytes@, 0, enc_head(i@, c@, d@)) && p == enc_head(i@, c@, d@).len(),
        forall|i: Seq<char>, c: Seq<u8>, d: Seq<u8>|
            #![trigger enc_head(i, c, d)]
            encode_utf8(i).len() <= 255 && c.len() <= 65535 && d.len() <= 65535 && is_prefix_at(
                bytes@,
                0,
                enc_head(i, c, d),
            ) ==> (r matches Ok((x, y, z, p)) && x@ == i && y@ == c && z@ == d && p == enc_head(
                i,
                c,
                d,
            ).len()),
        forall|i: Seq<char>|
            #![trigger enc_text(i)]
            encode_utf8(i).len() <= 255 && is_prefix_at(bytes@, 0, enc_text(i)) && enc_text(i).len() + 2
                <= bytes@.len() && enc_text(i).len() + 2 + word_of(
                bytes@[enc_text(i).len() as int],
                bytes@[(enc_text(i).len() + 1) as int],
            ) > bytes@.len() ==> r == Err::<(String, Vec<u8>, Vec<u8>, usize), ModuleError>(
                ModuleError::Io,
            ),
        bytes@.len() == 0 ==> r == Err::<(String, Vec<u8>, Vec<u8>, usize), ModuleError>(ModuleError::Io),
        r matches Err(e) ==> e == ModuleError::Io || e == ModuleError::IsaeNonUtf8,
{
    let n = bytes.len();
    proof {
        assert forall|i: Seq<char>, c: Seq<u8>, d: Seq<u8>|
            #![trigger enc_head(i, c, d)]
            is_prefix_at(bytes@, 0, enc_head(i, c, d)) implies is_prefix_at(bytes@, 0, enc_text(i))
                && is_prefix_at(bytes@, enc_text(i).len() as int, enc_word_bytes(c)) && is_prefix_at(
                bytes@,
                (enc_text(i).len() + enc_word_bytes(c).len()) as int,
                enc_word_bytes(d),
            ) by {
            lemma_prefix_split(bytes@, 0, enc_text(i) + enc_word_bytes(c), enc_word_bytes(d));
            lemma_prefix_split(bytes@, 0, enc_text(i), enc_word_bytes(c));
        }
    }
    let (isae, p1) = match get_text(bytes, 0) {
        Ok(x) => x,
        Err(ReadError::Eof) => {
            return Err(ModuleError::Io);
        },
        Err(ReadError::NonUtf8(_)) => {
            return Err(ModuleError::IsaeNonUtf8);
        },
    };
    let (code, p2) = match get_word_bytes(bytes, p1) {
        Ok(x) => x,
        Err(_) => {
            return Err(ModuleError::Io);
        },
    };
    let (data, p3) = match get_word_bytes(bytes, p2) {
        Ok(x) => x,
        Err(_) => {
            return Err(ModuleError::Io);
        },
    };
    proof {
        lemma_prefix_join(bytes@, 0, enc_text(isae@), enc_word_bytes(code@));
        lemma_prefix_join(bytes@, 0, enc_text(isae@) + enc_word_bytes(code@), enc_word_bytes(data@));
    }
    Ok((isae, code, data, p3))
}

/// Relies on aluvm's `ISAE_SEGMENT_MAX_LEN`, the longest ISA extensions text.
#[verifier::external_body]
fn isae_segment_max_len() -> (r: usize)
    ensures
        r == 255,
{
    aluvm::libs::constants::ISAE_SEGMENT_MAX_LEN
}

/// Variables that can be encoded and read back as they were.
pub open spec fn vars_ok(vs: Seq<(Seq<char>, DataTypeV)>) -> bool {
    forall|a: int| 0 <= a < vs.len() ==> variable_valid(#[trigger] vs[a]) && data_type_fits(vs[a].1)
}

proof fn lemma_vars_take_prefix(bytes: Seq<u8>, pos: int, vs: Seq<(Seq<char>, DataTypeV)>, i: int)
    requires
        is_prefix_at(bytes, pos, enc_vars(vs)),
        0 <= i <= vs.len(),
    ensures
        is_prefix_at(bytes, pos, enc_vars(vs.take(i))),
    decreases vs.len(),
{
    if i < vs.len() {
        lemma_prefix_split(bytes, pos, enc_vars(vs.drop_last()), enc_variable(vs.last()));
        assert(vs.drop_last().take(i) =~= vs.take(i));
        lemma_vars_take_prefix(bytes, pos, vs.drop_last(), i);
    } else {
        assert(vs.take(i) =~= vs);
    }
}

/// Reads the variables at `pos`: a word count, then each variable.
fn decode_vars(bytes: &[u8], pos: usize) -> (r: Result<(Vec<Variable>, usize), ModuleError>)
    ensures
        r matches Ok((v, p)) ==> v@.len() <= 65535 && vars_ok(vars_view(v@)) && is_prefix_at(
            bytes@,
            pos as int,
            le16(v@.len() as u16) + enc_vars(vars_view(v@)),
        ) && p == pos + 2 + enc_vars(vars_view(v@)).len(),
        forall|vs: Seq<(Seq<char>, DataTypeV)>|
            #![trigger enc_vars(vs)]
            vs.len() <= 65535 && vars_ok(vs) && is_prefix_at(
                bytes@,
                pos as int,
                le16(vs.len() as u16) + enc_vars(vs),
            ) ==> (r matches Ok((v, p)) && vars_view(v@) == vs && p == pos + 2 + enc_vars(vs).len()),
        r matches Err(e) ==> e == ModuleError::Io || e is VarNonUtf8 || e is VarWrongLayout || e is VarWrongFloatType || e is VarWrongDefaultFlag,
{
    let n = bytes.len();
    let (nv, p9) = match get_u16(bytes, pos) {
        Ok(x) => x,
        Err(_) => {
            return Err(ModuleError::Io);
        },
    };
    proof {
        assert(bytes@.subrange(pos as int, p9 as int) =~= le16(nv)) by {
            assert(bytes@[pos as int] == (nv % 256) as u8) by (nonlinear_arith)
                requires nv == (bytes@[pos as int] + 256 * bytes@[pos + 1]) as u16, bytes@[pos as int] < 256, bytes@[pos + 1] < 256;
            assert(bytes@[pos + 1] == (nv / 256) as u8) by (nonlinear_arith)
                requires nv == (bytes@[pos as int] + 256 * bytes@[pos + 1]) as u16, bytes@[pos as int] < 256, bytes@[pos + 1] < 256;
        }
        assert forall|vs: Seq<(Seq<char>, DataTypeV)>|
            #![trigger enc_vars(vs)]
            vs.len() <= 65535 && is_prefix_at(bytes@, pos as int, le16(vs.len() as u16) + enc_vars(vs))
            implies vs.len() == nv && is_prefix_at(bytes@, p9 as int, enc_vars(vs)) by {
            lemma_prefix_split(bytes@, pos as int, le16(vs.len() as u16), enc_vars(vs));
            assert(bytes@[pos as int] == le16(vs.len() as u16)[0]);
            assert(bytes@[pos + 1] == le16(vs.len() as u16)[1]);
            lemma_word_round_trip(vs.len() as u16);
        }
    }
    let mut vars: Vec<Variable> = Vec::new();
    let mut p = p9;
    let mut i: usize = 0;
    assert(bytes@.subrange(p9 as int, p as int) =~= enc_vars(vars_view(vars@)));
    proof {
        assert forall|vs: Seq<(Seq<char>, DataTypeV)>|
            #![trigger enc_vars(vs)]
            vs.len() == nv && vars_ok(vs) && is_prefix_at(bytes@, p9 as int, enc_vars(vs))
            implies vars_view(vars@) == vs.take(0) && p == p9 + enc_vars(vs.take(0)).len() by {
            assert(vars_view(vars@) =~= vs.take(0));
        }
    }
    while i < nv as usize
        invariant
            n == bytes@.len(),
            p9 <= p <= n,
            vars@.len() == i,
            i <= nv,
            vars_ok(vars_view(vars@)),
            bytes@.subrange(p9 as int, p as int) == enc_vars(vars_view(vars@)),
            forall|vs: Seq<(Seq<char>, DataTypeV)>|
                #![trigger enc_vars(vs)]
                vs.len() <= 65535 && is_prefix_at(bytes@, pos as int, le16(vs.len() as u16) + enc_vars(vs))
                    ==> vs.len() == nv && is_prefix_at(bytes@, p9 as int, enc_vars(vs)),
            forall|vs: Seq<(Seq<char>, DataTypeV)>|
                #![trigger enc_vars(vs)]
                vs.len() == nv && vars_ok(vs) && is_prefix_at(bytes@, p9 as int, enc_vars(vs))
                    ==> vars_view(vars@) == vs.take(i as int) && p == p9 + enc_vars(vs.take(i as int)).len(),
        decreases nv - i,
    {
        proof {
            assert forall|vs: Seq<(Seq<char>, DataTypeV)>|
                #![trigger enc_vars(vs)]
                vs.len() == nv && vars_ok(vs) && is_prefix_at(bytes@, p9 as int, enc_vars(vs))
                implies is_prefix_at(bytes@, p as int, enc_variable(vs[i as int])) && variable_valid(vs[i as int])
                    && data_type_fits(vs[i as int].1) by {
                lemma_vars_take_prefix(bytes@, p9 as int, vs, i + 1);
                assert(vs.take(i + 1).drop_last() =~= vs.take(i as int));
                lemma_prefix_split(bytes@, p9 as int, enc_vars(vs.take(i as int)), enc_variable(vs[i as int]));
            }
        }
        let (v, q) = match Variable::decode(bytes, p) {
            Ok(x) => x,
            Err(e) => {
                proof {
                    assert forall|vs: Seq<(Seq<char>, DataTypeV)>|
                        #![trigger enc_vars(vs)]
                        vs.len() == nv && vars_ok(vs) && is_prefix_at(bytes@, p9 as int, enc_vars(vs))
                        implies false by {
                        assert(enc_variable(vs[i as int]) == enc_variable(vs[i as int]));
                    }
                }
                return Err(e);
            },
        };
        let ghost old_vars = vars@;
        vars.push(v);
        proof {
            assert(vars_view(vars@).drop_last() =~= vars_view(old_vars));
            assert(vars_view(vars@) =~= vars_view(old_vars).push(v@));
            assert(bytes@.subrange(p9 as int, q as int) =~= bytes@.subrange(p9 as int, p as int)
                + bytes@.subrange(p as int, q as int));
            assert forall|vs: Seq<(Seq<char>, DataTypeV)>|
                #![trigger enc_vars(vs)]
                vs.len() == nv && vars_ok(vs) && is_prefix_at(bytes@, p9 as int, enc_vars(vs))
                implies vars_view(vars@) == vs.take(i + 1) && q == p9 + enc_vars(vs.take(i + 1)).len() by {
                assert(vs.take(i + 1).drop_last() =~= vs.take(i as int));
                assert(vs.take(i + 1) =~= vs.take(i as int).push(vs[i as int]));
            }
        }
        p = q;
        i = i + 1;
    }
    proof {
        assert(bytes@.subrange(pos as int, p as int) =~= bytes@.subrange(pos as int, p9 as int) + bytes@.subrange(p9 as int, p as int));
        assert forall|vs: Seq<(Seq<char>, DataTypeV)>|
            #![trigger enc_vars(vs)]
            vs.len() == nv && vars_ok(vs) && is_prefix_at(bytes@, p9 as int, enc_vars(vs))
            implies vars_view(vars@) == vs by {
            assert(vs.take(i as int) =~= vs);
        }
    }
    Ok((vars, p))
}

/// A module that can be encoded and read back as it was.
#[verifier::opaque]
pub open spec fn module_ok(m: Module) -> bool {
    &&& table_wf(m.imports@)
    &&& module_fits(m)
    &&& vars_ok(vars_view(m.vars@))
}

/// Two modules hold the same values, field by field.
pub open spec fn same_module(a: Module, b: Module) -> bool {
    &&& a.isae@ == b.isae@
    &&& a.code@ == b.code@
    &&& a.data@ == b.data@
    &&& libs_view(a.libs@) == libs_view(b.libs@)
    &&& a.imports@ == b.imports@
    &&& exports_view(a.exports@) == exports_view(b.exports@)
    &&& vars_view(a.vars@) == vars_view(b.vars@)
}

/// Where each field of a valid module stands in `bytes` that begin with its
/// encoding, and the facts on it that the field readers need.
pub open spec fn module_pieces(bytes: Seq<u8>, m: Module) -> bool {
    &&& ({
                let h = enc_head(m.isae@, m.code@, m.data@);
                let de = seq![m.libs@.len() as u8] + enc_lib_ids(libs_view(m.libs@));
                let f = enc_table(m.imports@);
                let gh = le16(m.exports@.len() as u16) + enc_exports(exports_view(m.exports@));
                &&& is_prefix_at(bytes, 0, h)
                &&& is_prefix_at(bytes, h.len() as int, de)
                &&& is_prefix_at(bytes, (h.len() + de.len()) as int, f)
                &&& is_prefix_at(bytes, (h.len() + de.len() + f.len()) as int, gh)
                &&& is_prefix_at(
                    bytes,
                    (h.len() + de.len() + f.len() + gh.len()) as int,
                    le16(m.vars@.len() as u16) + enc_vars(vars_view(m.vars@)),
                )
            })
    &&& encode_utf8(m.isae@).len() <= 255
    &&& m.code@.len() <= 65535
    &&& m.data@.len() <= 65535
    &&& table_wf(m.imports@)
    &&& table_fits(m.imports@)
    &&& vars_ok(vars_view(m.vars@))
    &&& libs_view(m.libs@).len() <= 255
    &&& lib_ids_ok(libs_view(m.libs@))
    &&& exports_ok(exports_view(m.exports@))
    &&& ids_increasing(libs_view(m.libs@))
    &&& names_increasing(exports_view(m.exports@))
    &&& exports_view(m.exports@).len() <= 65535
    &&& vars_view(m.vars@).len() <= 65535
}

proof fn lemma_module_pieces(bytes: Seq<u8>, m: Module)
    requires
        module_ok(m),
        is_prefix_at(bytes, 0, enc_module(m)),
    ensures
        module_pieces(bytes, m),
{
    reveal(enc_module);
    reveal(module_ok);
    let h = enc_head(m.isae@, m.code@, m.data@);
    let de = seq![m.libs@.len() as u8] + enc_lib_ids(libs_view(m.libs@));
    let f = enc_table(m.imports@);
    let gh = le16(m.exports@.len() as u16) + enc_exports(exports_view(m.exports@));
    let ij = le16(m.vars@.len() as u16) + enc_vars(vars_view(m.vars@));
    assert(enc_module(m) =~= h + de + f + gh + ij);
    lemma_prefix_split(bytes, 0, h + de + f + gh, ij);
    lemma_prefix_split(bytes, 0, h + de + f, gh);
    lemma_prefix_split(bytes, 0, h + de, f);
    lemma_prefix_split(bytes, 0, h, de);
    assert forall|i: int| 0 <= i < libs_view(m.libs@).len() implies (#[trigger] libs_view(m.libs@)[i]).len() == 32 by {
        assert(libs_view(m.libs@)[i] == m.libs@[i]@);
    }
    assert forall|i: int| 0 <= i < exports_view(m.exports@).len() implies encode_utf8((#[trigger] exports_view(m.exports@)[i]).0).len() <= 255 by {
        assert(exports_view(m.exports@)[i].0 == m.exports@[i].0@);
    }
}

impl Module {
    /// The module's bytes. Fails where a field does not fit its length prefix:
    /// with the text's length where the ISA extensions are too long, on too
    /// many libraries, and otherwise on the first field that is too long.
    pub fn encode(&self) -> (r: Result<Vec<u8>, ModuleError>)
        requires
            self.imports.wf(),
        ensures
            r is Ok <==> module_fits(*self),
            r matches Ok(b) ==> b@ == enc_module(*self),
            encode_utf8(self.isae@).len() > 255 ==> r == Err::<Vec<u8>, ModuleError>(
                ModuleError::IsaeLengthLimExceeded(encode_utf8(self.isae@).len() as usize),
            ),
            r matches Err(e) ==> (e is IsaeLengthLimExceeded || e is LibCountLimExceeded
                || e is FieldLengthExceeded || e is LibsUnordered || e is ExportsUnordered),
            r == Err::<Vec<u8>, ModuleError>(ModuleError::LibsUnordered) ==> !ids_increasing(
                libs_view(self.libs@),
            ),
            r == Err::<Vec<u8>, ModuleError>(ModuleError::ExportsUnordered) ==> !names_increasing(
                exports_view(self.exports@),
            ),
            r matches Err(ModuleError::LibCountLimExceeded) ==> self.libs@.len() > 255,
    {
        let isae_len = self.isae.as_str().as_bytes().len();
        if isae_len > isae_segment_max_len() {
            return Err(ModuleError::IsaeLengthLimExceeded(isae_len));
        }
        let mut out: Vec<u8> = Vec::new();
        if !put_text(&mut out, &self.isae) {
            return Err(ModuleError::FieldLengthExceeded);
        }
        if !put_word_bytes(&mut out, self.code.as_slice()) {
            return Err(ModuleError::FieldLengthExceeded);
        }
        if !put_word_bytes(&mut out, self.data.as_slice()) {
            return Err(ModuleError::FieldLengthExceeded);
        }
        let nl = self.libs.len();
        if nl > 255 {
            return Err(ModuleError::LibCountLimExceeded);
        }
        put_u8(&mut out, nl as u8);
        let ghost s1 = out@;
        let mut i: usize = 0;
        assert(libs_view(self.libs@).take(0) =~= Seq::<Seq<u8>>::empty());
        while i < nl
            invariant
                nl == self.libs@.len(),
                encode_utf8(self.isae@).len() <= 255,
                0 <= i <= nl,
                ids_increasing(libs_view(self.libs@).take(i as int)),
                out@ == s1 + enc_lib_ids(libs_view(self.libs@).take(i as int)),
            decreases nl - i,
        {
            if i > 0 && !lex_less(self.libs[i - 1].0.as_slice(), self.libs[i].0.as_slice()) {
                proof {
                    assert(libs_view(self.libs@)[i - 1] == self.libs@[i - 1]@);
                    assert(libs_view(self.libs@)[i as int] == self.libs@[i as int]@);
                }
                return Err(ModuleError::LibsUnordered);
            }
            proof {
                let lv = libs_view(self.libs@);
                assert forall|a: int, b: int| 0 <= a < b < i + 1 implies #[trigger] lex_lt(lv.take(i + 1)[a], lv.take(i + 1)[b]) by {
                    if b == i && a < i - 1 {
                        assert(lv.take(i as int)[a] == lv[a]);
                        assert(lv.take(i as int)[i - 1] == lv[i - 1]);
                        lemma_lex_transitive(lv[a], lv[i - 1], lv[i as int]);
                    } else if b < i {
                        assert(lv.take(i as int)[a] == lv[a]);
                        assert(lv.take(i as int)[b] == lv[b]);
                    }
                }
            }
            put_bytes(&mut out, self.libs[i].0.as_slice());
            i = i + 1;
            assert(libs_view(self.libs@).take(i as int).drop_last() =~= libs_view(self.libs@).take(i - 1));
            assert(out@ =~= s1 + enc_lib_ids(libs_view(self.libs@).take(i as int)));
        }
        assert(libs_view(self.libs@).take(i as int) =~= libs_view(self.libs@));
        assert(ids_increasing(libs_view(self.libs@)));
        if !self.imports.encode(&mut out) {
            return Err(ModuleError::FieldLengthExceeded);
        }
        let ne = self.exports.len();
        if ne > 65535 {
            return Err(ModuleError::FieldLengthExceeded);
        }
        put_u16(&mut out, ne as u16);
        let ghost s2 = out@;
        i = 0;
        assert(exports_view(self.exports@).take(0) =~= Seq::<(Seq<char>, u16)>::empty());
        while i < ne
            invariant
                ne == self.exports@.len(),
                encode_utf8(self.isae@).len() <= 255,
                ids_increasing(libs_view(self.libs@)),
                0 <= i <= ne,
                names_increasing(exports_view(self.exports@).take(i as int)),
                forall|a: int| 0 <= a < i ==> encode_utf8((#[trigger] self.exports@[a]).0@).len() <= 255,
                out@ == s2 + enc_exports(exports_view(self.exports@).take(i as int)),
            decreases ne - i,
        {
            let e = &self.exports[i];
            if i > 0 && !lex_less(self.exports[i - 1].0.as_str().as_bytes(), e.0.as_str().as_bytes()) {
                proof {
                    assert(exports_view(self.exports@)[i - 1].0 == self.exports@[i - 1].0@);
                    assert(exports_view(self.exports@)[i as int].0 == e.0@);
                }
                return Err(ModuleError::ExportsUnordered);
            }
            proof {
                let ev = exports_view(self.exports@);
                assert(ev[i as int].0 == e.0@);
                if i > 0 {
                    assert(ev[i - 1].0 == self.exports@[i - 1].0@);
                }
                assert forall|a: int, b: int| 0 <= a < b < i + 1 implies #[trigger] lex_lt(
                    encode_utf8(ev.take(i + 1)[a].0),
                    encode_utf8(ev.take(i + 1)[b].0),
                ) by {
                    if b == i && a < i - 1 {
                        assert(ev.take(i as int)[a] == ev[a]);
                        assert(ev.take(i as int)[i - 1] == ev[i - 1]);
                        lemma_lex_transitive(encode_utf8(ev[a].0), encode_utf8(ev[i - 1].0), encode_utf8(ev[i as int].0));
                    } else if b < i {
                        assert(ev.take(i as int)[a] == ev[a]);
                        assert(ev.take(i as int)[b] == ev[b]);
                    }
                }
            }
            if !put_text(&mut out, &e.0) {
                return Err(ModuleError::FieldLengthExceeded);
            }
            put_u16(&mut out, e.1);
            i = i + 1;
            assert(exports_view(self.exports@).take(i as int).drop_last() =~= exports_view(self.exports@).take(i - 1));
            assert(out@ =~= s2 + enc_exports(exports_view(self.exports@).take(i as int)));
        }
        assert(exports_view(self.exports@).take(i as int) =~= exports_view(self.exports@));
        assert(names_increasing(exports_view(self.exports@)));
        let nv = self.vars.len();
        if nv > 65535 {
            return Err(ModuleError::FieldLengthExceeded);
        }
        put_u16(&mut out, nv as u16);
        let ghost s3 = out@;
        i = 0;
        assert(vars_view(self.vars@).take(0) =~= Seq::<(Seq<char>, DataTypeV)>::empty());
        while i < nv
            invariant
                nv == self.vars@.len(),
                encode_utf8(self.isae@).len() <= 255,
                ids_increasing(libs_view(self.libs@)),
                names_increasing(exports_view(self.exports@)),
                0 <= i <= nv,
                forall|a: int| 0 <= a < i ==> encode_utf8((#[trigger] self.vars@[a]).info@).len() <= 255
                    && data_type_fits(self.vars@[a].data@),
                out@ == s3 + enc_vars(vars_view(self.vars@).take(i as int)),
            decreases nv - i,
        {
            if !self.vars[i].encode(&mut out) {
                return Err(ModuleError::FieldLengthExceeded);
            }
            i = i + 1;
            assert(vars_view(self.vars@).take(i as int).drop_last() =~= vars_view(self.vars@).take(i - 1));
            assert(out@ =~= s3 + enc_vars(vars_view(self.vars@).take(i as int)));
        }
        assert(vars_view(self.vars@).take(i as int) =~= vars_view(self.vars@));
        reveal(enc_module);
        assert(out@ =~= enc_module(*self));
        Ok(out)
    }

    /// Reads a module from the start of `bytes`; no module comes back unless
    /// every field was read and checked.
    #[verifier::rlimit(100)]
    pub fn decode(bytes: &[u8]) -> (r: Result<Module, ModuleError>)
        ensures
            r matches Ok(m) ==> m.imports.wf() && module_ok(m) && is_prefix_at(bytes@, 0, enc_module(m)),
            forall|m: Module|
                #![trigger enc_module(m)]
                module_ok(m) && is_prefix_at(bytes@, 0, enc_module(m)) ==> (r matches Ok(x) && same_module(x, m)),
            forall|i: Seq<char>|
                #![trigger enc_text(i)]
                encode_utf8(i).len() <= 255 && is_prefix_at(bytes@, 0, enc_text(i)) && enc_text(i).len() + 2
                    <= bytes@.len() && enc_text(i).len() + 2 + word_of(
                    bytes@[enc_text(i).len() as int],
                    bytes@[(enc_text(i).len() + 1) as int],
                ) > bytes@.len() ==> r == Err::<Module, ModuleError>(ModuleError::Io),
            bytes@.len() == 0 ==> r == Err::<Module, ModuleError>(ModuleError::Io),
            r matches Err(e) ==> e == ModuleError::Io || e == ModuleError::IsaeNonUtf8 || e
                == ModuleError::LibsUnordered || e is RoutineNonUtf8 || e == ModuleError::ImportsUnordered
                || e == ModuleError::Imports(CallTableError::TooManyRoutines) || e is ExternalNonUtf8 || e
                == ModuleError::ExportsUnordered || e is VarNonUtf8 || e is VarWrongLayout
                || e is VarWrongFloatType || e is VarWrongDefaultFlag,
    {
        let n = bytes.len();
        proof {
            assert forall|m: Module|
                #![trigger enc_module(m)]
                module_ok(m) && is_prefix_at(bytes@, 0, enc_module(m)) implies module_pieces(bytes@, m) by {
                lemma_module_pieces(bytes@, m);
            }
        }
        let (isae, code, data, p3) = match decode_head(bytes) {
            Ok(x) => x,
            Err(e) => {
                return Err(e);
            },
        };
        proof {
            assert forall|m: Module| #![trigger enc_module(m)] module_ok(m) && is_prefix_at(bytes@, 0, enc_module(m)) implies isae@ == m.isae@ && code@ == m.code@ && data@ == m.data@ && p3 == enc_head(m.isae@, m.code@, m.data@).len() by {}
        }
        let (libs, p5) = match decode_libs(bytes, p3) {
            Ok(x) => x,
            Err(e) => {
                return Err(e);
            },
        };
        proof {
            assert forall|m: Module| #![trigger enc_module(m)] module_ok(m) && is_prefix_at(bytes@, 0, enc_module(m)) implies libs_view(libs@) == libs_view(m.libs@) && p5 == p3 + 1 + enc_lib_ids(libs_view(m.libs@)).len() by {}
        }
        let (imports, p6) = match CallTable::decode(bytes, p5) {
            Ok(x) => x,
            Err(e) => {
                return Err(e);
            },
        };
        proof {
            imports.lemma_wf();
            assert forall|m: Module| #![trigger enc_module(m)] module_ok(m) && is_prefix_at(bytes@, 0, enc_module(m)) implies imports@ == m.imports@ && p6 == p5 + enc_table(m.imports@).len() by {}
        }
        let (exports, p8) = match decode_exports(bytes, p6) {
            Ok(x) => x,
            Err(e) => {
                return Err(e);
            },
        };
        proof {
            assert forall|m: Module| #![trigger enc_module(m)] module_ok(m) && is_prefix_at(bytes@, 0, enc_module(m)) implies exports_view(exports@) == exports_view(m.exports@) && p8 == p6 + 2 + enc_exports(exports_view(m.exports@)).len() by {}
        }
        let (vars, p) = match decode_vars(bytes, p8) {
            Ok(x) => x,
            Err(e) => {
                return Err(e);
            },
        };
        proof {
            assert forall|m: Module| #![trigger enc_module(m)] module_ok(m) && is_prefix_at(bytes@, 0, enc_module(m)) implies vars_view(vars@) == vars_view(m.vars@) by {}
            assert forall|i: int| 0 <= i < exports@.len() implies encode_utf8((#[trigger] exports@[i]).0@).len() <= 255 by {
                assert(exports_view(exports@)[i] == (exports@[i].0@, exports@[i].1));
            }
            assert forall|i: int| 0 <= i < vars@.len() implies encode_utf8((#[trigger] vars@[i]).info@).len() <= 255
                && data_type_fits(vars@[i].data@) by {
                assert(vars_view(vars@)[i] == vars@[i]@);
            }
        }
        let m = Module { isae, code, data, libs, vars, imports, exports };
        proof {
            let h = enc_head(m.isae@, m.code@, m.data@);
            let de = seq![m.libs@.len() as u8] + enc_lib_ids(libs_view(m.libs@));
            let f = enc_table(m.imports@);
            let gh = le16(m.exports@.len() as u16) + enc_exports(exports_view(m.exports@));
            let ij = le16(m.vars@.len() as u16) + enc_vars(vars_view(m.vars@));
            lemma_prefix_join(bytes@, 0, h, de);
            lemma_prefix_join(bytes@, 0, h + de, f);
            lemma_prefix_join(bytes@, 0, h + de + f, gh);
            lemma_prefix_join(bytes@, 0, h + de + f + gh, ij);
            reveal(enc_module);
            reveal(module_ok);
            assert(enc_module(m) =~= h + de + f + gh + ij);
        }
        Ok(m)
    }
}

} // verus!
