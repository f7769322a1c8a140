//! The call table: external routine calls resolved to stable indices,
//! deduplicated per library, under the machine's capacity limits.

use vstd::prelude::*;
use vstd::utf8::{encode_utf8, valid_utf8};

use crate::codec::{
    enc_text, get_text, get_u16, get_u8, is_prefix_at, le16, lemma_le16_of_word, lemma_prefix_split,
    lemma_word_at, put_bytes, put_text, put_u16, put_u8, ReadError,
};
use crate::error::ModuleError;
use crate::libid::{
    lemma_lex_asymmetric, lemma_lex_irreflexive, lemma_lex_total, lemma_lex_transitive, lex_lt, LibId,
};

verus! {

/// Largest number of distinct (library, routine) entries: call indices are 16-bit.
pub const ROUTINES_MAX_COUNT: usize = 65535;

/// Largest number of libraries a module may reference.
pub const LIBS_MAX_COUNT: usize = 256;

/// Relies on aluvm's `LIBS_SEGMENT_MAX_COUNT`, the capacity of a library segment.
#[verifier::external_body]
fn libs_segment_max_count() -> (r: usize)
    ensures
        r == LIBS_MAX_COUNT,
{
    aluvm::libs::constants::LIBS_SEGMENT_MAX_COUNT
}

/// Failures of call table operations.
#[derive(Clone, Debug, PartialEq, Eq, Hash, PartialOrd, Ord)]
pub enum CallTableError {
    /// The library is not referenced at all.
    LibNotFound(LibId),
    /// The library has no call table entries.
    LibTableNotFound(LibId),
    /// The routine position is out of range for the library.
    RoutineNotFound(LibId, u16),
    /// The 16-bit index space of external routines is exhausted.
    TooManyRoutines,
    /// The library segment capacity would be exceeded.
    TooManyLibs,
}

/// A call site: a library and the position of a routine in its call table.
#[derive(Clone, Copy, Debug, PartialEq, Eq, Hash, PartialOrd, Ord)]
pub struct LibSite {
    pub lib: LibId,
    pub pos: u16,
}

/// One external routine and the code offsets that call it.
#[derive(Clone, Debug, PartialEq, Eq, Hash, PartialOrd, Ord)]
pub struct CallRef {
    pub routine: String,
    /// Call-site offsets, strictly increasing.
    pub sites: Vec<u16>,
}

/// Abstract call reference: routine name and call sites.
pub type CallRefV = (Seq<char>, Seq<u16>);

/// Abstract call table: libraries with their call references, in table order.
pub type TableV = Seq<(Seq<u8>, Seq<CallRefV>)>;

impl View for CallRef {
    type V = CallRefV;

    open spec fn view(&self) -> CallRefV {
        (self.routine@, self.sites@)
    }
}

pub open spec fn sites_sorted(s: Seq<u16>) -> bool {
    forall|i: int, j: int| 0 <= i < j < s.len() ==> s[i] < s[j]
}

pub open spec fn names_distinct(refs: Seq<CallRefV>) -> bool {
    forall|i: int, j: int| 0 <= i < j < refs.len() ==> refs[i].0 != refs[j].0
}

pub open spec fn libs_sorted(t: TableV) -> bool {
    forall|i: int, j: int| 0 <= i < j < t.len() ==> lex_lt(t[i].0, t[j].0)
}

/// Number of (library, routine) entries in a table.
pub open spec fn total_calls(t: TableV) -> nat
    decreases t.len(),
{
    if t.len() == 0 {
        0
    } else {
        total_calls(t.drop_last()) + t.last().1.len()
    }
}

/// Invariants of a call table.
pub open spec fn table_wf(t: TableV) -> bool {
    &&& libs_sorted(t)
    &&& t.len() <= LIBS_MAX_COUNT
    &&& total_calls(t) <= ROUTINES_MAX_COUNT
    &&& forall|i: int| 0 <= i < t.len() ==> (#[trigger] t[i]).0.len() == 32
    &&& forall|i: int| 0 <= i < t.len() ==> names_distinct((#[trigger] t[i]).1)
    &&& forall|i: int, k: int|
        0 <= i < t.len() && 0 <= k < t[i].1.len() ==> sites_sorted((#[trigger] t[i].1[k]).1)
}

pub open spec fn has_lib(t: TableV, lib: Seq<u8>) -> bool {
    exists|i: int| 0 <= i < t.len() && t[i].0 == lib
}

pub open spec fn lib_index(t: TableV, lib: Seq<u8>) -> int {
    choose|i: int| 0 <= i < t.len() && t[i].0 == lib
}

/// The call references of a library; empty where the table has none.
pub open spec fn refs_of(t: TableV, lib: Seq<u8>) -> Seq<CallRefV> {
    if has_lib(t, lib) {
        t[lib_index(t, lib)].1
    } else {
        seq![]
    }
}

pub open spec fn has_call(refs: Seq<CallRefV>, name: Seq<char>) -> bool {
    exists|k: int| 0 <= k < refs.len() && refs[k].0 == name
}

pub open spec fn call_index(refs: Seq<CallRefV>, name: Seq<char>) -> int {
    choose|k: int| 0 <= k < refs.len() && refs[k].0 == name
}

/// Where a library not in the table goes so that the order by identifier is kept.
pub open spec fn is_insert_pos(t: TableV, lib: Seq<u8>, i: int) -> bool {
    &&& 0 <= i <= t.len()
    &&& forall|j: int| 0 <= j < i ==> lex_lt(#[trigger] t[j].0, lib)
    &&& forall|j: int| i <= j < t.len() ==> lex_lt(lib, #[trigger] t[j].0)
}

pub open spec fn insert_pos(t: TableV, lib: Seq<u8>) -> int {
    choose|i: int| is_insert_pos(t, lib, i)
}

/// The table after a successful lookup-or-insert of `name` under `lib`.
pub open spec fn after_insert(t: TableV, lib: Seq<u8>, name: Seq<char>) -> TableV {
    if has_lib(t, lib) {
        let i = lib_index(t, lib);
        if has_call(t[i].1, name) {
            t
        } else {
            t.update(i, (lib, t[i].1.push((name, Seq::<u16>::empty()))))
        }
    } else {
        t.insert(insert_pos(t, lib), (lib, seq![(name, Seq::<u16>::empty())]))
    }
}

/// Routine names of all libraries, library by library, each in insertion order.
pub open spec fn flat_names(t: TableV) -> Seq<Seq<char>>
    decreases t.len(),
{
    if t.len() == 0 {
        seq![]
    } else {
        flat_names(t.drop_last()) + t.last().1.map_values(|c: CallRefV| c.0)
    }
}

/// Full call references of all libraries, in the order of `flat_names`.
pub open spec fn flat_calls(t: TableV) -> Seq<(Seq<u8>, Seq<char>, Seq<u16>)>
    decreases t.len(),
{
    if t.len() == 0 {
        seq![]
    } else {
        flat_calls(t.drop_last()) + t.last().1.map_values(
            |c: CallRefV| (t.last().0, c.0, c.1),
        )
    }
}

proof fn lemma_total_update(t: TableV, i: int, e: (Seq<u8>, Seq<CallRefV>))
    requires
        0 <= i < t.len(),
    ensures
        total_calls(t.update(i, e)) + t[i].1.len() == total_calls(t) + e.1.len(),
    decreases t.len(),
{
    let u = t.update(i, e);
    if i == t.len() - 1 {
        assert(u.drop_last() =~= t.drop_last());
    } else {
        assert(u.drop_last() =~= t.drop_last().update(i, e));
        lemma_total_update(t.drop_last(), i, e);
    }
}

proof fn lemma_total_insert(t: TableV, i: int, e: (Seq<u8>, Seq<CallRefV>))
    requires
        0 <= i <= t.len(),
    ensures
        total_calls(t.insert(i, e)) == total_calls(t) + e.1.len(),
    decreases t.len(),
{
    let u = t.insert(i, e);
    if i == t.len() {
        assert(u.drop_last() =~= t);
    } else {
        assert(u.drop_last() =~= t.drop_last().insert(i, e));
        lemma_total_insert(t.drop_last(), i, e);
    }
}

proof fn lemma_total_ge(t: TableV, i: int)
    requires
        0 <= i < t.len(),
    ensures
        t[i].1.len() <= total_calls(t),
    decreases t.len(),
{
    if i < t.len() - 1 {
        lemma_total_ge(t.drop_last(), i);
    }
}

proof fn lemma_lib_index(t: TableV, i: int)
    requires
        libs_sorted(t),
        0 <= i < t.len(),
    ensures
        has_lib(t, t[i].0),
        lib_index(t, t[i].0) == i,
        refs_of(t, t[i].0) == t[i].1,
{
    let j = lib_index(t, t[i].0);
    if j < i {
        lemma_lex_irreflexive(t[i].0);
    } else if j > i {
        lemma_lex_irreflexive(t[i].0);
    }
}

proof fn lemma_call_index(refs: Seq<CallRefV>, k: int)
    requires
        names_distinct(refs),
        0 <= k < refs.len(),
    ensures
        has_call(refs, refs[k].0),
        call_index(refs, refs[k].0) == k,
{
    let j = call_index(refs, refs[k].0);
}

pub proof fn lemma_insert_pos(t: TableV, lib: Seq<u8>, i: int)
    requires
        is_insert_pos(t, lib, i),
    ensures
        insert_pos(t, lib) == i,
{
    let p = insert_pos(t, lib);
    if p < i {
        lemma_lex_asymmetric(t[p].0, lib);
    } else if p > i {
        lemma_lex_asymmetric(t[i].0, lib);
    }
}

/// `new` is `old` with `offset` added, kept strictly increasing.
pub open spec fn site_added(old: Seq<u16>, new: Seq<u16>, offset: u16) -> bool {
    &&& sites_sorted(new)
    &&& forall|x: u16| new.contains(x) <==> (old.contains(x) || x == offset)
}

/// The table with the call sites of entry `p` of library entry `li` replaced.
pub open spec fn with_sites(t: TableV, li: int, p: int, sites: Seq<u16>) -> TableV {
    t.update(li, (t[li].0, t[li].1.update(p, (t[li].1[p].0, sites))))
}

proof fn lemma_flat_names_step(t: TableV, i: int)
    requires
        0 <= i < t.len(),
    ensures
        flat_names(t.take(i + 1)) == flat_names(t.take(i)) + t[i].1.map_values(|c: CallRefV| c.0),
{
    assert(t.take(i + 1).drop_last() =~= t.take(i));
}

proof fn lemma_flat_calls_step(t: TableV, i: int)
    requires
        0 <= i < t.len(),
    ensures
        flat_calls(t.take(i + 1)) == flat_calls(t.take(i)) + t[i].1.map_values(
            |c: CallRefV| (t[i].0, c.0, c.1),
        ),
{
    assert(t.take(i + 1).drop_last() =~= t.take(i));
}

/// Adds `offset` to a strictly increasing sequence of call sites.
fn add_site(sites: &mut Vec<u16>, offset: u16)
    requires
        sites_sorted(old(sites)@),
    ensures
        site_added(old(sites)@, final(sites)@, offset),
{
    let n = sites.len();
    let mut k: usize = 0;
    while k < n && sites[k] < offset
        invariant
            n == sites.len(),
            0 <= k <= n,
            sites_sorted(sites@),
            forall|q: int| 0 <= q < k ==> sites@[q] < offset,
        decreases n - k,
    {
        k = k + 1;
    }
    if k < n && sites[k] == offset {
        assert(sites@.contains(offset));
        return;
    }
    let ghost s0 = sites@;
    sites.insert(k, offset);
    proof {
        assert forall|x: u16| sites@.contains(x) <==> (s0.contains(x) || x == offset) by {
            if sites@.contains(x) {
                let q = choose|q: int| 0 <= q < sites@.len() && sites@[q] == x;
                if q < k {
                    assert(s0[q] == x);
                } else if q > k {
                    assert(s0[q - 1] == x);
                }
            }
            if s0.contains(x) {
                let q = choose|q: int| 0 <= q < s0.len() && s0[q] == x;
                if q < k {
                    assert(sites@[q] == x);
                } else {
                    assert(sites@[q + 1] == x);
                }
            }
            if x == offset {
                assert(sites@[k as int] == x);
            }
        }
    }
}

/// Copies a sequence of call sites.
fn copy_sites(sites: &Vec<u16>) -> (r: Vec<u16>)
    ensures
        r@ == sites@,
{
    let mut r: Vec<u16> = Vec::new();
    let mut k: usize = 0;
    while k < sites.len()
        invariant
            0 <= k <= sites.len(),
            r@ == sites@.take(k as int),
        decreases sites.len() - k,
    {
        r.push(sites[k]);
        k = k + 1;
        assert(r@ =~= sites@.take(k as int));
    }
    assert(sites@.take(k as int) =~= sites@);
    r
}

proof fn lemma_insert_pos_exists(t: TableV, lib: Seq<u8>)
    requires
        libs_sorted(t),
        lib.len() == 32,
        forall|i: int| 0 <= i < t.len() ==> (#[trigger] t[i]).0.len() == 32,
        !has_lib(t, lib),
    ensures
        is_insert_pos(t, lib, insert_pos(t, lib)),
    decreases t.len(),
{
    if t.len() == 0 {
        assert(is_insert_pos(t, lib, 0));
    } else {
        let d = t.drop_last();
        let l = t.len() - 1;
        assert(!has_lib(d, lib)) by {
            if has_lib(d, lib) {
                let j = choose|j: int| 0 <= j < d.len() && d[j].0 == lib;
                assert(t[j].0 == lib);
            }
        }
        lemma_insert_pos_exists(d, lib);
        let p = insert_pos(d, lib);
        assert(t[l].0 != lib);
        lemma_lex_total(t[l].0, lib);
        if lex_lt(t[l].0, lib) {
            assert forall|j: int| 0 <= j < t.len() implies lex_lt(#[trigger] t[j].0, lib) by {
                if j < l {
                    lemma_lex_transitive(t[j].0, t[l].0, lib);
                }
            }
            assert(is_insert_pos(t, lib, t.len() as int));
        } else {
            assert(is_insert_pos(t, lib, p)) by {
                assert forall|j: int| 0 <= j < p implies lex_lt(#[trigger] t[j].0, lib) by {
                    assert(d[j] == t[j]);
                }
                assert forall|j: int| p <= j < t.len() implies lex_lt(lib, #[trigger] t[j].0) by {
                    if j < l {
                        assert(d[j] == t[j]);
                    }
                }
            }
        }
    }
}

/// Within any library of a well-formed table, no two call references share a
/// routine name; every table that `find_or_insert` leaves behind is well-formed.
pub proof fn lemma_no_duplicate_routines(table: &CallTable, lib: Seq<u8>)
    requires
        table.wf(),
    ensures
        names_distinct(refs_of(table@, lib)),
{
    if has_lib(table@, lib) {
        let i = lib_index(table@, lib);
    }
}

/// A routine keeps its index when any (library, routine) pair is looked up or
/// inserted: once `find_or_insert(lib, name)` has returned an index, every later
/// call with the same pair returns that same index.
pub proof fn lemma_call_index_stable(
    before: &CallTable,
    after: &CallTable,
    lib: Seq<u8>,
    name: Seq<char>,
    other_lib: Seq<u8>,
    other_name: Seq<char>,
)
    requires
        before.wf(),
        after.wf(),
        after@ == after_insert(before@, other_lib, other_name),
        has_call(refs_of(before@, lib), name),
        other_lib.len() == 32,
    ensures
        has_call(refs_of(after@, lib), name),
        call_index(refs_of(after@, lib), name) == call_index(refs_of(before@, lib), name),
{
    let t = before@;
    let u = after@;
    let li = lib_index(t, lib);
    let k = call_index(t[li].1, name);
    lemma_call_index(t[li].1, k);
    if has_lib(t, other_lib) {
        let oi = lib_index(t, other_lib);
        if !has_call(t[oi].1, other_name) {
            assert(u[oi].0 == t[oi].0);
            if oi == li {
                assert(u[li].1[k] == t[li].1[k]);
            } else {
                assert(u[li] == t[li]);
            }
            lemma_lib_index(u, li);
            lemma_call_index(u[li].1, k);
        }
    } else {
        lemma_insert_pos_exists(t, other_lib);
        let p = insert_pos(t, other_lib);
        let ni = if li < p { li } else { li + 1 };
        assert(u[ni] == t[li]);
        lemma_lib_index(u, ni);
        lemma_call_index(u[ni].1, k);
    }
}

/// Call sites, one word each.
pub open spec fn enc_sites(s: Seq<u16>) -> Seq<u8>
    decreases s.len(),
{
    if s.len() == 0 {
        seq![]
    } else {
        enc_sites(s.drop_last()) + le16(s.last())
    }
}

/// A call reference: routine name, word count of call sites, the sites.
pub open spec fn enc_call_ref(c: CallRefV) -> Seq<u8> {
    enc_text(c.0) + le16(c.1.len() as u16) + enc_sites(c.1)
}

pub open spec fn enc_call_refs(rs: Seq<CallRefV>) -> Seq<u8>
    decreases rs.len(),
{
    if rs.len() == 0 {
        seq![]
    } else {
        enc_call_refs(rs.drop_last()) + enc_call_ref(rs.last())
    }
}

/// One library: its 32 identifier bytes, word count of call references, the references.
pub open spec fn enc_lib_entry(e: (Seq<u8>, Seq<CallRefV>)) -> Seq<u8> {
    e.0 + le16(e.1.len() as u16) + enc_call_refs(e.1)
}

pub open spec fn enc_lib_entries(t: TableV) -> Seq<u8>
    decreases t.len(),
{
    if t.len() == 0 {
        seq![]
    } else {
        enc_lib_entries(t.drop_last()) + enc_lib_entry(t.last())
    }
}

/// A call table: one byte of library count, then each library.
pub open spec fn enc_table(t: TableV) -> Seq<u8> {
    seq![t.len() as u8] + enc_lib_entries(t)
}

/// Every count and name fits its length prefix.
pub open spec fn table_fits(t: TableV) -> bool {
    &&& t.len() <= 255
    &&& forall|i: int| 0 <= i < t.len() ==> (#[trigger] t[i]).1.len() <= 65535
    &&& forall|i: int, k: int|
        0 <= i < t.len() && 0 <= k < t[i].1.len() ==> encode_utf8((#[trigger] t[i].1[k]).0).len()
            <= 255 && t[i].1[k].1.len() <= 65535
}

proof fn lemma_sites_take_prefix(bytes: Seq<u8>, pos: int, ss: Seq<u16>, i: int)
    requires
        is_prefix_at(bytes, pos, enc_sites(ss)),
        0 <= i <= ss.len(),
    ensures
        is_prefix_at(bytes, pos, enc_sites(ss.take(i))),
    decreases ss.len(),
{
    if i < ss.len() {
        lemma_prefix_split(bytes, pos, enc_sites(ss.drop_last()), le16(ss.last()));
        assert(ss.drop_last().take(i) =~= ss.take(i));
        lemma_sites_take_prefix(bytes, pos, ss.drop_last(), i);
    } else {
        assert(ss.take(i) =~= ss);
    }
}

/// Reads `count` strictly increasing call sites at `pos`.
fn decode_sites(bytes: &[u8], pos: usize, count: u16) -> (r: Result<(Vec<u16>, usize), ModuleError>)
    ensures
        r matches Ok((v, p)) ==> v@.len() == count && sites_sorted(v@) && is_prefix_at(
            bytes@,
            pos as int,
            enc_sites(v@),
        ) && p == pos + enc_sites(v@).len(),
        forall|ss: Seq<u16>|
            #![trigger enc_sites(ss)]
            ss.len() == count && sites_sorted(ss) && is_prefix_at(bytes@, pos as int, enc_sites(ss))
                ==> (r matches Ok((v, p)) && v@ == ss && p == pos + enc_sites(ss).len()),
        r matches Err(e) ==> e == ModuleError::Io || e == ModuleError::ImportsUnordered,
{
    let n = bytes.len();
    if pos > n {
        return Err(ModuleError::Io);
    }
    let mut v: Vec<u16> = Vec::new();
    let mut p = pos;
    let mut k: u16 = 0;
    assert(bytes@.subrange(pos as int, pos as int) =~= enc_sites(v@));
    proof {
        assert forall|ss: Seq<u16>|
            #![trigger enc_sites(ss)]
            ss.len() == count && sites_sorted(ss) && is_prefix_at(bytes@, pos as int, enc_sites(ss))
            implies v@ == ss.take(0) && p == pos + enc_sites(ss.take(0)).len() by {
            assert(v@ =~= ss.take(0));
        }
    }
    while k < count
        invariant
            n == bytes@.len(),
            pos <= p <= n,
            v@.len() == k,
            k <= count,
            sites_sorted(v@),
            bytes@.subrange(pos as int, p as int) == enc_sites(v@),
            forall|ss: Seq<u16>|
                #![trigger enc_sites(ss)]
                ss.len() == count && sites_sorted(ss) && is_prefix_at(bytes@, pos as int, enc_sites(ss))
                    ==> v@ == ss.take(k as int) && p == pos + enc_sites(ss.take(k as int)).len(),
        decreases count - k,
    {
        proof {
            assert forall|ss: Seq<u16>|
                #![trigger enc_sites(ss)]
                ss.len() == count && sites_sorted(ss) && is_prefix_at(bytes@, pos as int, enc_sites(ss))
                implies is_prefix_at(bytes@, p as int, le16(ss[k as int])) by {
                lemma_sites_take_prefix(bytes@, pos as int, ss, k + 1);
                assert(ss.take(k + 1).drop_last() =~= ss.take(k as int));
                lemma_prefix_split(bytes@, pos as int, enc_sites(ss.take(k as int)), le16(ss[k as int]));
            }
        }
        let (x, q) = match get_u16(bytes, p) {
            Ok(y) => y,
            Err(_) => {
                return Err(ModuleError::Io);
            },
        };
        proof {
            assert forall|ss: Seq<u16>|
                #![trigger enc_sites(ss)]
                ss.len() == count && sites_sorted(ss) && is_prefix_at(bytes@, pos as int, enc_sites(ss))
                implies x == ss[k as int] by {
                lemma_word_at(bytes@, p as int, ss[k as int]);
            }
        }
        if k > 0 && v[(k - 1) as usize] >= x {
            proof {
                assert forall|ss: Seq<u16>|
                    #![trigger enc_sites(ss)]
                    ss.len() == count && sites_sorted(ss) && is_prefix_at(bytes@, pos as int, enc_sites(ss))
                    implies false by {
                    assert(v@[k - 1] == ss.take(k as int)[k - 1]);
                }
            }
            return Err(ModuleError::ImportsUnordered);
        }
        let ghost old_v = v@;
        v.push(x);
        proof {
            assert(v@.drop_last() =~= old_v);
            lemma_le16_of_word(bytes@, p as int, x);
            assert(bytes@.subrange(pos as int, q as int) =~= bytes@.subrange(pos as int, p as int) + bytes@.subrange(p as int, q as int));
            assert forall|ss: Seq<u16>|
                #![trigger enc_sites(ss)]
                ss.len() == count && sites_sorted(ss) && is_prefix_at(bytes@, pos as int, enc_sites(ss))
                implies v@ == ss.take(k + 1) && q == pos + enc_sites(ss.take(k + 1)).len() by {
                assert(ss.take(k + 1).drop_last() =~= ss.take(k as int));
                assert(ss.take(k + 1) =~= ss.take(k as int).push(ss[k as int]));
            }
        }
        p = q;
        k = k + 1;
    }
    proof {
        assert forall|ss: Seq<u16>|
            #![trigger enc_sites(ss)]
            ss.len() == count && sites_sorted(ss) && is_prefix_at(bytes@, pos as int, enc_sites(ss))
            implies v@ == ss by {
            assert(ss.take(k as int) =~= ss);
        }
    }
    Ok((v, p))
}

/// A call reference that can be encoded and read back as it was.
pub open spec fn call_ref_ok(c: CallRefV) -> bool {
    encode_utf8(c.0).len() <= 255 && c.1.len() <= 65535 && sites_sorted(c.1)
}

/// Reads one call reference at `pos`.
fn decode_call_ref(bytes: &[u8], pos: usize) -> (r: Result<(CallRef, usize), ModuleError>)
    ensures
        r matches Ok((c, p)) ==> call_ref_ok(c@) && is_prefix_at(bytes@, pos as int, enc_call_ref(c@))
            && p == pos + enc_call_ref(c@).len(),
        forall|c: CallRefV|
            #![trigger enc_call_ref(c)]
            call_ref_ok(c) && is_prefix_at(bytes@, pos as int, enc_call_ref(c))
                ==> (r matches Ok((x, p)) && x@ == c && p == pos + enc_call_ref(c).len()),
        r matches Err(e) ==> e == ModuleError::Io || e is RoutineNonUtf8 || e == ModuleError::ImportsUnordered,
        pos < bytes@.len() && pos + 1 + bytes@[pos as int] <= bytes@.len() && !valid_utf8(
            bytes@.subrange(pos + 1, pos + 1 + bytes@[pos as int]),
        ) ==> r matches Err(ModuleError::RoutineNonUtf8(_)),
{
    let n = bytes.len();
    proof {
        assert forall|c: CallRefV|
            #![trigger enc_call_ref(c)]
            call_ref_ok(c) && is_prefix_at(bytes@, pos as int, enc_call_ref(c))
            implies is_prefix_at(bytes@, pos as int, enc_text(c.0))
                && is_prefix_at(bytes@, pos + enc_text(c.0).len(), le16(c.1.len() as u16))
                && is_prefix_at(bytes@, pos + enc_text(c.0).len() + 2, enc_sites(c.1)) by {
            lemma_prefix_split(bytes@, pos as int, enc_text(c.0) + le16(c.1.len() as u16), enc_sites(c.1));
            lemma_prefix_split(bytes@, pos as int, enc_text(c.0), le16(c.1.len() as u16));
        }
    }
    let (routine, p) = match get_text(bytes, pos) {
        Ok(x) => x,
        Err(ReadError::Eof) => {
            return Err(ModuleError::Io);
        },
        Err(ReadError::NonUtf8(b)) => {
            return Err(ModuleError::RoutineNonUtf8(b));
        },
    };
    let (cnt, p2) = match get_u16(bytes, p) {
        Ok(x) => x,
        Err(_) => {
            return Err(ModuleError::Io);
        },
    };
    proof {
        assert forall|c: CallRefV|
            #![trigger enc_call_ref(c)]
            call_ref_ok(c) && is_prefix_at(bytes@, pos as int, enc_call_ref(c))
            implies routine@ == c.0 && cnt == c.1.len() && is_prefix_at(bytes@, p2 as int, enc_sites(c.1)) by {
            assert(enc_text(c.0) == enc_text(c.0));
            lemma_word_at(bytes@, p as int, c.1.len() as u16);
        }
    }
    let (sites, q) = match decode_sites(bytes, p2, cnt) {
        Ok(x) => x,
        Err(e) => {
            proof {
                assert forall|c: CallRefV|
                    #![trigger enc_call_ref(c)]
                    call_ref_ok(c) && is_prefix_at(bytes@, pos as int, enc_call_ref(c))
                    implies false by {
                    assert(enc_sites(c.1) == enc_sites(c.1));
                }
            }
            return Err(e);
        },
    };
    let c = CallRef { routine, sites };
    proof {
        lemma_le16_of_word(bytes@, p as int, cnt);
        assert(bytes@.subrange(pos as int, q as int) =~= bytes@.subrange(pos as int, p as int)
            + bytes@.subrange(p as int, p2 as int) + bytes@.subrange(p2 as int, q as int));
        assert(bytes@.subrange(pos as int, q as int) =~= enc_call_ref(c@));
        assert forall|d: CallRefV|
            #![trigger enc_call_ref(d)]
            call_ref_ok(d) && is_prefix_at(bytes@, pos as int, enc_call_ref(d))
            implies c@ == d && q == pos + enc_call_ref(d).len() by {
            assert(enc_sites(d.1) == enc_sites(d.1));
        }
    }
    Ok((c, q))
}

pub open spec fn refs_view(refs: Seq<CallRef>) -> Seq<CallRefV> {
    refs.map_values(|c: CallRef| c@)
}

pub open spec fn entries_view(entries: Seq<(LibId, Vec<CallRef>)>) -> TableV {
    entries.map_values(|e: (LibId, Vec<CallRef>)| (e.0@, refs_view(e.1@)))
}

proof fn lemma_call_refs_take_prefix(bytes: Seq<u8>, pos: int, rs: Seq<CallRefV>, i: int)
    requires
        is_prefix_at(bytes, pos, enc_call_refs(rs)),
        0 <= i <= rs.len(),
    ensures
        is_prefix_at(bytes, pos, enc_call_refs(rs.take(i))),
    decreases rs.len(),
{
    if i < rs.len() {
        lemma_prefix_split(bytes, pos, enc_call_refs(rs.drop_last()), enc_call_ref(rs.last()));
        assert(rs.drop_last().take(i) =~= rs.take(i));
        lemma_call_refs_take_prefix(bytes, pos, rs.drop_last(), i);
    } else {
        assert(rs.take(i) =~= rs);
    }
}

/// Call references of one library that can be encoded and read back.
pub open spec fn call_refs_ok(rs: Seq<CallRefV>) -> bool {
    names_distinct(rs) && forall|a: int| 0 <= a < rs.len() ==> call_ref_ok(#[trigger] rs[a])
}

/// Reads `count` call references of one library at `pos`; fails where a
/// routine name repeats.
fn decode_call_refs(bytes: &[u8], pos: usize, count: u16) -> (r: Result<(Vec<CallRef>, usize), ModuleError>)
    ensures
        r matches Ok((v, p)) ==> v@.len() == count && call_refs_ok(refs_view(v@)) && is_prefix_at(
            bytes@,
            pos as int,
            enc_call_refs(refs_view(v@)),
        ) && p == pos + enc_call_refs(refs_view(v@)).len(),
        forall|rs: Seq<CallRefV>|
            #![trigger enc_call_refs(rs)]
            rs.len() == count && call_refs_ok(rs) && is_prefix_at(bytes@, pos as int, enc_call_refs(rs))
                ==> (r matches Ok((v, p)) && refs_view(v@) == rs && p == pos + enc_call_refs(rs).len()),
        r matches Err(e) ==> e == ModuleError::Io || e is RoutineNonUtf8 || e == ModuleError::ImportsUnordered,
        count > 0 && pos < bytes@.len() && pos + 1 + bytes@[pos as int] <= bytes@.len() && !valid_utf8(
            bytes@.subrange(pos + 1, pos + 1 + bytes@[pos as int]),
        ) ==> r matches Err(ModuleError::RoutineNonUtf8(_)),
{
    let n = bytes.len();
    if pos > n {
        return Err(ModuleError::Io);
    }
    let mut refs: Vec<CallRef> = Vec::new();
    let mut q = pos;
    let mut k: u16 = 0;
    assert(bytes@.subrange(pos as int, q as int) =~= enc_call_refs(refs_view(refs@)));
    proof {
        assert forall|rs: Seq<CallRefV>|
            #![trigger enc_call_refs(rs)]
            rs.len() == count && call_refs_ok(rs) && is_prefix_at(bytes@, pos as int, enc_call_refs(rs))
            implies refs_view(refs@) == rs.take(0) && q == pos + enc_call_refs(rs.take(0)).len() by {
            assert(refs_view(refs@) =~= rs.take(0));
        }
    }
    while k < count
        invariant
            n == bytes@.len(),
            pos <= q <= n,
            k <= count,
            k == 0 ==> q == pos,
            k > 0 ==> !(pos < bytes@.len() && pos + 1 + bytes@[pos as int] <= bytes@.len() && !valid_utf8(
                bytes@.subrange(pos + 1, pos + 1 + bytes@[pos as int]),
            )),
            refs@.len() == k,
            call_refs_ok(refs_view(refs@)),
            bytes@.subrange(pos as int, q as int) == enc_call_refs(refs_view(refs@)),
            forall|rs: Seq<CallRefV>|
                #![trigger enc_call_refs(rs)]
                rs.len() == count && call_refs_ok(rs) && is_prefix_at(bytes@, pos as int, enc_call_refs(rs))
                    ==> refs_view(refs@) == rs.take(k as int) && q == pos + enc_call_refs(rs.take(k as int)).len(),
        decreases count - k,
    {
        proof {
            assert forall|rs: Seq<CallRefV>|
                #![trigger enc_call_refs(rs)]
                rs.len() == count && call_refs_ok(rs) && is_prefix_at(bytes@, pos as int, enc_call_refs(rs))
                implies is_prefix_at(bytes@, q as int, enc_call_ref(rs[k as int])) && call_ref_ok(rs[k as int]) by {
                lemma_call_refs_take_prefix(bytes@, pos as int, rs, k + 1);
                assert(rs.take(k + 1).drop_last() =~= rs.take(k as int));
                lemma_prefix_split(bytes@, pos as int, enc_call_refs(rs.take(k as int)), enc_call_ref(rs[k as int]));
            }
        }
        let (c, q2) = match decode_call_ref(bytes, q) {
            Ok(x) => x,
            Err(e) => {
                proof {
                    assert forall|rs: Seq<CallRefV>|
                        #![trigger enc_call_refs(rs)]
                        rs.len() == count && call_refs_ok(rs) && is_prefix_at(bytes@, pos as int, enc_call_refs(rs))
                        implies false by {
                        assert(enc_call_ref(rs[k as int]) == enc_call_ref(rs[k as int]));
                    }
                }
                return Err(e);
            },
        };
        proof {
            assert forall|rs: Seq<CallRefV>|
                #![trigger enc_call_refs(rs)]
                rs.len() == count && call_refs_ok(rs) && is_prefix_at(bytes@, pos as int, enc_call_refs(rs))
                implies c@ == rs[k as int] by {
                assert(enc_call_ref(rs[k as int]) == enc_call_ref(rs[k as int]));
            }
        }
        let mut j: usize = 0;
        while j < refs.len()
            invariant
                0 <= j <= refs.len(),
                refs@.len() == k,
                k < count,
                forall|a: int| 0 <= a < j ==> refs@[a].routine@ != c.routine@,
                k > 0 ==> !(pos < bytes@.len() && pos + 1 + bytes@[pos as int] <= bytes@.len() && !valid_utf8(
                    bytes@.subrange(pos + 1, pos + 1 + bytes@[pos as int]),
                )),
                forall|rs: Seq<CallRefV>|
                    #![trigger enc_call_refs(rs)]
                    rs.len() == count && call_refs_ok(rs) && is_prefix_at(bytes@, pos as int, enc_call_refs(rs))
                        ==> refs_view(refs@) == rs.take(k as int) && c@ == rs[k as int],
            decreases refs.len() - j,
        {
            if refs[j].routine == c.routine {
                proof {
                    assert forall|rs: Seq<CallRefV>|
                        #![trigger enc_call_refs(rs)]
                        rs.len() == count && call_refs_ok(rs) && is_prefix_at(bytes@, pos as int, enc_call_refs(rs))
                        implies false by {
                        assert(refs_view(refs@)[j as int] == rs.take(k as int)[j as int]);
                        assert(rs[j as int].0 == rs[k as int].0);
                    }
                }
                return Err(ModuleError::ImportsUnordered);
            }
            j = j + 1;
        }
        let ghost old_refs = refs@;
        refs.push(c);
        proof {
            assert(refs_view(refs@) =~= refs_view(old_refs).push(c@));
            assert(refs_view(refs@).drop_last() =~= refs_view(old_refs));
            assert(bytes@.subrange(pos as int, q2 as int) =~= bytes@.subrange(pos as int, q as int)
                + bytes@.subrange(q as int, q2 as int));
            let nv = refs_view(refs@);
            assert forall|x: int, y: int| 0 <= x < y < nv.len() implies nv[x].0 != nv[y].0 by {
                if y == k {
                    assert(nv[x].0 == refs@[x].routine@);
                } else {
                    assert(nv[x] == refs_view(old_refs)[x]);
                    assert(nv[y] == refs_view(old_refs)[y]);
                }
            }
            assert forall|a: int| 0 <= a < nv.len() implies call_ref_ok(#[trigger] nv[a]) by {
                if a < k {
                    assert(nv[a] == refs_view(old_refs)[a]);
                }
            }
            assert forall|rs: Seq<CallRefV>|
                #![trigger enc_call_refs(rs)]
                rs.len() == count && call_refs_ok(rs) && is_prefix_at(bytes@, pos as int, enc_call_refs(rs))
                implies refs_view(refs@) == rs.take(k + 1) && q2 == pos + enc_call_refs(rs.take(k + 1)).len() by {
                assert(rs.take(k + 1).drop_last() =~= rs.take(k as int));
                assert(rs.take(k + 1) =~= rs.take(k as int).push(rs[k as int]));
            }
        }
        q = q2;
        k = k + 1;
    }
    proof {
        assert forall|rs: Seq<CallRefV>|
            #![trigger enc_call_refs(rs)]
            rs.len() == count && call_refs_ok(rs) && is_prefix_at(bytes@, pos as int, enc_call_refs(rs))
            implies refs_view(refs@) == rs by {
            assert(rs.take(k as int) =~= rs);
        }
    }
    Ok((refs, q))
}

proof fn lemma_lib_entries_take_prefix(bytes: Seq<u8>, pos: int, t: TableV, i: int)
    requires
        is_prefix_at(bytes, pos, enc_lib_entries(t)),
        0 <= i <= t.len(),
    ensures
        is_prefix_at(bytes, pos, enc_lib_entries(t.take(i))),
    decreases t.len(),
{
    if i < t.len() {
        lemma_prefix_split(bytes, pos, enc_lib_entries(t.drop_last()), enc_lib_entry(t.last()));
        assert(t.drop_last().take(i) =~= t.take(i));
        lemma_lib_entries_take_prefix(bytes, pos, t.drop_last(), i);
    } else {
        assert(t.take(i) =~= t);
    }
}

proof fn lemma_total_take_le(t: TableV, i: int)
    requires
        0 <= i <= t.len(),
    ensures
        total_calls(t.take(i)) <= total_calls(t),
    decreases t.len(),
{
    if i < t.len() {
        assert(t.drop_last().take(i) =~= t.take(i));
        lemma_total_take_le(t.drop_last(), i);
    } else {
        assert(t.take(i) =~= t);
    }
}

/// The call table of a module: for each referenced library, ordered by
/// identifier, the external routines called in it, in order of first use.
#[derive(Clone, Debug, PartialEq, Eq, Hash, PartialOrd, Ord)]
pub struct CallTable {
    entries: Vec<(LibId, Vec<CallRef>)>,
    count: usize,
}

impl View for CallTable {
    type V = TableV;

    closed spec fn view(&self) -> TableV {
        entries_view(self.entries@)
    }
}

impl CallTable {
    /// Well-formedness: the abstract invariants, and the entry count kept in step.
    pub closed spec fn wf(&self) -> bool {
        table_wf(self@) && self.count == total_calls(self@)
    }

    /// An empty table.
    pub fn new() -> (r: CallTable)
        ensures
            r.wf(),
            r@ == Seq::<(Seq<u8>, Seq<CallRefV>)>::empty(),
    {
        let r = CallTable { entries: Vec::new(), count: 0 };
        assert(r@ =~= Seq::<(Seq<u8>, Seq<CallRefV>)>::empty());
        r
    }

    /// A well-formed table meets the abstract invariants.
    pub proof fn lemma_wf(&self)
        requires
            self.wf(),
        ensures
            table_wf(self@),
    {
    }

    /// Number of (library, routine) entries.
    pub fn len(&self) -> (r: usize)
        requires
            self.wf(),
        ensures
            r == total_calls(self@),
    {
        self.count
    }

    /// Number of libraries with entries.
    pub fn lib_count(&self) -> (r: usize)
        requires
            self.wf(),
        ensures
            r == self@.len(),
    {
        self.entries.len()
    }

    /// Looks up `routine` under library `id` and returns its position among
    /// that library's call references; where it is absent, appends it with no
    /// call sites first. Fails, leaving the table as it was, when a new entry
    /// would exceed the 16-bit index space or the library capacity.
    pub fn find_or_insert(&mut self, id: LibId, routine: &str) -> (r: Result<u16, CallTableError>)
        requires
            old(self).wf(),
        ensures
            final(self).wf(),
            match r {
                Ok(pos) => {
                    &&& final(self)@ == after_insert(old(self)@, id@, routine@)
                    &&& 0 <= pos < refs_of(final(self)@, id@).len()
                    &&& refs_of(final(self)@, id@)[pos as int].0 == routine@
                },
                Err(e) => {
                    &&& final(self)@ == old(self)@
                    &&& (e == CallTableError::TooManyRoutines || e == CallTableError::TooManyLibs)
                    &&& (e == CallTableError::TooManyRoutines <==> total_calls(old(self)@)
                        >= ROUTINES_MAX_COUNT)
                },
            },
            r is Err <==> !has_call(refs_of(old(self)@, id@), routine@) && (total_calls(old(self)@)
                >= ROUTINES_MAX_COUNT || (!has_lib(old(self)@, id@) && old(self)@.len()
                >= LIBS_MAX_COUNT)),
    {
        let max_libs = libs_segment_max_count();
        let name = routine.to_owned();
        let ghost t = self@;
        let ghost old_entries = self.entries@;
        let n = self.entries.len();
        let mut i: usize = 0;
        while i < n && self.entries[i].0.compare(&id) < 0
            invariant
                n == self.entries.len(),
                self@ == t,
                self.entries@ == old_entries,
                self.wf(),
                0 <= i <= n,
                forall|j: int| 0 <= j < i ==> lex_lt(#[trigger] t[j].0, id@),
            decreases n - i,
        {
            assert(t[i as int].0 == self.entries@[i as int].0@);
            i = i + 1;
        }
        if i < n && self.entries[i].0.same(&id) {
            proof {
                lemma_lib_index(t, i as int);
                lemma_total_ge(t, i as int);
            }
            let m = self.entries[i].1.len();
            let mut k: usize = 0;
            while k < m
                invariant
                    n == self.entries.len(),
                    i < n,
                    self@ == t,
                    self.wf(),
                    m == t[i as int].1.len(),
                    t[i as int].0 == id@,
                    m <= total_calls(t),
                    0 <= k <= m,
                    name@ == routine@,
                    forall|q: int| 0 <= q < k ==> (#[trigger] t[i as int].1[q]).0 != name@,
                decreases m - k,
            {
                assert(t[i as int].1[k as int] == self.entries@[i as int].1@[k as int]@);
                if self.entries[i].1[k].routine == name {
                    proof {
                        lemma_lib_index(t, i as int);
                        assert(t[i as int].1[k as int].0 == routine@);
                        assert(has_call(t[i as int].1, routine@));
                        assert(refs_of(t, id@) == t[i as int].1);
                    }
                    return Ok(k as u16);
                }
                k = k + 1;
            }
            if self.count >= ROUTINES_MAX_COUNT {
                return Err(CallTableError::TooManyRoutines);
            }
            let ghost new_ref: CallRefV = (name@, Seq::<u16>::empty());
            let (lib, mut refs) = self.entries.remove(i);
            refs.push(CallRef { routine: name, sites: Vec::new() });
            self.entries.insert(i, (lib, refs));
            self.count = self.count + 1;
            proof {
                let e = (id@, t[i as int].1.push(new_ref));
                assert(self.entries@ =~= old_entries.update(i as int, self.entries@[i as int]));
                assert(self.entries@[i as int].1@.map_values(|c: CallRef| c@) =~= t[i as int].1.push(new_ref));
                assert(self@ =~= t.update(i as int, e));
                lemma_total_update(t, i as int, e);
                lemma_lib_index(self@, i as int);
                assert(!has_call(t[i as int].1, routine@));
                let u = self@;
                assert forall|a: int, b: int| 0 <= a < b < u[i as int].1.len() implies u[i as int].1[a].0 != u[i as int].1[b].0 by {
                    if b < m {
                        assert(u[i as int].1[a] == t[i as int].1[a]);
                        assert(u[i as int].1[b] == t[i as int].1[b]);
                    } else {
                        assert(u[i as int].1[a] == t[i as int].1[a]);
                    }
                }
                assert forall|a: int, q: int| 0 <= a < u.len() && 0 <= q < u[a].1.len() implies sites_sorted((#[trigger] u[a].1[q]).1) by {
                    if a == i && q < m {
                        assert(u[a].1[q] == t[a].1[q]);
                    }
                }
            }
            Ok(m as u16)
        } else {
            proof {
                if i < n {
                    assert(t[i as int].0 == self.entries@[i as int].0@);
                    lemma_lex_total(id@, t[i as int].0);
                }
                assert forall|j: int| i <= j < n implies lex_lt(id@, #[trigger] t[j].0) by {
                    if j > i {
                        lemma_lex_transitive(id@, t[i as int].0, t[j].0);
                    }
                }
                assert forall|j: int| 0 <= j < n implies #[trigger] t[j].0 != id@ by {
                    lemma_lex_irreflexive(id@);
                }
                lemma_insert_pos(t, id@, i as int);
            }
            if self.count >= ROUTINES_MAX_COUNT {
                return Err(CallTableError::TooManyRoutines);
            }
            if n >= max_libs {
                return Err(CallTableError::TooManyLibs);
            }
            let ghost new_ref: CallRefV = (name@, Seq::<u16>::empty());
            let mut refs: Vec<CallRef> = Vec::new();
            refs.push(CallRef { routine: name, sites: Vec::new() });
            self.entries.insert(i, (id, refs));
            self.count = self.count + 1;
            proof {
                let e = (id@, seq![new_ref]);
                assert(self.entries@[i as int].1@.map_values(|c: CallRef| c@) =~= seq![new_ref]);
                assert(self@ =~= t.insert(i as int, e));
                lemma_total_insert(t, i as int, e);
                let u = self@;
                assert forall|a: int, b: int| 0 <= a < b < u.len() implies lex_lt(u[a].0, u[b].0) by {
                    if b < i {
                    } else if b == i {
                    } else if a < i {
                        lemma_lex_transitive(u[a].0, id@, u[b].0);
                    } else if a == i {
                    } else {
                    }
                }
                lemma_lib_index(u, i as int);
            }
            Ok(0)
        }
    }

    /// Finds the position of library `id` in the table.
    fn find_lib(&self, id: &LibId) -> (r: Option<usize>)
        requires
            self.wf(),
        ensures
            match r {
                Some(i) => i < self@.len() && has_lib(self@, id@) && lib_index(self@, id@) == i,
                None => !has_lib(self@, id@),
            },
    {
        let n = self.entries.len();
        let mut i: usize = 0;
        while i < n
            invariant
                n == self.entries.len(),
                self.wf(),
                0 <= i <= n,
                forall|j: int| 0 <= j < i ==> (#[trigger] self@[j]).0 != id@,
            decreases n - i,
        {
            assert(self@[i as int].0 == self.entries@[i as int].0@);
            if self.entries[i].0.same(id) {
                proof {
                    lemma_lib_index(self@, i as int);
                }
                return Some(i);
            }
            i = i + 1;
        }
        None
    }

    /// Resolves a call site to its call reference.
    pub fn get(&self, site: LibSite) -> (r: Result<&CallRef, CallTableError>)
        requires
            self.wf(),
        ensures
            !has_lib(self@, site.lib@) ==> r == Err::<&CallRef, CallTableError>(
                CallTableError::LibTableNotFound(site.lib),
            ),
            has_lib(self@, site.lib@) && site.pos >= refs_of(self@, site.lib@).len() ==> r == Err::<
                &CallRef,
                CallTableError,
            >(CallTableError::RoutineNotFound(site.lib, site.pos)),
            has_lib(self@, site.lib@) && (site.pos as int) < refs_of(self@, site.lib@).len() ==> (r matches Ok(
                c,
            ) && c@ == refs_of(self@, site.lib@)[site.pos as int]),
    {
        let li = match self.find_lib(&site.lib) {
            Some(li) => li,
            None => {
                return Err(CallTableError::LibTableNotFound(site.lib));
            },
        };
        let p = site.pos as usize;
        if p >= self.entries[li].1.len() {
            return Err(CallTableError::RoutineNotFound(site.lib, site.pos));
        }
        assert(self@[li as int].1[p as int] == self.entries@[li as int].1@[p as int]@);
        Ok(&self.entries[li].1[p])
    }

    /// Records `offset` as one more call site of the routine at `site`.
    pub fn get_mut(&mut self, site: LibSite, offset: u16) -> (r: Result<(), CallTableError>)
        requires
            old(self).wf(),
        ensures
            final(self).wf(),
            !has_lib(old(self)@, site.lib@) ==> r == Err::<(), CallTableError>(
                CallTableError::LibTableNotFound(site.lib),
            ),
            has_lib(old(self)@, site.lib@) && site.pos >= refs_of(old(self)@, site.lib@).len()
                ==> r == Err::<(), CallTableError>(CallTableError::RoutineNotFound(site.lib, site.pos)),
            has_lib(old(self)@, site.lib@) && (site.pos as int) < refs_of(old(self)@, site.lib@).len()
                ==> r is Ok,
            r is Err ==> final(self)@ == old(self)@,
            r is Ok ==> {
                let li = lib_index(old(self)@, site.lib@);
                let p = site.pos as int;
                &&& has_lib(old(self)@, site.lib@)
                &&& p < refs_of(old(self)@, site.lib@).len()
                &&& final(self)@ == with_sites(old(self)@, li, p, final(self)@[li].1[p].1)
                &&& site_added(old(self)@[li].1[p].1, final(self)@[li].1[p].1, offset)
            },
    {
        let ghost t = self@;
        let ghost old_entries = self.entries@;
        let li = match self.find_lib(&site.lib) {
            Some(li) => li,
            None => {
                return Err(CallTableError::LibTableNotFound(site.lib));
            },
        };
        let p = site.pos as usize;
        if p >= self.entries[li].1.len() {
            return Err(CallTableError::RoutineNotFound(site.lib, site.pos));
        }
        let (lib, mut refs) = self.entries.remove(li);
        let CallRef { routine, mut sites } = refs.remove(p);
        proof {
            assert(sites@ == t[li as int].1[p as int].1);
        }
        add_site(&mut sites, offset);
        refs.insert(p, CallRef { routine, sites });
        self.entries.insert(li, (lib, refs));
        proof {
            let u = self@;
            let ns = u[li as int].1[p as int].1;
            assert(self.entries@[li as int].1@.map_values(|c: CallRef| c@) =~= t[li as int].1.update(
                p as int,
                (t[li as int].1[p as int].0, ns),
            ));
            assert(u =~= with_sites(t, li as int, p as int, ns));
            lemma_total_update(t, li as int, u[li as int]);
            assert forall|a: int, q: int| 0 <= a < u.len() && 0 <= q < u[a].1.len() implies sites_sorted(
                (#[trigger] u[a].1[q]).1,
            ) by {
                if a != li || q != p {
                    assert(u[a].1[q] == t[a].1[q]);
                }
            }
            assert forall|a: int| 0 <= a < u.len() implies names_distinct((#[trigger] u[a]).1) by {
                assert forall|x: int, y: int| 0 <= x < y < u[a].1.len() implies u[a].1[x].0 != u[a].1[y].0 by {
                    assert(u[a].1[x].0 == t[a].1[x].0);
                    assert(u[a].1[y].0 == t[a].1[y].0);
                }
            }
        }
        Ok(())
    }

    /// Routine names of all libraries, in library order, each library's in
    /// order of first use.
    pub fn routines(&self) -> (r: Vec<String>)
        requires
            self.wf(),
        ensures
            r@.map_values(|s: String| s@) == flat_names(self@),
    {
        let ghost t = self@;
        let mut out: Vec<String> = Vec::new();
        let mut i: usize = 0;
        assert(t.take(0) =~= Seq::<(Seq<u8>, Seq<CallRefV>)>::empty());
        while i < self.entries.len()
            invariant
                t == self@,
                0 <= i <= t.len(),
                t.len() == self.entries.len(),
                out@.map_values(|s: String| s@) == flat_names(t.take(i as int)),
            decreases self.entries.len() - i,
        {
            let refs = &self.entries[i].1;
            let mut k: usize = 0;
            let ghost base = out@.map_values(|s: String| s@);
            proof {
                assert(t[i as int].1 == refs@.map_values(|c: CallRef| c@));
                assert(base + t[i as int].1.take(0).map_values(|c: CallRefV| c.0) =~= base);
            }
            while k < refs.len()
                invariant
                    t == self@,
                    0 <= i < t.len(),
                    refs == &self.entries@[i as int].1,
                    t[i as int].1 == refs@.map_values(|c: CallRef| c@),
                    0 <= k <= refs.len(),
                    out@.map_values(|s: String| s@) == base + t[i as int].1.take(k as int).map_values(
                        |c: CallRefV| c.0,
                    ),
                decreases refs.len() - k,
            {
                let ghost before = out@;
                let ghost g = |c: CallRefV| c.0;
                proof {
                    assert(t[i as int].1[k as int] == refs@[k as int]@);
                    assert(t[i as int].1.take(k + 1).map_values(g) =~= t[i as int].1.take(
                        k as int,
                    ).map_values(g).push(refs@[k as int].routine@));
                }
                out.push(refs[k].routine.clone());
                assert(out@.map_values(|s: String| s@) =~= before.map_values(|s: String| s@).push(
                    refs@[k as int].routine@,
                ));
                k = k + 1;
                assert(out@.map_values(|s: String| s@) =~= base + t[i as int].1.take(k as int).map_values(
                    |c: CallRefV| c.0,
                ));
            }
            proof {
                assert(t[i as int].1.take(k as int) =~= t[i as int].1);
                lemma_flat_names_step(t, i as int);
            }
            i = i + 1;
        }
        assert(t.take(i as int) =~= t);
        out
    }

    /// All call references, flattened in the order of `routines`, each with
    /// its library and call sites.
    pub fn call_refs(&self) -> (r: Vec<(LibId, String, Vec<u16>)>)
        requires
            self.wf(),
        ensures
            r@.map_values(|e: (LibId, String, Vec<u16>)| (e.0@, e.1@, e.2@)) == flat_calls(self@),
    {
        let ghost t = self@;
        let mut out: Vec<(LibId, String, Vec<u16>)> = Vec::new();
        let mut i: usize = 0;
        assert(t.take(0) =~= Seq::<(Seq<u8>, Seq<CallRefV>)>::empty());
        while i < self.entries.len()
            invariant
                t == self@,
                0 <= i <= t.len(),
                t.len() == self.entries.len(),
                out@.map_values(|e: (LibId, String, Vec<u16>)| (e.0@, e.1@, e.2@)) == flat_calls(
                    t.take(i as int),
                ),
            decreases self.entries.len() - i,
        {
            let lib = self.entries[i].0;
            let refs = &self.entries[i].1;
            let mut k: usize = 0;
            let ghost base = out@.map_values(|e: (LibId, String, Vec<u16>)| (e.0@, e.1@, e.2@));
            proof {
                assert(t[i as int].1 == refs@.map_values(|c: CallRef| c@));
                assert(t[i as int].0 == lib@);
                assert(base + t[i as int].1.take(0).map_values(|c: CallRefV| (t[i as int].0, c.0, c.1))
                    =~= base);
            }
            while k < refs.len()
                invariant
                    t == self@,
                    0 <= i < t.len(),
                    refs == &self.entries@[i as int].1,
                    t[i as int].1 == refs@.map_values(|c: CallRef| c@),
                    t[i as int].0 == lib@,
                    0 <= k <= refs.len(),
                    out@.map_values(|e: (LibId, String, Vec<u16>)| (e.0@, e.1@, e.2@)) == base
                        + t[i as int].1.take(k as int).map_values(
                        |c: CallRefV| (t[i as int].0, c.0, c.1),
                    ),
                decreases refs.len() - k,
            {
                let c = &refs[k];
                let ghost before = out@;
                let ghost g = |c: CallRefV| (t[i as int].0, c.0, c.1);
                proof {
                    assert(t[i as int].1[k as int] == refs@[k as int]@);
                    assert(t[i as int].1.take(k + 1).map_values(g) =~= t[i as int].1.take(
                        k as int,
                    ).map_values(g).push((lib@, c.routine@, c.sites@)));
                }
                out.push((lib, c.routine.clone(), copy_sites(&c.sites)));
                assert(out@.map_values(|e: (LibId, String, Vec<u16>)| (e.0@, e.1@, e.2@)) =~= before.map_values(
                    |e: (LibId, String, Vec<u16>)| (e.0@, e.1@, e.2@),
                ).push((lib@, c.routine@, c.sites@)));
                k = k + 1;
                assert(out@.map_values(|e: (LibId, String, Vec<u16>)| (e.0@, e.1@, e.2@)) =~= base
                    + t[i as int].1.take(k as int).map_values(|c: CallRefV| (t[i as int].0, c.0, c.1)));
            }
            proof {
                assert(t[i as int].1.take(k as int) =~= t[i as int].1);
                lemma_flat_calls_step(t, i as int);
            }
            i = i + 1;
        }
        assert(t.take(i as int) =~= t);
        out
    }

    /// Appends the encoding; `false`, with nothing written, where a count or a
    /// name does not fit its length prefix.
    pub fn encode(&self, out: &mut Vec<u8>) -> (r: bool)
        requires
            self.wf(),
        ensures
            r <==> table_fits(self@),
            r ==> final(out)@ == old(out)@ + enc_table(self@),
            !r ==> final(out)@ == old(out)@,
    {
        let ghost t = self@;
        let n = self.entries.len();
        if n > 255 {
            return false;
        }
        let mut i: usize = 0;
        while i < n
            invariant
                t == self@,
                n == t.len(),
                0 <= i <= n,
                forall|a: int| 0 <= a < i ==> (#[trigger] t[a]).1.len() <= 65535,
                forall|a: int, k: int|
                    0 <= a < i && 0 <= k < t[a].1.len() ==> encode_utf8((#[trigger] t[a].1[k]).0).len()
                        <= 255 && t[a].1[k].1.len() <= 65535,
            decreases n - i,
        {
            let refs = &self.entries[i].1;
            assert(t[i as int].1 == refs@.map_values(|c: CallRef| c@));
            if refs.len() > 65535 {
                return false;
            }
            let mut k: usize = 0;
            while k < refs.len()
                invariant
                    t == self@,
                    n == t.len(),
                    0 <= i < n,
                    refs == &self.entries@[i as int].1,
                    t[i as int].1 == refs@.map_values(|c: CallRef| c@),
                    0 <= k <= refs.len(),
                    forall|q: int| 0 <= q < k ==> encode_utf8((#[trigger] t[i as int].1[q]).0).len()
                        <= 255 && t[i as int].1[q].1.len() <= 65535,
                decreases refs.len() - k,
            {
                let c = &refs[k];
                assert(t[i as int].1[k as int] == c@);
                if c.routine.as_str().as_bytes().len() > 255 || c.sites.len() > 65535 {
                    return false;
                }
                k = k + 1;
            }
            i = i + 1;
        }
        let ghost start = out@;
        put_u8(out, n as u8);
        i = 0;
        assert(t.take(0) =~= Seq::<(Seq<u8>, Seq<CallRefV>)>::empty());
        while i < n
            invariant
                t == self@,
                n == t.len(),
                n <= 255,
                table_fits(t),
                0 <= i <= n,
                out@ == start + seq![n as u8] + enc_lib_entries(t.take(i as int)),
            decreases n - i,
        {
            let lib = &self.entries[i].0;
            let refs = &self.entries[i].1;
            assert(t[i as int].1 == refs@.map_values(|c: CallRef| c@));
            assert(t[i as int].0 == lib@);
            let ghost before = out@;
            put_bytes(out, lib.0.as_slice());
            put_u16(out, refs.len() as u16);
            let ghost mid = out@;
            let mut k: usize = 0;
            assert(t[i as int].1.take(0) =~= Seq::<CallRefV>::empty());
            while k < refs.len()
                invariant
                    t == self@,
                    0 <= i < n,
                    n == t.len(),
                    table_fits(t),
                    refs == &self.entries@[i as int].1,
                    t[i as int].1 == refs@.map_values(|c: CallRef| c@),
                    0 <= k <= refs.len(),
                    out@ == mid + enc_call_refs(t[i as int].1.take(k as int)),
                decreases refs.len() - k,
            {
                let c = &refs[k];
                assert(t[i as int].1[k as int] == c@);
                let ghost before_ref = out@;
                put_text(out, &c.routine);
                put_u16(out, c.sites.len() as u16);
                let ghost mid_ref = out@;
                let mut j: usize = 0;
                assert(c.sites@.take(0) =~= Seq::<u16>::empty());
                while j < c.sites.len()
                    invariant
                        0 <= j <= c.sites.len(),
                        out@ == mid_ref + enc_sites(c.sites@.take(j as int)),
                    decreases c.sites.len() - j,
                {
                    put_u16(out, c.sites[j]);
                    j = j + 1;
                    assert(c.sites@.take(j as int).drop_last() =~= c.sites@.take(j - 1));
                    assert(out@ =~= mid_ref + enc_sites(c.sites@.take(j as int)));
                }
                assert(c.sites@.take(j as int) =~= c.sites@);
                k = k + 1;
                assert(t[i as int].1.take(k as int).drop_last() =~= t[i as int].1.take(k - 1));
                assert(out@ =~= mid + enc_call_refs(t[i as int].1.take(k as int)));
            }
            assert(t[i as int].1.take(k as int) =~= t[i as int].1);
            i = i + 1;
            assert(t.take(i as int).drop_last() =~= t.take(i - 1));
            assert(out@ =~= start + seq![n as u8] + enc_lib_entries(t.take(i as int)));
        }
        assert(t.take(i as int) =~= t);
        assert(out@ =~= start + enc_table(t));
        true
    }

    /// Reads a call table at `pos`; fails where the bytes break an invariant
    /// of the table.
    #[verifier::rlimit(100)]
    pub fn decode(bytes: &[u8], pos: usize) -> (r: Result<(CallTable, usize), ModuleError>)
        ensures
            r matches Ok((t, p)) ==> t.wf() && table_fits(t@) && is_prefix_at(
                bytes@,
                pos as int,
                enc_table(t@),
            ) && p == pos + enc_table(t@).len(),
            forall|tv: TableV|
                #![trigger enc_table(tv)]
                table_wf(tv) && table_fits(tv) && is_prefix_at(bytes@, pos as int, enc_table(tv))
                    ==> (r matches Ok((x, p)) && x@ == tv && p == pos + enc_table(tv).len()),
            r matches Err(e) ==> e == ModuleError::Io || e is RoutineNonUtf8 || e
                == ModuleError::ImportsUnordered || e == ModuleError::Imports(CallTableError::TooManyRoutines),
            pos + 35 < bytes@.len() && bytes@[pos as int] > 0 && (bytes@[pos + 33] > 0 || bytes@[pos + 34] > 0)
                && pos + 36 + bytes@[pos + 35] <= bytes@.len() && !valid_utf8(
                bytes@.subrange(pos + 36, pos + 36 + bytes@[pos + 35]),
            ) ==> r matches Err(ModuleError::RoutineNonUtf8(_)),
    {
        let n = bytes.len();
        let (cnt, p0) = match get_u8(bytes, pos) {
            Ok(x) => x,
            Err(_) => {
                return Err(ModuleError::Io);
            },
        };
        proof {
            assert forall|tv: TableV|
                #![trigger enc_table(tv)]
                table_fits(tv) && is_prefix_at(bytes@, pos as int, enc_table(tv))
                implies tv.len() == cnt && is_prefix_at(bytes@, p0 as int, enc_lib_entries(tv)) by {
                lemma_prefix_split(bytes@, pos as int, seq![tv.len() as u8], enc_lib_entries(tv));
                assert(bytes@[pos as int] == seq![tv.len() as u8][0]);
            }
        }
        let mut p = p0;
        let mut entries: Vec<(LibId, Vec<CallRef>)> = Vec::new();
        let mut count: usize = 0;
        let mut i: usize = 0;
        assert(bytes@.subrange(p0 as int, p as int) =~= enc_lib_entries(entries_view(entries@)));
        proof {
            assert forall|tv: TableV|
                #![trigger enc_table(tv)]
                table_wf(tv) && table_fits(tv) && is_prefix_at(bytes@, pos as int, enc_table(tv))
                implies entries_view(entries@) == tv.take(0) && p == p0 + enc_lib_entries(tv.take(0)).len() by {
                assert(entries_view(entries@) =~= tv.take(0));
            }
        }
        while i < cnt as usize
            invariant
                n == bytes@.len(),
                p0 <= p <= n,
                p0 == pos + 1,
                i == 0 ==> p == p0,
                i > 0 ==> !(pos + 35 < bytes@.len() && (bytes@[pos + 33] > 0 || bytes@[pos + 34] > 0)
                    && pos + 36 + bytes@[pos + 35] <= bytes@.len() && !valid_utf8(
                    bytes@.subrange(pos + 36, pos + 36 + bytes@[pos + 35]),
                )),
                i <= cnt,
                entries@.len() == i,
                table_wf(entries_view(entries@)),
                table_fits(entries_view(entries@)),
                count == total_calls(entries_view(entries@)),
                bytes@.subrange(p0 as int, p as int) == enc_lib_entries(entries_view(entries@)),
                forall|tv: TableV|
                    #![trigger enc_table(tv)]
                    table_fits(tv) && is_prefix_at(bytes@, pos as int, enc_table(tv))
                        ==> tv.len() == cnt && is_prefix_at(bytes@, p0 as int, enc_lib_entries(tv)),
                forall|tv: TableV|
                    #![trigger enc_table(tv)]
                    table_wf(tv) && table_fits(tv) && is_prefix_at(bytes@, pos as int, enc_table(tv))
                        ==> entries_view(entries@) == tv.take(i as int) && p == p0 + enc_lib_entries(tv.take(i as int)).len(),
            decreases cnt - i,
        {
            let ghost ev = entries_view(entries@);
            proof {
                assert forall|tv: TableV|
                    #![trigger enc_table(tv)]
                    table_wf(tv) && table_fits(tv) && is_prefix_at(bytes@, pos as int, enc_table(tv))
                    implies is_prefix_at(bytes@, p as int, tv[i as int].0)
                        && is_prefix_at(bytes@, p + 32, le16(tv[i as int].1.len() as u16))
                        && is_prefix_at(bytes@, p + 34, enc_call_refs(tv[i as int].1)) by {
                    lemma_lib_entries_take_prefix(bytes@, p0 as int, tv, i + 1);
                    assert(tv.take(i + 1).drop_last() =~= tv.take(i as int));
                    let e = tv[i as int];
                    lemma_prefix_split(bytes@, p0 as int, enc_lib_entries(tv.take(i as int)), enc_lib_entry(e));
                    lemma_prefix_split(bytes@, p as int, e.0 + le16(e.1.len() as u16), enc_call_refs(e.1));
                    lemma_prefix_split(bytes@, p as int, e.0, le16(e.1.len() as u16));
                }
            }
            if n - p < 32 {
                return Err(ModuleError::Io);
            }
            let id = LibId::read(bytes, p);
            proof {
                assert forall|tv: TableV|
                    #![trigger enc_table(tv)]
                    table_wf(tv) && table_fits(tv) && is_prefix_at(bytes@, pos as int, enc_table(tv))
                    implies id@ == tv[i as int].0 by {
                    assert(tv[i as int].0.len() == 32);
                }
            }
            if i > 0 && entries[i - 1].0.compare(&id) >= 0 {
                proof {
                    assert forall|tv: TableV|
                        #![trigger enc_table(tv)]
                        table_wf(tv) && table_fits(tv) && is_prefix_at(bytes@, pos as int, enc_table(tv))
                        implies false by {
                        assert(ev[i - 1] == tv.take(i as int)[i - 1]);
                        assert(ev[i - 1].0 == entries@[i - 1].0@);
                        lemma_lex_asymmetric(tv[i - 1].0, tv[i as int].0);
                    }
                }
                return Err(ModuleError::ImportsUnordered);
            }
            let p2 = p + 32;
            let (rc, p3) = match get_u16(bytes, p2) {
                Ok(x) => x,
                Err(_) => {
                    return Err(ModuleError::Io);
                },
            };
            proof {
                assert forall|tv: TableV|
                    #![trigger enc_table(tv)]
                    table_wf(tv) && table_fits(tv) && is_prefix_at(bytes@, pos as int, enc_table(tv))
                    implies rc == tv[i as int].1.len() && call_refs_ok(tv[i as int].1) by {
                    lemma_word_at(bytes@, p2 as int, tv[i as int].1.len() as u16);
                    assert forall|a: int| 0 <= a < tv[i as int].1.len() implies call_ref_ok(#[trigger] tv[i as int].1[a]) by {
                        assert(sites_sorted(tv[i as int].1[a].1));
                    }
                }
            }
            let (refs, q) = match decode_call_refs(bytes, p3, rc) {
                Ok(x) => x,
                Err(e) => {
                    proof {
                        assert forall|tv: TableV|
                            #![trigger enc_table(tv)]
                            table_wf(tv) && table_fits(tv) && is_prefix_at(bytes@, pos as int, enc_table(tv))
                            implies false by {
                            assert(enc_call_refs(tv[i as int].1) == enc_call_refs(tv[i as int].1));
                        }
                    }
                    return Err(e);
                },
            };
            proof {
                assert forall|tv: TableV|
                    #![trigger enc_table(tv)]
                    table_wf(tv) && table_fits(tv) && is_prefix_at(bytes@, pos as int, enc_table(tv))
                    implies refs_view(refs@) == tv[i as int].1 && count + rc <= ROUTINES_MAX_COUNT by {
                    assert(enc_call_refs(tv[i as int].1) == enc_call_refs(tv[i as int].1));
                    lemma_total_take_le(tv, i + 1);
                    assert(tv.take(i + 1).drop_last() =~= tv.take(i as int));
                }
            }
            if count + (rc as usize) > ROUTINES_MAX_COUNT {
                return Err(ModuleError::Imports(CallTableError::TooManyRoutines));
            }
            let ghost old_entries = entries@;
            entries.push((id, refs));
            count = count + rc as usize;
            proof {
                let nv = entries_view(entries@);
                let e = (id@, refs_view(refs@));
                assert(nv =~= ev.push(e));
                assert(nv.drop_last() =~= ev);
                assert(bytes@.subrange(p as int, p2 as int) == id@);
                lemma_le16_of_word(bytes@, p2 as int, rc);
                assert(bytes@.subrange(p as int, q as int) =~= bytes@.subrange(p as int, p2 as int)
                    + bytes@.subrange(p2 as int, p3 as int) + bytes@.subrange(p3 as int, q as int));
                assert(bytes@.subrange(p0 as int, q as int) =~= bytes@.subrange(p0 as int, p as int)
                    + bytes@.subrange(p as int, q as int));
                if i > 0 {
                    assert(ev[i - 1].0 == old_entries[i - 1].0@);
                    assert forall|a: int| 0 <= a < i implies lex_lt(#[trigger] nv[a].0, id@) by {
                        if a < i - 1 {
                            lemma_lex_transitive(ev[a].0, ev[i - 1].0, id@);
                        }
                    }
                }
                assert forall|a: int, b: int| 0 <= a < b < nv.len() implies lex_lt(nv[a].0, nv[b].0) by {
                    if b < i {
                        assert(nv[a] == ev[a] && nv[b] == ev[b]);
                    }
                }
                assert forall|a: int, kk: int| 0 <= a < nv.len() && 0 <= kk < nv[a].1.len() implies sites_sorted(
                    (#[trigger] nv[a].1[kk]).1,
                ) by {
                    if a < i {
                        assert(nv[a] == ev[a]);
                    } else {
                        assert(call_ref_ok(nv[a].1[kk]));
                    }
                }
                assert forall|a: int, kk: int| 0 <= a < nv.len() && 0 <= kk < nv[a].1.len() implies encode_utf8(
                    (#[trigger] nv[a].1[kk]).0).len() <= 255 && nv[a].1[kk].1.len() <= 65535 by {
                    if a < i {
                        assert(nv[a] == ev[a]);
                    } else {
                        assert(call_ref_ok(nv[a].1[kk]));
                    }
                }
                assert forall|a: int| 0 <= a < nv.len() implies names_distinct((#[trigger] nv[a]).1) by {
                    if a < i {
                        assert(nv[a] == ev[a]);
                    }
                }
                assert forall|a: int| 0 <= a < nv.len() implies (#[trigger] nv[a]).0.len() == 32 && nv[a].1.len() <= 65535 by {
                    if a < i {
                        assert(nv[a] == ev[a]);
                    }
                }
                assert forall|tv: TableV|
                    #![trigger enc_table(tv)]
                    table_wf(tv) && table_fits(tv) && is_prefix_at(bytes@, pos as int, enc_table(tv))
                    implies nv == tv.take(i + 1) && q == p0 + enc_lib_entries(tv.take(i + 1)).len() by {
                    assert(tv.take(i + 1).drop_last() =~= tv.take(i as int));
                    assert(tv.take(i + 1) =~= tv.take(i as int).push(tv[i as int]));
                    assert(enc_call_refs(tv[i as int].1) == enc_call_refs(tv[i as int].1));
                }
            }
            p = q;
            i = i + 1;
        }
        let t = CallTable { entries, count };
        proof {
            assert(bytes@.subrange(pos as int, p as int) =~= seq![cnt] + enc_lib_entries(entries_view(t.entries@)));
            assert forall|tv: TableV|
                #![trigger enc_table(tv)]
                table_wf(tv) && table_fits(tv) && is_prefix_at(bytes@, pos as int, enc_table(tv))
                implies t@ == tv by {
                assert(tv.take(i as int) =~= tv);
            }
        }
        Ok((t, p))
    }
}

} // verus!
