//! The schema guard: before any auction state is loaded from or saved to a
//! backing store, the store's structure is reduced to a canonical byte
//! stream, digested, and compared against the one known-good value. The
//! structure is modelled here as plain values — names as UTF-8 bytes,
//! numeric defaults as their bit patterns — so that the canonicalisation
//! and encoding are verified; only the digest itself is taken on trust.

use vstd::prelude::*;
use vstd::string::StringSliceAdditionalSpecFns;
use core::hash::Hasher;

verus! {

/// One table of the store: its schema-qualified name (the sort key), its
/// bare name (what the digest reads), its columns, whether it is a view,
/// and its keys.
pub struct SchemaTable {
    /// The schema-qualified name, as UTF-8 bytes; used only for ordering.
    pub complete_name: Vec<u8>,
    /// The bare table name, as UTF-8 bytes.
    pub name: Vec<u8>,
    pub columns: Vec<SchemaColumn>,
    pub is_view: bool,
    pub keys: Vec<SchemaKey>,
}

/// One column: its name, the name of its SQL type, an optional capacity,
/// and its constraints.
pub struct SchemaColumn {
    pub name: Vec<u8>,
    pub sql_type: Vec<u8>,
    pub capacity: Option<SchemaCapacity>,
    pub constraints: Vec<SchemaConstraint>,
}

/// A column capacity; the fields carry the two's-complement bit patterns
/// of the store's 32-bit values.
pub enum SchemaCapacity {
    Limit(u32),
    Range(u32, u32),
}

/// A column constraint.
pub enum SchemaConstraint {
    NotNull,
    DefaultValue(SchemaLiteral),
    AutoIncrement,
}

/// A default-value literal. `Integer` carries the two's-complement bit
/// pattern of the store's 64-bit integer; `Double` and the elements of
/// `ArrayFloat` carry IEEE-754 bit patterns, so no floating-point value
/// ever enters the library.
pub enum SchemaLiteral {
    Bool(bool),
    Null,
    Integer(u64),
    Double(u64),
    UuidGenerateV4,
    Uuid(Vec<u8>),
    Text(Vec<u8>),
    Blob(Vec<u8>),
    CurrentTime,
    CurrentDate,
    CurrentTimestamp,
    ArrayInt(Vec<u64>),
    ArrayFloat(Vec<u64>),
    ArrayText(Vec<Vec<u8>>),
}

/// A named key over some columns, given by their names.
pub struct SchemaKeyDef {
    pub name: Option<Vec<u8>>,
    pub columns: Vec<Vec<u8>>,
}

/// A foreign key: its own columns, the referred table and its columns.
pub struct SchemaForeignKey {
    pub name: Option<Vec<u8>>,
    pub columns: Vec<Vec<u8>>,
    pub foreign_table: Vec<u8>,
    pub referred_columns: Vec<Vec<u8>>,
}

/// A table key of one of the four kinds.
pub enum SchemaKey {
    Primary(SchemaKeyDef),
    Unique(SchemaKeyDef),
    Plain(SchemaKeyDef),
    Foreign(SchemaForeignKey),
}

// ---------------------------------------------------------------------------
// Canonical ordering: everything is sorted by a byte key, compared
// lexicographically, with ties kept in input order.
// ---------------------------------------------------------------------------

/// Lexicographic order on byte strings; a proper prefix comes first. This
/// is the order of the store's own string comparisons on UTF-8 bytes.
pub open spec fn lex_le(a: Seq<u8>, b: Seq<u8>) -> bool
    decreases a.len(),
{
    if a.len() == 0 {
        true
    } else if b.len() == 0 {
        false
    } else if a[0] < b[0] {
        true
    } else if a[0] > b[0] {
        false
    } else {
        lex_le(a.drop_first(), b.drop_first())
    }
}

/// Stable ascending insertion of position `x` into the ordered positions
/// `t`: `x`, which arrived later, goes after every position whose key is
/// at most its own.
pub open spec fn insert_asc(t: Seq<int>, keys: Seq<Seq<u8>>, x: int) -> Seq<int>
    decreases t.len(),
{
    if t.len() == 0 {
        seq![x]
    } else if !lex_le(keys[t[0]], keys[x]) {
        seq![x] + t
    } else {
        seq![t[0]] + insert_asc(t.drop_first(), keys, x)
    }
}

/// The stable ascending order of the first `k` positions.
pub open spec fn sort_upto(keys: Seq<Seq<u8>>, k: nat) -> Seq<int>
    decreases k,
{
    if k == 0 {
        Seq::empty()
    } else {
        insert_asc(sort_upto(keys, (k - 1) as nat), keys, k - 1)
    }
}

/// The canonical visiting order of `keys`: positions sorted ascending by
/// key, equal keys kept in input order.
pub open spec fn sort_order(keys: Seq<Seq<u8>>) -> Seq<int> {
    sort_upto(keys, keys.len())
}

/// Decide `lex_le` on byte vectors.
fn lex_le_exec(a: &Vec<u8>, b: &Vec<u8>) -> (r: bool)
    ensures
        r == lex_le(a@, b@),
{
    let mut i: usize = 0;
    proof {
        assert(a@.skip(0) =~= a@);
        assert(b@.skip(0) =~= b@);
    }
    while i < a.len() && i < b.len()
        invariant
            i <= a@.len(),
            i <= b@.len(),
            lex_le(a@, b@) == lex_le(a@.skip(i as int), b@.skip(i as int)),
        decreases a@.len() - i,
    {
        proof {
            assert(a@.skip(i as int)[0] == a@[i as int]);
            assert(b@.skip(i as int)[0] == b@[i as int]);
            assert(a@.skip(i as int).drop_first() =~= a@.skip(i as int + 1));
            assert(b@.skip(i as int).drop_first() =~= b@.skip(i as int + 1));
        }
        if a[i] < b[i] {
            return true;
        }
        if a[i] > b[i] {
            return false;
        }
        i = i + 1;
    }
    proof {
        if i < a@.len() {
            assert(a@.skip(i as int).len() > 0);
            assert(b@.skip(i as int).len() == 0);
        }
    }
    i >= a.len()
}

/// Positional form of `insert_asc`: if the first `j` ordered positions
/// have keys at most `x`'s and the one at `j` (if any) does not, the
/// insertion lands exactly at `j`.
proof fn lemma_insert_asc_at(t: Seq<int>, keys: Seq<Seq<u8>>, x: int, j: int)
    requires
        0 <= j <= t.len(),
        forall|m: int| 0 <= m < j ==> lex_le(keys[#[trigger] t[m]], keys[x]),
        j < t.len() ==> !lex_le(keys[t[j]], keys[x]),
    ensures
        insert_asc(t, keys, x) == t.insert(j, x),
    decreases j,
{
    if j == 0 {
        assert(insert_asc(t, keys, x) =~= t.insert(0, x));
    } else {
        assert(lex_le(keys[t[0]], keys[x]));
        lemma_insert_asc_at(t.drop_first(), keys, x, j - 1);
        assert(insert_asc(t, keys, x) == seq![t[0]] + t.drop_first().insert(j - 1, x));
        assert(seq![t[0]] + t.drop_first().insert(j - 1, x) =~= t.insert(j, x));
    }
}

/// The ordered positions are positions: inserting keeps them in range.
proof fn lemma_insert_asc_range(t: Seq<int>, keys: Seq<Seq<u8>>, x: int, n: int)
    requires
        forall|m: int| 0 <= m < t.len() ==> 0 <= #[trigger] t[m] < n,
        0 <= x < n,
    ensures
        insert_asc(t, keys, x).len() == t.len() + 1,
        forall|m: int|
            0 <= m < insert_asc(t, keys, x).len() ==> 0 <= #[trigger] insert_asc(t, keys, x)[m]
                < n,
    decreases t.len(),
{
    if t.len() == 0 {
    } else if !lex_le(keys[t[0]], keys[x]) {
    } else {
        lemma_insert_asc_range(t.drop_first(), keys, x, n);
        let r = insert_asc(t, keys, x);
        assert(r == seq![t[0]] + insert_asc(t.drop_first(), keys, x));
        assert forall|m: int| 0 <= m < r.len() implies 0 <= #[trigger] r[m] < n by {
            if m > 0 {
                assert(r[m] == insert_asc(t.drop_first(), keys, x)[m - 1]);
            }
        }
    }
}

/// The canonical order visits positions of `keys` only, one each at most.
proof fn lemma_sort_upto_range(keys: Seq<Seq<u8>>, k: nat)
    requires
        k <= keys.len(),
    ensures
        sort_upto(keys, k).len() == k,
        forall|m: int|
            0 <= m < sort_upto(keys, k).len() ==> 0 <= #[trigger] sort_upto(keys, k)[m]
                < keys.len(),
    decreases k,
{
    if k > 0 {
        lemma_sort_upto_range(keys, (k - 1) as nat);
        lemma_insert_asc_range(sort_upto(keys, (k - 1) as nat), keys, k - 1, keys.len() as int);
    }
}

/// Compute the canonical visiting order of `keys`.
fn sort_indices(keys: &Vec<Vec<u8>>) -> (r: Vec<usize>)
    ensures
        r@.map_values(|u: usize| u as int) == sort_order(keys@.map_values(|v: Vec<u8>| v@)),
        r@.len() == keys@.len(),
        forall|m: int| 0 <= m < r@.len() ==> (#[trigger] r@[m]) < keys@.len(),
    decreases keys@.len(),
{
    let ghost kv = keys@.map_values(|v: Vec<u8>| v@);
    let mut order: Vec<usize> = Vec::new();
    let mut k: usize = 0;
    while k < keys.len()
        invariant
            k <= keys@.len(),
            kv == keys@.map_values(|v: Vec<u8>| v@),
            forall|m: int| 0 <= m < order@.len() ==> (#[trigger] order@[m]) < keys@.len(),
            order@.map_values(|u: usize| u as int) == sort_upto(kv, k as nat),
        decreases keys@.len() - k,
    {
        let mut j: usize = 0;
        while j < order.len() && lex_le_exec(&keys[order[j]], &keys[k])
            invariant
                j <= order@.len(),
                k < keys@.len(),
                kv == keys@.map_values(|v: Vec<u8>| v@),
                forall|m: int| 0 <= m < order@.len() ==> (#[trigger] order@[m]) < keys@.len(),
                forall|m: int| 0 <= m < j ==> lex_le(kv[(#[trigger] order@[m]) as int], kv[k as int]),
            decreases order@.len() - j,
        {
            j = j + 1;
        }
        let ghost prev_order = order@;
        let ghost prev_iv = order@.map_values(|u: usize| u as int);
        order.insert(j, k);
        proof {
            assert forall|m: int| 0 <= m < j implies lex_le(
                kv[#[trigger] prev_iv[m]],
                kv[k as int],
            ) by {
                assert(lex_le(kv[prev_order[m] as int], kv[k as int]));
            }
            lemma_insert_asc_at(prev_iv, kv, k as int, j as int);
            prev_order.insert_ensures(j as int, k);
            prev_iv.insert_ensures(j as int, k as int);
            assert(order@.map_values(|u: usize| u as int) =~= prev_iv.insert(j as int, k as int));
        }
        k = k + 1;
    }
    proof {
        lemma_sort_upto_range(kv, kv.len());
    }
    order
}

// ---------------------------------------------------------------------------
// Canonical encoding: the byte stream that is digested. Strings are their
// bytes followed by a 0xff sentinel; integers are little-endian; length
// prefixes are 64-bit; an optional name is an 8-byte presence word and,
// when present, the name itself.
// ---------------------------------------------------------------------------

/// A string's contribution: its bytes, closed by a sentinel no UTF-8
/// string contains.
pub open spec fn str_term(s: Seq<u8>) -> Seq<u8> {
    s + seq![0xffu8]
}

/// A tag naming a variant of the store's structure.
pub open spec fn tag(s: &str) -> Seq<u8> {
    str_term(s.spec_bytes())
}

/// An optional name: an 8-byte presence word, then the name when present.
pub open spec fn opt_name_bytes(o: Option<Vec<u8>>) -> Seq<u8> {
    match o {
        Option::None => vstd::bytes::spec_u64_to_le_bytes(0u64),
        Option::Some(v) => vstd::bytes::spec_u64_to_le_bytes(1u64) + str_term(v@),
    }
}

/// The identity visiting order `0, 1, .., n-1`.
pub open spec fn idx_seq(n: nat) -> Seq<int> {
    Seq::new(n, |m: int| m)
}

/// The encodings `enc`, concatenated in the visiting order `order`.
pub open spec fn cat_in_order(enc: Seq<Seq<u8>>, order: Seq<int>) -> Seq<u8>
    decreases order.len(),
{
    if order.len() == 0 {
        Seq::empty()
    } else {
        enc[order[0]] + cat_in_order(enc, order.drop_first())
    }
}

/// Visiting one more position appends its encoding.
proof fn lemma_cat_snoc(enc: Seq<Seq<u8>>, order: Seq<int>, x: int)
    ensures
        cat_in_order(enc, order.push(x)) == cat_in_order(enc, order) + enc[x],
    decreases order.len(),
{
    if order.len() == 0 {
        assert(order.push(x).drop_first() =~= order);
        assert(cat_in_order(enc, order.push(x)) =~= cat_in_order(enc, order) + enc[x]);
    } else {
        assert(order.push(x).drop_first() =~= order.drop_first().push(x));
        lemma_cat_snoc(enc, order.drop_first(), x);
        assert(cat_in_order(enc, order.push(x)) =~= cat_in_order(enc, order) + enc[x]);
    }
}

/// A name list: each name, closed by the sentinel, in canonical order.
pub open spec fn sorted_names_bytes(names: Seq<Seq<u8>>) -> Seq<u8> {
    cat_in_order(names.map_values(|n: Seq<u8>| str_term(n)), sort_order(names))
}

/// A default-value literal's contribution.
pub open spec fn literal_bytes(l: SchemaLiteral) -> Seq<u8> {
    match l {
        SchemaLiteral::Bool(b) => tag("Bool") + seq![(if b { 1u8 } else { 0u8 })],
        SchemaLiteral::Null => tag("Null"),
        SchemaLiteral::Integer(x) => tag("Integer") + vstd::bytes::spec_u64_to_le_bytes(x),
        SchemaLiteral::Double(x) => tag("Double") + vstd::bytes::spec_u64_to_le_bytes(x),
        SchemaLiteral::UuidGenerateV4 => tag("UuidGenerateV4"),
        SchemaLiteral::Uuid(v) => tag("Uuid") + vstd::bytes::spec_u64_to_le_bytes(
            v@.len() as u64,
        ) + v@,
        SchemaLiteral::Text(v) => tag("String") + str_term(v@),
        SchemaLiteral::Blob(v) => tag("Blob") + vstd::bytes::spec_u64_to_le_bytes(
            v@.len() as u64,
        ) + v@,
        SchemaLiteral::CurrentTime => tag("CurrentTime"),
        SchemaLiteral::CurrentDate => tag("CurrentDate"),
        SchemaLiteral::CurrentTimestamp => tag("CurrentTimestamp"),
        SchemaLiteral::ArrayInt(v) => tag("ArrayInt") + vstd::bytes::spec_u64_to_le_bytes(
            v@.len() as u64,
        ) + cat_in_order(
            v@.map_values(|x: u64| vstd::bytes::spec_u64_to_le_bytes(x)),
            idx_seq(v@.len()),
        ),
        SchemaLiteral::ArrayFloat(v) => tag("ArrayFloat") + cat_in_order(
            v@.map_values(|x: u64| vstd::bytes::spec_u64_to_le_bytes(x)),
            idx_seq(v@.len()),
        ),
        SchemaLiteral::ArrayText(v) => tag("ArrayString") + vstd::bytes::spec_u64_to_le_bytes(
            v@.len() as u64,
        ) + cat_in_order(
            v@.map_values(|w: Vec<u8>| str_term(w@)),
            idx_seq(v@.len()),
        ),
    }
}

/// A capacity's contribution.
pub open spec fn cap_bytes(c: Option<SchemaCapacity>) -> Seq<u8> {
    match c {
        Option::None => tag("None"),
        Option::Some(SchemaCapacity::Limit(x)) => tag("Limit")
            + vstd::bytes::spec_u32_to_le_bytes(x),
        Option::Some(SchemaCapacity::Range(x, y)) => tag("Range")
            + vstd::bytes::spec_u32_to_le_bytes(x) + vstd::bytes::spec_u32_to_le_bytes(y),
    }
}

/// A constraint's contribution.
pub open spec fn constraint_bytes(c: SchemaConstraint) -> Seq<u8> {
    match c {
        SchemaConstraint::NotNull => tag("NotNull"),
        SchemaConstraint::DefaultValue(l) => tag("DefaultValue") + literal_bytes(l),
        SchemaConstraint::AutoIncrement => tag("AutoIncrement"),
    }
}

/// A constraint's sort key: not-null first, then defaults, then
/// auto-increment.
pub open spec fn constraint_rank(c: SchemaConstraint) -> Seq<u8> {
    match c {
        SchemaConstraint::NotNull => seq![0u8],
        SchemaConstraint::DefaultValue(_) => seq![1u8],
        SchemaConstraint::AutoIncrement => seq![2u8],
    }
}

/// A column's contribution: name, type name, capacity, and its constraints
/// in canonical order.
pub open spec fn column_bytes(c: SchemaColumn) -> Seq<u8> {
    str_term(c.name@) + str_term(c.sql_type@) + cap_bytes(c.capacity) + cat_in_order(
        c.constraints@.map_values(|x: SchemaConstraint| constraint_bytes(x)),
        sort_order(c.constraints@.map_values(|x: SchemaConstraint| constraint_rank(x))),
    )
}

/// A key's sort key: the kind's rank, then its optional name, an absent
/// name ordering before any present one.
pub open spec fn key_rank(k: SchemaKey) -> Seq<u8> {
    match k {
        SchemaKey::Primary(d) => seq![0u8] + opt_name_rank(d.name),
        SchemaKey::Unique(d) => seq![1u8] + opt_name_rank(d.name),
        SchemaKey::Plain(d) => seq![2u8] + opt_name_rank(d.name),
        SchemaKey::Foreign(f) => seq![3u8] + opt_name_rank(f.name),
    }
}

/// The ordering contribution of an optional name.
pub open spec fn opt_name_rank(o: Option<Vec<u8>>) -> Seq<u8> {
    match o {
        Option::None => seq![0u8],
        Option::Some(v) => seq![1u8] + v@,
    }
}

/// A key's contribution: its kind's tag, its optional name, and its column
/// names in canonical order; a foreign key adds the referred table and its
/// columns.
pub open spec fn key_bytes(k: SchemaKey) -> Seq<u8> {
    match k {
        SchemaKey::Primary(d) => tag("PrimaryKey") + opt_name_bytes(d.name)
            + sorted_names_bytes(d.columns@.map_values(|v: Vec<u8>| v@)),
        SchemaKey::Unique(d) => tag("UniqueKey") + opt_name_bytes(d.name) + sorted_names_bytes(
            d.columns@.map_values(|v: Vec<u8>| v@),
        ),
        SchemaKey::Plain(d) => tag("Key") + opt_name_bytes(d.name) + sorted_names_bytes(
            d.columns@.map_values(|v: Vec<u8>| v@),
        ),
        SchemaKey::Foreign(f) => tag("ForeignKey") + opt_name_bytes(f.name)
            + sorted_names_bytes(f.columns@.map_values(|v: Vec<u8>| v@)) + str_term(
            f.foreign_table@,
        ) + sorted_names_bytes(f.referred_columns@.map_values(|v: Vec<u8>| v@)),
    }
}

/// A table's contribution: its bare name, its columns in canonical order,
/// whether it is a view, and its keys in canonical order.
pub open spec fn table_bytes(t: SchemaTable) -> Seq<u8> {
    str_term(t.name@) + cat_in_order(
        t.columns@.map_values(|c: SchemaColumn| column_bytes(c)),
        sort_order(t.columns@.map_values(|c: SchemaColumn| c.name@)),
    ) + seq![(if t.is_view { 1u8 } else { 0u8 })] + cat_in_order(
        t.keys@.map_values(|k: SchemaKey| key_bytes(k)),
        sort_order(t.keys@.map_values(|k: SchemaKey| key_rank(k))),
    )
}

/// The whole store's canonical byte stream: every table's contribution, in
/// ascending order of schema-qualified name.
pub open spec fn schema_bytes(ts: Seq<SchemaTable>) -> Seq<u8> {
    cat_in_order(
        ts.map_values(|t: SchemaTable| table_bytes(t)),
        sort_order(ts.map_values(|t: SchemaTable| t.complete_name@)),
    )
}

// ---------------------------------------------------------------------------
// Building the stream
// ---------------------------------------------------------------------------

/// Append a byte slice to the stream.
fn push_bytes(out: &mut Vec<u8>, b: &[u8])
    ensures
        final(out)@ == old(out)@ + b@,
{
    let mut m: usize = 0;
    while m < b.len()
        invariant
            m <= b@.len(),
            out@ == old(out)@ + b@.take(m as int),
        decreases b@.len() - m,
    {
        out.push(b[m]);
        proof {
            assert(old(out)@ + b@.take(m as int + 1) =~= (old(out)@ + b@.take(m as int)).push(
                b@[m as int],
            ));
        }
        m = m + 1;
    }
    proof {
        assert(b@.take(b@.len() as int) =~= b@);
    }
}

/// Append one byte.
fn push_byte(out: &mut Vec<u8>, x: u8)
    ensures
        final(out)@ == old(out)@ + seq![x],
{
    out.push(x);
    proof {
        assert(old(out)@.push(x) =~= old(out)@ + seq![x]);
    }
}

/// A fresh copy of a byte vector.
fn copy_bytes(v: &Vec<u8>) -> (r: Vec<u8>)
    ensures
        r@ == v@,
{
    let mut r: Vec<u8> = Vec::new();
    push_bytes(&mut r, v.as_slice());
    proof {
        assert(Seq::<u8>::empty() + v@ =~= v@);
    }
    r
}

/// Append a tag.
fn push_tag(out: &mut Vec<u8>, s: &str)
    ensures
        final(out)@ == old(out)@ + tag(s),
{
    let b = s.as_bytes();
    push_bytes(out, b);
    push_byte(out, 0xff);
    proof {
        assert((old(out)@ + s.spec_bytes()) + seq![0xffu8] =~= old(out)@ + tag(s));
    }
}

/// Append a string's bytes and the closing sentinel.
fn push_str_term(out: &mut Vec<u8>, v: &Vec<u8>)
    ensures
        final(out)@ == old(out)@ + str_term(v@),
{
    push_bytes(out, v.as_slice());
    push_byte(out, 0xff);
    proof {
        assert((old(out)@ + v@) + seq![0xffu8] =~= old(out)@ + str_term(v@));
    }
}

/// Append a 64-bit value, little endian.
fn push_u64(out: &mut Vec<u8>, x: u64)
    ensures
        final(out)@ == old(out)@ + vstd::bytes::spec_u64_to_le_bytes(x),
{
    let b = vstd::bytes::u64_to_le_bytes(x);
    push_bytes(out, b.as_slice());
}

/// Append a 32-bit value, little endian.
fn push_u32(out: &mut Vec<u8>, x: u32)
    ensures
        final(out)@ == old(out)@ + vstd::bytes::spec_u32_to_le_bytes(x),
{
    let b = vstd::bytes::u32_to_le_bytes(x);
    push_bytes(out, b.as_slice());
}

/// Append an optional name.
fn push_opt_name(out: &mut Vec<u8>, o: &Option<Vec<u8>>)
    ensures
        final(out)@ == old(out)@ + opt_name_bytes(*o),
{
    match o {
        Option::None => {
            push_u64(out, 0);
        },
        Option::Some(v) => {
            push_u64(out, 1);
            push_str_term(out, v);
            proof {
                assert((old(out)@ + vstd::bytes::spec_u64_to_le_bytes(1u64)) + str_term(v@)
                    =~= old(out)@ + opt_name_bytes(Option::Some(*v)));
            }
        },
    }
}

/// Append each 64-bit element in input order.
fn push_u64s(out: &mut Vec<u8>, v: &Vec<u64>)
    ensures
        final(out)@ == old(out)@ + cat_in_order(
            v@.map_values(|x: u64| vstd::bytes::spec_u64_to_le_bytes(x)),
            idx_seq(v@.len()),
        ),
{
    let ghost enc = v@.map_values(|x: u64| vstd::bytes::spec_u64_to_le_bytes(x));
    let mut m: usize = 0;
    proof {
        assert(idx_seq(0) =~= Seq::<int>::empty());
    }
    while m < v.len()
        invariant
            m <= v@.len(),
            enc == v@.map_values(|x: u64| vstd::bytes::spec_u64_to_le_bytes(x)),
            out@ == old(out)@ + cat_in_order(enc, idx_seq(m as nat)),
        decreases v@.len() - m,
    {
        push_u64(out, v[m]);
        proof {
            assert(idx_seq(m as nat + 1) =~= idx_seq(m as nat).push(m as int));
            lemma_cat_snoc(enc, idx_seq(m as nat), m as int);
            assert((old(out)@ + cat_in_order(enc, idx_seq(m as nat))) + enc[m as int]
                =~= old(out)@ + cat_in_order(enc, idx_seq(m as nat + 1)));
        }
        m = m + 1;
    }
}

/// Append each string element, in input order, with its sentinel.
fn push_texts(out: &mut Vec<u8>, v: &Vec<Vec<u8>>)
    ensures
        final(out)@ == old(out)@ + cat_in_order(
            v@.map_values(|w: Vec<u8>| str_term(w@)),
            idx_seq(v@.len()),
        ),
{
    let ghost enc = v@.map_values(|w: Vec<u8>| str_term(w@));
    let mut m: usize = 0;
    proof {
        assert(idx_seq(0) =~= Seq::<int>::empty());
    }
    while m < v.len()
        invariant
            m <= v@.len(),
            enc == v@.map_values(|w: Vec<u8>| str_term(w@)),
            out@ == old(out)@ + cat_in_order(enc, idx_seq(m as nat)),
        decreases v@.len() - m,
    {
        push_str_term(out, &v[m]);
        proof {
            assert(idx_seq(m as nat + 1) =~= idx_seq(m as nat).push(m as int));
            lemma_cat_snoc(enc, idx_seq(m as nat), m as int);
            assert((old(out)@ + cat_in_order(enc, idx_seq(m as nat))) + enc[m as int]
                =~= old(out)@ + cat_in_order(enc, idx_seq(m as nat + 1)));
        }
        m = m + 1;
    }
}

/// Append a literal's contribution.
fn push_literal(out: &mut Vec<u8>, l: &SchemaLiteral)
    ensures
        final(out)@ == old(out)@ + literal_bytes(*l),
{
    match l {
        SchemaLiteral::Bool(b) => {
            push_tag(out, "Bool");
            push_byte(out, if *b { 1 } else { 0 });
            proof {
                assert((old(out)@ + tag("Bool")) + seq![(if *b { 1u8 } else { 0u8 })]
                    =~= old(out)@ + literal_bytes(*l));
            }
        },
        SchemaLiteral::Null => {
            push_tag(out, "Null");
        },
        SchemaLiteral::Integer(x) => {
            push_tag(out, "Integer");
            push_u64(out, *x);
            proof {
                assert((old(out)@ + tag("Integer")) + vstd::bytes::spec_u64_to_le_bytes(*x)
                    =~= old(out)@ + literal_bytes(*l));
            }
        },
        SchemaLiteral::Double(x) => {
            push_tag(out, "Double");
            push_u64(out, *x);
            proof {
                assert((old(out)@ + tag("Double")) + vstd::bytes::spec_u64_to_le_bytes(*x)
                    =~= old(out)@ + literal_bytes(*l));
            }
        },
        SchemaLiteral::UuidGenerateV4 => {
            push_tag(out, "UuidGenerateV4");
        },
        SchemaLiteral::Uuid(v) => {
            push_tag(out, "Uuid");
            push_u64(out, v.len() as u64);
            push_bytes(out, v.as_slice());
            proof {
                assert(((old(out)@ + tag("Uuid")) + vstd::bytes::spec_u64_to_le_bytes(
                    v@.len() as u64,
                )) + v@ =~= old(out)@ + literal_bytes(*l));
            }
        },
        SchemaLiteral::Text(v) => {
            push_tag(out, "String");
            push_str_term(out, v);
            proof {
                assert((old(out)@ + tag("String")) + str_term(v@) =~= old(out)@ + literal_bytes(
                    *l,
                ));
            }
        },
        SchemaLiteral::Blob(v) => {
            push_tag(out, "Blob");
            push_u64(out, v.len() as u64);
            push_bytes(out, v.as_slice());
            proof {
                assert(((old(out)@ + tag("Blob")) + vstd::bytes::spec_u64_to_le_bytes(
                    v@.len() as u64,
                )) + v@ =~= old(out)@ + literal_bytes(*l));
            }
        },
        SchemaLiteral::CurrentTime => {
            push_tag(out, "CurrentTime");
        },
        SchemaLiteral::CurrentDate => {
            push_tag(out, "CurrentDate");
        },
        SchemaLiteral::CurrentTimestamp => {
            push_tag(out, "CurrentTimestamp");
        },
        SchemaLiteral::ArrayInt(v) => {
            push_tag(out, "ArrayInt");
            push_u64(out, v.len() as u64);
            push_u64s(out, v);
            proof {
                assert(((old(out)@ + tag("ArrayInt")) + vstd::bytes::spec_u64_to_le_bytes(
                    v@.len() as u64,
                )) + cat_in_order(
                    v@.map_values(|x: u64| vstd::bytes::spec_u64_to_le_bytes(x)),
                    idx_seq(v@.len()),
                ) =~= old(out)@ + literal_bytes(*l));
            }
        },
        SchemaLiteral::ArrayFloat(v) => {
            push_tag(out, "ArrayFloat");
            push_u64s(out, v);
            proof {
                assert((old(out)@ + tag("ArrayFloat")) + cat_in_order(
                    v@.map_values(|x: u64| vstd::bytes::spec_u64_to_le_bytes(x)),
                    idx_seq(v@.len()),
                ) =~= old(out)@ + literal_bytes(*l));
            }
        },
        SchemaLiteral::ArrayText(v) => {
            push_tag(out, "ArrayString");
            push_u64(out, v.len() as u64);
            push_texts(out, v);
            proof {
                assert(((old(out)@ + tag("ArrayString")) + vstd::bytes::spec_u64_to_le_bytes(
                    v@.len() as u64,
                )) + cat_in_order(
                    v@.map_values(|w: Vec<u8>| str_term(w@)),
                    idx_seq(v@.len()),
                ) =~= old(out)@ + literal_bytes(*l));
            }
        },
    }
}

/// Append a capacity's contribution.
fn push_capacity(out: &mut Vec<u8>, c: &Option<SchemaCapacity>)
    ensures
        final(out)@ == old(out)@ + cap_bytes(*c),
{
    match c {
        Option::None => {
            push_tag(out, "None");
        },
        Option::Some(SchemaCapacity::Limit(x)) => {
            push_tag(out, "Limit");
            push_u32(out, *x);
            proof {
                assert((old(out)@ + tag("Limit")) + vstd::bytes::spec_u32_to_le_bytes(*x)
                    =~= old(out)@ + cap_bytes(*c));
            }
        },
        Option::Some(SchemaCapacity::Range(x, y)) => {
            push_tag(out, "Range");
            push_u32(out, *x);
            push_u32(out, *y);
            proof {
                assert(((old(out)@ + tag("Range")) + vstd::bytes::spec_u32_to_le_bytes(*x))
                    + vstd::bytes::spec_u32_to_le_bytes(*y) =~= old(out)@ + cap_bytes(*c));
            }
        },
    }
}

/// Append a constraint's contribution.
fn push_constraint(out: &mut Vec<u8>, c: &SchemaConstraint)
    ensures
        final(out)@ == old(out)@ + constraint_bytes(*c),
{
    match c {
        SchemaConstraint::NotNull => {
            push_tag(out, "NotNull");
        },
        SchemaConstraint::DefaultValue(l) => {
            push_tag(out, "DefaultValue");
            push_literal(out, l);
            proof {
                assert((old(out)@ + tag("DefaultValue")) + literal_bytes(*l) =~= old(out)@
                    + constraint_bytes(*c));
            }
        },
        SchemaConstraint::AutoIncrement => {
            push_tag(out, "AutoIncrement");
        },
    }
}

/// The constraint's sort key as a vector.
fn constraint_rank_vec(c: &SchemaConstraint) -> (r: Vec<u8>)
    ensures
        r@ == constraint_rank(*c),
{
    match c {
        SchemaConstraint::NotNull => vec![0u8],
        SchemaConstraint::DefaultValue(_) => vec![1u8],
        SchemaConstraint::AutoIncrement => vec![2u8],
    }
}

/// The key's sort key as a vector.
fn key_rank_vec(k: &SchemaKey) -> (r: Vec<u8>)
    ensures
        r@ == key_rank(*k),
{
    let mut r: Vec<u8> = Vec::new();
    let name: &Option<Vec<u8>> = match k {
        SchemaKey::Primary(d) => {
            r.push(0u8);
            &d.name
        },
        SchemaKey::Unique(d) => {
            r.push(1u8);
            &d.name
        },
        SchemaKey::Plain(d) => {
            r.push(2u8);
            &d.name
        },
        SchemaKey::Foreign(f) => {
            r.push(3u8);
            &f.name
        },
    };
    match name {
        Option::None => {
            r.push(0u8);
        },
        Option::Some(v) => {
            r.push(1u8);
            push_bytes(&mut r, v.as_slice());
        },
    }
    proof {
        assert(r@ =~= key_rank(*k));
    }
    r
}

/// Append a name list in canonical order.
fn push_sorted_names(out: &mut Vec<u8>, names: &Vec<Vec<u8>>)
    ensures
        final(out)@ == old(out)@ + sorted_names_bytes(names@.map_values(|v: Vec<u8>| v@)),
{
    let ghost nv = names@.map_values(|v: Vec<u8>| v@);
    let ghost enc = nv.map_values(|n: Seq<u8>| str_term(n));
    let order = sort_indices(names);
    let ghost ov = order@.map_values(|u: usize| u as int);
    let mut m: usize = 0;
    proof {
        assert(ov.take(0) =~= Seq::<int>::empty());
    }
    while m < order.len()
        invariant
            m <= order@.len(),
            nv == names@.map_values(|v: Vec<u8>| v@),
            enc == nv.map_values(|n: Seq<u8>| str_term(n)),
            ov == order@.map_values(|u: usize| u as int),
            ov == sort_order(nv),
            order@.len() == names@.len(),
            forall|q: int| 0 <= q < order@.len() ==> (#[trigger] order@[q]) < names@.len(),
            out@ == old(out)@ + cat_in_order(enc, ov.take(m as int)),
        decreases order@.len() - m,
    {
        push_str_term(out, &names[order[m]]);
        proof {
            assert(ov.take(m as int + 1) =~= ov.take(m as int).push(ov[m as int]));
            lemma_cat_snoc(enc, ov.take(m as int), ov[m as int]);
            assert(enc[ov[m as int]] == str_term(names@[order@[m as int] as int]@));
            assert((old(out)@ + cat_in_order(enc, ov.take(m as int))) + enc[ov[m as int]]
                =~= old(out)@ + cat_in_order(enc, ov.take(m as int + 1)));
        }
        m = m + 1;
    }
    proof {
        assert(ov.take(ov.len() as int) =~= ov);
    }
}

/// Append a column's contribution.
fn push_column(out: &mut Vec<u8>, c: &SchemaColumn)
    ensures
        final(out)@ == old(out)@ + column_bytes(*c),
{
    push_str_term(out, &c.name);
    push_str_term(out, &c.sql_type);
    push_capacity(out, &c.capacity);
    let ghost base = out@;

    // The constraints, in canonical order of their ranks.
    let ghost crk = c.constraints@.map_values(|x: SchemaConstraint| constraint_rank(x));
    let ghost enc = c.constraints@.map_values(|x: SchemaConstraint| constraint_bytes(x));
    let mut rk: Vec<Vec<u8>> = Vec::new();
    let mut m: usize = 0;
    while m < c.constraints.len()
        invariant
            m <= c.constraints@.len(),
            crk == c.constraints@.map_values(|x: SchemaConstraint| constraint_rank(x)),
            rk@.len() == m,
            rk@.map_values(|v: Vec<u8>| v@) == crk.take(m as int),
        decreases c.constraints@.len() - m,
    {
        let ghost prev = rk@;
        rk.push(constraint_rank_vec(&c.constraints[m]));
        proof {
            assert(rk@.map_values(|v: Vec<u8>| v@) =~= prev.map_values(|v: Vec<u8>| v@).push(
                crk[m as int],
            ));
            assert(crk.take(m as int + 1) =~= crk.take(m as int).push(crk[m as int]));
        }
        m = m + 1;
    }
    proof {
        assert(crk.take(crk.len() as int) =~= crk);
        assert(rk@.map_values(|v: Vec<u8>| v@) == crk);
    }
    let order = sort_indices(&rk);
    let ghost ov = order@.map_values(|u: usize| u as int);
    let mut m2: usize = 0;
    proof {
        assert(ov.take(0) =~= Seq::<int>::empty());
    }
    while m2 < order.len()
        invariant
            m2 <= order@.len(),
            crk == c.constraints@.map_values(|x: SchemaConstraint| constraint_rank(x)),
            enc == c.constraints@.map_values(|x: SchemaConstraint| constraint_bytes(x)),
            ov == order@.map_values(|u: usize| u as int),
            ov == sort_order(crk),
            order@.len() == c.constraints@.len(),
            forall|q: int| 0 <= q < order@.len() ==> (#[trigger] order@[q]) < c.constraints@.len(),
            out@ == base + cat_in_order(enc, ov.take(m2 as int)),
        decreases order@.len() - m2,
    {
        push_constraint(out, &c.constraints[order[m2]]);
        proof {
            assert(ov.take(m2 as int + 1) =~= ov.take(m2 as int).push(ov[m2 as int]));
            lemma_cat_snoc(enc, ov.take(m2 as int), ov[m2 as int]);
            assert(enc[ov[m2 as int]] == constraint_bytes(
                c.constraints@[order@[m2 as int] as int],
            ));
            assert((base + cat_in_order(enc, ov.take(m2 as int))) + enc[ov[m2 as int]] =~= base
                + cat_in_order(enc, ov.take(m2 as int + 1)));
        }
        m2 = m2 + 1;
    }
    proof {
        assert(ov.take(ov.len() as int) =~= ov);
        assert(out@ =~= old(out)@ + column_bytes(*c));
    }
}

/// Append a key's contribution.
fn push_key(out: &mut Vec<u8>, k: &SchemaKey)
    ensures
        final(out)@ == old(out)@ + key_bytes(*k),
{
    match k {
        SchemaKey::Primary(d) => {
            push_tag(out, "PrimaryKey");
            push_opt_name(out, &d.name);
            push_sorted_names(out, &d.columns);
            proof {
                assert(out@ =~= old(out)@ + key_bytes(*k));
            }
        },
        SchemaKey::Unique(d) => {
            push_tag(out, "UniqueKey");
            push_opt_name(out, &d.name);
            push_sorted_names(out, &d.columns);
            proof {
                assert(out@ =~= old(out)@ + key_bytes(*k));
            }
        },
        SchemaKey::Plain(d) => {
            push_tag(out, "Key");
            push_opt_name(out, &d.name);
            push_sorted_names(out, &d.columns);
            proof {
                assert(out@ =~= old(out)@ + key_bytes(*k));
            }
        },
        SchemaKey::Foreign(f) => {
            push_tag(out, "ForeignKey");
            push_opt_name(out, &f.name);
            push_sorted_names(out, &f.columns);
            push_str_term(out, &f.foreign_table);
            push_sorted_names(out, &f.referred_columns);
            proof {
                assert(out@ =~= old(out)@ + key_bytes(*k));
            }
        },
    }
}

/// Append a table's contribution.
fn push_table(out: &mut Vec<u8>, t: &SchemaTable)
    ensures
        final(out)@ == old(out)@ + table_bytes(*t),
{
    push_str_term(out, &t.name);
    let ghost base1 = out@;

    // The columns, in canonical order of their names.
    let ghost cnk = t.columns@.map_values(|c: SchemaColumn| c.name@);
    let ghost cenc = t.columns@.map_values(|c: SchemaColumn| column_bytes(c));
    let mut nk: Vec<Vec<u8>> = Vec::new();
    let mut m: usize = 0;
    while m < t.columns.len()
        invariant
            m <= t.columns@.len(),
            cnk == t.columns@.map_values(|c: SchemaColumn| c.name@),
            nk@.len() == m,
            nk@.map_values(|v: Vec<u8>| v@) == cnk.take(m as int),
        decreases t.columns@.len() - m,
    {
        let ghost prev = nk@;
        nk.push(copy_bytes(&t.columns[m].name));
        proof {
            assert(nk@.map_values(|v: Vec<u8>| v@) =~= prev.map_values(|v: Vec<u8>| v@).push(
                cnk[m as int],
            ));
            assert(cnk.take(m as int + 1) =~= cnk.take(m as int).push(cnk[m as int]));
        }
        m = m + 1;
    }
    proof {
        assert(cnk.take(cnk.len() as int) =~= cnk);
        assert(nk@.map_values(|v: Vec<u8>| v@) == cnk);
    }
    let order = sort_indices(&nk);
    let ghost ov = order@.map_values(|u: usize| u as int);
    let mut m2: usize = 0;
    proof {
        assert(ov.take(0) =~= Seq::<int>::empty());
    }
    while m2 < order.len()
        invariant
            m2 <= order@.len(),
            cnk == t.columns@.map_values(|c: SchemaColumn| c.name@),
            cenc == t.columns@.map_values(|c: SchemaColumn| column_bytes(c)),
            ov == order@.map_values(|u: usize| u as int),
            ov == sort_order(cnk),
            order@.len() == t.columns@.len(),
            forall|q: int| 0 <= q < order@.len() ==> (#[trigger] order@[q]) < t.columns@.len(),
            out@ == base1 + cat_in_order(cenc, ov.take(m2 as int)),
        decreases order@.len() - m2,
    {
        push_column(out, &t.columns[order[m2]]);
        proof {
            assert(ov.take(m2 as int + 1) =~= ov.take(m2 as int).push(ov[m2 as int]));
            lemma_cat_snoc(cenc, ov.take(m2 as int), ov[m2 as int]);
            assert(cenc[ov[m2 as int]] == column_bytes(t.columns@[order@[m2 as int] as int]));
            assert((base1 + cat_in_order(cenc, ov.take(m2 as int))) + cenc[ov[m2 as int]]
                =~= base1 + cat_in_order(cenc, ov.take(m2 as int + 1)));
        }
        m2 = m2 + 1;
    }
    proof {
        assert(ov.take(ov.len() as int) =~= ov);
    }

    push_byte(out, if t.is_view { 1 } else { 0 });
    let ghost base2 = out@;

    // The keys, in canonical order of kind and name.
    let ghost krk = t.keys@.map_values(|k: SchemaKey| key_rank(k));
    let ghost kenc = t.keys@.map_values(|k: SchemaKey| key_bytes(k));
    let mut kk: Vec<Vec<u8>> = Vec::new();
    let mut m3: usize = 0;
    while m3 < t.keys.len()
        invariant
            m3 <= t.keys@.len(),
            krk == t.keys@.map_values(|k: SchemaKey| key_rank(k)),
            kk@.len() == m3,
            kk@.map_values(|v: Vec<u8>| v@) == krk.take(m3 as int),
        decreases t.keys@.len() - m3,
    {
        let ghost prev = kk@;
        kk.push(key_rank_vec(&t.keys[m3]));
        proof {
            assert(kk@.map_values(|v: Vec<u8>| v@) =~= prev.map_values(|v: Vec<u8>| v@).push(
                krk[m3 as int],
            ));
            assert(krk.take(m3 as int + 1) =~= krk.take(m3 as int).push(krk[m3 as int]));
        }
        m3 = m3 + 1;
    }
    proof {
        assert(krk.take(krk.len() as int) =~= krk);
        assert(kk@.map_values(|v: Vec<u8>| v@) == krk);
    }
    let order2 = sort_indices(&kk);
    let ghost ov2 = order2@.map_values(|u: usize| u as int);
    let mut m4: usize = 0;
    proof {
        assert(ov2.take(0) =~= Seq::<int>::empty());
    }
    while m4 < order2.len()
        invariant
            m4 <= order2@.len(),
            krk == t.keys@.map_values(|k: SchemaKey| key_rank(k)),
            kenc == t.keys@.map_values(|k: SchemaKey| key_bytes(k)),
            ov2 == order2@.map_values(|u: usize| u as int),
            ov2 == sort_order(krk),
            order2@.len() == t.keys@.len(),
            forall|q: int| 0 <= q < order2@.len() ==> (#[trigger] order2@[q]) < t.keys@.len(),
            out@ == base2 + cat_in_order(kenc, ov2.take(m4 as int)),
        decreases order2@.len() - m4,
    {
        push_key(out, &t.keys[order2[m4]]);
        proof {
            assert(ov2.take(m4 as int + 1) =~= ov2.take(m4 as int).push(ov2[m4 as int]));
            lemma_cat_snoc(kenc, ov2.take(m4 as int), ov2[m4 as int]);
            assert(kenc[ov2[m4 as int]] == key_bytes(t.keys@[order2@[m4 as int] as int]));
            assert((base2 + cat_in_order(kenc, ov2.take(m4 as int))) + kenc[ov2[m4 as int]]
                =~= base2 + cat_in_order(kenc, ov2.take(m4 as int + 1)));
        }
        m4 = m4 + 1;
    }
    proof {
        assert(ov2.take(ov2.len() as int) =~= ov2);
        assert(out@ =~= old(out)@ + table_bytes(*t));
    }
}

// ---------------------------------------------------------------------------
// The digest and the acceptance check
// ---------------------------------------------------------------------------

/// The digest of a canonical byte stream. What SipHash-2-4 returns takes
/// pages to state, so the result only carries a name; it is a function of
/// the bytes alone.
pub uninterp spec fn siphash_of(bytes: Seq<u8>) -> u64;

/// Relies on core::hash::SipHasher: a SipHash-2-4 hasher with a zero key,
/// whose digest depends on the written byte stream alone.
#[verifier::external_body]
#[allow(deprecated)]
fn siphash(bytes: &Vec<u8>) -> (r: u64)
    ensures
        r == siphash_of(bytes@),
{
    let mut h = core::hash::SipHasher::new();
    h.write(bytes.as_slice());
    h.finish()
}

/// The structural digest of a store layout: every table reduced to the
/// canonical byte stream, then digested.
pub fn hash_schema(tables: &Vec<SchemaTable>) -> (r: u64)
    ensures
        r == siphash_of(schema_bytes(tables@)),
{
    let ghost tnk = tables@.map_values(|t: SchemaTable| t.complete_name@);
    let ghost tenc = tables@.map_values(|t: SchemaTable| table_bytes(t));
    let mut stream: Vec<u8> = Vec::new();
    let mut nk: Vec<Vec<u8>> = Vec::new();
    let mut m: usize = 0;
    while m < tables.len()
        invariant
            m <= tables@.len(),
            tnk == tables@.map_values(|t: SchemaTable| t.complete_name@),
            nk@.len() == m,
            nk@.map_values(|v: Vec<u8>| v@) == tnk.take(m as int),
        decreases tables@.len() - m,
    {
        let ghost prev = nk@;
        nk.push(copy_bytes(&tables[m].complete_name));
        proof {
            assert(nk@.map_values(|v: Vec<u8>| v@) =~= prev.map_values(|v: Vec<u8>| v@).push(
                tnk[m as int],
            ));
            assert(tnk.take(m as int + 1) =~= tnk.take(m as int).push(tnk[m as int]));
        }
        m = m + 1;
    }
    proof {
        assert(tnk.take(tnk.len() as int) =~= tnk);
        assert(nk@.map_values(|v: Vec<u8>| v@) == tnk);
    }
    let order = sort_indices(&nk);
    let ghost ov = order@.map_values(|u: usize| u as int);
    let mut m2: usize = 0;
    proof {
        assert(ov.take(0) =~= Seq::<int>::empty());
    }
    while m2 < order.len()
        invariant
            m2 <= order@.len(),
            tnk == tables@.map_values(|t: SchemaTable| t.complete_name@),
            tenc == tables@.map_values(|t: SchemaTable| table_bytes(t)),
            ov == order@.map_values(|u: usize| u as int),
            ov == sort_order(tnk),
            order@.len() == tables@.len(),
            forall|q: int| 0 <= q < order@.len() ==> (#[trigger] order@[q]) < tables@.len(),
            stream@ == cat_in_order(tenc, ov.take(m2 as int)),
        decreases order@.len() - m2,
    {
        push_table(&mut stream, &tables[order[m2]]);
        proof {
            assert(ov.take(m2 as int + 1) =~= ov.take(m2 as int).push(ov[m2 as int]));
            lemma_cat_snoc(tenc, ov.take(m2 as int), ov[m2 as int]);
            assert(tenc[ov[m2 as int]] == table_bytes(tables@[order@[m2 as int] as int]));
            assert(cat_in_order(tenc, ov.take(m2 as int)) + tenc[ov[m2 as int]] =~= cat_in_order(
                tenc,
                ov.take(m2 as int + 1),
            ));
        }
        m2 = m2 + 1;
    }
    proof {
        assert(ov.take(ov.len() as int) =~= ov);
        assert(stream@ == schema_bytes(tables@));
    }
    siphash(&stream)
}

/// The one structural digest this engine accepts its store in.
pub const ACCEPTED_SCHEMA_HASH: u64 = 2202906307356721367;

/// The store's layout was not recognised.
#[derive(Debug, PartialEq, Eq, Structural, Clone, Copy)]
pub struct SchemaError;

/// Accept exactly the known-good store layout, by its digest. Anything
/// else is an unknown schema and is refused before any auction state is
/// loaded from it.
pub fn migrate_schema(from: u64) -> (r: Result<(), SchemaError>)
    ensures
        r is Ok <==> from == ACCEPTED_SCHEMA_HASH,
{
    if from == ACCEPTED_SCHEMA_HASH {
        Ok(())
    } else {
        Err(SchemaError)
    }
}

/// The whole guard on values: digest the store layout and accept exactly
/// the known-good one.
pub fn check_schema(tables: &Vec<SchemaTable>) -> (r: Result<(), SchemaError>)
    ensures
        r is Ok <==> siphash_of(schema_bytes(tables@)) == ACCEPTED_SCHEMA_HASH,
{
    migrate_schema(hash_schema(tables))
}

} // verus!
