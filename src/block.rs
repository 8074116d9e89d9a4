//! Column-oriented blocks and their wire layout: the column count and the row
//! count as varints, then for each column its name, its type name and its
//! values, one after another.
use vstd::prelude::*;
use vstd::utf8::*;
use crate::binary::{
    bytes_field, decoded, le_bytes, spec_read_bytes, spec_read_fixed, spec_read_string,
    spec_read_varint, string_field, varint_bytes, MAX_STRING_LEN, pow256, lemma_pow256_8,
    lemma_fixed_round_trip, lemma_bytes_round_trip, lemma_string_round_trip, lemma_varint_round_trip,
    write_bytes, write_fixed, write_string, write_varint, cut, lemma_take_skip, lemma_fixed_prefix,
    lemma_bytes_prefix, lemma_string_prefix, lemma_varint_prefix,
};
use crate::errors::Error;

verus! {

/// The column types that the codec knows.
#[derive(Debug, Clone, Copy, PartialEq, Eq, Structural)]
pub enum TypeTag {
    /// `UInt8`: one byte.
    UInt8,
    /// `UInt64`: eight bytes, little-endian.
    UInt64,
    /// `String`: a byte string.
    Str,
}

/// One value of a column.
#[derive(Debug, Clone, PartialEq, Eq)]
pub enum Value {
    UInt8(u8),
    UInt64(u64),
    Str(Vec<u8>),
}

pub enum ValueModel {
    UInt8(u8),
    UInt64(u64),
    Str(Seq<u8>),
}

impl View for Value {
    type V = ValueModel;

    open spec fn view(&self) -> ValueModel {
        match self {
            Value::UInt8(v) => ValueModel::UInt8(*v),
            Value::UInt64(v) => ValueModel::UInt64(*v),
            Value::Str(b) => ValueModel::Str(b@),
        }
    }
}

/// A named, typed column of values.
#[derive(Debug, Clone, PartialEq, Eq)]
pub struct Column {
    pub name: String,
    pub tag: TypeTag,
    pub values: Vec<Value>,
}

pub struct ColumnModel {
    pub name: Seq<char>,
    pub tag: TypeTag,
    pub values: Seq<ValueModel>,
}

pub open spec fn values_view(v: Seq<Value>) -> Seq<ValueModel> {
    v.map_values(|x: Value| x@)
}

impl View for Column {
    type V = ColumnModel;

    open spec fn view(&self) -> ColumnModel {
        ColumnModel { name: self.name@, tag: self.tag, values: values_view(self.values@) }
    }
}

/// A batch of rows, stored column by column. The block with no column and no
/// row marks the end of a stream.
#[derive(Debug, Clone, PartialEq, Eq)]
pub struct Block {
    pub rows: u64,
    pub columns: Vec<Column>,
}

pub struct BlockModel {
    pub rows: nat,
    pub columns: Seq<ColumnModel>,
}

pub open spec fn columns_view(c: Seq<Column>) -> Seq<ColumnModel> {
    c.map_values(|x: Column| x@)
}

impl View for Block {
    type V = BlockModel;

    open spec fn view(&self) -> BlockModel {
        BlockModel { rows: self.rows as nat, columns: columns_view(self.columns@) }
    }
}

/// The type name written for each tag.
pub open spec fn tag_bytes(t: TypeTag) -> Seq<u8> {
    match t {
        TypeTag::UInt8 => seq![85u8, 73, 110, 116, 56],
        TypeTag::UInt64 => seq![85u8, 73, 110, 116, 54, 52],
        TypeTag::Str => seq![83u8, 116, 114, 105, 110, 103],
    }
}

pub open spec fn tag_of(b: Seq<u8>) -> Option<TypeTag> {
    if b == tag_bytes(TypeTag::UInt8) {
        Some(TypeTag::UInt8)
    } else if b == tag_bytes(TypeTag::UInt64) {
        Some(TypeTag::UInt64)
    } else if b == tag_bytes(TypeTag::Str) {
        Some(TypeTag::Str)
    } else {
        None
    }
}

/// A value fits its column's type, and a string value fits the length bound.
pub open spec fn value_fits(v: ValueModel, t: TypeTag) -> bool {
    match v {
        ValueModel::UInt8(_) => t == TypeTag::UInt8,
        ValueModel::UInt64(_) => t == TypeTag::UInt64,
        ValueModel::Str(b) => t == TypeTag::Str && b.len() <= MAX_STRING_LEN,
    }
}

pub open spec fn column_wf(c: ColumnModel, rows: nat) -> bool {
    &&& encode_utf8(c.name).len() <= MAX_STRING_LEN
    &&& c.values.len() == rows
    &&& forall|i: int| 0 <= i < c.values.len() ==> value_fits(#[trigger] c.values[i], c.tag)
}

/// Every column has one value per row, of the column's type, and every
/// count and length fits the wire format.
pub open spec fn block_wf(b: BlockModel) -> bool {
    &&& b.rows <= u64::MAX
    &&& b.columns.len() <= u64::MAX
    &&& forall|i: int| 0 <= i < b.columns.len() ==> column_wf(#[trigger] b.columns[i], b.rows)
}

pub open spec fn value_bytes(v: ValueModel) -> Seq<u8> {
    match v {
        ValueModel::UInt8(x) => le_bytes(x as nat, 1),
        ValueModel::UInt64(x) => le_bytes(x as nat, 8),
        ValueModel::Str(b) => bytes_field(b),
    }
}

pub open spec fn values_bytes(vs: Seq<ValueModel>) -> Seq<u8>
    decreases vs.len(),
{
    if vs.len() == 0 {
        Seq::empty()
    } else {
        value_bytes(vs[0]) + values_bytes(vs.drop_first())
    }
}

pub open spec fn column_bytes(c: ColumnModel) -> Seq<u8> {
    string_field(c.name) + bytes_field(tag_bytes(c.tag)) + values_bytes(c.values)
}

pub open spec fn columns_bytes(cs: Seq<ColumnModel>) -> Seq<u8>
    decreases cs.len(),
{
    if cs.len() == 0 {
        Seq::empty()
    } else {
        column_bytes(cs[0]) + columns_bytes(cs.drop_first())
    }
}

/// The wire form of a block.
pub open spec fn block_bytes(b: BlockModel) -> Seq<u8> {
    varint_bytes(b.columns.len()) + varint_bytes(b.rows) + columns_bytes(b.columns)
}

pub open spec fn spec_read_value(s: Seq<u8>, t: TypeTag) -> Result<(ValueModel, nat), Error> {
    match t {
        TypeTag::UInt8 => match spec_read_fixed(s, 1) {
            Ok((v, k)) => Ok((ValueModel::UInt8(v as u8), k)),
            Err(e) => Err(e),
        },
        TypeTag::UInt64 => match spec_read_fixed(s, 8) {
            Ok((v, k)) => Ok((ValueModel::UInt64(v), k)),
            Err(e) => Err(e),
        },
        TypeTag::Str => match spec_read_bytes(s) {
            Ok((b, k)) => Ok((ValueModel::Str(b), k)),
            Err(e) => Err(e),
        },
    }
}

pub open spec fn spec_read_values(s: Seq<u8>, t: TypeTag, n: nat) -> Result<
    (Seq<ValueModel>, nat),
    Error,
>
    decreases n,
{
    if n == 0 {
        Ok((Seq::empty(), 0))
    } else {
        match spec_read_value(s, t) {
            Ok((v, k)) => match spec_read_values(s.skip(k as int), t, (n - 1) as nat) {
                Ok((vs, k2)) => Ok((seq![v] + vs, k + k2)),
                Err(e) => Err(e),
            },
            Err(e) => Err(e),
        }
    }
}

pub open spec fn spec_read_column(s: Seq<u8>, rows: nat) -> Result<(ColumnModel, nat), Error> {
    match spec_read_string(s) {
        Ok((name, k1)) => match spec_read_bytes(s.skip(k1 as int)) {
            Ok((tb, k2)) => match tag_of(tb) {
                Some(t) => match spec_read_values(s.skip((k1 + k2) as int), t, rows) {
                    Ok((vs, k3)) => Ok((ColumnModel { name, tag: t, values: vs }, k1 + k2 + k3)),
                    Err(e) => Err(e),
                },
                None => Err(Error::UnsupportedType),
            },
            Err(e) => Err(e),
        },
        Err(e) => Err(e),
    }
}

pub open spec fn spec_read_columns(s: Seq<u8>, n: nat, rows: nat) -> Result<
    (Seq<ColumnModel>, nat),
    Error,
>
    decreases n,
{
    if n == 0 {
        Ok((Seq::empty(), 0))
    } else {
        match spec_read_column(s, rows) {
            Ok((c, k)) => match spec_read_columns(s.skip(k as int), (n - 1) as nat, rows) {
                Ok((cs, k2)) => Ok((seq![c] + cs, k + k2)),
                Err(e) => Err(e),
            },
            Err(e) => Err(e),
        }
    }
}

/// A block at the start of `s`.
pub open spec fn spec_read_block(s: Seq<u8>) -> Result<(BlockModel, nat), Error> {
    match spec_read_varint(s) {
        Ok((nc, k1)) => match spec_read_varint(s.skip(k1 as int)) {
            Ok((nr, k2)) => match spec_read_columns(s.skip((k1 + k2) as int), nc as nat, nr as nat) {
                Ok((cs, k3)) => Ok((BlockModel { rows: nr as nat, columns: cs }, k1 + k2 + k3)),
                Err(e) => Err(e),
            },
            Err(e) => Err(e),
        },
        Err(e) => Err(e),
    }
}

} // verus!

verus! {

/// Where a list reader stands: `acc` was read in `off` bytes, and `rest` is
/// what the remainder of the list reads as.
pub open spec fn list_after<A>(acc: Seq<A>, off: nat, rest: Result<(Seq<A>, nat), Error>) -> Result<
    (Seq<A>, nat),
    Error,
> {
    match rest {
        Ok((xs, k)) => Ok((acc + xs, off + k)),
        Err(e) => Err(e),
    }
}

fn bytes_equal(a: &[u8], b: &[u8]) -> (r: bool)
    ensures
        r == (a@ == b@),
{
    if a.len() != b.len() {
        return false;
    }
    let mut i: usize = 0;
    while i < a.len()
        invariant
            a@.len() == b@.len(),
            i <= a@.len(),
            forall|j: int| 0 <= j < i ==> a@[j] == b@[j],
        decreases a@.len() - i,
    {
        if a[i] != b[i] {
            return false;
        }
        i = i + 1;
    }
    assert(a@ =~= b@);
    true
}

/// The type name written for `t`.
pub fn tag_name(t: TypeTag) -> (r: Vec<u8>)
    ensures
        r@ == tag_bytes(t),
{
    let mut v: Vec<u8> = Vec::new();
    match t {
        TypeTag::UInt8 => {
            v.push(85);
            v.push(73);
            v.push(110);
            v.push(116);
            v.push(56);
        },
        TypeTag::UInt64 => {
            v.push(85);
            v.push(73);
            v.push(110);
            v.push(116);
            v.push(54);
            v.push(52);
        },
        TypeTag::Str => {
            v.push(83);
            v.push(116);
            v.push(114);
            v.push(105);
            v.push(110);
            v.push(103);
        },
    }
    assert(v@ =~= tag_bytes(t));
    v
}

/// The tag that a type name stands for, if the codec knows it.
pub fn parse_tag(b: &[u8]) -> (r: Option<TypeTag>)
    ensures
        r == tag_of(b@),
{
    let u8_name = tag_name(TypeTag::UInt8);
    let u64_name = tag_name(TypeTag::UInt64);
    let str_name = tag_name(TypeTag::Str);
    if bytes_equal(b, u8_name.as_slice()) {
        Some(TypeTag::UInt8)
    } else if bytes_equal(b, u64_name.as_slice()) {
        Some(TypeTag::UInt64)
    } else if bytes_equal(b, str_name.as_slice()) {
        Some(TypeTag::Str)
    } else {
        None
    }
}

/// Reads one value of type `t` at `pos`.
pub fn read_value(buf: &[u8], pos: usize, t: TypeTag) -> (r: Result<(Value, usize), Error>)
    requires
        pos <= buf@.len(),
    ensures
        decoded(r, spec_read_value(buf@.skip(pos as int), t), pos),
        r matches Ok((_, p)) ==> p <= buf@.len(),
{
    match t {
        TypeTag::UInt8 => match crate::binary::read_fixed(buf, pos, 1) {
            Ok((v, p)) => Ok((Value::UInt8(v as u8), p)),
            Err(e) => Err(e),
        },
        TypeTag::UInt64 => match crate::binary::read_fixed(buf, pos, 8) {
            Ok((v, p)) => Ok((Value::UInt64(v), p)),
            Err(e) => Err(e),
        },
        TypeTag::Str => match crate::binary::read_bytes(buf, pos) {
            Ok((b, p)) => Ok((Value::Str(b), p)),
            Err(e) => Err(e),
        },
    }
}

/// Reads `n` values of type `t` at `pos`.
#[verifier::spinoff_prover]
#[verifier::rlimit(100)]
pub fn read_values(buf: &[u8], pos: usize, t: TypeTag, n: u64) -> (r: Result<
    (Vec<Value>, usize),
    Error,
>)
    requires
        pos <= buf@.len(),
    ensures
        match spec_read_values(buf@.skip(pos as int), t, n as nat) {
            Ok((vs, k)) => r matches Ok((v, p)) && values_view(v@) == vs && p == pos + k
                && p <= buf@.len(),
            Err(e) => r == Err::<(Vec<Value>, usize), Error>(e),
        },
{
    let mut out: Vec<Value> = Vec::new();
    let mut p: usize = pos;
    let mut i: u64 = 0;
    while i < n
        invariant
            pos <= p <= buf@.len(),
            i <= n,
            spec_read_values(buf@.skip(pos as int), t, n as nat) == list_after(
                values_view(out@),
                (p - pos) as nat,
                spec_read_values(buf@.skip(p as int), t, (n - i) as nat),
            ),
        decreases n - i,
    {
        let ghost acc = values_view(out@);
        match read_value(buf, p, t) {
            Ok((v, at2)) => {
                proof {
                    assert(buf@.skip(p as int).skip((at2 - p) as int) =~= buf@.skip(at2 as int));
                    if let Ok((vs, k2)) = spec_read_values(buf@.skip(at2 as int), t, (n - i - 1) as nat) {
                        assert(acc + (seq![v@] + vs) =~= (acc + seq![v@]) + vs);
                    }
                }
                out.push(v);
                assert(values_view(out@) =~= acc + seq![v@]);
                p = at2;
            },
            Err(e) => {
                return Err(e);
            },
        }
        i = i + 1;
    }
    assert(values_view(out@) + Seq::<ValueModel>::empty() =~= values_view(out@));
    Ok((out, p))
}

/// Reads one column of `rows` values at `pos`.
#[verifier::spinoff_prover]
#[verifier::rlimit(100)]
pub fn read_column(buf: &[u8], pos: usize, rows: u64) -> (r: Result<(Column, usize), Error>)
    requires
        pos <= buf@.len(),
    ensures
        decoded(r, spec_read_column(buf@.skip(pos as int), rows as nat), pos),
        r matches Ok((_, p)) ==> p <= buf@.len(),
{
    let (name, at1) = match crate::binary::read_string(buf, pos) {
        Ok(v) => v,
        Err(e) => {
            return Err(e);
        },
    };
    assert(buf@.skip(pos as int).skip((at1 - pos) as int) =~= buf@.skip(at1 as int));
    let (tb, at2) = match crate::binary::read_bytes(buf, at1) {
        Ok(v) => v,
        Err(e) => {
            return Err(e);
        },
    };
    assert(buf@.skip(pos as int).skip((at2 - pos) as int) =~= buf@.skip(at2 as int));
    let tag = match parse_tag(tb.as_slice()) {
        Some(t) => t,
        None => {
            return Err(Error::UnsupportedType);
        },
    };
    let (values, at3) = match read_values(buf, at2, tag, rows) {
        Ok(v) => v,
        Err(e) => {
            return Err(e);
        },
    };
    Ok((Column { name, tag, values }, at3))
}

/// Reads `n` columns of `rows` values each at `pos`.
#[verifier::spinoff_prover]
#[verifier::rlimit(100)]
pub fn read_columns(buf: &[u8], pos: usize, n: u64, rows: u64) -> (r: Result<
    (Vec<Column>, usize),
    Error,
>)
    requires
        pos <= buf@.len(),
    ensures
        match spec_read_columns(buf@.skip(pos as int), n as nat, rows as nat) {
            Ok((cs, k)) => r matches Ok((c, p)) && columns_view(c@) == cs && p == pos + k
                && p <= buf@.len(),
            Err(e) => r == Err::<(Vec<Column>, usize), Error>(e),
        },
{
    let mut out: Vec<Column> = Vec::new();
    let mut p: usize = pos;
    let mut i: u64 = 0;
    while i < n
        invariant
            pos <= p <= buf@.len(),
            i <= n,
            spec_read_columns(buf@.skip(pos as int), n as nat, rows as nat) == list_after(
                columns_view(out@),
                (p - pos) as nat,
                spec_read_columns(buf@.skip(p as int), (n - i) as nat, rows as nat),
            ),
        decreases n - i,
    {
        let ghost acc = columns_view(out@);
        match read_column(buf, p, rows) {
            Ok((c, at2)) => {
                proof {
                    assert(buf@.skip(p as int).skip((at2 - p) as int) =~= buf@.skip(at2 as int));
                    if let Ok((cs, k2)) = spec_read_columns(
                        buf@.skip(at2 as int),
                        (n - i - 1) as nat,
                        rows as nat,
                    ) {
                        assert(acc + (seq![c@] + cs) =~= (acc + seq![c@]) + cs);
                    }
                }
                out.push(c);
                assert(columns_view(out@) =~= acc + seq![out@.last()@]);
                p = at2;
            },
            Err(e) => {
                return Err(e);
            },
        }
        i = i + 1;
    }
    assert(columns_view(out@) + Seq::<ColumnModel>::empty() =~= columns_view(out@));
    Ok((out, p))
}

/// Reads a block at `pos`.
#[verifier::spinoff_prover]
#[verifier::rlimit(100)]
pub fn read_block(buf: &[u8], pos: usize) -> (r: Result<(Block, usize), Error>)
    requires
        pos <= buf@.len(),
    ensures
        decoded(r, spec_read_block(buf@.skip(pos as int)), pos),
        r matches Ok((_, p)) ==> p <= buf@.len(),
{
    let (ncols, at1) = match crate::binary::read_varint(buf, pos) {
        Ok(v) => v,
        Err(e) => {
            return Err(e);
        },
    };
    assert(buf@.skip(pos as int).skip((at1 - pos) as int) =~= buf@.skip(at1 as int));
    let (rows, at2) = match crate::binary::read_varint(buf, at1) {
        Ok(v) => v,
        Err(e) => {
            return Err(e);
        },
    };
    assert(buf@.skip(pos as int).skip((at2 - pos) as int) =~= buf@.skip(at2 as int));
    let (columns, at3) = match read_columns(buf, at2, ncols, rows) {
        Ok(v) => v,
        Err(e) => {
            return Err(e);
        },
    };
    Ok((Block { rows, columns }, at3))
}

} // verus!

verus! {

proof fn lemma_values_bytes_push(vs: Seq<ValueModel>, v: ValueModel)
    ensures
        values_bytes(vs.push(v)) == values_bytes(vs) + value_bytes(v),
    decreases vs.len(),
{
    if vs.len() == 0 {
        assert(vs.push(v).drop_first() =~= Seq::<ValueModel>::empty());
        assert(values_bytes(vs.push(v).drop_first()) =~= Seq::<u8>::empty());
        assert(values_bytes(vs) =~= Seq::<u8>::empty());
        assert(values_bytes(vs.push(v)) =~= values_bytes(vs) + value_bytes(v));
    } else {
        assert(vs.push(v).drop_first() =~= vs.drop_first().push(v));
        lemma_values_bytes_push(vs.drop_first(), v);
        assert(values_bytes(vs.push(v)) =~= values_bytes(vs) + value_bytes(v));
    }
}

proof fn lemma_columns_bytes_push(cs: Seq<ColumnModel>, c: ColumnModel)
    ensures
        columns_bytes(cs.push(c)) == columns_bytes(cs) + column_bytes(c),
    decreases cs.len(),
{
    if cs.len() == 0 {
        assert(cs.push(c).drop_first() =~= Seq::<ColumnModel>::empty());
        assert(columns_bytes(cs.push(c).drop_first()) =~= Seq::<u8>::empty());
        assert(columns_bytes(cs) =~= Seq::<u8>::empty());
        assert(columns_bytes(cs.push(c)) =~= columns_bytes(cs) + column_bytes(c));
    } else {
        assert(cs.push(c).drop_first() =~= cs.drop_first().push(c));
        lemma_columns_bytes_push(cs.drop_first(), c);
        assert(columns_bytes(cs.push(c)) =~= columns_bytes(cs) + column_bytes(c));
    }
}

/// Appends one value.
pub fn write_value(buf: &mut Vec<u8>, v: &Value)
    ensures
        final(buf)@ == old(buf)@ + value_bytes(v@),
{
    match v {
        Value::UInt8(x) => write_fixed(buf, *x as u64, 1),
        Value::UInt64(x) => write_fixed(buf, *x, 8),
        Value::Str(b) => write_bytes(buf, b.as_slice()),
    }
}

/// Appends a column: its name, its type name and its values.
pub fn write_column(buf: &mut Vec<u8>, c: &Column)
    ensures
        final(buf)@ == old(buf)@ + column_bytes(c@),
{
    write_string(buf, c.name.as_str());
    let tn = tag_name(c.tag);
    write_bytes(buf, tn.as_slice());
    let ghost head = buf@;
    let mut i: usize = 0;
    while i < c.values.len()
        invariant
            i <= c.values@.len(),
            buf@ == head + values_bytes(values_view(c.values@.take(i as int))),
        decreases c.values@.len() - i,
    {
        proof {
            assert(values_view(c.values@.take(i as int + 1)) =~= values_view(
                c.values@.take(i as int),
            ).push(c.values@[i as int]@));
            lemma_values_bytes_push(values_view(c.values@.take(i as int)), c.values@[i as int]@);
        }
        write_value(buf, &c.values[i]);
        i = i + 1;
        assert(buf@ =~= head + values_bytes(values_view(c.values@.take(i as int))));
    }
    assert(c.values@.take(i as int) =~= c.values@);
    assert(buf@ =~= old(buf)@ + column_bytes(c@));
}

/// Appends a block in its wire form.
pub fn write_block(buf: &mut Vec<u8>, b: &Block)
    ensures
        final(buf)@ == old(buf)@ + block_bytes(b@),
{
    write_varint(buf, b.columns.len() as u64);
    write_varint(buf, b.rows);
    let ghost head = buf@;
    let mut i: usize = 0;
    while i < b.columns.len()
        invariant
            i <= b.columns@.len(),
            buf@ == head + columns_bytes(columns_view(b.columns@.take(i as int))),
        decreases b.columns@.len() - i,
    {
        proof {
            assert(columns_view(b.columns@.take(i as int + 1)) =~= columns_view(
                b.columns@.take(i as int),
            ).push(b.columns@[i as int]@));
            lemma_columns_bytes_push(
                columns_view(b.columns@.take(i as int)),
                b.columns@[i as int]@,
            );
        }
        write_column(buf, &b.columns[i]);
        i = i + 1;
        assert(buf@ =~= head + columns_bytes(columns_view(b.columns@.take(i as int))));
    }
    assert(b.columns@.take(i as int) =~= b.columns@);
    assert(buf@ =~= old(buf)@ + block_bytes(b@));
}

proof fn lemma_value_round_trip(v: ValueModel, t: TypeTag, rest: Seq<u8>)
    requires
        value_fits(v, t),
    ensures
        spec_read_value(value_bytes(v) + rest, t) == Ok::<(ValueModel, nat), Error>(
            (v, value_bytes(v).len()),
        ),
{
    match v {
        ValueModel::UInt8(x) => {
            reveal_with_fuel(pow256, 2);
            lemma_fixed_round_trip(x as u64, 1, rest);
            crate::binary::lemma_le_bytes_len(x as nat, 1);
        },
        ValueModel::UInt64(x) => {
            lemma_pow256_8();
            lemma_fixed_round_trip(x, 8, rest);
            crate::binary::lemma_le_bytes_len(x as nat, 8);
        },
        ValueModel::Str(b) => {
            lemma_bytes_round_trip(b, rest);
        },
    }
}

#[verifier::spinoff_prover]
#[verifier::rlimit(100)]
proof fn lemma_values_round_trip(vs: Seq<ValueModel>, t: TypeTag, rest: Seq<u8>)
    requires
        forall|i: int| 0 <= i < vs.len() ==> value_fits(#[trigger] vs[i], t),
    ensures
        spec_read_values(values_bytes(vs) + rest, t, vs.len()) == Ok::<
            (Seq<ValueModel>, nat),
            Error,
        >((vs, values_bytes(vs).len())),
    decreases vs.len(),
{
    if vs.len() > 0 {
        let tail = vs.drop_first();
        assert(value_fits(vs[0], t));
        assert forall|i: int| 0 <= i < tail.len() implies value_fits(#[trigger] tail[i], t) by {
            assert(tail[i] == vs[i + 1]);
        }
        lemma_values_round_trip(tail, t, rest);
        let whole = values_bytes(vs) + rest;
        assert(whole =~= value_bytes(vs[0]) + (values_bytes(tail) + rest));
        lemma_value_round_trip(vs[0], t, values_bytes(tail) + rest);
        assert(whole.skip(value_bytes(vs[0]).len() as int) =~= values_bytes(tail) + rest);
        assert(seq![vs[0]] + tail =~= vs);
    } else {
        assert(vs =~= Seq::<ValueModel>::empty());
    }
}

proof fn lemma_tag_round_trip(t: TypeTag)
    ensures
        tag_of(tag_bytes(t)) == Some(t),
        tag_bytes(t).len() <= MAX_STRING_LEN,
{
    let a = tag_bytes(TypeTag::UInt8);
    let b = tag_bytes(TypeTag::UInt64);
    let c = tag_bytes(TypeTag::Str);
    assert(a.len() != b.len());
    assert(a.len() != c.len());
    assert(b[0] != c[0]);
}

#[verifier::spinoff_prover]
#[verifier::rlimit(100)]
proof fn lemma_column_round_trip(c: ColumnModel, rows: nat, rest: Seq<u8>)
    requires
        column_wf(c, rows),
    ensures
        spec_read_column(column_bytes(c) + rest, rows) == Ok::<(ColumnModel, nat), Error>(
            (c, column_bytes(c).len()),
        ),
{
    let n = string_field(c.name);
    let tb = bytes_field(tag_bytes(c.tag));
    let vb = values_bytes(c.values);
    let whole = column_bytes(c) + rest;
    lemma_tag_round_trip(c.tag);
    assert(whole =~= n + (tb + vb + rest));
    lemma_string_round_trip(c.name, tb + vb + rest);
    assert(whole.skip(n.len() as int) =~= tb + (vb + rest));
    lemma_bytes_round_trip(tag_bytes(c.tag), vb + rest);
    assert(whole.skip((n.len() + tb.len()) as int) =~= vb + rest);
    lemma_values_round_trip(c.values, c.tag, rest);
}

#[verifier::spinoff_prover]
#[verifier::rlimit(100)]
proof fn lemma_columns_round_trip(cs: Seq<ColumnModel>, rows: nat, rest: Seq<u8>)
    requires
        forall|i: int| 0 <= i < cs.len() ==> column_wf(#[trigger] cs[i], rows),
    ensures
        spec_read_columns(columns_bytes(cs) + rest, cs.len(), rows) == Ok::<
            (Seq<ColumnModel>, nat),
            Error,
        >((cs, columns_bytes(cs).len())),
    decreases cs.len(),
{
    if cs.len() > 0 {
        let tail = cs.drop_first();
        assert(column_wf(cs[0], rows));
        assert forall|i: int| 0 <= i < tail.len() implies column_wf(#[trigger] tail[i], rows) by {
            assert(tail[i] == cs[i + 1]);
        }
        lemma_columns_round_trip(tail, rows, rest);
        let whole = columns_bytes(cs) + rest;
        assert(whole =~= column_bytes(cs[0]) + (columns_bytes(tail) + rest));
        lemma_column_round_trip(cs[0], rows, columns_bytes(tail) + rest);
        assert(whole.skip(column_bytes(cs[0]).len() as int) =~= columns_bytes(tail) + rest);
        assert(seq![cs[0]] + tail =~= cs);
        assert(columns_bytes(cs).len() == column_bytes(cs[0]).len() + columns_bytes(tail).len());
    } else {
        assert(cs =~= Seq::<ColumnModel>::empty());
    }
}

/// Reading back a well-formed block gives it back and consumes exactly its
/// wire form, whatever follows it.
#[verifier::spinoff_prover]
#[verifier::rlimit(100)]
pub proof fn lemma_block_round_trip(b: BlockModel, rest: Seq<u8>)
    requires
        block_wf(b),
    ensures
        spec_read_block(block_bytes(b) + rest) == Ok::<(BlockModel, nat), Error>(
            (b, block_bytes(b).len()),
        ),
{
    let e1 = varint_bytes(b.columns.len());
    let e2 = varint_bytes(b.rows);
    let cb = columns_bytes(b.columns);
    let whole = block_bytes(b) + rest;
    assert(whole =~= e1 + (e2 + cb + rest));
    lemma_varint_round_trip(b.columns.len() as u64, e2 + cb + rest);
    assert(spec_read_varint(whole) == Ok::<(u64, nat), Error>((b.columns.len() as u64, e1.len())));
    let s1 = whole.skip(e1.len() as int);
    assert(s1 =~= e2 + (cb + rest));
    lemma_varint_round_trip(b.rows as u64, cb + rest);
    assert(spec_read_varint(s1) == Ok::<(u64, nat), Error>((b.rows as u64, e2.len())));
    let s2 = whole.skip((e1.len() + e2.len()) as int);
    assert(s2 =~= cb + rest);
    lemma_columns_round_trip(b.columns, b.rows, rest);
    assert(spec_read_columns(s2, b.columns.len(), b.rows) == Ok::<(Seq<ColumnModel>, nat), Error>(
        (b.columns, cb.len()),
    ));
}

proof fn lemma_value_prefix(s: Seq<u8>, t: TypeTag, m: nat)
    requires
        spec_read_value(s, t) is Ok,
        m <= s.len(),
    ensures
        spec_read_value(s.take(m as int), t) == cut(spec_read_value(s, t), m),
{
    match t {
        TypeTag::UInt8 => lemma_fixed_prefix(s, 1, m),
        TypeTag::UInt64 => lemma_fixed_prefix(s, 8, m),
        TypeTag::Str => lemma_bytes_prefix(s, m),
    }
}

#[verifier::spinoff_prover]
proof fn lemma_values_prefix(s: Seq<u8>, t: TypeTag, n: nat, m: nat)
    requires
        spec_read_values(s, t, n) is Ok,
        m <= s.len(),
    ensures
        spec_read_values(s.take(m as int), t, n) == cut(spec_read_values(s, t, n), m),
    decreases n,
{
    if n > 0 {
        lemma_value_prefix(s, t, m);
        let o1: nat = spec_read_value(s, t)->Ok_0.1;
        if m >= o1 {
            lemma_take_skip(s, o1, m);
            lemma_values_prefix(s.skip(o1 as int), t, (n - 1) as nat, (m - o1) as nat);
        }
    }
}

#[verifier::spinoff_prover]
#[verifier::rlimit(100)]
proof fn lemma_column_prefix(s: Seq<u8>, rows: nat, m: nat)
    requires
        spec_read_column(s, rows) is Ok,
        m <= s.len(),
    ensures
        spec_read_column(s.take(m as int), rows) == cut(spec_read_column(s, rows), m),
{
    lemma_string_prefix(s, m);
    let o1: nat = spec_read_string(s)->Ok_0.1;
    if m >= o1 {
        lemma_take_skip(s, o1, m);
        lemma_bytes_prefix(s.skip(o1 as int), (m - o1) as nat);
        let o2: nat = o1 + spec_read_bytes(s.skip(o1 as int))->Ok_0.1;
        let tg = tag_of(spec_read_bytes(s.skip(o1 as int))->Ok_0.0)->Some_0;
        if m >= o2 {
            lemma_take_skip(s, o2, m);
            lemma_values_prefix(s.skip(o2 as int), tg, rows, (m - o2) as nat);
        }
    }
}

#[verifier::spinoff_prover]
proof fn lemma_columns_prefix(s: Seq<u8>, n: nat, rows: nat, m: nat)
    requires
        spec_read_columns(s, n, rows) is Ok,
        m <= s.len(),
    ensures
        spec_read_columns(s.take(m as int), n, rows) == cut(spec_read_columns(s, n, rows), m),
    decreases n,
{
    if n > 0 {
        lemma_column_prefix(s, rows, m);
        let o1: nat = spec_read_column(s, rows)->Ok_0.1;
        if m >= o1 {
            lemma_take_skip(s, o1, m);
            lemma_columns_prefix(s.skip(o1 as int), (n - 1) as nat, rows, (m - o1) as nat);
        }
    }
}

/// A block read on a prefix of its input: the same block once the prefix
/// holds all of it, else incomplete.
#[verifier::spinoff_prover]
#[verifier::rlimit(100)]
pub proof fn lemma_block_prefix(s: Seq<u8>, m: nat)
    requires
        spec_read_block(s) is Ok,
        m <= s.len(),
    ensures
        spec_read_block(s.take(m as int)) == cut(spec_read_block(s), m),
{
    lemma_varint_prefix(s, m);
    let o1: nat = spec_read_varint(s)->Ok_0.1;
    let nc: nat = spec_read_varint(s)->Ok_0.0 as nat;
    if m >= o1 {
        lemma_take_skip(s, o1, m);
        lemma_varint_prefix(s.skip(o1 as int), (m - o1) as nat);
        let o2: nat = o1 + spec_read_varint(s.skip(o1 as int))->Ok_0.1;
        let nr: nat = spec_read_varint(s.skip(o1 as int))->Ok_0.0 as nat;
        if m >= o2 {
            lemma_take_skip(s, o2, m);
            lemma_columns_prefix(s.skip(o2 as int), nc, nr, (m - o2) as nat);
        }
    }
}

} // verus!
