//! Work on the items of an attribute, shared out in chunks.
//!
//! A transform gives each item a new tuple, made of what the attributes
//! that it reads hold for that item. It writes to the item and reads
//! from nothing that it writes, so the items can be worked on in any
//! order, and in chunks side by side.

use vstd::prelude::*;
use crate::expressions::evaluation::{
    answered, bound_operand, compiled, deterministic,
    evaluate_expression_precompiled_with_bindings, evaluated, gives, lemma_evaluation_determined,
    same_bindings, EvaluationError, Operation,
};
use crate::expressions::expressions::{
    precompile_expression, BindingValue, CompilationError, PrecompiledCode, Token,
};
use crate::geo_format::readings_of;
use crate::expressions::vec_types::Vector;
use crate::geo_attributes::{
    attribute_values, attributes_of, mapped_all, tuples_flat, AttributeModel, AttributeScalar,
    GeoAttribute, GeoAttributeKind, TupleGeoAttribute,
};
use crate::geo_struct::{
    lemma_view_array, located, object_get, replaced, values_of, ReaderElement,
    ReaderElementPointer, Real64, Step, Value,
};
use crate::houdini_geo_schema::{
    find, keys_of, locate_in_kv_array, position, position_from, required_text, required_text_of,
    same_text, schema_header, HoudiniGeoSchemaParser, SchemaError,
};

verus! {

/// The least number of items that is worth a worker of its own.
pub const MIN_THREAD_CHUNK: usize = 1024;

/// The least size of a chunk.
pub const MIN_CHUNK: usize = 16;

/// How the items are shared out: among how many workers, in chunks of
/// what size.
#[derive(Clone, Copy, Debug, PartialEq, Eq, Structural)]
pub struct ThreadPlan {
    pub thread_count: usize,
    pub chunk_size: usize,
}

/// The plan for `len` items with `max_threads` workers at hand; `None`
/// where the work stays with one worker: with one at hand only, or with
/// no more items than are worth a worker. There are as many workers as
/// are at hand, but no more than one for each `MIN_THREAD_CHUNK` items;
/// a chunk holds the items divided by the workers, and `MIN_CHUNK` at
/// least.
pub open spec fn planned(len: usize, max_threads: usize) -> Option<ThreadPlan> {
    if max_threads > 1 && len > MIN_THREAD_CHUNK {
        let thread_count = if max_threads < len / MIN_THREAD_CHUNK {
            max_threads
        } else {
            len / MIN_THREAD_CHUNK
        };
        Some(
            ThreadPlan {
                thread_count,
                chunk_size: if len / thread_count < MIN_CHUNK {
                    MIN_CHUNK
                } else {
                    len / thread_count
                },
            },
        )
    } else {
        None
    }
}

/// Plans how to share out `len` items.
pub fn thread_plan(len: usize, max_threads: usize) -> (r: Option<ThreadPlan>)
    ensures
        r == planned(len, max_threads),
        r is Some ==> r->0.thread_count >= 1 && r->0.chunk_size >= MIN_CHUNK,
{
    if max_threads > 1 && len > MIN_THREAD_CHUNK {
        let by_size: usize = len / MIN_THREAD_CHUNK;
        let thread_count: usize = if max_threads < by_size {
            max_threads
        } else {
            by_size
        };
        let share: usize = len / thread_count;
        Some(
            ThreadPlan {
                thread_count,
                chunk_size: if share < MIN_CHUNK {
                    MIN_CHUNK
                } else {
                    share
                },
            },
        )
    } else {
        None
    }
}

/// The number of chunks of `chunk_size` items that `len` items make.
pub open spec fn chunk_count(len: int, chunk_size: int) -> int {
    if len <= 0 || chunk_size <= 0 {
        0
    } else {
        (len - 1) / chunk_size + 1
    }
}

/// Where chunk `k` ends, and chunk `k + 1` starts.
pub open spec fn chunk_end(len: int, chunk_size: int, k: int) -> int {
    if (k + 1) * chunk_size < len {
        (k + 1) * chunk_size
    } else {
        len
    }
}

/// The ends of the chunks, in order: item by item, `chunk_size` to a
/// chunk, the last chunk with what is left.
pub fn chunk_ends(len: usize, chunk_size: usize) -> (r: Vec<usize>)
    requires
        chunk_size > 0,
    ensures
        r@.len() == chunk_count(len as int, chunk_size as int),
        forall|k: int|
            0 <= k < r@.len() ==> #[trigger] r@[k] == chunk_end(len as int, chunk_size as int, k),
        is_partition(Seq::new(r@.len(), |k: int| r@[k] as int), len as int),
{
    let mut out: Vec<usize> = Vec::new();
    let mut end: usize = 0;
    let cs: usize = chunk_size;
    assert(0 * cs == 0) by (nonlinear_arith);
    while end < len
        invariant_except_break
            end == out@.len() * cs,
            out@.len() > 0 ==> out@[out@.len() - 1] == end && end < len,
            out@.len() == 0 ==> end == 0,
        invariant
            end <= len,
            cs == chunk_size,
            cs > 0,
            forall|k: int|
                0 <= k < out@.len() ==> #[trigger] out@[k] == chunk_end(len as int, cs as int, k),
            forall|k: int| 0 <= k < out@.len() ==> 0 <= #[trigger] out@[k] <= len,
            forall|k: int| 0 < k < out@.len() ==> out@[k - 1] <= #[trigger] out@[k],
        ensures
            cs == chunk_size,
            out@.len() == chunk_count(len as int, cs as int),
            forall|k: int|
                0 <= k < out@.len() ==> #[trigger] out@[k] == chunk_end(len as int, cs as int, k),
            forall|k: int| 0 <= k < out@.len() ==> 0 <= #[trigger] out@[k] <= len,
            forall|k: int| 0 < k < out@.len() ==> out@[k - 1] <= #[trigger] out@[k],
            out@.len() > 0 ==> out@[out@.len() - 1] == len,
            out@.len() == 0 ==> len == 0,
        decreases len - end,
    {
        let ghost k = out@.len() as int;
        assert((k + 1) * cs == k * cs + cs) by (nonlinear_arith);
        if len - end > cs {
            end = end + cs;
            out.push(end);
        } else {
            out.push(len);
            proof {
                vstd::arithmetic::div_mod::lemma_fundamental_div_mod(len - 1, cs as int);
                assert(k == (len - 1) / (cs as int)) by (nonlinear_arith)
                    requires
                        k * cs <= len - 1,
                        len - 1 < (k + 1) * cs,
                        cs > 0,
                        len - 1 == cs * ((len - 1) / (cs as int)) + (len - 1) % (cs as int),
                        0 <= (len - 1) % (cs as int) < cs,
                ;
            }
            break ;
        }
    }
    proof {
        let ends = Seq::new(out@.len(), |k: int| out@[k] as int);
        assert(is_partition(ends, len as int)) by {
            assert forall|k: int| 0 < k < ends.len() implies ends[k - 1] <= #[trigger] ends[k] by {
                assert(out@[k - 1] <= out@[k]);
            }
        }
    }
    out
}

/// Whether `ends` are the ends of chunks that take `len` items from the
/// first to the last: they do not go down, and the last is `len`. No
/// ends at all take no items.
pub open spec fn is_partition(ends: Seq<int>, len: int) -> bool {
    &&& forall|k: int| 0 <= k < ends.len() ==> 0 <= #[trigger] ends[k] <= len
    &&& forall|k: int| 0 < k < ends.len() ==> ends[k - 1] <= #[trigger] ends[k]
    &&& (if ends.len() == 0 {
        len == 0
    } else {
        ends.last() == len
    })
}

/// The tuples that a transform `f` gives the items from `from` up to,
/// not including, `to`, one after the other.
pub open spec fn run<T>(f: spec_fn(int) -> Seq<T>, from: int, to: int) -> Seq<T>
    decreases to - from,
{
    if to <= from {
        Seq::empty()
    } else {
        run(f, from, to - 1) + f(to - 1)
    }
}

/// What the first `k` chunks give, each worked on by itself, one after
/// the other.
pub open spec fn chunks_joined<T>(f: spec_fn(int) -> Seq<T>, ends: Seq<int>, k: int) -> Seq<T>
    decreases k,
{
    if k <= 0 {
        Seq::empty()
    } else {
        chunks_joined(f, ends, k - 1) + run(
            f,
            if k == 1 {
                0
            } else {
                ends[k - 2]
            },
            ends[k - 1],
        )
    }
}

/// A run is the run up to a place in it, then the run from that place
/// on.
pub proof fn lemma_run_split<T>(f: spec_fn(int) -> Seq<T>, from: int, mid: int, to: int)
    requires
        from <= mid <= to,
    ensures
        run(f, from, to) == run(f, from, mid) + run(f, mid, to),
    decreases to - mid,
{
    if mid == to {
        assert(run(f, from, mid) + Seq::<T>::empty() =~= run(f, from, mid));
    } else {
        lemma_run_split(f, from, mid, to - 1);
        assert(run(f, from, to) =~= run(f, from, mid) + run(f, mid, to));
    }
}

/// A transform of the items in chunks gives what the transform of all
/// the items in one go gives, however the items are cut into chunks.
pub proof fn lemma_chunked_equals_whole<T>(f: spec_fn(int) -> Seq<T>, ends: Seq<int>, len: int)
    requires
        len >= 0,
        is_partition(ends, len),
    ensures
        chunks_joined(f, ends, ends.len() as int) == run(f, 0, len),
{
    lemma_chunks_upto(f, ends, len, ends.len() as int);
}

/// The first `k` chunks give the run up to the end of chunk `k`.
proof fn lemma_chunks_upto<T>(f: spec_fn(int) -> Seq<T>, ends: Seq<int>, len: int, k: int)
    requires
        len >= 0,
        is_partition(ends, len),
        0 <= k <= ends.len(),
    ensures
        chunks_joined(f, ends, k) == run(
            f,
            0,
            if k == 0 {
                0
            } else {
                ends[k - 1]
            },
        ),
    decreases k,
{
    if k > 0 {
        lemma_chunks_upto(f, ends, len, k - 1);
        let from = if k == 1 {
            0
        } else {
            ends[k - 2]
        };
        lemma_run_split(f, 0, from, ends[k - 1]);
    }
}

/// What an expression is given for a name that stands for an attribute,
/// when it works on item `elem`: the scalar of a tuple of one real, the
/// vector of a tuple of three. Tuples of other sizes and attributes of
/// other kinds are not bound.
pub open spec fn is_binding_of(a: AttributeModel, elem: usize, r: Result<BindingValue, SchemaError>) -> bool {
    match a {
        AttributeModel::Reals { tuple_size, reals } => if tuple_size == 1 {
            if elem < reals.len() {
                r == Ok::<BindingValue, SchemaError>(BindingValue::Float(reals[elem as int]))
            } else {
                r == Err::<BindingValue, SchemaError>(SchemaError::OutOfRange)
            }
        } else if tuple_size == 3 {
            if elem * 3 + 3 <= reals.len() {
                r is Ok && r->Ok_0 is Vector3 && r->Ok_0->Vector3_0.data@ == reals.subrange(
                    elem * 3,
                    elem * 3 + 3,
                )
            } else {
                r == Err::<BindingValue, SchemaError>(SchemaError::OutOfRange)
            }
        } else {
            r == Err::<BindingValue, SchemaError>(SchemaError::NotImplemented)
        },
        _ => r == Err::<BindingValue, SchemaError>(SchemaError::NotImplemented),
    }
}

/// The value that a name bound to `attr` has for item `elem`.
pub fn bind_item(attr: &GeoAttributeKind, elem: usize) -> (r: Result<BindingValue, SchemaError>)
    ensures
        is_binding_of(attr@, elem, r),
{
    match attr {
        GeoAttributeKind::Float64(a) => {
            let size: usize = a.tuple_size();
            if size == 1 {
                if a.holds_item(elem) {
                    let v: &[Real64] = a.value(elem);
                    assert(v@[0] == a.scalars()[elem as int]);
                    Ok(BindingValue::Float(v[0]))
                } else {
                    Err(SchemaError::OutOfRange)
                }
            } else if size == 3 {
                if a.holds_item(elem) {
                    match Vector::try_from_slice(a.value(elem)) {
                        Some(v) => Ok(BindingValue::Vector3(v)),
                        None => Err(SchemaError::OutOfRange),
                    }
                } else {
                    Err(SchemaError::OutOfRange)
                }
            } else {
                Err(SchemaError::NotImplemented)
            }
        },
        _ => Err(SchemaError::NotImplemented),
    }
}

/// The attribute `target` with the value that an expression gave for
/// item `elem` put in: a real fills a tuple of one, a vector fills a
/// tuple of up to three with its first components. Any other value, and
/// any other size of tuple, is not stored; an item that the attribute
/// does not hold is out of range.
pub fn store_item(target: &mut TupleGeoAttribute<Real64>, elem: usize, value: BindingValue) -> (r:
    Result<(), SchemaError>)
    ensures
        final(target).width() == old(target).width(),
        final(target).scalars().len() == old(target).scalars().len(),
        r is Err ==> final(target).scalars() == old(target).scalars(),
        r is Ok <==> old(target).holds(elem) && match value {
            BindingValue::Float(_) => old(target).width() == 1,
            BindingValue::Vector3(_) => old(target).width() <= 3,
            _ => false,
        },
        r is Ok ==> final(target).item(elem as int) == (match value {
            BindingValue::Float(f) => seq![f],
            BindingValue::Vector3(v) => v.data@.take(old(target).width() as int),
            _ => Seq::empty(),
        }) && forall|i: int|
            0 <= i < final(target).scalars().len() && !(elem * old(target).width() <= i < elem
                * old(target).width() + old(target).width()) ==> final(target).scalars()[i] == old(
                target,
            ).scalars()[i],
        r is Err ==> r->Err_0 == (if !(value is Float || value is Vector3) {
            SchemaError::WrongType
        } else if (value is Float && old(target).width() != 1) || old(target).width() > 3 {
            SchemaError::Inconsistent
        } else {
            SchemaError::OutOfRange
        }),
{
    let size: usize = target.tuple_size();
    match value {
        BindingValue::Float(f) => {
            if size != 1 {
                return Err(SchemaError::Inconsistent);
            }
            if !target.holds_item(elem) {
                return Err(SchemaError::OutOfRange);
            }
            let one: [Real64; 1] = [f];
            assert(one@ =~= seq![f]);
            target.set_value(elem, one.as_slice());
            Ok(())
        },
        BindingValue::Vector3(v) => {
            if size > 3 {
                return Err(SchemaError::Inconsistent);
            }
            if !target.holds_item(elem) {
                return Err(SchemaError::OutOfRange);
            }
            let parts: &[Real64] = vstd::slice::slice_subrange(v.as_slice(), 0, size);
            assert(parts@ =~= v.data@.take(size as int));
            target.set_value(elem, parts);
            Ok(())
        },
        _ => Err(SchemaError::WrongType),
    }
}

/// The rows of tuples that a flat run of scalars makes.
pub open spec fn tuple_rows(tuple_size: usize, data: Seq<Real64>) -> Seq<Value> {
    Seq::new(
        if tuple_size == 0 {
            0nat
        } else {
            data.len() / (tuple_size as nat)
        },
        |j: int| Value::Array(Seq::new(tuple_size as nat, |k: int| Value::Real(data[j * tuple_size + k]))),
    )
}

/// The values of an attribute of reals as a tree holds them: the size
/// of a tuple, the storage, and the tuples one by one.
pub open spec fn tuples_value(tuple_size: usize, data: Seq<Real64>) -> Value {
    Value::Array(
        seq![
            Value::Text("size"@),
            Value::Int(tuple_size as i64),
            Value::Text("storage"@),
            Value::Text("fpreal64"@),
            Value::Text("tuples"@),
            Value::Array(tuple_rows(tuple_size, data)),
        ],
    )
}

/// The values of an attribute of reals as a tree holds them. The size
/// of a tuple must fit a 64-bit integer.
pub fn tuples_block(attr: &TupleGeoAttribute<Real64>) -> (r: Result<ReaderElement, SchemaError>)
    ensures
        attr.width() <= i64::MAX ==> r is Ok && r->Ok_0@ == tuples_value(
            attr.width(),
            attr.scalars(),
        ),
        attr.width() > i64::MAX ==> r is Err && r->Err_0 == SchemaError::OutOfRange,
{
    let size: usize = attr.tuple_size();
    if size as u64 > i64::MAX as u64 {
        return Err(SchemaError::OutOfRange);
    }
    let count: usize = attr.len();
    let mut rows: Vec<ReaderElement> = Vec::new();
    let mut j: usize = 0;
    while j < count
        invariant
            j <= count,
            size == attr.width(),
            size > 0 ==> count == attr.scalars().len() / (size as nat),
            size == 0 ==> count == 0,
            values_of(rows@) == tuple_rows(size, attr.scalars()).take(j as int),
        decreases count - j,
    {
        assert(attr.holds(j)) by {
            let w = size as int;
            let len = attr.scalars().len() as int;
            vstd::arithmetic::div_mod::lemma_fundamental_div_mod(len, w);
            assert(j * w + w <= len) by (nonlinear_arith)
                requires
                    j + 1 <= len / w,
                    len == w * (len / w) + len % w,
                    0 <= len % w,
                    w > 0,
            ;
        }
        let tuple: &[Real64] = attr.value(j);
        let mut row: Vec<ReaderElement> = Vec::new();
        let mut k: usize = 0;
        while k < size
            invariant
                k <= size,
                tuple@.len() == size,
                values_of(row@) == Seq::new(k as nat, |i: int| Value::Real(tuple@[i])),
            decreases size - k,
        {
            let ghost before = values_of(row@);
            row.push(ReaderElement::Float(tuple[k]));
            assert(values_of(row@) =~= before.push(Value::Real(tuple@[k as int])));
            assert(values_of(row@) =~= Seq::new((k + 1) as nat, |i: int| Value::Real(tuple@[i])));
            k = k + 1;
        }
        proof {
            lemma_view_array(row);
            assert(values_of(row@) =~= Seq::new(
                size as nat,
                |k: int| Value::Real(attr.scalars()[j * size + k]),
            ));
        }
        let ghost before = values_of(rows@);
        rows.push(ReaderElement::Array(row));
        assert(values_of(rows@) =~= before.push(ReaderElement::Array(row)@));
        assert(values_of(rows@) =~= tuple_rows(size, attr.scalars()).take(j + 1));
        j = j + 1;
    }
    proof {
        lemma_view_array(rows);
        assert(tuple_rows(size, attr.scalars()).take(count as int) =~= tuple_rows(
            size,
            attr.scalars(),
        ));
    }
    let mut block: Vec<ReaderElement> = Vec::new();
    block.push(ReaderElement::Text("size".to_owned()));
    block.push(ReaderElement::Int(size as i64));
    block.push(ReaderElement::Text("storage".to_owned()));
    block.push(ReaderElement::Text("fpreal64".to_owned()));
    block.push(ReaderElement::Text("tuples".to_owned()));
    block.push(ReaderElement::Array(rows));
    proof {
        lemma_view_array(block);
        assert(values_of(block@) =~= seq![
            Value::Text("size"@),
            Value::Int(size as i64),
            Value::Text("storage"@),
            Value::Text("fpreal64"@),
            Value::Text("tuples"@),
            Value::Array(tuple_rows(size, attr.scalars())),
        ]);
    }
    Ok(ReaderElement::Array(block))
}

/// Whether a block is a pair whose description names `name`.
pub open spec fn block_named(block: Value, name: Seq<char>) -> bool {
    block is Array && block->Array_0.len() == 2 && required_text(
        block->Array_0[0],
        seq!["name"@],
    ) == Ok::<Seq<char>, SchemaError>(name)
}

/// The place of the last of the first `upto` blocks that names `name`.
pub open spec fn last_named(blocks: Seq<Value>, name: Seq<char>, upto: int) -> Option<int>
    decreases upto,
{
    if upto <= 0 {
        None
    } else if block_named(blocks[upto - 1], name) {
        Some(upto - 1)
    } else {
        last_named(blocks, name, upto - 1)
    }
}

/// The place of the values in the payload of an attribute: under
/// `values` or, where that key is not there, under `indices`.
pub open spec fn values_position(payload: Value) -> Result<Option<int>, SchemaError> {
    match position(payload, seq!["values"@]) {
        Err(x) => Err(x),
        Ok(Some(i)) => Ok(Some(i)),
        Ok(None) => position(payload, seq!["indices"@]),
    }
}

/// The path from the root of a tree to the values of the attribute
/// `name` of the kind under `kind_key`: into the value under
/// `attributes`, into the blocks under `kind_key`, into the last block
/// that names `name`, into its payload, to its values. `None` where one
/// of these is not there.
pub open spec fn values_path(root: Value, kind_key: Seq<char>, name: Seq<char>) -> Result<
    Option<Seq<Step>>,
    SchemaError,
> {
    match position(root, seq!["attributes"@]) {
        Err(x) => Err(x),
        Ok(None) => Ok(None),
        Ok(Some(i)) => match position(root->Array_0[i], seq![kind_key]) {
            Err(x) => Err(x),
            Ok(None) => Ok(None),
            Ok(Some(j)) => match root->Array_0[i]->Array_0[j] {
                Value::Array(blocks) => match last_named(blocks, name, blocks.len() as int) {
                    None => Ok(None),
                    Some(b) => match values_position(blocks[b]->Array_0[1]) {
                        Err(x) => Err(x),
                        Ok(None) => Ok(None),
                        Ok(Some(v)) => Ok(
                            Some(
                                seq![
                                    Step::Index(i),
                                    Step::Index(j),
                                    Step::Index(b),
                                    Step::Index(1),
                                    Step::Index(v),
                                ],
                            ),
                        ),
                    },
                },
                _ => Ok(None),
            },
        },
    }
}

/// Whether a block is a pair whose description names `name`.
fn names(block: &ReaderElement, name: &str) -> (r: bool)
    ensures
        r == block_named(block@, name@),
{
    match block {
        ReaderElement::Array(parts) => {
            proof {
                lemma_view_array(*parts);
            }
            if parts.len() != 2 {
                return false;
            }
            let keys: Vec<&str> = vec!["name"];
            assert(keys_of(keys@) =~= seq!["name"@]);
            match required_text_of(&parts[0], keys.as_slice()) {
                Ok(t) => same_text(t.as_str(), name),
                Err(_) => false,
            }
        },
        _ => false,
    }
}

/// The path to the values of an attribute.
pub fn values_pointer(root: &ReaderElement, kind_key: &str, name: &str) -> (r: Result<
    Option<ReaderElementPointer>,
    SchemaError,
>)
    ensures
        match values_path(root@, kind_key@, name@) {
            Ok(Some(p)) => r is Ok && r->Ok_0 is Some && r->Ok_0->0@ == p && located(root@, p)
                is Some,
            Ok(None) => r is Ok && r->Ok_0 is None,
            Err(x) => r is Err && r->Err_0 == x,
        },
{
    let attributes_keys: Vec<&str> = vec!["attributes"];
    assert(keys_of(attributes_keys@) =~= seq!["attributes"@]);
    let i: usize = match locate_in_kv_array(root, attributes_keys.as_slice()) {
        Err(x) => {
            return Err(x);
        },
        Ok(None) => {
            return Ok(None);
        },
        Ok(Some(i)) => i,
    };
    let top: &Vec<ReaderElement> = match root {
        ReaderElement::Array(x) => x,
        _ => {
            return Ok(None);
        },
    };
    proof {
        lemma_view_array(*top);
    }
    let kind_keys: Vec<&str> = vec![kind_key];
    assert(keys_of(kind_keys@) =~= seq![kind_key@]);
    let j: usize = match locate_in_kv_array(&top[i], kind_keys.as_slice()) {
        Err(x) => {
            return Err(x);
        },
        Ok(None) => {
            return Ok(None);
        },
        Ok(Some(j)) => j,
    };
    let kinds: &Vec<ReaderElement> = match &top[i] {
        ReaderElement::Array(x) => x,
        _ => {
            return Ok(None);
        },
    };
    proof {
        lemma_view_array(*kinds);
    }
    let blocks: &Vec<ReaderElement> = match &kinds[j] {
        ReaderElement::Array(x) => x,
        _ => {
            return Ok(None);
        },
    };
    proof {
        lemma_view_array(*blocks);
    }
    let mut upto: usize = blocks.len();
    while upto > 0 && !names(&blocks[upto - 1], name)
        invariant
            upto <= blocks@.len(),
            last_named(values_of(blocks@), name@, blocks@.len() as int) == last_named(
                values_of(blocks@),
                name@,
                upto as int,
            ),
        decreases upto,
    {
        upto = upto - 1;
    }
    if upto == 0 {
        return Ok(None);
    }
    let b: usize = upto - 1;
    let parts: &Vec<ReaderElement> = match &blocks[b] {
        ReaderElement::Array(x) => x,
        _ => {
            return Ok(None);
        },
    };
    proof {
        lemma_view_array(*parts);
    }
    let values_keys: Vec<&str> = vec!["values"];
    assert(keys_of(values_keys@) =~= seq!["values"@]);
    let v: usize = match locate_in_kv_array(&parts[1], values_keys.as_slice()) {
        Err(x) => {
            return Err(x);
        },
        Ok(Some(v)) => v,
        Ok(None) => {
            let keys: Vec<&str> = vec!["indices"];
            assert(keys_of(keys@) =~= seq!["indices"@]);
            match locate_in_kv_array(&parts[1], keys.as_slice()) {
                Err(x) => {
                    return Err(x);
                },
                Ok(None) => {
                    return Ok(None);
                },
                Ok(Some(v)) => v,
            }
        },
    };
    let payload: &Vec<ReaderElement> = match &parts[1] {
        ReaderElement::Array(x) => x,
        _ => {
            return Ok(None);
        },
    };
    proof {
        lemma_view_array(*payload);
    }
    let mut pointer = ReaderElementPointer::new();
    pointer.add_array_index(i);
    pointer.add_array_index(j);
    pointer.add_array_index(b);
    pointer.add_array_index(1);
    pointer.add_array_index(v);
    proof {
        let whole = pointer@;
        assert(whole =~= seq![
            Step::Index(i as int),
            Step::Index(j as int),
            Step::Index(b as int),
            Step::Index(1),
            Step::Index(v as int),
        ]);
        let from_kinds = whole.skip(1);
        let from_blocks = from_kinds.skip(1);
        let from_block = from_blocks.skip(1);
        let from_payload = from_block.skip(1);
        let from_values = from_payload.skip(1);
        assert(from_values.len() == 0);
        assert(located(payload@[v as int]@, from_values) is Some);
        assert(located(parts@[1]@, from_payload) == located(payload@[v as int]@, from_values));
        assert(located(blocks@[b as int]@, from_block) == located(parts@[1]@, from_payload));
        assert(located(kinds@[j as int]@, from_blocks) == located(blocks@[b as int]@, from_block));
        assert(located(top@[i as int]@, from_kinds) == located(kinds@[j as int]@, from_blocks));
        assert(located(root@, whole) == located(top@[i as int]@, from_kinds));
    }
    Ok(Some(pointer))
}

/// Puts the values of `attr` in the place of the values of the
/// attribute `name` of the kind under `kind_key`. `false`, and nothing
/// changed, where the tree has no such attribute.
pub fn write_to_structure(
    attr: &TupleGeoAttribute<Real64>,
    root: &mut ReaderElement,
    kind_key: &str,
    name: &str,
) -> (r: Result<bool, SchemaError>)
    ensures
        match values_path(old(root)@, kind_key@, name@) {
            Err(x) => r is Err && r->Err_0 == x && final(root)@ == old(root)@,
            Ok(None) => r is Ok && r->Ok_0 == false && final(root)@ == old(root)@,
            Ok(Some(path)) => if attr.width() <= i64::MAX {
                r is Ok && r->Ok_0 == true && final(root)@ == replaced(
                    old(root)@,
                    path,
                    tuples_value(attr.width(), attr.scalars()),
                )
            } else {
                r is Err && r->Err_0 == SchemaError::OutOfRange && final(root)@ == old(root)@
            },
        },
{
    let pointer: ReaderElementPointer = match values_pointer(root, kind_key, name) {
        Err(x) => {
            return Err(x);
        },
        Ok(None) => {
            return Ok(false);
        },
        Ok(Some(p)) => p,
    };
    let block: ReaderElement = match tuples_block(attr) {
        Ok(b) => b,
        Err(x) => {
            return Err(x);
        },
    };
    match pointer.locate_key_in_mut(root) {
        Some(node) => {
            *node = block;
            Ok(true)
        },
        None => Ok(false),
    }
}

/// A row of reals reads as those reals.
proof fn lemma_row_reads_back(row: Seq<Value>, reals: Seq<Real64>, upto: int)
    requires
        0 <= upto <= row.len(),
        row.len() == reals.len(),
        forall|k: int| 0 <= k < row.len() ==> #[trigger] row[k] == Value::Real(reals[k]),
    ensures
        mapped_all::<Real64>(row.take(upto)) == Ok::<Seq<Real64>, SchemaError>(reals.take(upto)),
    decreases upto,
{
    if upto == 0 {
        assert(row.take(0) =~= Seq::<Value>::empty());
        assert(reals.take(0) =~= Seq::<Real64>::empty());
    } else {
        lemma_row_reads_back(row, reals, upto - 1);
        assert(row.take(upto).drop_last() =~= row.take(upto - 1));
        assert(row.take(upto).last() == row[upto - 1]);
        assert(reals.take(upto - 1).push(reals[upto - 1]) =~= reals.take(upto));
    }
}

/// The first rows of the tuples of a run of scalars read as the first
/// scalars of the run.
proof fn lemma_rows_read_back(tuple_size: usize, data: Seq<Real64>, upto: int)
    requires
        tuple_size > 0,
        0 <= upto <= data.len() / (tuple_size as nat),
    ensures
        upto * tuple_size <= data.len(),
        tuples_flat::<Real64>(tuple_rows(tuple_size, data).take(upto), tuple_size) == Ok::<
            Seq<Real64>,
            SchemaError,
        >(data.take(upto * tuple_size)),
    decreases upto,
{
    let rows = tuple_rows(tuple_size, data);
    let w = tuple_size as int;
    let len = data.len() as int;
    vstd::arithmetic::div_mod::lemma_fundamental_div_mod(len, w);
    assert(upto * w <= len) by (nonlinear_arith)
        requires
            upto <= len / w,
            len == w * (len / w) + len % w,
            0 <= len % w,
            w > 0,
            upto >= 0,
    ;
    if upto == 0 {
        assert(rows.take(0) =~= Seq::<Value>::empty());
        assert(0 * w == 0) by (nonlinear_arith);
        assert(data.take(0) =~= Seq::<Real64>::empty());
    } else {
        lemma_rows_read_back(tuple_size, data, upto - 1);
        assert(rows.take(upto).drop_last() =~= rows.take(upto - 1));
        assert(rows.take(upto).last() == rows[upto - 1]);
        assert((upto - 1) * w + w == upto * w) by (nonlinear_arith);
        let row = rows[upto - 1]->Array_0;
        let reals = data.subrange((upto - 1) * w, upto * w);
        assert forall|k: int| 0 <= k < row.len() implies #[trigger] row[k] == Value::Real(
            reals[k],
        ) by {}
        lemma_row_reads_back(row, reals, row.len() as int);
        assert(row.take(row.len() as int) =~= row);
        assert(reals.take(row.len() as int) =~= reals);
        assert(data.take((upto - 1) * w) + reals =~= data.take(upto * w));
    }
}

/// What is put into a tree for an attribute of reals reads back as the
/// scalars of the attribute, for any number of items.
pub proof fn lemma_tuples_read_back(tuple_size: usize, data: Seq<Real64>, n: usize)
    requires
        tuple_size > 0,
        tuple_size <= i64::MAX,
        data.len() % (tuple_size as nat) == 0,
    ensures
        attribute_values::<Real64>(tuples_value(tuple_size, data), tuple_size, n) == Ok::<
            Seq<Real64>,
            SchemaError,
        >(data),
{
    reveal_strlit("size");
    reveal_strlit("storage");
    reveal_strlit("tuples");
    let v = tuples_value(tuple_size, data);
    let items = v->Array_0;
    let keys = seq!["tuples"@];
    assert(!keys.contains("size"@)) by {
        if keys.contains("size"@) {
            let i = choose|i: int| 0 <= i < keys.len() && keys[i] == "size"@;
            assert(keys[i].len() == "size"@.len());
        }
    }
    assert(!keys.contains("storage"@)) by {
        if keys.contains("storage"@) {
            let i = choose|i: int| 0 <= i < keys.len() && keys[i] == "storage"@;
            assert(keys[i].len() == "storage"@.len());
        }
    }
    assert(keys.contains("tuples"@)) by {
        assert(keys[0] == "tuples"@);
    }
    assert(position_from(items, 4, keys) == Ok::<Option<int>, SchemaError>(Some(5)));
    assert(position_from(items, 2, keys) == position_from(items, 4, keys));
    assert(position_from(items, 0, keys) == position_from(items, 2, keys));
    assert(find(v, keys) == Ok::<Option<Value>, SchemaError>(Some(items[5])));
    let rows = tuple_rows(tuple_size, data);
    let count = (data.len() / (tuple_size as nat)) as int;
    lemma_rows_read_back(tuple_size, data, count);
    vstd::arithmetic::div_mod::lemma_fundamental_div_mod(data.len() as int, tuple_size as int);
    assert(count * tuple_size == data.len()) by (nonlinear_arith)
        requires
            data.len() == tuple_size * count + data.len() % (tuple_size as nat),
            data.len() % (tuple_size as nat) == 0,
    ;
    assert(rows.take(count) =~= rows);
    assert(data.take(count * tuple_size) =~= data);
}

/// Why the items of an attribute were not given new values.
#[derive(Clone, Copy, Debug, PartialEq, Eq)]
pub enum TransformError {
    /// An attribute that the expression names has no value to give.
    Binding(SchemaError),
    /// The expression does not work out.
    Evaluation(EvaluationError),
    /// What the expression works out to does not fit the attribute.
    Storing(SchemaError),
}

/// What a list of attributes holds.
pub open spec fn models_of(attrs: Seq<&GeoAttributeKind>) -> Seq<AttributeModel> {
    Seq::new(attrs.len(), |i: int| attrs[i]@)
}

/// Why an attribute has no value to give an expression for item `elem`;
/// `None` where it has one.
pub open spec fn binding_error(a: AttributeModel, elem: usize) -> Option<SchemaError> {
    match a {
        AttributeModel::Reals { tuple_size, reals } => if tuple_size == 1 {
            if elem < reals.len() {
                None
            } else {
                Some(SchemaError::OutOfRange)
            }
        } else if tuple_size == 3 {
            if elem * 3 + 3 <= reals.len() {
                None
            } else {
                Some(SchemaError::OutOfRange)
            }
        } else {
            Some(SchemaError::NotImplemented)
        },
        _ => Some(SchemaError::NotImplemented),
    }
}

/// The first of the first `count` attributes that has no value to give
/// for item `elem` says why.
pub open spec fn first_binding_error(attrs: Seq<AttributeModel>, count: int, elem: usize) -> Option<
    SchemaError,
>
    decreases count,
{
    if count <= 0 {
        None
    } else {
        match first_binding_error(attrs, count - 1, elem) {
            Some(e) => Some(e),
            None => binding_error(attrs[count - 1], elem),
        }
    }
}

/// How many names are bound to attributes: as many as there are of
/// both.
pub open spec fn bound_count(names: int, attrs: int) -> int {
    if names < attrs {
        names
    } else {
        attrs
    }
}

/// `values` is what the names of an expression are bound to for item
/// `elem`: name `i` to what attribute `i` gives for the item, and a name
/// that no attribute stands for to what it was bound to before.
pub open spec fn bound_for(
    defaults: Seq<BindingValue>,
    attrs: Seq<AttributeModel>,
    elem: usize,
    values: Seq<BindingValue>,
) -> bool {
    &&& values.len() == defaults.len()
    &&& forall|i: int|
        0 <= i < values.len() ==> (if i < attrs.len() {
            is_binding_of(attrs[i], elem, Ok(#[trigger] values[i]))
        } else {
            values[i] == defaults[i]
        })
}

/// `outcome` is what the expression `code` works out to for item
/// `elem`, with its names bound to the attributes and the arithmetic
/// `arithmetic`.
pub open spec fn item_worked<F: Fn(Operation, Real64, Real64) -> Real64>(
    arithmetic: F,
    code: Seq<Token>,
    defaults: Seq<BindingValue>,
    attrs: Seq<AttributeModel>,
    elem: usize,
    outcome: Result<BindingValue, EvaluationError>,
) -> bool {
    &&& first_binding_error(attrs, bound_count(defaults.len() as int, attrs.len() as int), elem)
        is None
    &&& exists|values: Seq<BindingValue>, answers: Seq<Seq<Real64>>|
        bound_for(defaults, attrs, elem, values) && #[trigger] answered(
            arithmetic,
            code,
            values,
            answers,
        ) && gives(outcome, evaluated(code, values, answers))
}

/// Item `elem` fails with `e`, before anything is stored.
pub open spec fn item_failed<F: Fn(Operation, Real64, Real64) -> Real64>(
    arithmetic: F,
    code: Seq<Token>,
    defaults: Seq<BindingValue>,
    attrs: Seq<AttributeModel>,
    elem: usize,
    e: TransformError,
) -> bool {
    match e {
        TransformError::Binding(x) => first_binding_error(
            attrs,
            bound_count(defaults.len() as int, attrs.len() as int),
            elem,
        ) == Some(x),
        TransformError::Evaluation(x) => item_worked(
            arithmetic,
            code,
            defaults,
            attrs,
            elem,
            Err(x),
        ),
        TransformError::Storing(_) => false,
    }
}

/// What an attribute says of item `elem` is what `binding_error` says.
pub proof fn lemma_binding_error(a: AttributeModel, elem: usize, r: Result<BindingValue, SchemaError>)
    requires
        is_binding_of(a, elem, r),
    ensures
        match binding_error(a, elem) {
            Some(e) => r == Err::<BindingValue, SchemaError>(e),
            None => r is Ok,
        },
{
}

/// Once an attribute has failed, that is the first error of any longer
/// list.
pub proof fn lemma_first_error_stays(attrs: Seq<AttributeModel>, at: int, count: int, elem: usize)
    requires
        at <= count,
        first_binding_error(attrs, at, elem) is Some,
    ensures
        first_binding_error(attrs, count, elem) == first_binding_error(attrs, at, elem),
    decreases count - at,
{
    if at < count {
        lemma_first_error_stays(attrs, at, count - 1, elem);
    }
}

/// Binds the names to what the attributes give for item `elem`.
fn bind_values(values: &mut Vec<BindingValue>, bind_attrs: &Vec<&GeoAttributeKind>, elem: usize) -> (r:
    Result<(), SchemaError>)
    ensures
        final(values)@.len() == old(values)@.len(),
        forall|i: int|
            bind_attrs@.len() <= i < old(values)@.len() ==> final(values)@[i] == old(values)@[i],
        match first_binding_error(
            models_of(bind_attrs@),
            bound_count(old(values)@.len() as int, bind_attrs@.len() as int),
            elem,
        ) {
            Some(e) => r == Err::<(), SchemaError>(e),
            None => r is Ok && bound_for(old(values)@, models_of(bind_attrs@), elem, final(values)@),
        },
{
    let n: usize = if values.len() < bind_attrs.len() {
        values.len()
    } else {
        bind_attrs.len()
    };
    let ghost attrs = models_of(bind_attrs@);
    let mut i: usize = 0;
    while i < n
        invariant
            i <= n,
            n == bound_count(old(values)@.len() as int, bind_attrs@.len() as int),
            attrs == models_of(bind_attrs@),
            values@.len() == old(values)@.len(),
            first_binding_error(attrs, i as int, elem) is None,
            forall|j: int| 0 <= j < i ==> is_binding_of(attrs[j], elem, Ok(#[trigger] values@[j])),
            forall|j: int| i <= j < values@.len() ==> values@[j] == old(values)@[j],
        decreases n - i,
    {
        let found = bind_item(bind_attrs[i], elem);
        proof {
            assert(attrs[i as int] == bind_attrs@[i as int]@);
            lemma_binding_error(attrs[i as int], elem, found);
        }
        match found {
            Ok(v) => {
                values.set(i, v);
            },
            Err(e) => {
                proof {
                    assert(first_binding_error(attrs, i + 1, elem) == Some(e));
                    lemma_first_error_stays(attrs, i + 1, n as int, elem);
                }
                return Err(e);
            },
        }
        i = i + 1;
    }
    Ok(())
}

/// `found` holds what the expression works out to for the items `from`
/// and on, one value for each.
pub open spec fn items_worked<F: Fn(Operation, Real64, Real64) -> Real64>(
    arithmetic: F,
    code: Seq<Token>,
    defaults: Seq<BindingValue>,
    attrs: Seq<AttributeModel>,
    from: usize,
    found: Seq<BindingValue>,
) -> bool {
    forall|k: int|
        0 <= k < found.len() ==> item_worked(
            arithmetic,
            code,
            defaults,
            attrs,
            (from + k) as usize,
            Ok(#[trigger] found[k]),
        )
}

/// The number of items from `from` up to `to`.
pub open spec fn span(from: usize, to: usize) -> int {
    if from <= to {
        to - from
    } else {
        0
    }
}

/// Works the expression out for each of the items from `from` up to
/// `to`, with its names bound to what the attributes hold for the item:
/// name `i` to attribute `i`. The values come in the order of the items.
/// The first item that fails ends the work.
pub fn evaluate_items<F: Fn(Operation, Real64, Real64) -> Real64>(
    precomp: &PrecompiledCode,
    bind_attrs: &Vec<&GeoAttributeKind>,
    from: usize,
    to: usize,
    arithmetic: &F,
) -> (r: Result<Vec<BindingValue>, TransformError>)
    requires
        forall|o: Operation, a: Real64, b: Real64| call_requires(*arithmetic, (o, a, b)),
    ensures
        match r {
            Ok(found) => found@.len() == span(from, to) && items_worked(
                *arithmetic,
                precomp.code(),
                precomp.values(),
                models_of(bind_attrs@),
                from,
                found@,
            ),
            Err(e) => exists|found: Seq<BindingValue>|
                found.len() < span(from, to) && #[trigger] items_worked(
                    *arithmetic,
                    precomp.code(),
                    precomp.values(),
                    models_of(bind_attrs@),
                    from,
                    found,
                ) && item_failed(
                    *arithmetic,
                    precomp.code(),
                    precomp.values(),
                    models_of(bind_attrs@),
                    (from + found.len()) as usize,
                    e,
                ),
        },
{
    let mut values: Vec<BindingValue> = precomp.clone_binding_values();
    let mut out: Vec<BindingValue> = Vec::new();
    let ghost defaults = precomp.values();
    let ghost attrs = models_of(bind_attrs@);
    let mut elem: usize = from;
    while elem < to
        invariant
            from <= elem,
            from < to ==> elem <= to,
            from >= to ==> elem == from,
            defaults == precomp.values(),
            attrs == models_of(bind_attrs@),
            forall|o: Operation, a: Real64, b: Real64| call_requires(*arithmetic, (o, a, b)),
            values@.len() == defaults.len(),
            forall|i: int| attrs.len() <= i < values@.len() ==> values@[i] == defaults[i],
            out@.len() == elem - from,
            items_worked(*arithmetic, precomp.code(), defaults, attrs, from, out@),
        decreases to - elem,
    {
        let ghost before = values@;
        let ghost so_far = out@;
        match bind_values(&mut values, bind_attrs, elem) {
            Ok(_) => {},
            Err(e) => {
                let failure = TransformError::Binding(e);
                assert(item_failed(*arithmetic, precomp.code(), defaults, attrs, elem, failure));
                return Err(failure);
            },
        }
        assert(bound_for(defaults, attrs, elem, values@)) by {
            assert(bound_for(before, attrs, elem, values@));
        }
        let worked = evaluate_expression_precompiled_with_bindings(precomp, &values, arithmetic);
        proof {
            let answers = choose|answers: Seq<Seq<Real64>>|
                answered(*arithmetic, precomp.code(), values@, answers) && gives(
                    worked,
                    evaluated(precomp.code(), values@, answers),
                );
            assert(answered(*arithmetic, precomp.code(), values@, answers));
            assert(item_worked(*arithmetic, precomp.code(), defaults, attrs, elem, worked));
        }
        match worked {
            Ok(v) => {
                out.push(v);
                assert forall|k: int| 0 <= k < out@.len() implies item_worked(
                    *arithmetic,
                    precomp.code(),
                    defaults,
                    attrs,
                    (from + k) as usize,
                    Ok(#[trigger] out@[k]),
                ) by {
                    if k < so_far.len() {
                        assert(out@[k] == so_far[k]);
                    }
                }
            },
            Err(e) => {
                let failure = TransformError::Evaluation(e);
                assert(item_failed(*arithmetic, precomp.code(), defaults, attrs, elem, failure));
                return Err(failure);
            },
        }
        elem = elem + 1;
    }
    Ok(out)
}

/// Whether an attribute of tuples of `width` scalars, `len` scalars in
/// all, holds a whole tuple for item `n`.
pub open spec fn holds_at(width: usize, len: nat, n: int) -> bool {
    0 <= n <= usize::MAX && n * width + width <= len
}

/// Why a value cannot be stored as an item of an attribute of reals;
/// `None` where it can. A real fills a tuple of one, a vector a tuple of
/// up to three; the attribute must hold the item.
pub open spec fn storing_error(width: usize, held: bool, value: BindingValue) -> Option<
    SchemaError,
> {
    if !(value is Float || value is Vector3) {
        Some(SchemaError::WrongType)
    } else if (value is Float && width != 1) || width > 3 {
        Some(SchemaError::Inconsistent)
    } else if !held {
        Some(SchemaError::OutOfRange)
    } else {
        None
    }
}

/// The tuple that a value is stored as: a real as itself, a vector as
/// the first `width` of its components.
pub open spec fn stored_tuple(width: usize, value: BindingValue) -> Seq<Real64> {
    match value {
        BindingValue::Float(f) => seq![f],
        BindingValue::Vector3(v) => v.data@.take(width as int),
        _ => Seq::empty(),
    }
}

/// The first of the first `count` values that cannot be stored, as
/// items `from` and on, says why.
pub open spec fn first_storing_error(
    width: usize,
    len: nat,
    from: usize,
    values: Seq<BindingValue>,
    count: int,
) -> Option<SchemaError>
    decreases count,
{
    if count <= 0 {
        None
    } else {
        match first_storing_error(width, len, from, values, count - 1) {
            Some(e) => Some(e),
            None => storing_error(width, holds_at(width, len, from + count - 1), values[count - 1]),
        }
    }
}

/// `after` is `before` with `values` stored as the items `from` and on.
pub open spec fn items_stored(
    before: Seq<Real64>,
    width: usize,
    from: usize,
    values: Seq<BindingValue>,
    after: Seq<Real64>,
) -> bool {
    &&& after.len() == before.len()
    &&& forall|k: int|
        0 <= k < values.len() ==> after.subrange(
            (from + k) * width,
            (from + k) * width + width,
        ) == stored_tuple(width, #[trigger] values[k])
    &&& forall|i: int|
        0 <= i < after.len() && !(from * width <= i < (from + values.len()) * width)
            ==> #[trigger] after[i] == before[i]
}

/// Once a value has failed, that is the first error of any longer list.
pub proof fn lemma_storing_error_stays(
    width: usize,
    len: nat,
    from: usize,
    values: Seq<BindingValue>,
    at: int,
    count: int,
)
    requires
        at <= count,
        first_storing_error(width, len, from, values, at) is Some,
    ensures
        first_storing_error(width, len, from, values, count) == first_storing_error(
            width,
            len,
            from,
            values,
            at,
        ),
    decreases count - at,
{
    if at < count {
        lemma_storing_error_stays(width, len, from, values, at, count - 1);
    }
}

/// Where no value fails, none of the first ones does.
pub proof fn lemma_storing_none(
    width: usize,
    len: nat,
    from: usize,
    values: Seq<BindingValue>,
    at: int,
    count: int,
)
    requires
        0 <= at < count,
        first_storing_error(width, len, from, values, count) is None,
    ensures
        storing_error(width, holds_at(width, len, from + at), values[at]) is None,
    decreases count - at,
{
    if at + 1 < count {
        lemma_storing_none(width, len, from, values, at, count - 1);
    }
}

/// Why `value` cannot be stored as item `from + k` of `target`.
fn storing_check(target: &TupleGeoAttribute<Real64>, from: usize, k: usize, value: &BindingValue) -> (r:
    Option<SchemaError>)
    ensures
        r == storing_error(
            target.width(),
            holds_at(target.width(), target.scalars().len(), from + k),
            *value,
        ),
{
    let size: usize = target.tuple_size();
    let is_real: bool = match value {
        BindingValue::Float(_) => true,
        _ => false,
    };
    let is_vector: bool = match value {
        BindingValue::Vector3(_) => true,
        _ => false,
    };
    if !(is_real || is_vector) {
        return Some(SchemaError::WrongType);
    }
    if (is_real && size != 1) || size > 3 {
        return Some(SchemaError::Inconsistent);
    }
    let held: bool = match from.checked_add(k) {
        Some(n) => target.holds_item(n),
        None => false,
    };
    if !held {
        return Some(SchemaError::OutOfRange);
    }
    None
}

/// Stores `values` as the items `from` and on of an attribute of reals:
/// all of them, or none where one of them cannot be stored.
pub fn store_items(target: &mut TupleGeoAttribute<Real64>, from: usize, values: &Vec<BindingValue>) -> (r:
    Result<(), SchemaError>)
    ensures
        final(target).width() == old(target).width(),
        match first_storing_error(
            old(target).width(),
            old(target).scalars().len(),
            from,
            values@,
            values@.len() as int,
        ) {
            Some(e) => r == Err::<(), SchemaError>(e) && final(target).scalars() == old(
                target,
            ).scalars(),
            None => r is Ok && items_stored(
                old(target).scalars(),
                old(target).width(),
                from,
                values@,
                final(target).scalars(),
            ),
        },
{
    let ghost width = target.width();
    let ghost len = target.scalars().len();
    let mut k: usize = 0;
    while k < values.len()
        invariant
            k <= values@.len(),
            *target == *old(target),
            width == target.width(),
            len == target.scalars().len(),
            first_storing_error(width, len, from, values@, k as int) is None,
        decreases values.len() - k,
    {
        match storing_check(target, from, k, &values[k]) {
            Some(e) => {
                proof {
                    assert(first_storing_error(width, len, from, values@, k + 1) == Some(e));
                    lemma_storing_error_stays(
                        width,
                        len,
                        from,
                        values@,
                        k + 1,
                        values@.len() as int,
                    );
                }
                return Err(e);
            },
            None => {},
        }
        k = k + 1;
    }
    let mut k: usize = 0;
    while k < values.len()
        invariant
            k <= values@.len(),
            width == target.width(),
            width == old(target).width(),
            len == target.scalars().len(),
            len == old(target).scalars().len(),
            first_storing_error(width, len, from, values@, values@.len() as int) is None,
            forall|j: int|
                0 <= j < k ==> target.scalars().subrange(
                    (from + j) * width,
                    (from + j) * width + width,
                ) == stored_tuple(width, #[trigger] values@[j]),
            forall|i: int|
                0 <= i < len && !(from * width <= i < (from + k) * width)
                    ==> #[trigger] target.scalars()[i] == old(target).scalars()[i],
        decreases values.len() - k,
    {
        proof {
            lemma_storing_none(width, len, from, values@, k as int, values@.len() as int);
        }
        let elem: usize = from + k;
        let ghost before = target.scalars();
        let stored = store_item(target, elem, values[k]);
        proof {
            assert(stored is Ok);
            assert((from + k) * width + width == (from + k + 1) * width) by (nonlinear_arith);
            assert(from * width <= (from + k) * width) by (nonlinear_arith)
                requires
                    0 <= k,
                    0 <= width,
            ;
            assert forall|j: int| 0 <= j < k implies target.scalars().subrange(
                (from + j) * width,
                (from + j) * width + width,
            ) == stored_tuple(width, #[trigger] values@[j]) by {
                assert((from + j) * width + width <= (from + k) * width) by (nonlinear_arith)
                    requires
                        0 <= j < k,
                        0 <= width,
                        0 <= from,
                ;
                assert(0 <= (from + j) * width) by (nonlinear_arith)
                    requires
                        0 <= j,
                        0 <= width,
                        0 <= from,
                ;
                assert(target.scalars().subrange((from + j) * width, (from + j) * width + width)
                    =~= before.subrange((from + j) * width, (from + j) * width + width));
            }
            assert(target.item(elem as int) == stored_tuple(width, values@[k as int]));
        }
        k = k + 1;
    }
    Ok(())
}

/// The number of items of an attribute: of whole tuples of `width`
/// scalars among `len` scalars.
pub open spec fn item_count(width: usize, len: nat) -> int {
    if width == 0 {
        0
    } else {
        (len / (width as nat)) as int
    }
}

/// Gives each item of an attribute of reals the value that the
/// expression works out to for it, with name `i` of the expression bound
/// to what attribute `i` of `bind_attrs` holds for the item. Either all
/// items get their values, or the attribute stays as it is.
pub fn run_over_f64<F: Fn(Operation, Real64, Real64) -> Real64>(
    precomp: &PrecompiledCode,
    target_attr: &mut TupleGeoAttribute<Real64>,
    bind_attrs: &Vec<&GeoAttributeKind>,
    arithmetic: &F,
) -> (r: Result<(), TransformError>)
    requires
        forall|o: Operation, a: Real64, b: Real64| call_requires(*arithmetic, (o, a, b)),
    ensures
        final(target_attr).width() == old(target_attr).width(),
        r is Err ==> final(target_attr).scalars() == old(target_attr).scalars(),
        exists|found: Seq<BindingValue>|
            #[trigger] items_worked(
                *arithmetic,
                precomp.code(),
                precomp.values(),
                models_of(bind_attrs@),
                0,
                found,
            ) && match r {
                Ok(_) => found.len() == item_count(
                    old(target_attr).width(),
                    old(target_attr).scalars().len(),
                ) && items_stored(
                    old(target_attr).scalars(),
                    old(target_attr).width(),
                    0,
                    found,
                    final(target_attr).scalars(),
                ),
                Err(TransformError::Storing(x)) => found.len() == item_count(
                    old(target_attr).width(),
                    old(target_attr).scalars().len(),
                ) && first_storing_error(
                    old(target_attr).width(),
                    old(target_attr).scalars().len(),
                    0,
                    found,
                    found.len() as int,
                ) == Some(x),
                Err(e) => found.len() < item_count(
                    old(target_attr).width(),
                    old(target_attr).scalars().len(),
                ) && item_failed(
                    *arithmetic,
                    precomp.code(),
                    precomp.values(),
                    models_of(bind_attrs@),
                    found.len() as usize,
                    e,
                ),
            },
{
    let count: usize = target_attr.len();
    match evaluate_items(precomp, bind_attrs, 0, count, arithmetic) {
        Ok(values) => {
            let r = match store_items(target_attr, 0, &values) {
                Ok(_) => Ok(()),
                Err(e) => Err(TransformError::Storing(e)),
            };
            assert(items_worked(
                *arithmetic,
                precomp.code(),
                precomp.values(),
                models_of(bind_attrs@),
                0,
                values@,
            ));
            r
        },
        Err(e) => Err(e),
    }
}

/// Two results of working an expression out are the same: the same
/// failure, or values that stand for the same operand.
pub open spec fn same_outcome(
    a: Result<BindingValue, EvaluationError>,
    b: Result<BindingValue, EvaluationError>,
) -> bool {
    match a {
        Ok(x) => b is Ok && bound_operand(x) == bound_operand(b->Ok_0),
        Err(e) => b == Err::<BindingValue, EvaluationError>(e),
    }
}

/// With arithmetic that gives one answer to each question, an item
/// has one outcome: what the expression works out to for it depends on
/// the item alone, not on when or with which other items it is worked
/// on.
pub proof fn lemma_item_determined<F: Fn(Operation, Real64, Real64) -> Real64>(
    arithmetic: F,
    code: Seq<Token>,
    defaults: Seq<BindingValue>,
    attrs: Seq<AttributeModel>,
    elem: usize,
    a: Result<BindingValue, EvaluationError>,
    b: Result<BindingValue, EvaluationError>,
)
    requires
        deterministic(arithmetic),
        item_worked(arithmetic, code, defaults, attrs, elem, a),
        item_worked(arithmetic, code, defaults, attrs, elem, b),
    ensures
        same_outcome(a, b),
{
    let (v1, a1) = choose|values: Seq<BindingValue>, answers: Seq<Seq<Real64>>|
        bound_for(defaults, attrs, elem, values) && #[trigger] answered(
            arithmetic,
            code,
            values,
            answers,
        ) && gives(a, evaluated(code, values, answers));
    let (v2, a2) = choose|values: Seq<BindingValue>, answers: Seq<Seq<Real64>>|
        bound_for(defaults, attrs, elem, values) && #[trigger] answered(
            arithmetic,
            code,
            values,
            answers,
        ) && gives(b, evaluated(code, values, answers));
    assert forall|i: int| 0 <= i < v1.len() implies bound_operand(#[trigger] v1[i])
        == bound_operand(v2[i]) by {
        if i < attrs.len() {
            assert(is_binding_of(attrs[i], elem, Ok(v1[i])));
            assert(is_binding_of(attrs[i], elem, Ok(v2[i])));
        } else {
            assert(v1[i] == defaults[i]);
            assert(v2[i] == defaults[i]);
        }
    }
    assert(same_bindings(v1, v2));
    lemma_evaluation_determined(arithmetic, code, v1, v2, a1, a2);
}

/// The tuple that item `elem` of an attribute of tuples of `width`
/// reals gets from the expression.
pub open spec fn item_tuple<F: Fn(Operation, Real64, Real64) -> Real64>(
    arithmetic: F,
    code: Seq<Token>,
    defaults: Seq<BindingValue>,
    attrs: Seq<AttributeModel>,
    width: usize,
    elem: int,
) -> Seq<Real64> {
    stored_tuple(
        width,
        choose|value: BindingValue|
            item_worked(arithmetic, code, defaults, attrs, elem as usize, Ok(value)),
    )
}

/// The transform that the expression makes of the items.
pub open spec fn item_transform<F: Fn(Operation, Real64, Real64) -> Real64>(
    arithmetic: F,
    code: Seq<Token>,
    defaults: Seq<BindingValue>,
    attrs: Seq<AttributeModel>,
    width: usize,
) -> spec_fn(int) -> Seq<Real64> {
    |elem: int| item_tuple(arithmetic, code, defaults, attrs, width, elem)
}

/// The tuples that a list of values is stored as, one after the other.
pub open spec fn tuples_of(width: usize, found: Seq<BindingValue>) -> Seq<Real64>
    decreases found.len(),
{
    if found.len() == 0 {
        Seq::empty()
    } else {
        tuples_of(width, found.drop_last()) + stored_tuple(width, found.last())
    }
}

/// With arithmetic that gives one answer to each question, the values
/// that the expression works out to for the items `from` and on are
/// stored as the run of the transform over those items. So what holds
/// of runs holds of them: worked out in chunks and joined, they are
/// what they are when worked out in one go.
pub proof fn lemma_items_are_a_run<F: Fn(Operation, Real64, Real64) -> Real64>(
    arithmetic: F,
    code: Seq<Token>,
    defaults: Seq<BindingValue>,
    attrs: Seq<AttributeModel>,
    width: usize,
    from: usize,
    found: Seq<BindingValue>,
)
    requires
        deterministic(arithmetic),
        from + found.len() <= usize::MAX,
        items_worked(arithmetic, code, defaults, attrs, from, found),
    ensures
        tuples_of(width, found) == run(
            item_transform(arithmetic, code, defaults, attrs, width),
            from as int,
            from + found.len(),
        ),
    decreases found.len(),
{
    let f = item_transform(arithmetic, code, defaults, attrs, width);
    if found.len() > 0 {
        let rest = found.drop_last();
        let last = (from + found.len() - 1) as usize;
        assert forall|k: int| 0 <= k < rest.len() implies item_worked(
            arithmetic,
            code,
            defaults,
            attrs,
            (from + k) as usize,
            Ok(#[trigger] rest[k]),
        ) by {
            assert(rest[k] == found[k]);
        }
        lemma_items_are_a_run(arithmetic, code, defaults, attrs, width, from, rest);
        assert(item_worked(arithmetic, code, defaults, attrs, last, Ok(found[found.len() - 1])));
        let elem: int = from + found.len() - 1;
        assert(elem as usize == last);
        let chosen = choose|value: BindingValue|
            item_worked(arithmetic, code, defaults, attrs, elem as usize, Ok(value));
        lemma_item_determined(
            arithmetic,
            code,
            defaults,
            attrs,
            last,
            Ok(found.last()),
            Ok(chosen),
        );
        assert(stored_tuple(width, found.last()) == stored_tuple(width, chosen));
        assert(f(elem) == item_tuple(arithmetic, code, defaults, attrs, width, elem));
    }
}

/// Where chunk `k` starts: at the end of the chunk before it.
pub open spec fn chunk_start(ends: Seq<int>, k: int) -> int {
    if k <= 0 {
        0
    } else {
        ends[k - 1]
    }
}

/// `parts` holds, for each chunk, what the expression works out to for
/// the items of the chunk.
pub open spec fn chunks_worked<F: Fn(Operation, Real64, Real64) -> Real64>(
    arithmetic: F,
    code: Seq<Token>,
    defaults: Seq<BindingValue>,
    attrs: Seq<AttributeModel>,
    ends: Seq<int>,
    parts: Seq<Seq<BindingValue>>,
) -> bool {
    &&& parts.len() == ends.len()
    &&& forall|k: int|
        0 <= k < ends.len() ==> (#[trigger] parts[k]).len() == ends[k] - chunk_start(ends, k)
            && items_worked(
            arithmetic,
            code,
            defaults,
            attrs,
            chunk_start(ends, k) as usize,
            parts[k],
        )
}

/// The tuples that the values of the first `k` chunks are stored as,
/// chunk after chunk.
pub open spec fn parts_tuples(width: usize, parts: Seq<Seq<BindingValue>>, k: int) -> Seq<Real64>
    decreases k,
{
    if k <= 0 {
        Seq::empty()
    } else {
        parts_tuples(width, parts, k - 1) + tuples_of(width, parts[k - 1])
    }
}

/// The tuples of the first `k` chunks are the first `k` chunks of the
/// transform.
proof fn lemma_parts_are_chunks<F: Fn(Operation, Real64, Real64) -> Real64>(
    arithmetic: F,
    code: Seq<Token>,
    defaults: Seq<BindingValue>,
    attrs: Seq<AttributeModel>,
    width: usize,
    len: usize,
    ends: Seq<int>,
    parts: Seq<Seq<BindingValue>>,
    k: int,
)
    requires
        deterministic(arithmetic),
        is_partition(ends, len as int),
        chunks_worked(arithmetic, code, defaults, attrs, ends, parts),
        0 <= k <= ends.len(),
    ensures
        parts_tuples(width, parts, k) == chunks_joined(
            item_transform(arithmetic, code, defaults, attrs, width),
            ends,
            k,
        ),
    decreases k,
{
    if k > 0 {
        lemma_parts_are_chunks(arithmetic, code, defaults, attrs, width, len, ends, parts, k - 1);
        let start = chunk_start(ends, k - 1);
        assert(parts[k - 1].len() == ends[k - 1] - start);
        assert(0 <= ends[k - 1] <= len);
        if k > 1 {
            assert(0 <= ends[k - 2] <= len);
        }
        lemma_items_are_a_run(
            arithmetic,
            code,
            defaults,
            attrs,
            width,
            start as usize,
            parts[k - 1],
        );
    }
}

/// With arithmetic that gives one answer to each question, the items
/// worked on in chunks get the tuples that they get when all are worked
/// on in one go, however the items are cut into chunks.
pub proof fn theorem_chunked_transform<F: Fn(Operation, Real64, Real64) -> Real64>(
    arithmetic: F,
    code: Seq<Token>,
    defaults: Seq<BindingValue>,
    attrs: Seq<AttributeModel>,
    width: usize,
    len: usize,
    ends: Seq<int>,
    parts: Seq<Seq<BindingValue>>,
    whole: Seq<BindingValue>,
)
    requires
        deterministic(arithmetic),
        is_partition(ends, len as int),
        chunks_worked(arithmetic, code, defaults, attrs, ends, parts),
        whole.len() == len,
        items_worked(arithmetic, code, defaults, attrs, 0, whole),
    ensures
        parts_tuples(width, parts, parts.len() as int) == tuples_of(width, whole),
{
    let f = item_transform(arithmetic, code, defaults, attrs, width);
    lemma_parts_are_chunks(
        arithmetic,
        code,
        defaults,
        attrs,
        width,
        len,
        ends,
        parts,
        ends.len() as int,
    );
    lemma_chunked_equals_whole(f, ends, len as int);
    lemma_items_are_a_run(arithmetic, code, defaults, attrs, width, 0, whole);
}

/// Where values were stored as the items `from` and on, the scalars of
/// those items are the tuples of the values, one after the other.
pub proof fn lemma_stored_is_flat(
    before: Seq<Real64>,
    width: usize,
    from: usize,
    values: Seq<BindingValue>,
    after: Seq<Real64>,
    k: int,
)
    requires
        0 <= k <= values.len(),
        from * width <= before.len(),
        first_storing_error(width, before.len(), from, values, values.len() as int) is None,
        items_stored(before, width, from, values, after),
    ensures
        0 <= from * width <= (from + k) * width <= after.len(),
        after.subrange(from * width, (from + k) * width) == tuples_of(width, values.take(k)),
    decreases k,
{
    assert(0 <= from * width) by (nonlinear_arith)
        requires
            0 <= from,
            0 <= width,
    ;
    if k == 0 {
        assert((from + 0) * width == from * width);
        assert(after.subrange(from * width, (from + 0) * width) =~= Seq::<Real64>::empty());
        assert(values.take(0) =~= Seq::<BindingValue>::empty());
    } else {
        lemma_stored_is_flat(before, width, from, values, after, k - 1);
        lemma_storing_none(width, before.len(), from, values, k - 1, values.len() as int);
        let low = (from + k - 1) * width;
        assert((from + k) * width == low + width) by (nonlinear_arith)
            requires
                low == (from + k - 1) * width,
        ;
        assert(after.subrange(low, low + width) == stored_tuple(width, values[k - 1]));
        assert(values.take(k).drop_last() =~= values.take(k - 1));
        assert(values.take(k).last() == values[k - 1]);
        assert(after.subrange(from * width, (from + k) * width) =~= after.subrange(
            from * width,
            low,
        ) + after.subrange(low, low + width));
    }
}

/// Why the point attributes of a geometry were not worked on.
#[derive(Clone, Copy, Debug, PartialEq, Eq)]
pub enum ManipulationError {
    /// The expression is no expression.
    Compilation(CompilationError),
    /// The tree does not read as geometry.
    Schema(SchemaError),
    /// There is no point attribute of the name that the values are
    /// meant for.
    NoTargetAttribute,
    /// A name of the expression is no point attribute.
    NoSourceAttribute,
    /// The attribute that the values are meant for is none of reals.
    NotImplemented,
    /// An item did not get its value.
    Transform(TransformError),
}

/// A geometry whose point attributes are worked on: the tree that is
/// read, which stays as it is, and a copy of it that takes the results.
pub struct HoudiniGeoSchemaManipulator<'a> {
    result_geo_data: ReaderElement,
    schema_parser: HoudiniGeoSchemaParser<'a>,
}

/// Whether each of the names is the name of an attribute.
pub open spec fn all_named(attrs: Seq<(Seq<char>, AttributeModel)>, names: Seq<Seq<char>>) -> bool {
    forall|i: int| 0 <= i < names.len() ==> object_get(attrs, #[trigger] names[i]) is Some
}

/// The attributes that the names stand for, in the order of the names.
pub open spec fn sources_of(attrs: Seq<(Seq<char>, AttributeModel)>, names: Seq<Seq<char>>) -> Seq<
    AttributeModel,
> {
    Seq::new(names.len(), |i: int| object_get(attrs, names[i])->0)
}

/// What becomes of the tree `before` when the scalars `stored` are
/// written as the values of the point attribute `name`: they take the
/// place of the values, where the tree has that attribute.
pub open spec fn written(
    before: Value,
    name: Seq<char>,
    width: usize,
    stored: Seq<Real64>,
    after: Value,
    r: Result<(), ManipulationError>,
) -> bool {
    match values_path(before, "pointattributes"@, name) {
        Err(x) => r == Err::<(), ManipulationError>(ManipulationError::Schema(x)) && after
            == before,
        Ok(None) => r == Err::<(), ManipulationError>(ManipulationError::NoTargetAttribute)
            && after == before,
        Ok(Some(path)) => if width <= i64::MAX {
            r == Ok::<(), ManipulationError>(()) && after == replaced(
                before,
                path,
                tuples_value(width, stored),
            )
        } else {
            r == Err::<(), ManipulationError>(
                ManipulationError::Schema(SchemaError::OutOfRange),
            ) && after == before
        },
    }
}

/// What a run over an attribute of reals, of tuples of `width` and with
/// the scalars `reals`, makes of the tree `before`: `found` is what the
/// expression works out to for the items, `stored` the scalars of the
/// attribute with those values stored. The first item that fails ends
/// the run and leaves the tree as it is; else the scalars are written
/// to the tree.
pub open spec fn reals_run<F: Fn(Operation, Real64, Real64) -> Real64>(
    arithmetic: F,
    code: Seq<Token>,
    defaults: Seq<BindingValue>,
    sources: Seq<AttributeModel>,
    width: usize,
    reals: Seq<Real64>,
    name: Seq<char>,
    before: Value,
    after: Value,
    r: Result<(), ManipulationError>,
    found: Seq<BindingValue>,
    stored: Seq<Real64>,
) -> bool {
    &&& items_worked(arithmetic, code, defaults, sources, 0, found)
    &&& match r {
        Err(ManipulationError::Transform(TransformError::Storing(x))) => after == before
            && found.len() == item_count(width, reals.len()) && first_storing_error(
            width,
            reals.len(),
            0,
            found,
            found.len() as int,
        ) == Some(x),
        Err(ManipulationError::Transform(e)) => after == before && found.len() < item_count(
            width,
            reals.len(),
        ) && item_failed(arithmetic, code, defaults, sources, found.len() as usize, e),
        _ => found.len() == item_count(width, reals.len()) && items_stored(
            reals,
            width,
            0,
            found,
            stored,
        ) && written(before, name, width, stored, after, r),
    }
}

/// What a run over an attribute of reals makes of the tree `before`,
/// whatever the expression worked out to.
pub open spec fn reals_ran<F: Fn(Operation, Real64, Real64) -> Real64>(
    arithmetic: F,
    code: Seq<Token>,
    defaults: Seq<BindingValue>,
    sources: Seq<AttributeModel>,
    width: usize,
    reals: Seq<Real64>,
    name: Seq<char>,
    before: Value,
    after: Value,
    r: Result<(), ManipulationError>,
) -> bool {
    exists|found: Seq<BindingValue>, stored: Seq<Real64>|
        #[trigger] reals_run(
            arithmetic,
            code,
            defaults,
            sources,
            width,
            reals,
            name,
            before,
            after,
            r,
            found,
            stored,
        )
}

/// What a run over the attribute `target` makes of the tree `before`:
/// only an attribute of reals is run over.
pub open spec fn attribute_run<F: Fn(Operation, Real64, Real64) -> Real64>(
    arithmetic: F,
    code: Seq<Token>,
    defaults: Seq<BindingValue>,
    sources: Seq<AttributeModel>,
    target: AttributeModel,
    name: Seq<char>,
    before: Value,
    after: Value,
    r: Result<(), ManipulationError>,
) -> bool {
    match target {
        AttributeModel::Reals { tuple_size, reals } => reals_ran(
            arithmetic,
            code,
            defaults,
            sources,
            tuple_size,
            reals,
            name,
            before,
            after,
            r,
        ),
        _ => r == Err::<(), ManipulationError>(ManipulationError::NotImplemented) && after
            == before,
    }
}

/// What a run of an expression over the point attributes of the tree
/// `source` makes of the tree `before`. The point attributes must read;
/// the attribute `name` must be among them; each name of the expression
/// must be one of them; and the attribute `name` must be one of reals.
/// Then each of its items gets what the expression works out to for it.
pub open spec fn run_outcome<F: Fn(Operation, Real64, Real64) -> Real64>(
    arithmetic: F,
    code: Seq<Token>,
    defaults: Seq<BindingValue>,
    names: Seq<Seq<char>>,
    source: Value,
    name: Seq<char>,
    before: Value,
    after: Value,
    r: Result<(), ManipulationError>,
) -> bool {
    match attributes_of(source, "pointattributes"@, "pointcount"@) {
        Err(x) => r == Err::<(), ManipulationError>(ManipulationError::Schema(x)) && after
            == before,
        Ok(attrs) => match object_get(attrs, name) {
            None => r == Err::<(), ManipulationError>(ManipulationError::NoTargetAttribute)
                && after == before,
            Some(target) => if !all_named(attrs, names) {
                r == Err::<(), ManipulationError>(ManipulationError::NoSourceAttribute)
                    && after == before
            } else {
                attribute_run(
                    arithmetic,
                    code,
                    defaults,
                    sources_of(attrs, names),
                    target,
                    name,
                    before,
                    after,
                    r,
                )
            },
        },
    }
}

impl<'a> HoudiniGeoSchemaManipulator<'a> {
    /// The tree that is read.
    pub closed spec fn source(&self) -> Value {
        self.schema_parser.root()
    }

    /// The tree that takes the results.
    pub closed spec fn result(&self) -> Value {
        self.result_geo_data@
    }

    /// Takes a tree up: it must read as geometry. The results start as
    /// a copy of it.
    pub fn new(geo_data: &'a ReaderElement) -> (r: Result<
        HoudiniGeoSchemaManipulator<'a>,
        SchemaError,
    >)
        ensures
            match schema_header(geo_data@) {
                Ok(_) => r is Ok && r->Ok_0.source() == geo_data@ && r->Ok_0.result()
                    == geo_data@,
                Err(x) => r is Err && r->Err_0 == x,
            },
    {
        match HoudiniGeoSchemaParser::new(geo_data) {
            Ok(schema_parser) => Ok(
                HoudiniGeoSchemaManipulator { result_geo_data: geo_data.clone(), schema_parser },
            ),
            Err(x) => Err(x),
        }
    }

    /// The tree with the results.
    pub fn into_result(self) -> (r: ReaderElement)
        ensures
            r@ == self.result(),
    {
        self.result_geo_data
    }

    /// Gives each item of the point attribute `target_attribute_name`
    /// the value that the expression works out to for it, with each
    /// name of the expression bound to what the point attribute of that
    /// name holds for the item, and writes the attribute to the tree of
    /// results. The values are read from the tree that was taken up.
    pub fn run_over_point_attributes_precompiled<F: Fn(Operation, Real64, Real64) -> Real64>(
        &mut self,
        precomp: &PrecompiledCode,
        target_attribute_name: &str,
        arithmetic: &F,
    ) -> (r: Result<(), ManipulationError>)
        requires
            forall|o: Operation, a: Real64, b: Real64| call_requires(*arithmetic, (o, a, b)),
        ensures
            final(self).source() == old(self).source(),
            run_outcome(
                *arithmetic,
                precomp.code(),
                precomp.values(),
                precomp.names(),
                old(self).source(),
                target_attribute_name@,
                old(self).result(),
                final(self).result(),
                r,
            ),
    {
        match self.schema_parser.parse_point_attributes() {
            Ok(_) => {},
            Err(x) => {
                return Err(ManipulationError::Schema(x));
            },
        }
        let ghost attrs = self.schema_parser.point_attributes()->0;
        let target_attribute_kind: &GeoAttributeKind = match self.schema_parser.point_attribute(
            target_attribute_name,
        ) {
            Some(x) => x,
            None => {
                return Err(ManipulationError::NoTargetAttribute);
            },
        };
        let names: Vec<&str> = precomp.binding_names();
        let mut bind_attrs: Vec<&GeoAttributeKind> = Vec::new();
        let mut i: usize = 0;
        while i < names.len()
            invariant
                i <= names@.len(),
                names@.len() == precomp.names().len(),
                forall|j: int|
                    0 <= j < names@.len() ==> (#[trigger] names@[j])@ == precomp.names()[j],
                self.schema_parser.point_attributes() == Some(attrs),
                self.schema_parser.root() == old(self).schema_parser.root(),
                self.result_geo_data == old(self).result_geo_data,
                attributes_of(old(self).source(), "pointattributes"@, "pointcount"@) == Ok::<
                    Seq<(Seq<char>, AttributeModel)>,
                    SchemaError,
                >(attrs),
                object_get(attrs, target_attribute_name@) == Some(target_attribute_kind@),
                bind_attrs@.len() == i,
                forall|j: int|
                    0 <= j < i ==> object_get(attrs, precomp.names()[j]) == Some(
                        (#[trigger] bind_attrs@[j])@,
                    ),
            decreases names.len() - i,
        {
            match self.schema_parser.point_attribute(names[i]) {
                Some(attr) => {
                    bind_attrs.push(attr);
                },
                None => {
                    assert(object_get(attrs, precomp.names()[i as int]) is None);
                    return Err(ManipulationError::NoSourceAttribute);
                },
            }
            i = i + 1;
        }
        assert forall|j: int| 0 <= j < precomp.names().len() implies object_get(
            attrs,
            #[trigger] precomp.names()[j],
        ) is Some by {
            assert(object_get(attrs, precomp.names()[j]) == Some(bind_attrs@[j]@));
        }
        assert(all_named(attrs, precomp.names()));
        assert(models_of(bind_attrs@) =~= sources_of(attrs, precomp.names()));
        match target_attribute_kind {
            GeoAttributeKind::Float64(target_attr_source) => {
                let mut target_attr: TupleGeoAttribute<Real64> = target_attr_source.copy();
                let ghost before = self.result_geo_data@;
                let ghost reals = target_attr_source.scalars();
                let ghost width = target_attr_source.width();
                let ran = run_over_f64(precomp, &mut target_attr, &bind_attrs, arithmetic);
                let ghost found = choose|found: Seq<BindingValue>|
                    #[trigger] items_worked(
                        *arithmetic,
                        precomp.code(),
                        precomp.values(),
                        models_of(bind_attrs@),
                        0,
                        found,
                    ) && match ran {
                        Ok(_) => found.len() == item_count(width, reals.len()) && items_stored(
                            reals,
                            width,
                            0,
                            found,
                            target_attr.scalars(),
                        ),
                        Err(TransformError::Storing(x)) => found.len() == item_count(
                            width,
                            reals.len(),
                        ) && first_storing_error(width, reals.len(), 0, found, found.len() as int)
                            == Some(x),
                        Err(e) => found.len() < item_count(width, reals.len()) && item_failed(
                            *arithmetic,
                            precomp.code(),
                            precomp.values(),
                            models_of(bind_attrs@),
                            found.len() as usize,
                            e,
                        ),
                    };
                let r = match ran {
                    Err(e) => Err(ManipulationError::Transform(e)),
                    Ok(_) => match write_to_structure(
                        &target_attr,
                        &mut self.result_geo_data,
                        "pointattributes",
                        target_attribute_name,
                    ) {
                        Ok(true) => Ok(()),
                        Ok(false) => Err(ManipulationError::NoTargetAttribute),
                        Err(x) => Err(ManipulationError::Schema(x)),
                    },
                };
                assert(reals_run(
                    *arithmetic,
                    precomp.code(),
                    precomp.values(),
                    sources_of(attrs, precomp.names()),
                    width,
                    reals,
                    target_attribute_name@,
                    before,
                    self.result_geo_data@,
                    r,
                    found,
                    target_attr.scalars(),
                ));
                assert(reals_ran(
                    *arithmetic,
                    precomp.code(),
                    precomp.values(),
                    sources_of(attrs, precomp.names()),
                    width,
                    reals,
                    target_attribute_name@,
                    before,
                    self.result_geo_data@,
                    r,
                ));
                r
            },
            _ => Err(ManipulationError::NotImplemented),
        }
    }

    /// Makes the expression ready and runs it over the point
    /// attributes. `reals` tells what each real number of the
    /// expression reads as, in the order in which they stand.
    pub fn run_over_point_attributes<F: Fn(Operation, Real64, Real64) -> Real64>(
        &mut self,
        expression: &str,
        reals: &Vec<Option<Real64>>,
        target_attribute_name: &str,
        arithmetic: &F,
    ) -> (r: Result<(), ManipulationError>)
        requires
            forall|o: Operation, a: Real64, b: Real64| call_requires(*arithmetic, (o, a, b)),
        ensures
            final(self).source() == old(self).source(),
            match compiled(expression@, readings_of(reals@)) {
                Err(x) => r == Err::<(), ManipulationError>(
                    ManipulationError::Compilation(CompilationError { reason: x }),
                ) && final(self).result() == old(self).result(),
                Ok(c) => exists|defaults: Seq<BindingValue>|
                    #[trigger] unbound_values(defaults, c.1.len()) && run_outcome(
                        *arithmetic,
                        c.0,
                        defaults,
                        c.1,
                        old(self).source(),
                        target_attribute_name@,
                        old(self).result(),
                        final(self).result(),
                        r,
                    ),
            },
    {
        let precomp: PrecompiledCode = match precompile_expression(expression, reals) {
            Ok(x) => x,
            Err(e) => {
                assert(e == CompilationError { reason: e.reason });
                return Err(ManipulationError::Compilation(e));
            },
        };
        let r = self.run_over_point_attributes_precompiled(
            &precomp,
            target_attribute_name,
            arithmetic,
        );
        proof {
            precomp.lemma_as_many_values_as_names();
            let c = compiled(expression@, readings_of(reals@))->Ok_0;
            assert(c.0 == precomp.code());
            assert(c.1 == precomp.names());
            assert(unbound_values(precomp.values(), c.1.len()));
        }
        r
    }
}

/// `count` values, each bound to nothing.
pub open spec fn unbound_values(values: Seq<BindingValue>, count: nat) -> bool {
    values.len() == count && forall|i: int| 0 <= i < values.len() ==> #[trigger] values[i] is Unknown
}

} // verus!
