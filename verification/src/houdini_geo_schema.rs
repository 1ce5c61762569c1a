//! The geometry schema: counts, the vertex-to-point map, primitives and
//! attributes, read out of a generic tree.

use vstd::prelude::*;
use vstd::string::StrSliceExecFns;
use vstd::utf8::encode_utf8;
use crate::convert_from_trait::ConvertFromAll;
use crate::geo_attributes::{
    attributes_of, attributes_view, find_attribute, parse_attributes, AttributeModel,
    GeoAttributeKind, NamedAttribute,
};
use crate::geo_struct::{
    lemma_key_position, lemma_view_array, object_get, values_of, ReaderElement, Real32, Real64,
    UniformArrayType, UniformValue, Value,
};

verus! {

/// Why a tree could not be read as geometry.
#[derive(Clone, Copy, Debug, PartialEq, Eq, Structural)]
pub enum SchemaError {
    /// A container of keys and values is no array, or holds something
    /// other than a string where a key must stand.
    MalformedContainer,
    /// A key that must be there is not.
    MissingKey,
    /// A value is there, but of another kind than it must be.
    WrongType,
    /// A number is negative or too large for what it counts or indexes.
    OutOfRange,
    /// A kind of attribute storage that is not read.
    NotImplemented,
    /// The parts of a value do not fit each other.
    Inconsistent,
}

/// The texts of a list of keys.
pub open spec fn keys_of(keys: Seq<&str>) -> Seq<Seq<char>> {
    Seq::new(keys.len(), |i: int| keys[i]@)
}

/// The place of the value after the first of the keys `keys` among
/// `items`, which hold keys and values in turn, a key at `from` and at
/// every second place after it. Keys before the one found must be
/// strings. A key at the very end, without a value, finds nothing.
pub open spec fn position_from(items: Seq<Value>, from: int, keys: Seq<Seq<char>>) -> Result<
    Option<int>,
    SchemaError,
>
    decreases
            (if from < items.len() {
                items.len() - from
            } else {
                0
            }),
{
    if from < 0 || from >= items.len() {
        Ok(None)
    } else {
        match items[from] {
            Value::Text(k) => if keys.contains(k) {
                if from + 1 < items.len() {
                    Ok(Some(from + 1))
                } else {
                    Ok(None)
                }
            } else {
                position_from(items, from + 2, keys)
            },
            _ => Err(SchemaError::MalformedContainer),
        }
    }
}

/// The place of the value that a flat array of keys and values gives
/// for the first key that is one of `keys`.
pub open spec fn position(container: Value, keys: Seq<Seq<char>>) -> Result<
    Option<int>,
    SchemaError,
> {
    match container {
        Value::Array(items) => position_from(items, 0, keys),
        _ => Err(SchemaError::MalformedContainer),
    }
}

/// The value that a flat array of keys and values gives for the first
/// key that is one of `keys`; `None` where it has none of them.
pub open spec fn find(container: Value, keys: Seq<Seq<char>>) -> Result<
    Option<Value>,
    SchemaError,
> {
    match position(container, keys) {
        Err(x) => Err(x),
        Ok(None) => Ok(None),
        Ok(Some(i)) => Ok(Some(container->Array_0[i])),
    }
}

/// Whether two strings hold the same text.
pub fn same_text(a: &str, b: &str) -> (r: bool)
    ensures
        r == (a@ == b@),
{
    let x: &[u8] = a.as_bytes();
    let y: &[u8] = b.as_bytes();
    proof {
        vstd::utf8::encode_utf8_decode_utf8(a@);
        vstd::utf8::encode_utf8_decode_utf8(b@);
    }
    if x.len() != y.len() {
        return false;
    }
    let mut i: usize = 0;
    while i < x.len()
        invariant
            i <= x@.len(),
            x@.len() == y@.len(),
            x@ == encode_utf8(a@),
            y@ == encode_utf8(b@),
            forall|j: int| 0 <= j < i ==> x@[j] == y@[j],
        decreases x.len() - i,
    {
        if x[i] != y[i] {
            return false;
        }
        i = i + 1;
    }
    assert(x@ =~= y@);
    true
}

/// Whether a text starts with another.
pub fn has_prefix(s: &str, p: &str) -> (r: bool)
    ensures
        r == p@.is_prefix_of(s@),
{
    let n: usize = p.unicode_len();
    if s.unicode_len() < n {
        return false;
    }
    let mut i: usize = 0;
    while i < n
        invariant
            i <= n,
            n == p@.len(),
            n <= s@.len(),
            forall|j: int| 0 <= j < i ==> s@[j] == p@[j],
        decreases n - i,
    {
        if s.get_char(i) != p.get_char(i) {
            assert(s@.subrange(0, n as int)[i as int] != p@[i as int]);
            return false;
        }
        i = i + 1;
    }
    assert(s@.subrange(0, n as int) =~= p@);
    true
}

/// Whether a text ends with another.
pub fn has_suffix(s: &str, p: &str) -> (r: bool)
    ensures
        r == p@.is_suffix_of(s@),
{
    let n: usize = p.unicode_len();
    let m: usize = s.unicode_len();
    if m < n {
        return false;
    }
    let mut i: usize = 0;
    while i < n
        invariant
            i <= n,
            n == p@.len(),
            m == s@.len(),
            n <= m,
            forall|j: int| 0 <= j < i ==> s@[m - n + j] == p@[j],
        decreases n - i,
    {
        if s.get_char(m - n + i) != p.get_char(i) {
            assert(s@.subrange(m - n, m as int)[i as int] != p@[i as int]);
            return false;
        }
        i = i + 1;
    }
    assert(s@.subrange(m - n, m as int) =~= p@);
    true
}

/// Whether `text` is one of `keys`.
fn is_one_of(text: &str, keys: &[&str]) -> (r: bool)
    ensures
        r == keys_of(keys@).contains(text@),
{
    let mut i: usize = 0;
    while i < keys.len()
        invariant
            i <= keys@.len(),
            forall|j: int| 0 <= j < i ==> keys_of(keys@)[j] != text@,
        decreases keys.len() - i,
    {
        if same_text(keys[i], text) {
            assert(keys_of(keys@)[i as int] == text@);
            return true;
        }
        i = i + 1;
    }
    false
}

/// The place of the value under a key in a flat array of keys and
/// values. The first of `keys` that is met decides: the spellings of one
/// key can differ between the two encodings.
pub fn locate_in_kv_array(arr_elem: &ReaderElement, keys: &[&str]) -> (r: Result<
    Option<usize>,
    SchemaError,
>)
    ensures
        match position(arr_elem@, keys_of(keys@)) {
            Ok(Some(i)) => r is Ok && r->Ok_0 is Some && r->Ok_0->0 == i && arr_elem is Array && i
                < arr_elem->Array_0@.len(),
            Ok(None) => r is Ok && r->Ok_0 is None,
            Err(x) => r is Err && r->Err_0 == x,
        },
{
    let arr: &Vec<ReaderElement> = match arr_elem {
        ReaderElement::Array(x) => x,
        _ => {
            return Err(SchemaError::MalformedContainer);
        },
    };
    proof {
        lemma_view_array(*arr);
    }
    let mut i: usize = 0;
    while i < arr.len()
        invariant
            i <= arr@.len(),
            arr_elem is Array,
            arr_elem->Array_0 == *arr,
            position(arr_elem@, keys_of(keys@)) == position_from(
                values_of(arr@),
                i as int,
                keys_of(keys@),
            ),
        decreases arr.len() - i,
    {
        match &arr[i] {
            ReaderElement::Text(arr_key) => {
                if is_one_of(arr_key.as_str(), keys) {
                    if i + 1 < arr.len() {
                        return Ok(Some(i + 1));
                    } else {
                        return Ok(None);
                    }
                }
            },
            _ => {
                return Err(SchemaError::MalformedContainer);
            },
        }
        if arr.len() - i <= 2 {
            assert(position_from(values_of(arr@), i + 2, keys_of(keys@)) == Ok::<
                Option<int>,
                SchemaError,
            >(None));
            return Ok(None);
        }
        i = i + 2;
    }
    Ok(None)
}

/// Looks a key up in a flat array of keys and values. The first of
/// `keys` that is met decides.
pub fn get_from_any_kv_array<'a>(arr_elem: &'a ReaderElement, keys: &[&str]) -> (r: Result<
    Option<&'a ReaderElement>,
    SchemaError,
>)
    ensures
        match find(arr_elem@, keys_of(keys@)) {
            Ok(Some(v)) => r is Ok && r->Ok_0 is Some && r->Ok_0->0@ == v,
            Ok(None) => r is Ok && r->Ok_0 is None,
            Err(x) => r is Err && r->Err_0 == x,
        },
{
    match locate_in_kv_array(arr_elem, keys) {
        Err(x) => Err(x),
        Ok(None) => Ok(None),
        Ok(Some(i)) => match arr_elem {
            ReaderElement::Array(arr) => {
                proof {
                    lemma_view_array(*arr);
                }
                Ok(Some(&arr[i]))
            },
            _ => Ok(None),
        },
    }
}

/// Looks a key up in a flat array of keys and values.
pub fn get_from_kv_array<'a>(arr_elem: &'a ReaderElement, key: &str) -> (r: Result<
    Option<&'a ReaderElement>,
    SchemaError,
>)
    ensures
        match find(arr_elem@, seq![key@]) {
            Ok(Some(v)) => r is Ok && r->Ok_0 is Some && r->Ok_0->0@ == v,
            Ok(None) => r is Ok && r->Ok_0 is None,
            Err(x) => r is Err && r->Err_0 == x,
        },
{
    let keys: Vec<&str> = vec![key];
    assert(keys_of(keys@) =~= seq![key@]);
    get_from_any_kv_array(arr_elem, keys.as_slice())
}

/// The integers of a list of values, each of which must be one.
pub open spec fn int_items(items: Seq<Value>) -> Result<Seq<i64>, SchemaError>
    decreases items.len(),
{
    if items.len() == 0 {
        Ok(Seq::empty())
    } else {
        match int_items(items.drop_last()) {
            Err(x) => Err(x),
            Ok(head) => match items.last() {
                Value::Int(x) => Ok(head.push(x)),
                _ => Err(SchemaError::WrongType),
            },
        }
    }
}

/// The integers that a value lists: those of an array of integers, or of
/// a uniform array of an integer type.
pub open spec fn integers(v: Value) -> Result<Seq<i64>, SchemaError> {
    match v {
        Value::Array(items) => int_items(items),
        Value::Uniform(UniformValue::U8(v)) => Ok(Seq::new(v.len(), |i: int| v[i] as i64)),
        Value::Uniform(UniformValue::U16(v)) => Ok(Seq::new(v.len(), |i: int| v[i] as i64)),
        Value::Uniform(UniformValue::I8(v)) => Ok(Seq::new(v.len(), |i: int| v[i] as i64)),
        Value::Uniform(UniformValue::I16(v)) => Ok(Seq::new(v.len(), |i: int| v[i] as i64)),
        Value::Uniform(UniformValue::I32(v)) => Ok(Seq::new(v.len(), |i: int| v[i] as i64)),
        Value::Uniform(UniformValue::I64(v)) => Ok(v),
        _ => Err(SchemaError::WrongType),
    }
}

/// A number that counts or indexes: an integer that is not negative and
/// fits the word of the machine.
pub open spec fn natural(x: i64) -> Result<usize, SchemaError> {
    if 0 <= x <= usize::MAX {
        Ok(x as usize)
    } else {
        Err(SchemaError::OutOfRange)
    }
}

/// Integers as counts or indices: none may be negative.
pub open spec fn naturals(xs: Seq<i64>) -> Result<Seq<usize>, SchemaError> {
    if forall|i: int| 0 <= i < xs.len() ==> natural(#[trigger] xs[i]) is Ok {
        Ok(Seq::new(xs.len(), |i: int| xs[i] as usize))
    } else {
        Err(SchemaError::OutOfRange)
    }
}

/// The counts or indices that a value lists.
pub open spec fn index_list(v: Value) -> Result<Seq<usize>, SchemaError> {
    match integers(v) {
        Err(x) => Err(x),
        Ok(xs) => naturals(xs),
    }
}

/// The integer under one of `keys`, which must be there.
pub open spec fn required_int(container: Value, keys: Seq<Seq<char>>) -> Result<
    i64,
    SchemaError,
> {
    match find(container, keys) {
        Err(x) => Err(x),
        Ok(None) => Err(SchemaError::MissingKey),
        Ok(Some(Value::Int(x))) => Ok(x),
        Ok(Some(_)) => Err(SchemaError::WrongType),
    }
}

/// The count or index under one of `keys`, which must be there.
pub open spec fn required_natural(container: Value, keys: Seq<Seq<char>>) -> Result<
    usize,
    SchemaError,
> {
    match required_int(container, keys) {
        Err(x) => Err(x),
        Ok(x) => natural(x),
    }
}

/// The text under one of `keys`, which must be there.
pub open spec fn required_text(container: Value, keys: Seq<Seq<char>>) -> Result<
    Seq<char>,
    SchemaError,
> {
    match find(container, keys) {
        Err(x) => Err(x),
        Ok(None) => Err(SchemaError::MissingKey),
        Ok(Some(Value::Text(t))) => Ok(t),
        Ok(Some(_)) => Err(SchemaError::WrongType),
    }
}

/// Each scalar of a list, widened to 64 bits.
fn widen_all<K: Copy>(v: &Vec<K>) -> (r: Vec<i64>) where i64: ConvertFromAll<K>
    ensures
        r@ == Seq::new(v@.len(), |i: int| <i64 as ConvertFromAll<K>>::converted(v@[i])),
{
    let mut out: Vec<i64> = Vec::new();
    let mut i: usize = 0;
    while i < v.len()
        invariant
            i <= v@.len(),
            out@ == Seq::new(i as nat, |j: int| <i64 as ConvertFromAll<K>>::converted(v@[j])),
        decreases v.len() - i,
    {
        out.push(<i64 as ConvertFromAll<K>>::convert_from(v[i]));
        assert(out@ =~= Seq::new(
            (i + 1) as nat,
            |j: int| <i64 as ConvertFromAll<K>>::converted(v@[j]),
        ));
        i = i + 1;
    }
    out
}

/// The integers that a value lists.
pub fn integers_of(v: &ReaderElement) -> (r: Result<Vec<i64>, SchemaError>)
    ensures
        match integers(v@) {
            Ok(xs) => r is Ok && r->Ok_0@ == xs,
            Err(x) => r is Err && r->Err_0 == x,
        },
{
    match v {
        ReaderElement::Array(items) => {
            proof {
                lemma_view_array(*items);
            }
            let mut out: Vec<i64> = Vec::new();
            let mut i: usize = 0;
            assert(values_of(items@).take(0) =~= Seq::<Value>::empty());
            while i < items.len()
                invariant
                    i <= items@.len(),
                    v@ == Value::Array(values_of(items@)),
                    int_items(values_of(items@).take(i as int)) == Ok::<Seq<i64>, SchemaError>(
                        out@,
                    ),
                decreases items.len() - i,
            {
                proof {
                    assert(values_of(items@).take(i + 1).drop_last() =~= values_of(items@).take(
                        i as int,
                    ));
                }
                match &items[i] {
                    ReaderElement::Int(x) => {
                        out.push(*x);
                    },
                    _ => {
                        proof {
                            assert(int_items(values_of(items@).take(i + 1)) is Err);
                            lemma_int_items_prefix(values_of(items@), i + 1);
                        }
                        return Err(SchemaError::WrongType);
                    },
                }
                i = i + 1;
            }
            assert(values_of(items@).take(i as int) =~= values_of(items@));
            Ok(out)
        },
        ReaderElement::UniformArray(UniformArrayType::UniformArrayTu8(x)) => {
            let r = widen_all(x);
            assert(r@ =~= Seq::new(x@.len(), |i: int| x@[i] as i64));
            Ok(r)
        },
        ReaderElement::UniformArray(UniformArrayType::UniformArrayTu16(x)) => {
            let r = widen_all(x);
            assert(r@ =~= Seq::new(x@.len(), |i: int| x@[i] as i64));
            Ok(r)
        },
        ReaderElement::UniformArray(UniformArrayType::UniformArrayTi8(x)) => {
            let r = widen_all(x);
            assert(r@ =~= Seq::new(x@.len(), |i: int| x@[i] as i64));
            Ok(r)
        },
        ReaderElement::UniformArray(UniformArrayType::UniformArrayTi16(x)) => {
            let r = widen_all(x);
            assert(r@ =~= Seq::new(x@.len(), |i: int| x@[i] as i64));
            Ok(r)
        },
        ReaderElement::UniformArray(UniformArrayType::UniformArrayTi32(x)) => {
            let r = widen_all(x);
            assert(r@ =~= Seq::new(x@.len(), |i: int| x@[i] as i64));
            Ok(r)
        },
        ReaderElement::UniformArray(UniformArrayType::UniformArrayTi64(x)) => {
            let r = widen_all(x);
            assert(r@ =~= x@);
            Ok(r)
        },
        _ => Err(SchemaError::WrongType),
    }
}

/// Where the start of a list holds something that is no integer, so
/// does the list.
pub proof fn lemma_int_items_prefix(items: Seq<Value>, k: int)
    requires
        0 <= k <= items.len(),
        int_items(items.take(k)) is Err,
    ensures
        int_items(items) == int_items(items.take(k)),
    decreases items.len() - k,
{
    if k == items.len() {
        assert(items.take(k) =~= items);
    } else {
        assert(items.take(k + 1).drop_last() =~= items.take(k));
        lemma_int_items_prefix(items, k + 1);
    }
}

/// Integers as counts or indices.
pub fn naturals_of(xs: &Vec<i64>) -> (r: Result<Vec<usize>, SchemaError>)
    ensures
        match naturals(xs@) {
            Ok(ns) => r is Ok && r->Ok_0@ == ns,
            Err(x) => r is Err && r->Err_0 == x,
        },
{
    let mut out: Vec<usize> = Vec::new();
    let mut i: usize = 0;
    while i < xs.len()
        invariant
            i <= xs@.len(),
            forall|j: int| 0 <= j < i ==> natural(#[trigger] xs@[j]) is Ok,
            out@ == Seq::new(i as nat, |j: int| xs@[j] as usize),
        decreases xs.len() - i,
    {
        let x: i64 = xs[i];
        if x < 0 || x as u64 > usize::MAX as u64 {
            assert(natural(xs@[i as int]) is Err);
            return Err(SchemaError::OutOfRange);
        }
        out.push(x as usize);
        assert(out@ =~= Seq::new((i + 1) as nat, |j: int| xs@[j] as usize));
        i = i + 1;
    }
    Ok(out)
}

/// The counts or indices that a value lists.
pub fn index_list_of(v: &ReaderElement) -> (r: Result<Vec<usize>, SchemaError>)
    ensures
        match index_list(v@) {
            Ok(ns) => r is Ok && r->Ok_0@ == ns,
            Err(x) => r is Err && r->Err_0 == x,
        },
{
    match integers_of(v) {
        Ok(xs) => naturals_of(&xs),
        Err(x) => Err(x),
    }
}

/// An integer as a count or an index.
pub fn natural_of(x: i64) -> (r: Result<usize, SchemaError>)
    ensures
        r == natural(x),
{
    if x < 0 || x as u64 > usize::MAX as u64 {
        Err(SchemaError::OutOfRange)
    } else {
        Ok(x as usize)
    }
}

/// The integer under one of `keys`, which must be there.
pub fn required_int_of(container: &ReaderElement, keys: &[&str]) -> (r: Result<i64, SchemaError>)
    ensures
        r == required_int(container@, keys_of(keys@)),
{
    match get_from_any_kv_array(container, keys) {
        Err(x) => Err(x),
        Ok(None) => Err(SchemaError::MissingKey),
        Ok(Some(ReaderElement::Int(x))) => Ok(*x),
        Ok(Some(_)) => Err(SchemaError::WrongType),
    }
}

/// The count or index under one of `keys`, which must be there.
pub fn required_natural_of(container: &ReaderElement, keys: &[&str]) -> (r: Result<
    usize,
    SchemaError,
>)
    ensures
        r == required_natural(container@, keys_of(keys@)),
{
    match required_int_of(container, keys) {
        Err(x) => Err(x),
        Ok(x) => natural_of(x),
    }
}

/// The text under one of `keys`, which must be there.
pub fn required_text_of<'a>(container: &'a ReaderElement, keys: &[&str]) -> (r: Result<
    &'a String,
    SchemaError,
>)
    ensures
        match required_text(container@, keys_of(keys@)) {
            Ok(t) => r is Ok && r->Ok_0@ == t,
            Err(x) => r is Err && r->Err_0 == x,
        },
{
    match get_from_any_kv_array(container, keys) {
        Err(x) => Err(x),
        Ok(None) => Err(SchemaError::MissingKey),
        Ok(Some(ReaderElement::Text(t))) => Ok(t),
        Ok(Some(_)) => Err(SchemaError::WrongType),
    }
}

/// What is read when a tree is taken up as geometry: the point that
/// each vertex belongs to, and the three counts.
pub struct Header {
    pub indices: Seq<usize>,
    pub primitive_count: usize,
    pub point_count: usize,
    pub vertex_count: usize,
}

/// The point of each vertex: the list under `topology`, `pointref`,
/// `indices`; empty where one of the three keys is not there.
pub open spec fn point_refs(root: Value) -> Result<Seq<usize>, SchemaError> {
    match find(root, seq!["topology"@]) {
        Err(x) => Err(x),
        Ok(None) => Ok(Seq::empty()),
        Ok(Some(topo)) => match find(topo, seq!["pointref"@]) {
            Err(x) => Err(x),
            Ok(None) => Ok(Seq::empty()),
            Ok(Some(pointref)) => match find(pointref, seq!["indices"@]) {
                Err(x) => Err(x),
                Ok(None) => Ok(Seq::empty()),
                Ok(Some(list)) => index_list(list),
            },
        },
    }
}

/// The header of a tree: the vertex-to-point map, then the counts of
/// primitives, points and vertices, each of which must be there.
pub open spec fn schema_header(root: Value) -> Result<Header, SchemaError> {
    match point_refs(root) {
        Err(x) => Err(x),
        Ok(indices) => match required_natural(root, seq!["primitivecount"@]) {
            Err(x) => Err(x),
            Ok(primitive_count) => match required_natural(root, seq!["pointcount"@]) {
                Err(x) => Err(x),
                Ok(point_count) => match required_natural(root, seq!["vertexcount"@]) {
                    Err(x) => Err(x),
                    Ok(vertex_count) => Ok(
                        Header { indices, primitive_count, point_count, vertex_count },
                    ),
                },
            },
        },
    }
}

/// A corner of a polygon: a vertex and the point that it belongs to.
#[derive(Clone, Copy, Debug, PartialEq, Eq, Structural)]
pub struct GeoVertex {
    pub ptnum: usize,
    pub vtxnum: usize,
}

/// A polygon: its number among the primitives, and its corners in order.
#[derive(Debug)]
pub struct GeoPolygon {
    pub number: usize,
    pub vertices: Vec<GeoVertex>,
}

/// The model of a polygon.
pub struct Polygon {
    pub number: usize,
    pub vertices: Seq<GeoVertex>,
}

impl View for GeoPolygon {
    type V = Polygon;

    open spec fn view(&self) -> Polygon {
        Polygon { number: self.number, vertices: self.vertices@ }
    }
}

/// The models of a list of polygons.
pub open spec fn polygons_view(polygons: Seq<GeoPolygon>) -> Seq<Polygon> {
    Seq::new(polygons.len(), |i: int| polygons[i]@)
}

/// How far the polygons were made: those made, the vertex that the next
/// one starts at, and the number of the next primitive.
pub struct Emitted {
    pub polygons: Seq<Polygon>,
    pub cursor: usize,
    pub number: usize,
}

/// The corners of the polygon that takes `count` vertices from `cursor`
/// on.
pub open spec fn corners(indices: Seq<usize>, cursor: usize, count: usize) -> Seq<GeoVertex> {
    Seq::new(
        count as nat,
        |j: int| GeoVertex { ptnum: indices[cursor + j], vtxnum: (cursor + j) as usize },
    )
}

/// One more polygon of `count` vertices: it takes the next vertices in
/// a row, each of which must have its point in `indices`, and the next
/// number.
pub open spec fn emit_polygon(count: usize, indices: Seq<usize>, st: Emitted) -> Result<
    Emitted,
    SchemaError,
> {
    if st.cursor + count > usize::MAX || st.number + 1 > usize::MAX {
        Err(SchemaError::OutOfRange)
    } else if count > 0 && st.cursor + count > indices.len() {
        Err(SchemaError::OutOfRange)
    } else {
        Ok(
            Emitted {
                polygons: st.polygons.push(
                    Polygon { number: st.number, vertices: corners(indices, st.cursor, count) },
                ),
                cursor: (st.cursor + count) as usize,
                number: (st.number + 1) as usize,
            },
        )
    }
}

/// `repeats` more polygons of `count` vertices each.
pub open spec fn emit_repeats(
    count: usize,
    repeats: usize,
    indices: Seq<usize>,
    st: Emitted,
) -> Result<Emitted, SchemaError>
    decreases repeats,
{
    if repeats == 0 {
        Ok(st)
    } else {
        match emit_polygon(count, indices, st) {
            Err(x) => Err(x),
            Ok(next) => emit_repeats(count, (repeats - 1) as usize, indices, next),
        }
    }
}

/// The polygons of a list of vertex counts from place `from` on. A
/// run-length list holds pairs of a vertex count and a number of
/// polygons; a plain list holds one vertex count for each polygon.
pub open spec fn emit_runs(
    list: Seq<usize>,
    from: int,
    rle: bool,
    indices: Seq<usize>,
    st: Emitted,
) -> Result<Emitted, SchemaError>
    decreases
            (if from < list.len() {
                list.len() - from
            } else {
                0
            }),
{
    if from < 0 || from >= list.len() {
        Ok(st)
    } else if rle {
        if from + 1 >= list.len() {
            Err(SchemaError::Inconsistent)
        } else {
            match emit_repeats(list[from], list[from + 1], indices, st) {
                Err(x) => Err(x),
                Ok(next) => emit_runs(list, from + 2, rle, indices, next),
            }
        }
    } else {
        match emit_polygon(list[from], indices, st) {
            Err(x) => Err(x),
            Ok(next) => emit_runs(list, from + 1, rle, indices, next),
        }
    }
}

/// The polygons of a run of polygons, whose numbers go on from those
/// made before: the run starts at the vertex `startvertex` and says how
/// many vertices each polygon has, by a run-length list under
/// `nvertices_rle` or, where that key is not there, by a plain list
/// under `nvertices`.
pub open spec fn polygon_run(payload: Value, indices: Seq<usize>, st: Emitted) -> Result<
    Emitted,
    SchemaError,
> {
    match required_natural(payload, seq!["startvertex"@, "s_v"@]) {
        Err(x) => Err(x),
        Ok(start) => {
            let at = Emitted { polygons: st.polygons, cursor: start, number: st.number };
            match find(payload, seq!["nvertices_rle"@, "r_v"@]) {
                Err(x) => Err(x),
                Ok(Some(v)) => match index_list(v) {
                    Err(x) => Err(x),
                    Ok(list) => emit_runs(list, 0, true, indices, at),
                },
                Ok(None) => match find(payload, seq!["nvertices"@, "n_v"@]) {
                    Err(x) => Err(x),
                    Ok(None) => Err(SchemaError::MissingKey),
                    Ok(Some(v)) => match index_list(v) {
                        Err(x) => Err(x),
                        Ok(list) => emit_runs(list, 0, false, indices, at),
                    },
                },
            }
        },
    }
}

/// The state after the numbers of `n` primitives were passed over.
pub open spec fn skip_primitives(n: usize, st: Emitted) -> Result<Emitted, SchemaError> {
    if st.number + n > usize::MAX {
        Err(SchemaError::OutOfRange)
    } else {
        Ok(Emitted { polygons: st.polygons, cursor: st.cursor, number: (st.number + n) as usize })
    }
}

/// What one block of primitives adds. A block is a pair of a
/// description and a payload; one that is no pair is passed over. A run
/// of polygons adds its polygons. Any other block is passed over with
/// its numbers: as many as it says it holds where its type ends in
/// `_run`, else one.
pub open spec fn block_step(block: Value, indices: Seq<usize>, st: Emitted) -> Result<
    Emitted,
    SchemaError,
> {
    match block {
        Value::Array(parts) => if parts.len() != 2 {
            Ok(st)
        } else {
            match required_text(parts[0], seq!["type"@]) {
                Err(x) => Err(x),
                Ok(t) => if t == "Polygon_run"@ || t == "p_r"@ {
                    polygon_run(parts[1], indices, st)
                } else if "_run"@.is_suffix_of(t) {
                    match required_natural(parts[1], seq!["nprimitives"@, "n_p"@]) {
                        Err(x) => Err(x),
                        Ok(n) => skip_primitives(n, st),
                    }
                } else {
                    skip_primitives(1, st)
                },
            }
        },
        _ => Err(SchemaError::WrongType),
    }
}

/// What the blocks from place `from` on add.
pub open spec fn blocks_from(blocks: Seq<Value>, from: int, indices: Seq<usize>, st: Emitted) -> Result<
    Emitted,
    SchemaError,
>
    decreases blocks.len() - from,
{
    if from < 0 || from >= blocks.len() {
        Ok(st)
    } else {
        match block_step(blocks[from], indices, st) {
            Err(x) => Err(x),
            Ok(next) => blocks_from(blocks, from + 1, indices, next),
        }
    }
}

/// The polygons of a tree: those of the blocks under `primitives`, in
/// order, numbered as primitives from 0.
pub open spec fn polygons_of(root: Value, indices: Seq<usize>) -> Result<
    Seq<Polygon>,
    SchemaError,
> {
    match find(root, seq!["primitives"@]) {
        Err(x) => Err(x),
        Ok(None) => Err(SchemaError::MissingKey),
        Ok(Some(Value::Array(blocks))) => match blocks_from(
            blocks,
            0,
            indices,
            Emitted { polygons: Seq::empty(), cursor: 0, number: 0 },
        ) {
            Err(x) => Err(x),
            Ok(st) => Ok(st.polygons),
        },
        Ok(Some(_)) => Err(SchemaError::WrongType),
    }
}

/// The polygons being made.
pub struct Emitter {
    pub polygons: Vec<GeoPolygon>,
    pub cursor: usize,
    pub number: usize,
}

impl View for Emitter {
    type V = Emitted;

    open spec fn view(&self) -> Emitted {
        Emitted {
            polygons: polygons_view(self.polygons@),
            cursor: self.cursor,
            number: self.number,
        }
    }
}

impl Emitter {
    /// Makes one more polygon of `count` vertices.
    pub fn polygon(&mut self, count: usize, indices: &Vec<usize>) -> (r: Result<(), SchemaError>)
        ensures
            match emit_polygon(count, indices@, old(self)@) {
                Ok(st) => r is Ok && final(self)@ == st,
                Err(x) => r is Err && r->Err_0 == x,
            },
    {
        if count > usize::MAX - self.cursor || self.number == usize::MAX {
            return Err(SchemaError::OutOfRange);
        }
        if count > 0 && self.cursor + count > indices.len() {
            return Err(SchemaError::OutOfRange);
        }
        let mut prim_vtxs: Vec<GeoVertex> = Vec::new();
        let mut vtx_shift: usize = 0;
        while vtx_shift < count
            invariant
                vtx_shift <= count,
                count > 0 ==> self.cursor + count <= indices@.len(),
                self.cursor + count <= usize::MAX,
                self == old(self),
                prim_vtxs@ == corners(indices@, self.cursor, vtx_shift),
            decreases count - vtx_shift,
        {
            let vtx_num: usize = self.cursor + vtx_shift;
            prim_vtxs.push(GeoVertex { ptnum: indices[vtx_num], vtxnum: vtx_num });
            assert(prim_vtxs@ =~= corners(indices@, self.cursor, (vtx_shift + 1) as usize));
            vtx_shift = vtx_shift + 1;
        }
        self.polygons.push(GeoPolygon { number: self.number, vertices: prim_vtxs });
        self.cursor = self.cursor + count;
        self.number = self.number + 1;
        assert(polygons_view(self.polygons@) =~= polygons_view(old(self).polygons@).push(
            Polygon { number: old(self).number, vertices: corners(indices@, old(self).cursor, count) },
        ));
        Ok(())
    }

    /// Makes `repeats` more polygons of `count` vertices each.
    pub fn repeats(&mut self, count: usize, repeats: usize, indices: &Vec<usize>) -> (r: Result<
        (),
        SchemaError,
    >)
        ensures
            match emit_repeats(count, repeats, indices@, old(self)@) {
                Ok(st) => r is Ok && final(self)@ == st,
                Err(x) => r is Err && r->Err_0 == x,
            },
    {
        let mut left: usize = repeats;
        while left > 0
            invariant
                emit_repeats(count, repeats, indices@, old(self)@) == emit_repeats(
                    count,
                    left,
                    indices@,
                    self@,
                ),
            decreases left,
        {
            match self.polygon(count, indices) {
                Ok(_) => {},
                Err(x) => {
                    return Err(x);
                },
            }
            left = left - 1;
        }
        Ok(())
    }

    /// Makes the polygons of a list of vertex counts.
    pub fn runs(&mut self, list: &Vec<usize>, rle: bool, indices: &Vec<usize>) -> (r: Result<
        (),
        SchemaError,
    >)
        ensures
            match emit_runs(list@, 0, rle, indices@, old(self)@) {
                Ok(st) => r is Ok && final(self)@ == st,
                Err(x) => r is Err && r->Err_0 == x,
            },
    {
        let mut i: usize = 0;
        while i < list.len()
            invariant
                i <= list@.len(),
                emit_runs(list@, 0, rle, indices@, old(self)@) == emit_runs(
                    list@,
                    i as int,
                    rle,
                    indices@,
                    self@,
                ),
            decreases list.len() - i,
        {
            if rle {
                if list.len() - i < 2 {
                    return Err(SchemaError::Inconsistent);
                }
                match self.repeats(list[i], list[i + 1], indices) {
                    Ok(_) => {},
                    Err(x) => {
                        return Err(x);
                    },
                }
                if list.len() - i == 2 {
                    assert(emit_runs(list@, i + 2, rle, indices@, self@) == Ok::<
                        Emitted,
                        SchemaError,
                    >(self@));
                    return Ok(());
                }
                i = i + 2;
            } else {
                match self.polygon(list[i], indices) {
                    Ok(_) => {},
                    Err(x) => {
                        return Err(x);
                    },
                }
                i = i + 1;
            }
        }
        Ok(())
    }

    /// Passes over the numbers of `n` primitives.
    pub fn skip(&mut self, n: usize) -> (r: Result<(), SchemaError>)
        ensures
            match skip_primitives(n, old(self)@) {
                Ok(st) => r is Ok && final(self)@ == st,
                Err(x) => r is Err && r->Err_0 == x,
            },
    {
        if n > usize::MAX - self.number {
            return Err(SchemaError::OutOfRange);
        }
        self.number = self.number + n;
        Ok(())
    }

    /// Makes the polygons of a run of polygons.
    pub fn polygon_run(&mut self, payload: &ReaderElement, indices: &Vec<usize>) -> (r: Result<
        (),
        SchemaError,
    >)
        ensures
            match polygon_run(payload@, indices@, old(self)@) {
                Ok(st) => r is Ok && final(self)@ == st,
                Err(x) => r is Err && r->Err_0 == x,
            },
    {
        let start_keys: Vec<&str> = vec!["startvertex", "s_v"];
        assert(keys_of(start_keys@) =~= seq!["startvertex"@, "s_v"@]);
        let start_vertex: usize = match required_natural_of(payload, start_keys.as_slice()) {
            Ok(x) => x,
            Err(x) => {
                return Err(x);
            },
        };
        self.cursor = start_vertex;
        let rle_keys: Vec<&str> = vec!["nvertices_rle", "r_v"];
        assert(keys_of(rle_keys@) =~= seq!["nvertices_rle"@, "r_v"@]);
        match get_from_any_kv_array(payload, rle_keys.as_slice()) {
            Err(x) => Err(x),
            Ok(Some(v)) => match index_list_of(v) {
                Err(x) => Err(x),
                Ok(list) => self.runs(&list, true, indices),
            },
            Ok(None) => {
                let keys: Vec<&str> = vec!["nvertices", "n_v"];
                assert(keys_of(keys@) =~= seq!["nvertices"@, "n_v"@]);
                match get_from_any_kv_array(payload, keys.as_slice()) {
                    Err(x) => Err(x),
                    Ok(None) => Err(SchemaError::MissingKey),
                    Ok(Some(v)) => match index_list_of(v) {
                        Err(x) => Err(x),
                        Ok(list) => self.runs(&list, false, indices),
                    },
                }
            },
        }
    }

    /// Takes in one block of primitives.
    pub fn block(&mut self, prim_block: &ReaderElement, indices: &Vec<usize>) -> (r: Result<
        (),
        SchemaError,
    >)
        ensures
            match block_step(prim_block@, indices@, old(self)@) {
                Ok(st) => r is Ok && final(self)@ == st,
                Err(x) => r is Err && r->Err_0 == x,
            },
    {
        let prim_block_arr: &Vec<ReaderElement> = match prim_block {
            ReaderElement::Array(x) => x,
            _ => {
                return Err(SchemaError::WrongType);
            },
        };
        proof {
            lemma_view_array(*prim_block_arr);
        }
        if prim_block_arr.len() != 2 {
            return Ok(());
        }
        let type_keys: Vec<&str> = vec!["type"];
        assert(keys_of(type_keys@) =~= seq!["type"@]);
        let type_text: &String = match required_text_of(&prim_block_arr[0], type_keys.as_slice()) {
            Ok(t) => t,
            Err(x) => {
                return Err(x);
            },
        };
        if same_text(type_text.as_str(), "Polygon_run") || same_text(type_text.as_str(), "p_r") {
            self.polygon_run(&prim_block_arr[1], indices)
        } else if has_suffix(type_text.as_str(), "_run") {
            let keys: Vec<&str> = vec!["nprimitives", "n_p"];
            assert(keys_of(keys@) =~= seq!["nprimitives"@, "n_p"@]);
            match required_natural_of(&prim_block_arr[1], keys.as_slice()) {
                Ok(n) => self.skip(n),
                Err(x) => Err(x),
            }
        } else {
            self.skip(1)
        }
    }
}

/// The polygons of a tree.
pub fn read_polygons(root: &ReaderElement, indices: &Vec<usize>) -> (r: Result<
    Vec<GeoPolygon>,
    SchemaError,
>)
    ensures
        match polygons_of(root@, indices@) {
            Ok(p) => r is Ok && polygons_view(r->Ok_0@) == p,
            Err(x) => r is Err && r->Err_0 == x,
        },
{
    let prim_blocks: &Vec<ReaderElement> = match get_from_kv_array(root, "primitives") {
        Err(x) => {
            return Err(x);
        },
        Ok(None) => {
            return Err(SchemaError::MissingKey);
        },
        Ok(Some(ReaderElement::Array(x))) => x,
        Ok(Some(_)) => {
            return Err(SchemaError::WrongType);
        },
    };
    proof {
        lemma_view_array(*prim_blocks);
    }
    let mut emitter = Emitter { polygons: Vec::new(), cursor: 0, number: 0 };
    assert(emitter@.polygons =~= Seq::<Polygon>::empty());
    let ghost first = emitter@;
    let mut i: usize = 0;
    while i < prim_blocks.len()
        invariant
            i <= prim_blocks@.len(),
            first == (Emitted { polygons: Seq::empty(), cursor: 0, number: 0 }),
            find(root@, seq!["primitives"@]) == Ok::<Option<Value>, SchemaError>(
                Some(Value::Array(values_of(prim_blocks@))),
            ),
            blocks_from(values_of(prim_blocks@), 0, indices@, first) == blocks_from(
                values_of(prim_blocks@),
                i as int,
                indices@,
                emitter@,
            ),
        decreases prim_blocks.len() - i,
    {
        match emitter.block(&prim_blocks[i], indices) {
            Ok(_) => {},
            Err(x) => {
                return Err(x);
            },
        }
        i = i + 1;
    }
    Ok(emitter.polygons)
}

/// The vertex-to-point map of a tree.
fn read_point_refs(root: &ReaderElement) -> (r: Result<Vec<usize>, SchemaError>)
    ensures
        match point_refs(root@) {
            Ok(ix) => r is Ok && r->Ok_0@ == ix,
            Err(x) => r is Err && r->Err_0 == x,
        },
{
    let topo: &ReaderElement = match get_from_kv_array(root, "topology") {
        Err(x) => {
            return Err(x);
        },
        Ok(None) => {
            return Ok(Vec::new());
        },
        Ok(Some(x)) => x,
    };
    let pointref: &ReaderElement = match get_from_kv_array(topo, "pointref") {
        Err(x) => {
            return Err(x);
        },
        Ok(None) => {
            return Ok(Vec::new());
        },
        Ok(Some(x)) => x,
    };
    match get_from_kv_array(pointref, "indices") {
        Err(x) => Err(x),
        Ok(None) => Ok(Vec::new()),
        Ok(Some(list)) => index_list_of(list),
    }
}

/// The count under `key`.
fn read_count(root: &ReaderElement, key: &str) -> (r: Result<usize, SchemaError>)
    ensures
        r == required_natural(root@, seq![key@]),
{
    let keys: Vec<&str> = vec![key];
    assert(keys_of(keys@) =~= seq![key@]);
    required_natural_of(root, keys.as_slice())
}

/// A generic tree taken up as geometry.
///
/// The counts and the vertex-to-point map are read when the tree is
/// taken up. Attributes and primitives are read when asked for, each
/// kind by itself, and must have been read before they are looked at.
pub struct HoudiniGeoSchemaParser<'a> {
    structure: &'a ReaderElement,
    _point_attributes: Option<Vec<NamedAttribute>>,
    _vertex_attributes: Option<Vec<NamedAttribute>>,
    _prim_attributes: Option<Vec<NamedAttribute>>,
    _vertex_nums_to_point_nums: Vec<usize>,
    _polygons: Option<Vec<GeoPolygon>>,
    _prim_count: usize,
    _point_count: usize,
    _vertex_count: usize,
}

/// The models of the attributes that were read, if they were read.
pub open spec fn read_attributes(attributes: Option<Vec<NamedAttribute>>) -> Option<
    Seq<(Seq<char>, AttributeModel)>,
> {
    match attributes {
        Some(a) => Some(attributes_view(a@)),
        None => None,
    }
}

impl<'a> HoudiniGeoSchemaParser<'a> {
    /// The tree.
    pub closed spec fn root(&self) -> Value {
        self.structure@
    }

    /// The counts and the vertex-to-point map.
    pub closed spec fn header(&self) -> Header {
        Header {
            indices: self._vertex_nums_to_point_nums@,
            primitive_count: self._prim_count,
            point_count: self._point_count,
            vertex_count: self._vertex_count,
        }
    }

    /// The point attributes, once they were read.
    pub closed spec fn point_attributes(&self) -> Option<Seq<(Seq<char>, AttributeModel)>> {
        read_attributes(self._point_attributes)
    }

    /// The vertex attributes, once they were read.
    pub closed spec fn vertex_attributes(&self) -> Option<Seq<(Seq<char>, AttributeModel)>> {
        read_attributes(self._vertex_attributes)
    }

    /// The primitive attributes, once they were read.
    pub closed spec fn primitive_attributes(&self) -> Option<Seq<(Seq<char>, AttributeModel)>> {
        read_attributes(self._prim_attributes)
    }

    /// The polygons, once the primitives were read.
    pub closed spec fn primitives(&self) -> Option<Seq<Polygon>> {
        match self._polygons {
            Some(p) => Some(polygons_view(p@)),
            None => None,
        }
    }

    /// The header is that of the tree.
    pub open spec fn wf(&self) -> bool {
        schema_header(self.root()) == Ok::<Header, SchemaError>(self.header())
    }

    /// Takes a tree up as geometry: reads the vertex-to-point map and the
    /// counts. Attributes and primitives are not read yet.
    pub fn new(read_structure: &'a ReaderElement) -> (r: Result<
        HoudiniGeoSchemaParser<'a>,
        SchemaError,
    >)
        ensures
            match schema_header(read_structure@) {
                Ok(h) => r is Ok && r->Ok_0.root() == read_structure@ && r->Ok_0.header() == h
                    && r->Ok_0.wf() && r->Ok_0.point_attributes() is None
                    && r->Ok_0.vertex_attributes() is None && r->Ok_0.primitive_attributes()
                    is None && r->Ok_0.primitives() is None,
                Err(x) => r is Err && r->Err_0 == x,
            },
    {
        let indices: Vec<usize> = match read_point_refs(read_structure) {
            Ok(x) => x,
            Err(x) => {
                return Err(x);
            },
        };
        let prim_count: usize = match read_count(read_structure, "primitivecount") {
            Ok(x) => x,
            Err(x) => {
                return Err(x);
            },
        };
        let point_count: usize = match read_count(read_structure, "pointcount") {
            Ok(x) => x,
            Err(x) => {
                return Err(x);
            },
        };
        let vertex_count: usize = match read_count(read_structure, "vertexcount") {
            Ok(x) => x,
            Err(x) => {
                return Err(x);
            },
        };
        Ok(
            HoudiniGeoSchemaParser {
                structure: read_structure,
                _point_attributes: None,
                _vertex_attributes: None,
                _prim_attributes: None,
                _vertex_nums_to_point_nums: indices,
                _polygons: None,
                _prim_count: prim_count,
                _point_count: point_count,
                _vertex_count: vertex_count,
            },
        )
    }

    /// Nothing changed but what was read of attributes and primitives.
    pub open spec fn same_geometry(&self, before: &Self) -> bool {
        self.root() == before.root() && self.header() == before.header()
    }

    /// Reads the point attributes. Where that fails, what was read
    /// before stays.
    pub fn parse_point_attributes(&mut self) -> (r: Result<(), SchemaError>)
        ensures
            final(self).same_geometry(old(self)),
            final(self).vertex_attributes() == old(self).vertex_attributes(),
            final(self).primitive_attributes() == old(self).primitive_attributes(),
            final(self).primitives() == old(self).primitives(),
            match attributes_of(old(self).root(), "pointattributes"@, "pointcount"@) {
                Ok(a) => r is Ok && final(self).point_attributes() == Some(a),
                Err(x) => r is Err && r->Err_0 == x && final(self).point_attributes() == old(
                    self,
                ).point_attributes(),
            },
    {
        match parse_attributes(self.structure, "pointattributes", "pointcount") {
            Ok(a) => {
                self._point_attributes = Some(a);
                Ok(())
            },
            Err(x) => Err(x),
        }
    }

    /// Reads the vertex attributes. Where that fails, what was read
    /// before stays.
    pub fn parse_vertex_attributes(&mut self) -> (r: Result<(), SchemaError>)
        ensures
            final(self).same_geometry(old(self)),
            final(self).point_attributes() == old(self).point_attributes(),
            final(self).primitive_attributes() == old(self).primitive_attributes(),
            final(self).primitives() == old(self).primitives(),
            match attributes_of(old(self).root(), "vertexattributes"@, "vertexcount"@) {
                Ok(a) => r is Ok && final(self).vertex_attributes() == Some(a),
                Err(x) => r is Err && r->Err_0 == x && final(self).vertex_attributes() == old(
                    self,
                ).vertex_attributes(),
            },
    {
        match parse_attributes(self.structure, "vertexattributes", "vertexcount") {
            Ok(a) => {
                self._vertex_attributes = Some(a);
                Ok(())
            },
            Err(x) => Err(x),
        }
    }

    /// Reads the primitive attributes. Where that fails, what was read
    /// before stays.
    pub fn parse_primitive_attributes(&mut self) -> (r: Result<(), SchemaError>)
        ensures
            final(self).same_geometry(old(self)),
            final(self).point_attributes() == old(self).point_attributes(),
            final(self).vertex_attributes() == old(self).vertex_attributes(),
            final(self).primitives() == old(self).primitives(),
            match attributes_of(old(self).root(), "primitiveattributes"@, "primitivecount"@) {
                Ok(a) => r is Ok && final(self).primitive_attributes() == Some(a),
                Err(x) => r is Err && r->Err_0 == x && final(self).primitive_attributes() == old(
                    self,
                ).primitive_attributes(),
            },
    {
        match parse_attributes(self.structure, "primitiveattributes", "primitivecount") {
            Ok(a) => {
                self._prim_attributes = Some(a);
                Ok(())
            },
            Err(x) => Err(x),
        }
    }

    /// Reads the primitives: the polygons. Where that fails, what was
    /// read before stays.
    pub fn parse_primitives(&mut self) -> (r: Result<(), SchemaError>)
        ensures
            final(self).same_geometry(old(self)),
            final(self).point_attributes() == old(self).point_attributes(),
            final(self).vertex_attributes() == old(self).vertex_attributes(),
            final(self).primitive_attributes() == old(self).primitive_attributes(),
            match polygons_of(old(self).root(), old(self).header().indices) {
                Ok(p) => r is Ok && final(self).primitives() == Some(p),
                Err(x) => r is Err && r->Err_0 == x && final(self).primitives() == old(
                    self,
                ).primitives(),
            },
    {
        match read_polygons(self.structure, &self._vertex_nums_to_point_nums) {
            Ok(p) => {
                self._polygons = Some(p);
                Ok(())
            },
            Err(x) => Err(x),
        }
    }

    /// The names of the point attributes, which must have been read.
    pub fn point_attribute_names(&self) -> (r: Vec<&String>)
        requires
            self.point_attributes() is Some,
        ensures
            r@.len() == self.point_attributes()->0.len(),
            forall|i: int|
                0 <= i < r@.len() ==> (#[trigger] r@[i])@ == self.point_attributes()->0[i].0,
    {
        let attrib_map: &Vec<NamedAttribute> = self._point_attributes.as_ref().unwrap();
        let mut out: Vec<&String> = Vec::new();
        let mut i: usize = 0;
        while i < attrib_map.len()
            invariant
                i <= attrib_map@.len(),
                out@.len() == i,
                forall|j: int| 0 <= j < i ==> (#[trigger] out@[j])@ == attrib_map@[j].name@,
            decreases attrib_map.len() - i,
        {
            out.push(&attrib_map[i].name);
            i = i + 1;
        }
        out
    }

    /// The point of the vertex `vtx_num`, which the map must hold.
    pub fn vtx_to_ptnum(&self, vtx_num: usize) -> (r: usize)
        requires
            vtx_num < self.header().indices.len(),
        ensures
            r == self.header().indices[vtx_num as int],
    {
        self._vertex_nums_to_point_nums[vtx_num]
    }

    /// The number of primitives.
    pub fn primitive_count(&self) -> (r: usize)
        ensures
            r == self.header().primitive_count,
    {
        self._prim_count
    }

    /// The number of points.
    pub fn point_count(&self) -> (r: usize)
        ensures
            r == self.header().point_count,
    {
        self._point_count
    }

    /// The number of vertices.
    pub fn vertex_count(&self) -> (r: usize)
        ensures
            r == self.header().vertex_count,
    {
        self._vertex_count
    }
}

/// The attribute under `name` among those read, if there is one.
pub fn attribute_named<'b>(attributes: &'b Option<Vec<NamedAttribute>>, name: &str) -> (r: Option<
    &'b GeoAttributeKind,
>)
    requires
        attributes is Some,
    ensures
        match object_get(read_attributes(*attributes)->0, name@) {
            Some(a) => r is Some && r->0@ == a,
            None => r is None,
        },
{
    match attributes {
        Some(list) => match find_attribute(list, name) {
            Some(i) => Some(&list[i].attribute),
            None => None,
        },
        None => None,
    }
}

impl<'a> HoudiniGeoSchemaParser<'a> {
    /// The vertex attribute under `name`; the vertex attributes must
    /// have been read.
    pub fn vertex_attribute(&self, name: &str) -> (r: Option<&GeoAttributeKind>)
        requires
            self.vertex_attributes() is Some,
        ensures
            match object_get(self.vertex_attributes()->0, name@) {
                Some(a) => r is Some && r->0@ == a,
                None => r is None,
            },
    {
        attribute_named(&self._vertex_attributes, name)
    }

    /// The point attribute under `name`; the point attributes must have
    /// been read.
    pub fn point_attribute(&self, name: &str) -> (r: Option<&GeoAttributeKind>)
        requires
            self.point_attributes() is Some,
        ensures
            match object_get(self.point_attributes()->0, name@) {
                Some(a) => r is Some && r->0@ == a,
                None => r is None,
            },
    {
        attribute_named(&self._point_attributes, name)
    }

    /// The primitive attribute under `name`; the primitive attributes
    /// must have been read.
    pub fn primitive_attribute(&self, name: &str) -> (r: Option<&GeoAttributeKind>)
        requires
            self.primitive_attributes() is Some,
        ensures
            match object_get(self.primitive_attributes()->0, name@) {
                Some(a) => r is Some && r->0@ == a,
                None => r is None,
            },
    {
        attribute_named(&self._prim_attributes, name)
    }

    /// Whether the point attributes were read.
    pub fn has_point_attributes(&self) -> (r: bool)
        ensures
            r == self.point_attributes() is Some,
    {
        self._point_attributes.is_some()
    }

    /// Whether the vertex attributes were read.
    pub fn has_vertex_attributes(&self) -> (r: bool)
        ensures
            r == self.vertex_attributes() is Some,
    {
        self._vertex_attributes.is_some()
    }

    /// Whether the primitive attributes were read.
    pub fn has_primitive_attributes(&self) -> (r: bool)
        ensures
            r == self.primitive_attributes() is Some,
    {
        self._prim_attributes.is_some()
    }

    /// Whether the primitives were read.
    pub fn has_polygons(&self) -> (r: bool)
        ensures
            r == self.primitives() is Some,
    {
        self._polygons.is_some()
    }

    /// The number of vertices that the vertex-to-point map holds.
    pub fn mapped_vertex_count(&self) -> (r: usize)
        ensures
            r == self.header().indices.len(),
    {
        self._vertex_nums_to_point_nums.len()
    }

    /// The polygons; the primitives must have been read.
    pub fn polygons(&self) -> (r: &[GeoPolygon])
        requires
            self.primitives() is Some,
        ensures
            polygons_view(r@) == self.primitives()->0,
    {
        self._polygons.as_ref().unwrap().as_slice()
    }
}

} // verus!
