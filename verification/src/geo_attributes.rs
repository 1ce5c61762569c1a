//! Attributes: the values that points, vertices or primitives carry, and
//! how they are read out of a generic tree.

use vstd::prelude::*;
use vstd::slice::slice_subrange;
use crate::convert_from_trait::ConvertFromAll;
use crate::geo_struct::{
    key_position, lemma_view_array, object_get, object_insert, values_of, ReaderElement, Real32,
    Real64, UniformArrayType, UniformValue, Value,
};
use crate::houdini_geo_schema::{
    find, get_from_kv_array, has_prefix, index_list, index_list_of, natural, natural_of,
    required_int, required_int_of, required_natural, required_natural_of, required_text,
    required_text_of, same_text, SchemaError,
};
use crate::ieee::from_int;
use crate::paged::{layout_check, unpage, unpaged, Layout, PageLayout};

verus! {

/// An attribute of tuples of numbers: `tuple_size` scalars for each
/// item, item after item in one flat run.
pub struct TupleGeoAttribute<T: Copy> {
    tuple_size: usize,
    data: Vec<T>,
}

/// An attribute of strings: the strings that occur, each once, and for
/// each item the place of its string among them.
pub struct TokenGeoAttribute {
    tokens: Vec<String>,
    data: Vec<usize>,
}

/// What every attribute offers: the size of its tuples and the value of
/// an item.
pub trait GeoAttribute<'a, T: ?Sized> {
    /// Whether the attribute holds a value for item `number`.
    spec fn holds(&self, number: usize) -> bool;

    fn tuple_size(&'a self) -> usize;

    fn value(&'a self, number: usize) -> &'a T
        requires
            self.holds(number),
    ;
}

impl<T: Copy> TupleGeoAttribute<T> {
    /// The number of scalars of one item.
    pub closed spec fn width(&self) -> usize {
        self.tuple_size
    }

    /// The scalars of all items, item after item.
    pub closed spec fn scalars(&self) -> Seq<T> {
        self.data@
    }

    /// The scalars of item `number`.
    pub open spec fn item(&self, number: int) -> Seq<T> {
        self.scalars().subrange(number * self.width(), number * self.width() + self.width())
    }

    /// An attribute of the tuples that `data` holds.
    pub fn new(tuple_size: usize, data: Vec<T>) -> (r: Self)
        ensures
            r.width() == tuple_size,
            r.scalars() == data@,
    {
        TupleGeoAttribute { tuple_size, data }
    }

    /// Puts `values` in the place of item `number`, which the attribute
    /// must hold; `values` must be one tuple.
    pub fn set_value(&mut self, number: usize, values: &[T])
        requires
            old(self).holds(number),
            values@.len() == old(self).width(),
        ensures
            final(self).width() == old(self).width(),
            final(self).scalars().len() == old(self).scalars().len(),
            final(self).item(number as int) == values@,
            forall|i: int|
                0 <= i < final(self).scalars().len() && !(number * old(self).width() <= i < number
                    * old(self).width() + old(self).width()) ==> final(self).scalars()[i] == old(
                    self,
                ).scalars()[i],
    {
        // a vector is no longer than a machine word counts
        let total: usize = self.data.len();
        assert(number * self.tuple_size >= 0) by (nonlinear_arith)
            requires
                number >= 0,
                self.tuple_size >= 0,
        ;
        let base: usize = number * self.tuple_size;
        let mut k: usize = 0;
        while k < self.tuple_size
            invariant
                k <= self.tuple_size,
                self.tuple_size == old(self).tuple_size,
                values@.len() == self.tuple_size,
                base == number * self.tuple_size,
                base + self.tuple_size <= self.data@.len() <= usize::MAX,
                self.data@.len() == old(self).data@.len(),
                forall|i: int| 0 <= i < k ==> #[trigger] self.data@[base + i] == values@[i],
                forall|i: int|
                    0 <= i < self.data@.len() && !(base <= i < base + self.tuple_size)
                        ==> #[trigger] self.data@[i] == old(self).data@[i],
            decreases self.tuple_size - k,
        {
            self.data.set(base + k, values[k]);
            k = k + 1;
        }
        assert forall|j: int| 0 <= j < self.tuple_size implies self.item(number as int)[j]
            == values@[j] by {
            assert(self.data@[base + j] == values@[j]);
        }
        assert(self.item(number as int) =~= values@);
    }

    /// A copy of the attribute.
    pub fn copy(&self) -> (r: Self)
        ensures
            r.width() == self.width(),
            r.scalars() == self.scalars(),
    {
        let mut data: Vec<T> = Vec::new();
        let mut i: usize = 0;
        while i < self.data.len()
            invariant
                i <= self.data@.len(),
                data@ == self.data@.take(i as int),
            decreases self.data.len() - i,
        {
            data.push(self.data[i]);
            assert(data@ =~= self.data@.take(i + 1));
            i = i + 1;
        }
        assert(self.data@.take(i as int) =~= self.data@);
        TupleGeoAttribute { tuple_size: self.tuple_size, data }
    }

    /// Whether the attribute holds a whole tuple for item `number`.
    pub fn holds_item(&self, number: usize) -> (r: bool)
        ensures
            r == self.holds(number),
    {
        if self.tuple_size == 0 {
            assert(number * 0 + 0 == 0) by (nonlinear_arith);
            true
        } else {
            let count: usize = self.data.len() / self.tuple_size;
            proof {
                let w = self.tuple_size as int;
                let len = self.data@.len() as int;
                vstd::arithmetic::div_mod::lemma_fundamental_div_mod(len, w);
                if number < count {
                    assert(number * w + w <= len) by (nonlinear_arith)
                        requires
                            number + 1 <= len / w,
                            len == w * (len / w) + len % w,
                            0 <= len % w,
                            w > 0,
                    ;
                } else {
                    assert(number * w + w > len) by (nonlinear_arith)
                        requires
                            number >= len / w,
                            len == w * (len / w) + len % w,
                            len % w < w,
                            w > 0,
                    ;
                }
            }
            number < count
        }
    }

    /// The number of items: of whole tuples that the data hold.
    pub fn len(&self) -> (r: usize)
        ensures
            self.width() > 0 ==> r == self.scalars().len() / (self.width() as nat),
            self.width() == 0 ==> r == 0,
    {
        if self.tuple_size == 0 {
            0
        } else {
            self.data.len() / self.tuple_size
        }
    }
}

impl<'a, T: Copy> GeoAttribute<'a, [T]> for TupleGeoAttribute<T> {
    open spec fn holds(&self, number: usize) -> bool {
        number * self.width() + self.width() <= self.scalars().len()
    }

    fn tuple_size(&'a self) -> (r: usize)
        ensures
            r == self.width(),
    {
        self.tuple_size
    }

    fn value(&'a self, number: usize) -> (r: &'a [T])
        ensures
            r@ == self.item(number as int),
    {
        // a vector is no longer than a machine word counts
        let total: usize = self.data.len();
        assert(number * self.tuple_size >= 0) by (nonlinear_arith)
            requires
                number >= 0,
                self.tuple_size >= 0,
        ;
        let from: usize = number * self.tuple_size;
        slice_subrange(self.data.as_slice(), from, from + self.tuple_size)
    }
}

impl TokenGeoAttribute {
    /// The strings that occur.
    pub closed spec fn strings(&self) -> Seq<Seq<char>> {
        Seq::new(self.tokens@.len(), |i: int| self.tokens@[i]@)
    }

    /// For each item the place of its string.
    pub closed spec fn places(&self) -> Seq<usize> {
        self.data@
    }

    /// An attribute of the given strings and places.
    pub fn new(tokens: Vec<String>, data: Vec<usize>) -> (r: Self)
        ensures
            r.strings() == Seq::new(tokens@.len(), |i: int| tokens@[i]@),
            r.places() == data@,
    {
        TokenGeoAttribute { tokens, data }
    }

    /// The number of items.
    pub fn len(&self) -> (r: usize)
        ensures
            r == self.places().len(),
    {
        self.data.len()
    }
}

impl<'a> GeoAttribute<'a, String> for TokenGeoAttribute {
    open spec fn holds(&self, number: usize) -> bool {
        number < self.places().len() && self.places()[number as int] < self.strings().len()
    }

    fn tuple_size(&'a self) -> (r: usize)
        ensures
            r == 1,
    {
        1
    }

    fn value(&'a self, number: usize) -> (r: &'a String)
        ensures
            r@ == self.strings()[self.places()[number as int] as int],
    {
        let at: usize = self.data[number];
        &self.tokens[at]
    }
}

/// An attribute of one of the kinds that are read.
pub enum GeoAttributeKind {
    Float64(TupleGeoAttribute<Real64>),
    Int64(TupleGeoAttribute<i64>),
    String(TokenGeoAttribute),
}

/// The model of an attribute.
pub enum AttributeModel {
    Reals { tuple_size: usize, reals: Seq<Real64> },
    Ints { tuple_size: usize, ints: Seq<i64> },
    Tokens { tokens: Seq<Seq<char>>, places: Seq<usize> },
}

impl View for GeoAttributeKind {
    type V = AttributeModel;

    open spec fn view(&self) -> AttributeModel {
        match self {
            GeoAttributeKind::Float64(a) => AttributeModel::Reals {
                tuple_size: a.width(),
                reals: a.scalars(),
            },
            GeoAttributeKind::Int64(a) => AttributeModel::Ints {
                tuple_size: a.width(),
                ints: a.scalars(),
            },
            GeoAttributeKind::String(a) => AttributeModel::Tokens {
                tokens: a.strings(),
                places: a.places(),
            },
        }
    }
}

/// A scalar that an attribute can be made of: how a member of a tuple
/// reads as one, besides what every scalar of storage converts to.
pub trait AttributeScalar: Copy + ConvertFromAll<i8> + ConvertFromAll<i16> + ConvertFromAll<
    i32,
> + ConvertFromAll<i64> + ConvertFromAll<u8> + ConvertFromAll<u16> + ConvertFromAll<
    Real32,
> + ConvertFromAll<Real64> {
    /// What a member of a tuple reads as.
    spec fn mapped(v: Value) -> Result<Self, SchemaError>;

    fn map_element(e: &ReaderElement) -> (r: Result<Self, SchemaError>)
        ensures
            r == Self::mapped(e@),
    ;
}

impl AttributeScalar for Real64 {
    /// A real is taken as it is, an integer as the real nearest to it.
    open spec fn mapped(v: Value) -> Result<Real64, SchemaError> {
        match v {
            Value::Real(f) => Ok(f),
            Value::Int(i) => Ok(<Real64 as ConvertFromAll<i64>>::converted(i)),
            _ => Err(SchemaError::WrongType),
        }
    }

    fn map_element(e: &ReaderElement) -> (r: Result<Real64, SchemaError>) {
        match e {
            ReaderElement::Float(f) => Ok(*f),
            ReaderElement::Int(i) => Ok(from_int(*i)),
            _ => Err(SchemaError::WrongType),
        }
    }
}

impl AttributeScalar for i64 {
    /// Only an integer is taken.
    open spec fn mapped(v: Value) -> Result<i64, SchemaError> {
        match v {
            Value::Int(i) => Ok(i),
            _ => Err(SchemaError::WrongType),
        }
    }

    fn map_element(e: &ReaderElement) -> (r: Result<i64, SchemaError>) {
        match e {
            ReaderElement::Int(i) => Ok(*i),
            _ => Err(SchemaError::WrongType),
        }
    }
}

impl AttributeScalar for usize {
    /// Only an integer that is not negative is taken.
    open spec fn mapped(v: Value) -> Result<usize, SchemaError> {
        match v {
            Value::Int(i) => natural(i),
            _ => Err(SchemaError::WrongType),
        }
    }

    fn map_element(e: &ReaderElement) -> (r: Result<usize, SchemaError>) {
        match e {
            ReaderElement::Int(i) => natural_of(*i),
            _ => Err(SchemaError::WrongType),
        }
    }
}

/// The members of a list, each read as a scalar.
pub open spec fn mapped_all<T: AttributeScalar>(items: Seq<Value>) -> Result<Seq<T>, SchemaError>
    decreases items.len(),
{
    if items.len() == 0 {
        Ok(Seq::empty())
    } else {
        match mapped_all::<T>(items.drop_last()) {
            Err(x) => Err(x),
            Ok(head) => match T::mapped(items.last()) {
                Err(x) => Err(x),
                Ok(v) => Ok(head.push(v)),
            },
        }
    }
}

/// The scalars of a value that must be an array of scalars.
pub open spec fn mapped_array<T: AttributeScalar>(v: Value) -> Result<Seq<T>, SchemaError> {
    match v {
        Value::Array(items) => mapped_all::<T>(items),
        _ => Err(SchemaError::WrongType),
    }
}

/// The scalars of a list of tuples, each of which must be an array of
/// `tuple_size` scalars, one tuple after the other.
pub open spec fn tuples_flat<T: AttributeScalar>(tuples: Seq<Value>, tuple_size: usize) -> Result<
    Seq<T>,
    SchemaError,
>
    decreases tuples.len(),
{
    if tuples.len() == 0 {
        Ok(Seq::empty())
    } else {
        match tuples_flat::<T>(tuples.drop_last(), tuple_size) {
            Err(x) => Err(x),
            Ok(head) => match tuples.last() {
                Value::Array(items) => if items.len() != tuple_size {
                    Err(SchemaError::Inconsistent)
                } else {
                    match mapped_all::<T>(items) {
                        Err(x) => Err(x),
                        Ok(v) => Ok(head + v),
                    }
                },
                _ => Err(SchemaError::WrongType),
            },
        }
    }
}

/// A width of a subcomponent.
pub open spec fn width_of(v: Value) -> Result<usize, SchemaError> {
    match v {
        Value::Int(x) => natural(x),
        Value::Bool(b) => Ok(
            if b {
                1usize
            } else {
                0usize
            },
        ),
        _ => Err(SchemaError::WrongType),
    }
}

/// The widths that a list of values gives.
pub open spec fn width_items(items: Seq<Value>) -> Result<Seq<usize>, SchemaError>
    decreases items.len(),
{
    if items.len() == 0 {
        Ok(Seq::empty())
    } else {
        match width_items(items.drop_last()) {
            Err(x) => Err(x),
            Ok(head) => match width_of(items.last()) {
                Err(x) => Err(x),
                Ok(w) => Ok(head.push(w)),
            },
        }
    }
}

/// The widths of the subcomponents that a value lists: an array of
/// integers, where a truth value counts as 0 or 1, or a uniform array of
/// integers.
pub open spec fn widths(v: Value) -> Result<Seq<usize>, SchemaError> {
    match v {
        Value::Array(items) => width_items(items),
        _ => index_list(v),
    }
}

/// A flag: a truth value, or an integer, which is set unless it is 0.
pub open spec fn flag_of(v: Value) -> Result<bool, SchemaError> {
    match v {
        Value::Bool(b) => Ok(b),
        Value::Int(x) => Ok(x != 0),
        _ => Err(SchemaError::WrongType),
    }
}

/// The flags that a list of values gives.
pub open spec fn flag_items(items: Seq<Value>) -> Result<Seq<bool>, SchemaError>
    decreases items.len(),
{
    if items.len() == 0 {
        Ok(Seq::empty())
    } else {
        match flag_items(items.drop_last()) {
            Err(x) => Err(x),
            Ok(head) => match flag_of(items.last()) {
                Err(x) => Err(x),
                Ok(f) => Ok(head.push(f)),
            },
        }
    }
}

/// The flags of one subcomponent: an array of flags, or a uniform array
/// of truth values.
pub open spec fn flag_list(v: Value) -> Result<Seq<bool>, SchemaError> {
    match v {
        Value::Array(items) => flag_items(items),
        Value::Uniform(UniformValue::Bits(f)) => Ok(f),
        _ => Err(SchemaError::WrongType),
    }
}

/// The flags of all subcomponents.
pub open spec fn flag_lists(lists: Seq<Value>) -> Result<Seq<Seq<bool>>, SchemaError>
    decreases lists.len(),
{
    if lists.len() == 0 {
        Ok(Seq::empty())
    } else {
        match flag_lists(lists.drop_last()) {
            Err(x) => Err(x),
            Ok(head) => match flag_list(lists.last()) {
                Err(x) => Err(x),
                Ok(f) => Ok(head.push(f)),
            },
        }
    }
}

/// The layout that the description of paged values gives: the size of a
/// page under `pagesize`; the widths of the subcomponents under
/// `packing`, or one subcomponent of the width under `size` where that
/// key is not there; the flags under `constantpageflags`, or no flag at
/// all where there is no array under that key.
pub open spec fn page_layout(values: Value) -> Result<PageLayout, SchemaError> {
    match required_natural(values, seq!["size"@]) {
        Err(x) => Err(x),
        Ok(size) => match required_natural(values, seq!["pagesize"@]) {
            Err(x) => Err(x),
            Ok(page_size) => match (match find(values, seq!["packing"@]) {
                Err(x) => Err(x),
                Ok(None) => Ok(seq![size]),
                Ok(Some(v)) => widths(v),
            }) {
                Err(x) => Err(x),
                Ok(packing) => match (match find(values, seq!["constantpageflags"@]) {
                    Err(x) => Err(x),
                    Ok(Some(Value::Array(lists))) => flag_lists(lists),
                    Ok(_) => Ok(Seq::new(packing.len(), |i: int| Seq::<bool>::empty())),
                }) {
                    Err(x) => Err(x),
                    Ok(flags) => Ok(PageLayout { page_size: page_size as int, packing, flags }),
                },
            },
        },
    }
}

/// The scalars of `n` items that a paged raw run of a given layout
/// holds.
pub open spec fn paged_run<T: ConvertFromAll<K>, K>(
    values: Value,
    raw: Seq<K>,
    n: usize,
    tuple_size: usize,
) -> Result<Seq<T>, SchemaError> {
    match page_layout(values) {
        Err(x) => Err(x),
        Ok(layout) => unpaged::<T, K>(layout, raw, n as int, tuple_size as int),
    }
}

/// The scalars of `n` items that paged values hold: the raw run must be
/// a uniform array of numbers.
pub open spec fn paged_values<T: AttributeScalar>(
    values: Value,
    raw: Value,
    n: usize,
    tuple_size: usize,
) -> Result<Seq<T>, SchemaError> {
    match raw {
        Value::Uniform(UniformValue::F16(v)) => paged_run::<T, Real32>(values, v, n, tuple_size),
        Value::Uniform(UniformValue::F32(v)) => paged_run::<T, Real32>(values, v, n, tuple_size),
        Value::Uniform(UniformValue::F64(v)) => paged_run::<T, Real64>(values, v, n, tuple_size),
        Value::Uniform(UniformValue::I8(v)) => paged_run::<T, i8>(values, v, n, tuple_size),
        Value::Uniform(UniformValue::I16(v)) => paged_run::<T, i16>(values, v, n, tuple_size),
        Value::Uniform(UniformValue::I32(v)) => paged_run::<T, i32>(values, v, n, tuple_size),
        Value::Uniform(UniformValue::I64(v)) => paged_run::<T, i64>(values, v, n, tuple_size),
        Value::Uniform(UniformValue::U8(v)) => paged_run::<T, u8>(values, v, n, tuple_size),
        Value::Uniform(UniformValue::U16(v)) => paged_run::<T, u16>(values, v, n, tuple_size),
        _ => Err(SchemaError::WrongType),
    }
}

/// The scalars that the values of an attribute hold, by the way in
/// which they are stored: as an array of tuples under `tuples`; else as
/// one array of scalars, the first under `arrays`, for tuples of size 1;
/// else paged, under `rawpagedata`.
pub open spec fn attribute_values<T: AttributeScalar>(
    values: Value,
    tuple_size: usize,
    n: usize,
) -> Result<Seq<T>, SchemaError> {
    match find(values, seq!["tuples"@]) {
        Err(x) => Err(x),
        Ok(Some(Value::Array(tuples))) => tuples_flat::<T>(tuples, tuple_size),
        Ok(_) => match find(values, seq!["arrays"@]) {
            Err(x) => Err(x),
            Ok(Some(Value::Array(arrays))) => match required_int(values, seq!["size"@]) {
                Err(x) => Err(x),
                Ok(size) => if size != 1 {
                    Err(SchemaError::NotImplemented)
                } else if arrays.len() == 0 {
                    Err(SchemaError::Inconsistent)
                } else {
                    mapped_array::<T>(arrays[0])
                },
            },
            Ok(_) => match find(values, seq!["rawpagedata"@]) {
                Err(x) => Err(x),
                Ok(Some(raw)) => paged_values::<T>(values, raw, n, tuple_size),
                Ok(None) => Err(SchemaError::NotImplemented),
            },
        },
    }
}

/// Where the start of a list does not read, neither does the list.
pub proof fn lemma_mapped_all_prefix<T: AttributeScalar>(items: Seq<Value>, k: int)
    requires
        0 <= k <= items.len(),
        mapped_all::<T>(items.take(k)) is Err,
    ensures
        mapped_all::<T>(items) == mapped_all::<T>(items.take(k)),
    decreases items.len() - k,
{
    if k == items.len() {
        assert(items.take(k) =~= items);
    } else {
        assert(items.take(k + 1).drop_last() =~= items.take(k));
        lemma_mapped_all_prefix::<T>(items, k + 1);
    }
}

/// Appends the scalars that the members of a list read as.
fn map_all<T: AttributeScalar>(items: &Vec<ReaderElement>, out: &mut Vec<T>) -> (r: Result<
    (),
    SchemaError,
>)
    ensures
        match mapped_all::<T>(values_of(items@)) {
            Ok(v) => r is Ok && final(out)@ == old(out)@ + v,
            Err(x) => r is Err && r->Err_0 == x,
        },
{
    let ghost all = values_of(items@);
    let mut i: usize = 0;
    assert(all.take(0) =~= Seq::<Value>::empty());
    assert(out@ + Seq::<T>::empty() =~= out@);
    while i < items.len()
        invariant
            i <= items@.len(),
            all == values_of(items@),
            mapped_all::<T>(all.take(i as int)) is Ok,
            out@ == old(out)@ + mapped_all::<T>(all.take(i as int))->Ok_0,
        decreases items.len() - i,
    {
        proof {
            assert(all.take(i + 1).drop_last() =~= all.take(i as int));
        }
        match T::map_element(&items[i]) {
            Ok(v) => {
                out.push(v);
                assert(out@ =~= old(out)@ + mapped_all::<T>(all.take(i + 1))->Ok_0);
            },
            Err(x) => {
                proof {
                    lemma_mapped_all_prefix::<T>(all, i + 1);
                }
                return Err(x);
            },
        }
        i = i + 1;
    }
    assert(all.take(i as int) =~= all);
    Ok(())
}

/// Where the start of a list of tuples does not read, neither does the
/// list.
pub proof fn lemma_tuples_flat_prefix<T: AttributeScalar>(
    tuples: Seq<Value>,
    tuple_size: usize,
    k: int,
)
    requires
        0 <= k <= tuples.len(),
        tuples_flat::<T>(tuples.take(k), tuple_size) is Err,
    ensures
        tuples_flat::<T>(tuples, tuple_size) == tuples_flat::<T>(tuples.take(k), tuple_size),
    decreases tuples.len() - k,
{
    if k == tuples.len() {
        assert(tuples.take(k) =~= tuples);
    } else {
        assert(tuples.take(k + 1).drop_last() =~= tuples.take(k));
        lemma_tuples_flat_prefix::<T>(tuples, tuple_size, k + 1);
    }
}

/// The scalars of a list of tuples.
fn read_tuples<T: AttributeScalar>(tuples: &Vec<ReaderElement>, tuple_size: usize) -> (r: Result<
    Vec<T>,
    SchemaError,
>)
    ensures
        match tuples_flat::<T>(values_of(tuples@), tuple_size) {
            Ok(v) => r is Ok && r->Ok_0@ == v,
            Err(x) => r is Err && r->Err_0 == x,
        },
{
    let ghost all = values_of(tuples@);
    let mut out: Vec<T> = Vec::new();
    let mut i: usize = 0;
    assert(all.take(0) =~= Seq::<Value>::empty());
    while i < tuples.len()
        invariant
            i <= tuples@.len(),
            all == values_of(tuples@),
            tuples_flat::<T>(all.take(i as int), tuple_size) == Ok::<Seq<T>, SchemaError>(out@),
        decreases tuples.len() - i,
    {
        proof {
            assert(all.take(i + 1).drop_last() =~= all.take(i as int));
        }
        let outcome: Result<(), SchemaError> = match &tuples[i] {
            ReaderElement::Array(x) => {
                proof {
                    lemma_view_array(*x);
                }
                if x.len() != tuple_size {
                    Err(SchemaError::Inconsistent)
                } else {
                    map_all::<T>(x, &mut out)
                }
            },
            _ => Err(SchemaError::WrongType),
        };
        match outcome {
            Ok(_) => {},
            Err(x) => {
                proof {
                    assert(tuples_flat::<T>(all.take(i + 1), tuple_size) is Err);
                    lemma_tuples_flat_prefix::<T>(all, tuple_size, i + 1);
                }
                return Err(x);
            },
        }
        i = i + 1;
    }
    assert(all.take(i as int) =~= all);
    Ok(out)
}

/// Where the start of a list gives no widths, neither does the list.
pub proof fn lemma_width_items_prefix(items: Seq<Value>, k: int)
    requires
        0 <= k <= items.len(),
        width_items(items.take(k)) is Err,
    ensures
        width_items(items) == width_items(items.take(k)),
    decreases items.len() - k,
{
    if k == items.len() {
        assert(items.take(k) =~= items);
    } else {
        assert(items.take(k + 1).drop_last() =~= items.take(k));
        lemma_width_items_prefix(items, k + 1);
    }
}

/// The widths of the subcomponents that a value lists.
fn read_widths(v: &ReaderElement) -> (r: Result<Vec<usize>, SchemaError>)
    ensures
        match widths(v@) {
            Ok(w) => r is Ok && r->Ok_0@ == w,
            Err(x) => r is Err && r->Err_0 == x,
        },
{
    match v {
        ReaderElement::Array(items) => {
            proof {
                lemma_view_array(*items);
            }
            let ghost all = values_of(items@);
            let mut out: Vec<usize> = Vec::new();
            let mut i: usize = 0;
            assert(all.take(0) =~= Seq::<Value>::empty());
            while i < items.len()
                invariant
                    i <= items@.len(),
                    all == values_of(items@),
                    v@ == Value::Array(all),
                    width_items(all.take(i as int)) == Ok::<Seq<usize>, SchemaError>(out@),
                decreases items.len() - i,
            {
                proof {
                    assert(all.take(i + 1).drop_last() =~= all.take(i as int));
                }
                let w: Result<usize, SchemaError> = match &items[i] {
                    ReaderElement::Int(x) => natural_of(*x),
                    ReaderElement::Bool(b) => Ok(
                        if *b {
                            1
                        } else {
                            0
                        },
                    ),
                    _ => Err(SchemaError::WrongType),
                };
                match w {
                    Ok(w) => {
                        out.push(w);
                    },
                    Err(x) => {
                        proof {
                            assert(width_items(all.take(i + 1)) is Err);
                            lemma_width_items_prefix(all, i + 1);
                        }
                        return Err(x);
                    },
                }
                i = i + 1;
            }
            assert(all.take(i as int) =~= all);
            Ok(out)
        },
        _ => index_list_of(v),
    }
}

/// Where the start of a list gives no flags, neither does the list.
pub proof fn lemma_flag_items_prefix(items: Seq<Value>, k: int)
    requires
        0 <= k <= items.len(),
        flag_items(items.take(k)) is Err,
    ensures
        flag_items(items) == flag_items(items.take(k)),
    decreases items.len() - k,
{
    if k == items.len() {
        assert(items.take(k) =~= items);
    } else {
        assert(items.take(k + 1).drop_last() =~= items.take(k));
        lemma_flag_items_prefix(items, k + 1);
    }
}

/// The flags of one subcomponent.
fn read_flag_list(v: &ReaderElement) -> (r: Result<Vec<bool>, SchemaError>)
    ensures
        match flag_list(v@) {
            Ok(f) => r is Ok && r->Ok_0@ == f,
            Err(x) => r is Err && r->Err_0 == x,
        },
{
    match v {
        ReaderElement::Array(items) => {
            proof {
                lemma_view_array(*items);
            }
            let ghost all = values_of(items@);
            let mut out: Vec<bool> = Vec::new();
            let mut i: usize = 0;
            assert(all.take(0) =~= Seq::<Value>::empty());
            while i < items.len()
                invariant
                    i <= items@.len(),
                    all == values_of(items@),
                    v@ == Value::Array(all),
                    flag_items(all.take(i as int)) == Ok::<Seq<bool>, SchemaError>(out@),
                decreases items.len() - i,
            {
                proof {
                    assert(all.take(i + 1).drop_last() =~= all.take(i as int));
                }
                match &items[i] {
                    ReaderElement::Bool(b) => {
                        out.push(*b);
                    },
                    ReaderElement::Int(x) => {
                        out.push(*x != 0);
                    },
                    _ => {
                        proof {
                            assert(flag_items(all.take(i + 1)) is Err);
                            lemma_flag_items_prefix(all, i + 1);
                        }
                        return Err(SchemaError::WrongType);
                    },
                }
                i = i + 1;
            }
            assert(all.take(i as int) =~= all);
            Ok(out)
        },
        ReaderElement::UniformArray(UniformArrayType::UniformArrayTbool(f)) => Ok(f.clone()),
        _ => Err(SchemaError::WrongType),
    }
}

/// Where the start of a list gives no flag lists, neither does the list.
pub proof fn lemma_flag_lists_prefix(lists: Seq<Value>, k: int)
    requires
        0 <= k <= lists.len(),
        flag_lists(lists.take(k)) is Err,
    ensures
        flag_lists(lists) == flag_lists(lists.take(k)),
    decreases lists.len() - k,
{
    if k == lists.len() {
        assert(lists.take(k) =~= lists);
    } else {
        assert(lists.take(k + 1).drop_last() =~= lists.take(k));
        lemma_flag_lists_prefix(lists, k + 1);
    }
}

/// The flags of a list of lists of flags.
pub open spec fn flags_view(flags: Seq<Vec<bool>>) -> Seq<Seq<bool>> {
    Seq::new(flags.len(), |i: int| flags[i]@)
}

/// The flags of all subcomponents.
fn read_flag_lists(lists: &Vec<ReaderElement>) -> (r: Result<Vec<Vec<bool>>, SchemaError>)
    ensures
        match flag_lists(values_of(lists@)) {
            Ok(f) => r is Ok && flags_view(r->Ok_0@) == f,
            Err(x) => r is Err && r->Err_0 == x,
        },
{
    let ghost all = values_of(lists@);
    let mut out: Vec<Vec<bool>> = Vec::new();
    let mut i: usize = 0;
    assert(all.take(0) =~= Seq::<Value>::empty());
    assert(flags_view(out@) =~= Seq::<Seq<bool>>::empty());
    while i < lists.len()
        invariant
            i <= lists@.len(),
            all == values_of(lists@),
            flag_lists(all.take(i as int)) == Ok::<Seq<Seq<bool>>, SchemaError>(flags_view(out@)),
        decreases lists.len() - i,
    {
        proof {
            assert(all.take(i + 1).drop_last() =~= all.take(i as int));
        }
        let ghost before = flags_view(out@);
        match read_flag_list(&lists[i]) {
            Ok(f) => {
                out.push(f);
                assert(flags_view(out@) =~= before.push(f@));
            },
            Err(x) => {
                proof {
                    assert(flag_lists(all.take(i + 1)) is Err);
                    lemma_flag_lists_prefix(all, i + 1);
                }
                return Err(x);
            },
        }
        i = i + 1;
    }
    assert(all.take(i as int) =~= all);
    Ok(out)
}

/// The layout that the description of paged values gives.
fn read_layout(values: &ReaderElement) -> (r: Result<Layout, SchemaError>)
    ensures
        match page_layout(values@) {
            Ok(l) => r is Ok && r->Ok_0@ == l,
            Err(x) => r is Err && r->Err_0 == x,
        },
{
    let size_keys: Vec<&str> = vec!["size"];
    assert(crate::houdini_geo_schema::keys_of(size_keys@) =~= seq!["size"@]);
    let size: usize = match required_natural_of(values, size_keys.as_slice()) {
        Ok(x) => x,
        Err(x) => {
            return Err(x);
        },
    };
    let page_keys: Vec<&str> = vec!["pagesize"];
    assert(crate::houdini_geo_schema::keys_of(page_keys@) =~= seq!["pagesize"@]);
    let page_size: usize = match required_natural_of(values, page_keys.as_slice()) {
        Ok(x) => x,
        Err(x) => {
            return Err(x);
        },
    };
    let packing: Vec<usize> = match get_from_kv_array(values, "packing") {
        Err(x) => {
            return Err(x);
        },
        Ok(None) => {
            let one: Vec<usize> = vec![size];
            assert(one@ =~= seq![size]);
            one
        },
        Ok(Some(v)) => match read_widths(v) {
            Ok(w) => w,
            Err(x) => {
                return Err(x);
            },
        },
    };
    let flags: Vec<Vec<bool>> = match get_from_kv_array(values, "constantpageflags") {
        Err(x) => {
            return Err(x);
        },
        Ok(Some(ReaderElement::Array(lists))) => {
            proof {
                lemma_view_array(*lists);
            }
            match read_flag_lists(lists) {
                Ok(f) => f,
                Err(x) => {
                    return Err(x);
                },
            }
        },
        Ok(_) => {
            let mut none: Vec<Vec<bool>> = Vec::new();
            let mut i: usize = 0;
            while i < packing.len()
                invariant
                    i <= packing@.len(),
                    flags_view(none@) == Seq::new(i as nat, |j: int| Seq::<bool>::empty()),
                decreases packing.len() - i,
            {
                let ghost before = flags_view(none@);
                none.push(Vec::new());
                assert(flags_view(none@) =~= before.push(Seq::<bool>::empty()));
                assert(flags_view(none@) =~= Seq::new(
                    (i + 1) as nat,
                    |j: int| Seq::<bool>::empty(),
                ));
                i = i + 1;
            }
            none
        },
    };
    let layout = Layout { page_size, packing, flags };
    assert(layout@.flags =~= flags_view(layout.flags@));
    Ok(layout)
}

/// The scalars of `number_of_elements` items that a paged raw run
/// holds.
pub fn parse_rawpagedata<T: Copy + ConvertFromAll<K>, K: Copy>(
    values: &ReaderElement,
    raw_page_array: &Vec<K>,
    number_of_elements: usize,
    tuple_size: usize,
) -> (r: Result<Vec<T>, SchemaError>)
    ensures
        match paged_run::<T, K>(values@, raw_page_array@, number_of_elements, tuple_size) {
            Ok(v) => r is Ok && r->Ok_0@ == v,
            Err(x) => r is Err && r->Err_0 == x,
        },
{
    let layout: Layout = match read_layout(values) {
        Ok(l) => l,
        Err(x) => {
            return Err(x);
        },
    };
    match layout.check(number_of_elements, tuple_size, raw_page_array.len()) {
        Ok(_) => {},
        Err(x) => {
            return Err(x);
        },
    }
    Ok(unpage::<T, K>(&layout, raw_page_array, number_of_elements, tuple_size))
}

/// The scalars of `number_of_elements` items that paged values hold.
fn parse_paged<T: AttributeScalar>(
    values: &ReaderElement,
    raw: &ReaderElement,
    number_of_elements: usize,
    tuple_size: usize,
) -> (r: Result<Vec<T>, SchemaError>)
    ensures
        match paged_values::<T>(values@, raw@, number_of_elements, tuple_size) {
            Ok(v) => r is Ok && r->Ok_0@ == v,
            Err(x) => r is Err && r->Err_0 == x,
        },
{
    match raw {
        ReaderElement::UniformArray(UniformArrayType::UniformArrayTf16(vec)) => parse_rawpagedata::<
            T,
            Real32,
        >(values, vec, number_of_elements, tuple_size),
        ReaderElement::UniformArray(UniformArrayType::UniformArrayTf32(vec)) => parse_rawpagedata::<
            T,
            Real32,
        >(values, vec, number_of_elements, tuple_size),
        ReaderElement::UniformArray(UniformArrayType::UniformArrayTf64(vec)) => parse_rawpagedata::<
            T,
            Real64,
        >(values, vec, number_of_elements, tuple_size),
        ReaderElement::UniformArray(UniformArrayType::UniformArrayTi8(vec)) => parse_rawpagedata::<
            T,
            i8,
        >(values, vec, number_of_elements, tuple_size),
        ReaderElement::UniformArray(UniformArrayType::UniformArrayTi16(vec)) => parse_rawpagedata::<
            T,
            i16,
        >(values, vec, number_of_elements, tuple_size),
        ReaderElement::UniformArray(UniformArrayType::UniformArrayTi32(vec)) => parse_rawpagedata::<
            T,
            i32,
        >(values, vec, number_of_elements, tuple_size),
        ReaderElement::UniformArray(UniformArrayType::UniformArrayTi64(vec)) => parse_rawpagedata::<
            T,
            i64,
        >(values, vec, number_of_elements, tuple_size),
        ReaderElement::UniformArray(UniformArrayType::UniformArrayTu8(vec)) => parse_rawpagedata::<
            T,
            u8,
        >(values, vec, number_of_elements, tuple_size),
        ReaderElement::UniformArray(UniformArrayType::UniformArrayTu16(vec)) => parse_rawpagedata::<
            T,
            u16,
        >(values, vec, number_of_elements, tuple_size),
        _ => Err(SchemaError::WrongType),
    }
}

/// The scalars that the values of an attribute hold, as one flat run.
pub fn parse_values<T: AttributeScalar>(
    values: &ReaderElement,
    tuple_size: usize,
    number_of_elements: usize,
) -> (r: Result<Vec<T>, SchemaError>)
    ensures
        match attribute_values::<T>(values@, tuple_size, number_of_elements) {
            Ok(v) => r is Ok && r->Ok_0@ == v,
            Err(x) => r is Err && r->Err_0 == x,
        },
{
    match get_from_kv_array(values, "tuples") {
        Err(x) => {
            return Err(x);
        },
        Ok(Some(ReaderElement::Array(tuples))) => {
            proof {
                lemma_view_array(*tuples);
            }
            return read_tuples::<T>(tuples, tuple_size);
        },
        Ok(_) => {},
    }
    match get_from_kv_array(values, "arrays") {
        Err(x) => {
            return Err(x);
        },
        Ok(Some(ReaderElement::Array(arrays))) => {
            proof {
                lemma_view_array(*arrays);
            }
            let size_keys: Vec<&str> = vec!["size"];
            assert(crate::houdini_geo_schema::keys_of(size_keys@) =~= seq!["size"@]);
            let values_size: i64 = match required_int_of(values, size_keys.as_slice()) {
                Ok(x) => x,
                Err(x) => {
                    return Err(x);
                },
            };
            if values_size != 1 {
                return Err(SchemaError::NotImplemented);
            }
            if arrays.len() == 0 {
                return Err(SchemaError::Inconsistent);
            }
            match &arrays[0] {
                ReaderElement::Array(x) => {
                    proof {
                        lemma_view_array(*x);
                    }
                    let mut out: Vec<T> = Vec::new();
                    match map_all::<T>(x, &mut out) {
                        Ok(_) => {
                            assert(Seq::<T>::empty() + mapped_all::<T>(values_of(x@))->Ok_0
                                =~= mapped_all::<T>(values_of(x@))->Ok_0);
                            return Ok(out);
                        },
                        Err(e) => {
                            return Err(e);
                        },
                    }
                },
                _ => {
                    return Err(SchemaError::WrongType);
                },
            }
        },
        Ok(_) => {},
    }
    match get_from_kv_array(values, "rawpagedata") {
        Err(x) => Err(x),
        Ok(Some(raw)) => parse_paged::<T>(values, raw, number_of_elements, tuple_size),
        Ok(None) => Err(SchemaError::NotImplemented),
    }
}

/// An attribute under its name.
pub struct NamedAttribute {
    pub name: String,
    pub attribute: GeoAttributeKind,
}

/// The models of a list of attributes under their names.
pub open spec fn attributes_view(attributes: Seq<NamedAttribute>) -> Seq<
    (Seq<char>, AttributeModel),
> {
    Seq::new(attributes.len(), |i: int| (attributes[i].name@, attributes[i].attribute@))
}

/// The texts of a list of values, each of which must be a string.
pub open spec fn texts_all(items: Seq<Value>) -> Result<Seq<Seq<char>>, SchemaError>
    decreases items.len(),
{
    if items.len() == 0 {
        Ok(Seq::empty())
    } else {
        match texts_all(items.drop_last()) {
            Err(x) => Err(x),
            Ok(head) => match items.last() {
                Value::Text(t) => Ok(head.push(t)),
                _ => Err(SchemaError::WrongType),
            },
        }
    }
}

/// The values of an attribute: what stands under `values` or, where
/// that key is not there, under `indices`.
pub open spec fn values_block(payload: Value) -> Result<Value, SchemaError> {
    match find(payload, seq!["values"@]) {
        Err(x) => Err(x),
        Ok(Some(v)) => Ok(v),
        Ok(None) => match find(payload, seq!["indices"@]) {
            Err(x) => Err(x),
            Ok(Some(v)) => Ok(v),
            Ok(None) => Err(SchemaError::MissingKey),
        },
    }
}

/// A numeric attribute of `n` items: tuples of the size under `size`,
/// of reals where the storage under `storage` starts with `fpreal`, of
/// integers where it starts with `int`; nothing for any other storage.
pub open spec fn numeric_attribute(values: Value, n: usize) -> Result<
    Option<AttributeModel>,
    SchemaError,
> {
    match required_natural(values, seq!["size"@]) {
        Err(x) => Err(x),
        Ok(size) => match required_text(values, seq!["storage"@]) {
            Err(x) => Err(x),
            Ok(storage) => if "fpreal"@.is_prefix_of(storage) {
                match attribute_values::<Real64>(values, size, n) {
                    Err(x) => Err(x),
                    Ok(reals) => Ok(Some(AttributeModel::Reals { tuple_size: size, reals })),
                }
            } else if "int"@.is_prefix_of(storage) {
                match attribute_values::<i64>(values, size, n) {
                    Err(x) => Err(x),
                    Ok(ints) => Ok(Some(AttributeModel::Ints { tuple_size: size, ints })),
                }
            } else {
                Ok(None)
            },
        },
    }
}

/// A string attribute of `n` items: the strings under `strings`, and
/// for each item the place of its string.
pub open spec fn string_attribute(payload: Value, values: Value, n: usize) -> Result<
    Option<AttributeModel>,
    SchemaError,
> {
    match find(payload, seq!["strings"@]) {
        Err(x) => Err(x),
        Ok(None) => Err(SchemaError::MissingKey),
        Ok(Some(Value::Array(strings))) => match texts_all(strings) {
            Err(x) => Err(x),
            Ok(tokens) => match attribute_values::<usize>(values, 1, n) {
                Err(x) => Err(x),
                Ok(places) => Ok(Some(AttributeModel::Tokens { tokens, places })),
            },
        },
        Ok(Some(_)) => Err(SchemaError::WrongType),
    }
}

/// The attribute that one block holds, under its name. A block is a
/// pair of a description, with `name` and `type`, and a payload; one
/// that is no pair holds nothing, nor does one of a type other than
/// `numeric` and `string`.
pub open spec fn attribute_block(block: Value, n: usize) -> Result<
    Option<(Seq<char>, AttributeModel)>,
    SchemaError,
> {
    match block {
        Value::Array(parts) => if parts.len() != 2 {
            Ok(None)
        } else {
            match required_text(parts[0], seq!["name"@]) {
                Err(x) => Err(x),
                Ok(name) => match required_text(parts[0], seq!["type"@]) {
                    Err(x) => Err(x),
                    Ok(kind) => match values_block(parts[1]) {
                        Err(x) => Err(x),
                        Ok(values) => match (if kind == "numeric"@ {
                            numeric_attribute(values, n)
                        } else if kind == "string"@ {
                            string_attribute(parts[1], values, n)
                        } else {
                            Ok(None)
                        }) {
                            Err(x) => Err(x),
                            Ok(None) => Ok(None),
                            Ok(Some(a)) => Ok(Some((name, a))),
                        },
                    },
                },
            }
        },
        _ => Ok(None),
    }
}

/// The attributes of the blocks from place `from` on, added to `acc`. A
/// name that occurred before gets the later attribute.
pub open spec fn attribute_blocks(
    blocks: Seq<Value>,
    from: int,
    n: usize,
    acc: Seq<(Seq<char>, AttributeModel)>,
) -> Result<Seq<(Seq<char>, AttributeModel)>, SchemaError>
    decreases blocks.len() - from,
{
    if from < 0 || from >= blocks.len() {
        Ok(acc)
    } else {
        match attribute_block(blocks[from], n) {
            Err(x) => Err(x),
            Ok(None) => attribute_blocks(blocks, from + 1, n, acc),
            Ok(Some(a)) => attribute_blocks(blocks, from + 1, n, object_insert(acc, a.0, a.1)),
        }
    }
}

/// The attributes of one kind of element: those of the blocks under
/// `attributes` and `attrib_key`, for as many items as stand under
/// `count_key`. Where there is no array under `attrib_key`, there are
/// no attributes.
pub open spec fn attributes_of(root: Value, attrib_key: Seq<char>, count_key: Seq<char>) -> Result<
    Seq<(Seq<char>, AttributeModel)>,
    SchemaError,
> {
    match required_natural(root, seq![count_key]) {
        Err(x) => Err(x),
        Ok(n) => match find(root, seq!["attributes"@]) {
            Err(x) => Err(x),
            Ok(None) => Err(SchemaError::MissingKey),
            Ok(Some(attributes)) => match find(attributes, seq![attrib_key]) {
                Err(x) => Err(x),
                Ok(Some(Value::Array(blocks))) => attribute_blocks(blocks, 0, n, Seq::empty()),
                Ok(_) => Ok(Seq::empty()),
            },
        },
    }
}

/// Where the start of a list holds something that is no string, so
/// does the list.
pub proof fn lemma_texts_all_prefix(items: Seq<Value>, k: int)
    requires
        0 <= k <= items.len(),
        texts_all(items.take(k)) is Err,
    ensures
        texts_all(items) == texts_all(items.take(k)),
    decreases items.len() - k,
{
    if k == items.len() {
        assert(items.take(k) =~= items);
    } else {
        assert(items.take(k + 1).drop_last() =~= items.take(k));
        lemma_texts_all_prefix(items, k + 1);
    }
}

/// The texts of a list of strings.
pub open spec fn strings_view(strings: Seq<String>) -> Seq<Seq<char>> {
    Seq::new(strings.len(), |i: int| strings[i]@)
}

/// The strings of a list of values.
fn read_texts(items: &Vec<ReaderElement>) -> (r: Result<Vec<String>, SchemaError>)
    ensures
        match texts_all(values_of(items@)) {
            Ok(t) => r is Ok && strings_view(r->Ok_0@) == t,
            Err(x) => r is Err && r->Err_0 == x,
        },
{
    let ghost all = values_of(items@);
    let mut out: Vec<String> = Vec::new();
    let mut i: usize = 0;
    assert(all.take(0) =~= Seq::<Value>::empty());
    assert(strings_view(out@) =~= Seq::<Seq<char>>::empty());
    while i < items.len()
        invariant
            i <= items@.len(),
            all == values_of(items@),
            texts_all(all.take(i as int)) == Ok::<Seq<Seq<char>>, SchemaError>(
                strings_view(out@),
            ),
        decreases items.len() - i,
    {
        proof {
            assert(all.take(i + 1).drop_last() =~= all.take(i as int));
        }
        let ghost before = strings_view(out@);
        match &items[i] {
            ReaderElement::Text(s) => {
                out.push(s.clone());
                assert(strings_view(out@) =~= before.push(s@));
            },
            _ => {
                proof {
                    assert(texts_all(all.take(i + 1)) is Err);
                    lemma_texts_all_prefix(all, i + 1);
                }
                return Err(SchemaError::WrongType);
            },
        }
        i = i + 1;
    }
    assert(all.take(i as int) =~= all);
    Ok(out)
}

/// The values of an attribute.
fn read_values_block<'a>(payload: &'a ReaderElement) -> (r: Result<&'a ReaderElement, SchemaError>)
    ensures
        match values_block(payload@) {
            Ok(v) => r is Ok && r->Ok_0@ == v,
            Err(x) => r is Err && r->Err_0 == x,
        },
{
    match get_from_kv_array(payload, "values") {
        Err(x) => Err(x),
        Ok(Some(v)) => Ok(v),
        Ok(None) => match get_from_kv_array(payload, "indices") {
            Err(x) => Err(x),
            Ok(Some(v)) => Ok(v),
            Ok(None) => Err(SchemaError::MissingKey),
        },
    }
}

/// A numeric attribute.
fn read_numeric(values: &ReaderElement, elem_count: usize) -> (r: Result<
    Option<GeoAttributeKind>,
    SchemaError,
>)
    ensures
        match numeric_attribute(values@, elem_count) {
            Ok(Some(a)) => r is Ok && r->Ok_0 is Some && r->Ok_0->0@ == a,
            Ok(None) => r is Ok && r->Ok_0 is None,
            Err(x) => r is Err && r->Err_0 == x,
        },
{
    let size_keys: Vec<&str> = vec!["size"];
    assert(crate::houdini_geo_schema::keys_of(size_keys@) =~= seq!["size"@]);
    let size: usize = match required_natural_of(values, size_keys.as_slice()) {
        Ok(x) => x,
        Err(x) => {
            return Err(x);
        },
    };
    let storage_keys: Vec<&str> = vec!["storage"];
    assert(crate::houdini_geo_schema::keys_of(storage_keys@) =~= seq!["storage"@]);
    let storage: &String = match required_text_of(values, storage_keys.as_slice()) {
        Ok(x) => x,
        Err(x) => {
            return Err(x);
        },
    };
    if has_prefix(storage.as_str(), "fpreal") {
        match parse_values::<Real64>(values, size, elem_count) {
            Ok(data) => Ok(Some(GeoAttributeKind::Float64(TupleGeoAttribute::new(size, data)))),
            Err(x) => Err(x),
        }
    } else if has_prefix(storage.as_str(), "int") {
        match parse_values::<i64>(values, size, elem_count) {
            Ok(data) => Ok(Some(GeoAttributeKind::Int64(TupleGeoAttribute::new(size, data)))),
            Err(x) => Err(x),
        }
    } else {
        Ok(None)
    }
}

/// A string attribute.
fn read_strings(payload: &ReaderElement, values: &ReaderElement, elem_count: usize) -> (r: Result<
    Option<GeoAttributeKind>,
    SchemaError,
>)
    ensures
        match string_attribute(payload@, values@, elem_count) {
            Ok(Some(a)) => r is Ok && r->Ok_0 is Some && r->Ok_0->0@ == a,
            Ok(None) => r is Ok && r->Ok_0 is None,
            Err(x) => r is Err && r->Err_0 == x,
        },
{
    let strings: &Vec<ReaderElement> = match get_from_kv_array(payload, "strings") {
        Err(x) => {
            return Err(x);
        },
        Ok(None) => {
            return Err(SchemaError::MissingKey);
        },
        Ok(Some(ReaderElement::Array(x))) => x,
        Ok(Some(_)) => {
            return Err(SchemaError::WrongType);
        },
    };
    proof {
        lemma_view_array(*strings);
    }
    let tokens: Vec<String> = match read_texts(strings) {
        Ok(t) => t,
        Err(x) => {
            return Err(x);
        },
    };
    match parse_values::<usize>(values, 1, elem_count) {
        Ok(data) => Ok(Some(GeoAttributeKind::String(TokenGeoAttribute::new(tokens, data)))),
        Err(x) => Err(x),
    }
}

/// The attribute that one block holds, under its name.
fn read_attribute_block(block: &ReaderElement, elem_count: usize) -> (r: Result<
    Option<NamedAttribute>,
    SchemaError,
>)
    ensures
        match attribute_block(block@, elem_count) {
            Ok(Some(a)) => r is Ok && r->Ok_0 is Some && r->Ok_0->0.name@ == a.0
                && r->Ok_0->0.attribute@ == a.1,
            Ok(None) => r is Ok && r->Ok_0 is None,
            Err(x) => r is Err && r->Err_0 == x,
        },
{
    let parts: &Vec<ReaderElement> = match block {
        ReaderElement::Array(x) => x,
        _ => {
            return Ok(None);
        },
    };
    proof {
        lemma_view_array(*parts);
    }
    if parts.len() != 2 {
        return Ok(None);
    }
    let name_keys: Vec<&str> = vec!["name"];
    assert(crate::houdini_geo_schema::keys_of(name_keys@) =~= seq!["name"@]);
    let attrib_name: &String = match required_text_of(&parts[0], name_keys.as_slice()) {
        Ok(x) => x,
        Err(x) => {
            return Err(x);
        },
    };
    let type_keys: Vec<&str> = vec!["type"];
    assert(crate::houdini_geo_schema::keys_of(type_keys@) =~= seq!["type"@]);
    let attrib_type: &String = match required_text_of(&parts[0], type_keys.as_slice()) {
        Ok(x) => x,
        Err(x) => {
            return Err(x);
        },
    };
    let values: &ReaderElement = match read_values_block(&parts[1]) {
        Ok(x) => x,
        Err(x) => {
            return Err(x);
        },
    };
    let attribute: Option<GeoAttributeKind> = if same_text(attrib_type.as_str(), "numeric") {
        match read_numeric(values, elem_count) {
            Ok(a) => a,
            Err(x) => {
                return Err(x);
            },
        }
    } else if same_text(attrib_type.as_str(), "string") {
        match read_strings(&parts[1], values, elem_count) {
            Ok(a) => a,
            Err(x) => {
                return Err(x);
            },
        }
    } else {
        None
    };
    match attribute {
        Some(a) => Ok(Some(NamedAttribute { name: attrib_name.clone(), attribute: a })),
        None => Ok(None),
    }
}

/// The place of the attribute with the name `name`, if there is one.
pub fn find_attribute(attributes: &Vec<NamedAttribute>, name: &str) -> (r: Option<usize>)
    ensures
        match r {
            Some(i) => i == key_position(attributes_view(attributes@), name@) && i
                < attributes@.len(),
            None => key_position(attributes_view(attributes@), name@) == attributes@.len(),
        },
{
    let ghost all = attributes_view(attributes@);
    let mut i: usize = 0;
    assert(all.skip(0) =~= all);
    while i < attributes.len()
        invariant
            i <= attributes@.len(),
            all == attributes_view(attributes@),
            key_position(all, name@) == i + key_position(all.skip(i as int), name@),
        decreases attributes.len() - i,
    {
        proof {
            let rest = all.skip(i as int);
            assert(rest[0] == all[i as int]);
            assert(rest.drop_first() =~= all.skip(i + 1));
        }
        if same_text(attributes[i].name.as_str(), name) {
            return Some(i);
        }
        i = i + 1;
    }
    proof {
        assert(all.skip(i as int) =~= Seq::<(Seq<char>, AttributeModel)>::empty());
    }
    None
}

/// Puts an attribute under its name: in place of the one that has the
/// name, else at the end.
fn insert_attribute(attributes: &mut Vec<NamedAttribute>, attribute: NamedAttribute)
    ensures
        attributes_view(final(attributes)@) == object_insert(
            attributes_view(old(attributes)@),
            attribute.name@,
            attribute.attribute@,
        ),
{
    match find_attribute(attributes, attribute.name.as_str()) {
        Some(i) => {
            attributes.set(i, attribute);
        },
        None => {
            attributes.push(attribute);
        },
    }
    assert(attributes_view(attributes@) =~= object_insert(
        attributes_view(old(attributes)@),
        attribute.name@,
        attribute.attribute@,
    ));
}

/// The attributes of one kind of element.
pub fn parse_attributes(structure: &ReaderElement, attrib_key: &str, elem_count_key: &str) -> (r:
    Result<Vec<NamedAttribute>, SchemaError>)
    ensures
        match attributes_of(structure@, attrib_key@, elem_count_key@) {
            Ok(a) => r is Ok && attributes_view(r->Ok_0@) == a,
            Err(x) => r is Err && r->Err_0 == x,
        },
{
    let mut attribute_map: Vec<NamedAttribute> = Vec::new();
    assert(attributes_view(attribute_map@) =~= Seq::<(Seq<char>, AttributeModel)>::empty());
    let count_keys: Vec<&str> = vec![elem_count_key];
    assert(crate::houdini_geo_schema::keys_of(count_keys@) =~= seq![elem_count_key@]);
    let elem_count: usize = match required_natural_of(structure, count_keys.as_slice()) {
        Ok(x) => x,
        Err(x) => {
            return Err(x);
        },
    };
    let attributes: &ReaderElement = match get_from_kv_array(structure, "attributes") {
        Err(x) => {
            return Err(x);
        },
        Ok(None) => {
            return Err(SchemaError::MissingKey);
        },
        Ok(Some(x)) => x,
    };
    let elem_attributes: &Vec<ReaderElement> = match get_from_kv_array(attributes, attrib_key) {
        Err(x) => {
            return Err(x);
        },
        Ok(Some(ReaderElement::Array(x))) => x,
        Ok(_) => {
            return Ok(attribute_map);
        },
    };
    proof {
        lemma_view_array(*elem_attributes);
    }
    let ghost blocks = values_of(elem_attributes@);
    let mut i: usize = 0;
    while i < elem_attributes.len()
        invariant
            i <= elem_attributes@.len(),
            blocks == values_of(elem_attributes@),
            attributes_of(structure@, attrib_key@, elem_count_key@) == attribute_blocks(
                blocks,
                i as int,
                elem_count,
                attributes_view(attribute_map@),
            ),
        decreases elem_attributes.len() - i,
    {
        match read_attribute_block(&elem_attributes[i], elem_count) {
            Err(x) => {
                return Err(x);
            },
            Ok(None) => {},
            Ok(Some(a)) => {
                insert_attribute(&mut attribute_map, a);
            },
        }
        i = i + 1;
    }
    Ok(attribute_map)
}

} // verus!
